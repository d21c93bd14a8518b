//! Character-level utilities shared by the line-pair and error-line parsers:
//! whitespace trimming, scanning for a character class, and digit runs.
//!
//! Trimming removes ASCII whitespace (space, tab, carriage return, newline,
//! vertical tab, form feed) from both ends of a line.

use vstd::prelude::*;

verus! {

/// ASCII whitespace, the class removed by trimming.
pub open spec fn is_ws_char(c: char) -> bool {
    c == ' ' || c == '\t' || c == '\r' || c == '\n' || c == '\u{b}' || c == '\u{c}'
}

/// ASCII decimal digit.
pub open spec fn is_digit_char(c: char) -> bool {
    48 <= c as u32 && c as u32 <= 57
}

/// Word character: ASCII letter, digit or underscore.
pub open spec fn is_word_char(c: char) -> bool {
    (65 <= c as u32 && c as u32 <= 90) || (97 <= c as u32 && c as u32 <= 122)
        || is_digit_char(c) || c == '_'
}

/// Numeric value of one digit character.
pub open spec fn digit_val(c: char) -> nat {
    (c as u32 - 48) as nat
}

/// Value of a run of digit characters, most significant first.
pub open spec fn digits_val(l: Seq<char>) -> nat
    decreases l.len(),
{
    if l.len() == 0 {
        0
    } else {
        digits_val(l.drop_last()) * 10 + digit_val(l.last())
    }
}

/// Index of the first occurrence of `c` at or after `i`, or `l.len()`.
pub open spec fn cfind_from(l: Seq<char>, c: char, i: nat) -> int
    decreases l.len() - i,
{
    if i >= l.len() {
        l.len() as int
    } else if l[i as int] == c {
        i as int
    } else {
        cfind_from(l, c, i + 1)
    }
}

/// `cfind_from` finds the first occurrence.
pub proof fn lemma_cfind_from(l: Seq<char>, c: char, i: nat, k: int)
    requires
        i <= k <= l.len(),
        forall|j: int| i <= j < k ==> l[j] != c,
        k < l.len() ==> l[k] == c,
    ensures
        cfind_from(l, c, i) == k,
    decreases k - i,
{
    if (i as int) < k {
        lemma_cfind_from(l, c, i + 1, k);
    }
}

/// What holds of the result of `cfind_from`.
pub proof fn lemma_cfind_from_props(l: Seq<char>, c: char, i: nat)
    requires
        i <= l.len(),
    ensures
        i <= cfind_from(l, c, i) <= l.len(),
        forall|j: int| i <= j < cfind_from(l, c, i) ==> l[j] != c,
        cfind_from(l, c, i) < l.len() ==> l[cfind_from(l, c, i)] == c,
    decreases l.len() - i,
{
    if i < l.len() && l[i as int] != c {
        lemma_cfind_from_props(l, c, i + 1);
    }
}

/// Index of the first non-digit at or after `i`, or `l.len()`.
pub open spec fn digit_end_from(l: Seq<char>, i: nat) -> int
    decreases l.len() - i,
{
    if i >= l.len() {
        l.len() as int
    } else if !is_digit_char(l[i as int]) {
        i as int
    } else {
        digit_end_from(l, i + 1)
    }
}

/// `digit_end_from` ends the digit run.
pub proof fn lemma_digit_end_from(l: Seq<char>, i: nat, k: int)
    requires
        i <= k <= l.len(),
        forall|j: int| i <= j < k ==> is_digit_char(l[j]),
        k < l.len() ==> !is_digit_char(l[k]),
    ensures
        digit_end_from(l, i) == k,
    decreases k - i,
{
    if (i as int) < k {
        lemma_digit_end_from(l, i + 1, k);
    }
}

/// Index of the first non-word character at or after `i`, or `l.len()`.
pub open spec fn word_end_from(l: Seq<char>, i: nat) -> int
    decreases l.len() - i,
{
    if i >= l.len() {
        l.len() as int
    } else if !is_word_char(l[i as int]) {
        i as int
    } else {
        word_end_from(l, i + 1)
    }
}

/// `word_end_from` ends the word run.
pub proof fn lemma_word_end_from(l: Seq<char>, i: nat, k: int)
    requires
        i <= k <= l.len(),
        forall|j: int| i <= j < k ==> is_word_char(l[j]),
        k < l.len() ==> !is_word_char(l[k]),
    ensures
        word_end_from(l, i) == k,
    decreases k - i,
{
    if (i as int) < k {
        lemma_word_end_from(l, i + 1, k);
    }
}

/// Finds the first occurrence of `c` in the window `[start, end)` of `cs`,
/// reported as an absolute index; `end` means no occurrence.
pub fn find_char_range(cs: &Vec<char>, c: char, start: usize, end: usize) -> (r: usize)
    requires
        start <= end <= cs@.len(),
    ensures
        start <= r <= end,
        r - start == cfind_from(cs@.subrange(start as int, end as int), c, 0),
        r < end ==> cs@[r as int] == c,
        forall|j: int| start <= j < r ==> cs@[j] != c,
{
    let ghost l = cs@.subrange(start as int, end as int);
    let mut j: usize = start;
    while j < end
        invariant
            start <= j <= end <= cs@.len(),
            l == cs@.subrange(start as int, end as int),
            forall|q: int| start <= q < j ==> cs@[q] != c,
        decreases end - j,
    {
        if cs[j] == c {
            proof {
                lemma_cfind_from(l, c, 0, j - start);
            }
            return j;
        }
        j += 1;
    }
    proof {
        lemma_cfind_from(l, c, 0, l.len() as int);
    }
    end
}

/// Finds the end of the digit run starting at `start` (absolute index).
pub fn scan_digit_end(cs: &Vec<char>, start: usize) -> (r: usize)
    requires
        start <= cs@.len(),
    ensures
        start <= r <= cs@.len(),
        r == digit_end_from(cs@, start as nat),
        forall|j: int| start <= j < r ==> is_digit_char(cs@[j]),
        r < cs@.len() ==> !is_digit_char(cs@[r as int]),
{
    let n = cs.len();
    let mut j: usize = start;
    while j < n
        invariant
            start <= j <= n == cs@.len(),
            forall|q: int| start <= q < j ==> is_digit_char(cs@[q]),
        decreases n - j,
    {
        if !is_digit(cs[j]) {
            proof {
                lemma_digit_end_from(cs@, start as nat, j as int);
            }
            return j;
        }
        j += 1;
    }
    proof {
        lemma_digit_end_from(cs@, start as nat, n as int);
    }
    n
}

/// Finds the end of the word-character run starting at `start`.
pub fn scan_word_end(cs: &Vec<char>, start: usize) -> (r: usize)
    requires
        start <= cs@.len(),
    ensures
        start <= r <= cs@.len(),
        r == word_end_from(cs@, start as nat),
        forall|j: int| start <= j < r ==> is_word_char(cs@[j]),
        r < cs@.len() ==> !is_word_char(cs@[r as int]),
{
    let n = cs.len();
    let mut j: usize = start;
    while j < n
        invariant
            start <= j <= n == cs@.len(),
            forall|q: int| start <= q < j ==> is_word_char(cs@[q]),
        decreases n - j,
    {
        if !is_word(cs[j]) {
            proof {
                lemma_word_end_from(cs@, start as nat, j as int);
            }
            return j;
        }
        j += 1;
    }
    proof {
        lemma_word_end_from(cs@, start as nat, n as int);
    }
    n
}

/// The line with leading whitespace removed.
pub open spec fn trim_start_spec(l: Seq<char>) -> Seq<char>
    decreases l.len(),
{
    if l.len() > 0 && is_ws_char(l[0]) {
        trim_start_spec(l.drop_first())
    } else {
        l
    }
}

/// The line with trailing whitespace removed.
pub open spec fn trim_end_spec(l: Seq<char>) -> Seq<char>
    decreases l.len(),
{
    if l.len() > 0 && is_ws_char(l.last()) {
        trim_end_spec(l.drop_last())
    } else {
        l
    }
}

/// The line with surrounding whitespace removed.
pub open spec fn trim_spec(l: Seq<char>) -> Seq<char> {
    trim_end_spec(trim_start_spec(l))
}

proof fn lemma_trim_start_skip(l: Seq<char>, k: nat)
    requires
        k <= l.len(),
        forall|j: int| 0 <= j < k ==> is_ws_char(l[j]),
    ensures
        trim_start_spec(l) == trim_start_spec(l.subrange(k as int, l.len() as int)),
    decreases k,
{
    if k > 0 {
        let l1 = l.drop_first();
        assert(l1 =~= l.subrange(1, l.len() as int));
        lemma_trim_start_skip(l1, (k - 1) as nat);
        assert(l1.subrange(k - 1, l1.len() as int) =~= l.subrange(k as int, l.len() as int));
    } else {
        assert(l.subrange(0, l.len() as int) =~= l);
    }
}

proof fn lemma_trim_end_skip(l: Seq<char>, m: nat)
    requires
        m <= l.len(),
        forall|j: int| m <= j < l.len() ==> is_ws_char(l[j]),
    ensures
        trim_end_spec(l) == trim_end_spec(l.subrange(0, m as int)),
    decreases l.len() - m,
{
    if m < l.len() {
        let l1 = l.drop_last();
        assert(l1 =~= l.subrange(0, l.len() - 1));
        lemma_trim_end_skip(l1, m);
        assert(l1.subrange(0, m as int) =~= l.subrange(0, m as int));
    } else {
        assert(l.subrange(0, l.len() as int) =~= l);
    }
}

/// Whether `c` is ASCII whitespace.
pub fn is_ws(c: char) -> (r: bool)
    ensures
        r == is_ws_char(c),
{
    c == ' ' || c == '\t' || c == '\r' || c == '\n' || c == '\u{b}' || c == '\u{c}'
}

/// Whether `c` is an ASCII decimal digit.
pub fn is_digit(c: char) -> (r: bool)
    ensures
        r == is_digit_char(c),
{
    let u = c as u32;
    48 <= u && u <= 57
}

/// Whether `c` is a word character.
pub fn is_word(c: char) -> (r: bool)
    ensures
        r == is_word_char(c),
{
    let u = c as u32;
    (65 <= u && u <= 90) || (97 <= u && u <= 122) || (48 <= u && u <= 57) || c == '_'
}

/// Removes surrounding whitespace from the window `[start, end)` of `cs`,
/// returning the trimmed window.
pub fn trim_range(cs: &Vec<char>, start: usize, end: usize) -> (r: (usize, usize))
    requires
        start <= end <= cs@.len(),
    ensures
        start <= r.0 <= r.1 <= end,
        cs@.subrange(r.0 as int, r.1 as int) == trim_spec(
            cs@.subrange(start as int, end as int),
        ),
{
    let ghost l = cs@.subrange(start as int, end as int);
    let mut a: usize = start;
    while a < end && is_ws(cs[a])
        invariant
            start <= a <= end <= cs@.len(),
            forall|j: int| start <= j < a ==> is_ws_char(cs@[j]),
        decreases end - a,
    {
        a += 1;
    }
    let mut b: usize = end;
    while b > a && is_ws(cs[b - 1])
        invariant
            start <= a <= b <= end <= cs@.len(),
            forall|j: int| b <= j < end ==> is_ws_char(cs@[j]),
        decreases b,
    {
        b -= 1;
    }
    proof {
        lemma_trim_start_skip(l, (a - start) as nat);
        let l1 = cs@.subrange(a as int, end as int);
        assert(l.subrange(a - start, l.len() as int) =~= l1);
        // after the leading skip, the first element (if any) is not whitespace
        assert(trim_start_spec(l1) == l1) by {
            if l1.len() > 0 {
                assert(l1[0] == cs@[a as int]);
            }
        }
        lemma_trim_end_skip(l1, (b - a) as nat);
        let l2 = cs@.subrange(a as int, b as int);
        assert(l1.subrange(0, b - a) =~= l2);
        assert(trim_end_spec(l2) == l2) by {
            if l2.len() > 0 {
                assert(l2.last() == cs@[b - 1]);
            }
        }
    }
    (a, b)
}

/// Parses the digit run in the window `[start, end)` of `cs` as a `u64`,
/// reporting `None` exactly when the value does not fit.
pub fn parse_u64_digits(cs: &Vec<char>, start: usize, end: usize) -> (r: Option<u64>)
    requires
        start <= end <= cs@.len(),
        forall|j: int| start <= j < end ==> is_digit_char(cs@[j]),
    ensures
        ({
            let dv = digits_val(cs@.subrange(start as int, end as int));
            match r {
                Some(v) => v == dv,
                None => dv > u64::MAX,
            }
        }),
{
    let mut val: u64 = 0;
    let mut i: usize = start;
    while i < end
        invariant
            start <= i <= end <= cs@.len(),
            forall|j: int| start <= j < end ==> is_digit_char(cs@[j]),
            val == digits_val(cs@.subrange(start as int, i as int)),
        decreases end - i,
    {
        let ghost pre = cs@.subrange(start as int, i as int);
        let ghost cur = cs@.subrange(start as int, i + 1);
        proof {
            assert(cur.drop_last() =~= pre);
            assert(cur.last() == cs@[i as int]);
        }
        let u = cs[i] as u32;
        let d: u64 = (u - 48) as u64;
        if val > 1844674407370955161u64 || (val == 1844674407370955161u64 && d > 5) {
            proof {
                lemma_digits_val_monotone(cs@, start as int, i + 1, end as int);
            }
            return None;
        }
        val = val * 10 + d;
        i += 1;
    }
    Some(val)
}

/// A longer digit run never has a smaller value.
proof fn lemma_digits_val_monotone(cs: Seq<char>, start: int, mid: int, end: int)
    requires
        0 <= start <= mid <= end <= cs.len(),
    ensures
        digits_val(cs.subrange(start, mid)) <= digits_val(cs.subrange(start, end)),
    decreases end - mid,
{
    if mid < end {
        lemma_digits_val_monotone(cs, start, mid + 1, end);
        let a = cs.subrange(start, mid);
        let b = cs.subrange(start, mid + 1);
        assert(b.drop_last() =~= a);
        assert(digits_val(a) <= digits_val(b));
    } else {
        assert(cs.subrange(start, mid) =~= cs.subrange(start, end));
    }
}

/// Relies on `str::from_utf8` and `str::to_owned`: conversion succeeds
/// exactly on valid UTF-8 and yields the decoded characters.
#[verifier::external_body]
pub(crate) fn utf8_to_string(v: &Vec<u8>) -> (r: Option<String>)
    ensures
        r is Some <==> vstd::utf8::valid_utf8(v@),
        r matches Some(s) ==> s@ == vstd::utf8::decode_utf8(v@),
{
    match core::str::from_utf8(v.as_slice()) {
        Ok(s) => Some(s.to_owned()),
        Err(_) => None,
    }
}

/// Relies on `str::chars`: yields the characters of the string in order.
#[verifier::external_body]
pub(crate) fn string_to_chars(s: &String) -> (r: Vec<char>)
    ensures
        r@ == s@,
{
    s.chars().collect()
}

/// Relies on `FromIterator<char> for String`: builds the string holding
/// exactly the characters of the window `[start, end)` of `cs`.
#[verifier::external_body]
pub(crate) fn chars_to_string(cs: &Vec<char>, start: usize, end: usize) -> (r: String)
    requires
        start <= end <= cs@.len(),
    ensures
        r@ == cs@.subrange(start as int, end as int),
{
    cs[start..end].iter().collect()
}

} // verus!
