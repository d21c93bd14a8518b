//! The line-pair parser: turns the raw bytes of one completed non-error
//! message body into an ordered sequence of `(key, value)` pairs.
//!
//! The body is split on newlines; every non-empty line must hold a `:` after
//! trimming, with at least one character after the `:`. The key is the text
//! before the first `:` of the trimmed line, the value the trimmed text
//! after it. Duplicate keys are permitted and line order is preserved.

use vstd::prelude::*;

use crate::response::{pairs_view, MpdCodecError};
use crate::text::{
    cfind_from, chars_to_string, find_char_range, string_to_chars, trim_range, trim_spec,
    utf8_to_string,
};

verus! {

/// What one non-empty line contributes: `None` if it is malformed,
/// otherwise its `(key, value)` pair.
pub open spec fn parse_line_spec(line: Seq<char>) -> Option<(Seq<char>, Seq<char>)> {
    let t = trim_spec(line);
    let ci = cfind_from(t, ':', 0);
    if ci >= t.len() {
        None
    } else if ci == t.len() - 1 {
        None
    } else {
        Some((t.subrange(0, ci), trim_spec(t.subrange(ci + 1, t.len() as int))))
    }
}

/// The pairs contributed by the lines of `t` from position `i` on, or
/// `None` if some non-empty line is malformed. Empty lines are skipped.
pub open spec fn parse_fields_from(t: Seq<char>, i: nat) -> Option<Seq<(Seq<char>, Seq<char>)>>
    decreases t.len() - i,
    via parse_fields_from_dec
{
    if i >= t.len() {
        Some(Seq::empty())
    } else {
        let e = cfind_from(t, '\n', i);
        let line = t.subrange(i as int, e);
        let next = if e < t.len() {
            (e + 1) as nat
        } else {
            e as nat
        };
        let rest = parse_fields_from(t, next);
        if line.len() == 0 {
            rest
        } else {
            match parse_line_spec(line) {
                None => None,
                Some(kv) => match rest {
                    None => None,
                    Some(rs) => Some(seq![kv] + rs),
                },
            }
        }
    }
}

#[via_fn]
proof fn parse_fields_from_dec(t: Seq<char>, i: nat) {
    if i < t.len() {
        crate::text::lemma_cfind_from_props(t, '\n', i);
    }
}

/// The complete contract of the line-pair parser on a message body.
pub open spec fn fields_parse_post(
    body: Seq<u8>,
    r: Result<Vec<(String, String)>, MpdCodecError>,
) -> bool {
    if !vstd::utf8::valid_utf8(body) {
        r matches Err(MpdCodecError::InvalidEncoding)
    } else {
        match parse_fields_from(vstd::utf8::decode_utf8(body), 0) {
            None => r matches Err(MpdCodecError::InvalidKeyValueSequence),
            Some(kvs) => r matches Ok(v) && pairs_view(v@) == kvs,
        }
    }
}

/// Whether processing the lines from `i` with pairs `acc` already emitted
/// agrees with processing the whole body.
spec fn fields_decomp(t: Seq<char>, i: nat, acc: Seq<(Seq<char>, Seq<char>)>) -> bool {
    match parse_fields_from(t, i) {
        None => parse_fields_from(t, 0) is None,
        Some(rest) => parse_fields_from(t, 0) == Some(acc + rest),
    }
}

/// Parses the body of one completed non-error message into its ordered
/// `(key, value)` pairs.
pub fn parse_key_value_response(bytes: &Vec<u8>) -> (r: Result<
    Vec<(String, String)>,
    MpdCodecError,
>)
    ensures
        fields_parse_post(bytes@, r),
{
    let s = match utf8_to_string(bytes) {
        Some(s) => s,
        None => {
            return Err(MpdCodecError::InvalidEncoding);
        },
    };
    let cs = string_to_chars(&s);
    let ghost t = cs@;
    let n = cs.len();
    let mut out: Vec<(String, String)> = Vec::new();
    let mut i: usize = 0;
    proof {
        match parse_fields_from(t, 0) {
            Some(rest) => {
                assert(pairs_view(out@) + rest =~= rest);
            },
            None => {},
        }
    }
    while i < n
        invariant
            i <= n == t.len(),
            cs@ == t,
            vstd::utf8::valid_utf8(bytes@),
            t == vstd::utf8::decode_utf8(bytes@),
            fields_decomp(t, i as nat, pairs_view(out@)),
        decreases n - i,
    {
        let line_end = find_char_range(&cs, '\n', i, n);
        let ghost line = t.subrange(i as int, line_end as int);
        proof {
            crate::text::lemma_cfind_from(t, '\n', i as nat, line_end as int);
        }
        let next = if line_end < n {
            line_end + 1
        } else {
            line_end
        };
        if line_end == i {
            // empty line: skipped
            proof {
                assert(line.len() == 0);
            }
            i = next;
        } else {
            let (a, b) = trim_range(&cs, i, line_end);
            let ghost tr = trim_spec(line);
            proof {
                assert(cs@.subrange(a as int, b as int) == tr);
            }
            let colon = find_char_range(&cs, ':', a, b);
            proof {
                assert(t.subrange(a as int, b as int) == tr);
                assert(colon - a == cfind_from(tr, ':', 0));
            }
            if colon == b || colon + 1 == b {
                // no colon, or the colon is the last character: malformed
                proof {
                    assert(parse_line_spec(line) is None);
                    assert(parse_fields_from(t, i as nat) is None);
                }
                return Err(MpdCodecError::InvalidKeyValueSequence);
            }
            let key = chars_to_string(&cs, a, colon);
            let (va, vb) = trim_range(&cs, colon + 1, b);
            let value = chars_to_string(&cs, va, vb);
            proof {
                assert(key@ =~= tr.subrange(0, colon - a));
                assert(cs@.subrange(colon + 1, b as int) =~= tr.subrange(
                    colon - a + 1,
                    tr.len() as int,
                ));
                assert(value@ == trim_spec(tr.subrange(colon - a + 1, tr.len() as int)));
                assert(parse_line_spec(line) == Some((key@, value@)));
            }
            let ghost old_out = out@;
            out.push((key, value));
            proof {
                assert(pairs_view(out@) =~= pairs_view(old_out).push((key@, value@)));
                let kv = (key@, value@);
                match parse_fields_from(t, next as nat) {
                    Some(rest) => {
                        assert(parse_fields_from(t, i as nat) == Some(seq![kv] + rest));
                        assert(pairs_view(old_out) + (seq![kv] + rest) =~= pairs_view(out@)
                            + rest);
                    },
                    None => {},
                }
            }
            i = next;
        }
    }
    proof {
        assert(parse_fields_from(t, i as nat) == Some(Seq::<(Seq<char>, Seq<char>)>::empty()));
        assert(pairs_view(out@) + Seq::<(Seq<char>, Seq<char>)>::empty() =~= pairs_view(out@));
    }
    Ok(out)
}

} // verus!
