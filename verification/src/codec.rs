//! The incremental decode engine: a stateful scanner that consumes
//! arbitrarily fragmented chunks of bytes and emits complete protocol
//! messages, never re-scanning bytes already examined.
//!
//! A message ends with the success terminator `OK\n` on a line of its own
//! (or as the whole message), or — for messages opening with the error
//! marker `ACK` — with the first newline. The scan position and the
//! error-mode flag are carried across calls so that each call only looks at
//! bytes not yet ruled out, wherever a chunk boundary fell.

use vstd::prelude::*;

use crate::buffer::{buf_advance, buf_get, buf_len, buf_split_to, buf_to_vec, bview};
use crate::error_line::{parse_error_line, parse_error_spec};
use crate::fields::{parse_fields_from, parse_key_value_response};
use crate::response::{pairs_view, MpdCodecError, Response};

verus! {

/// The buffer opens with the 3-byte error marker `b"ACK"`.
pub open spec fn starts_with_ack(s: Seq<u8>) -> bool {
    s.len() >= 3 && s[0] == 65u8 && s[1] == 67u8 && s[2] == 75u8
}

/// The success terminator bytes `b"OK\n"` stand at position `p`.
pub open spec fn ok_term_at(s: Seq<u8>, p: int) -> bool {
    0 <= p && p + 3 <= s.len() && s[p] == 79u8 && s[p + 1] == 75u8 && s[p + 2] == 10u8
}

/// The terminator at `p` really ends a message: it opens the message or
/// stands right after a newline. Terminator bytes anywhere else are
/// ordinary content inside a value.
pub open spec fn boundary_at(s: Seq<u8>, p: int) -> bool {
    ok_term_at(s, p) && (p == 0 || s[p - 1] == 10u8)
}

/// Index of the first newline at or after `i`, or `s.len()`.
pub open spec fn nl_from(s: Seq<u8>, i: nat) -> int
    decreases s.len() - i,
{
    if i >= s.len() {
        s.len() as int
    } else if s[i as int] == 10u8 {
        i as int
    } else {
        nl_from(s, i + 1)
    }
}

/// `nl_from` finds the first newline.
pub proof fn lemma_nl_from(s: Seq<u8>, i: nat, k: int)
    requires
        i <= k <= s.len(),
        forall|j: int| i <= j < k ==> s[j] != 10u8,
        k < s.len() ==> s[k] == 10u8,
    ensures
        nl_from(s, i) == k,
    decreases k - i,
{
    if (i as int) < k {
        lemma_nl_from(s, i + 1, k);
    }
}

/// What holds of the result of `nl_from`.
pub proof fn lemma_nl_from_props(s: Seq<u8>, i: nat)
    requires
        i <= s.len(),
    ensures
        i <= nl_from(s, i) <= s.len(),
        forall|j: int| i <= j < nl_from(s, i) ==> s[j] != 10u8,
        nl_from(s, i) < s.len() ==> s[nl_from(s, i)] == 10u8,
    decreases s.len() - i,
{
    if i < s.len() && s[i as int] != 10u8 {
        lemma_nl_from_props(s, i + 1);
    }
}

/// First message boundary at or after `i`, or `s.len()` if there is none.
pub open spec fn bd_from(s: Seq<u8>, i: nat) -> int
    decreases s.len() - i,
{
    if i + 3 > s.len() {
        s.len() as int
    } else if boundary_at(s, i as int) {
        i as int
    } else {
        bd_from(s, i + 1)
    }
}

/// `bd_from` finds the first boundary.
pub proof fn lemma_bd_from(s: Seq<u8>, i: nat, k: int)
    requires
        i <= k <= s.len(),
        forall|j: int| i <= j < k ==> !boundary_at(s, j),
        k + 3 <= s.len() ==> boundary_at(s, k),
        k + 3 > s.len() ==> k == s.len(),
    ensures
        bd_from(s, i) == k,
    decreases k - i,
{
    if i + 3 > s.len() {
    } else if (i as int) < k {
        lemma_bd_from(s, i + 1, k);
    }
}

/// What holds of the result of `bd_from`.
pub proof fn lemma_bd_from_props(s: Seq<u8>, i: nat)
    ensures
        i <= bd_from(s, i) || bd_from(s, i) == s.len(),
        bd_from(s, i) <= s.len(),
        forall|j: int| i <= j < bd_from(s, i) ==> !boundary_at(s, j),
        bd_from(s, i) + 3 <= s.len() ==> boundary_at(s, bd_from(s, i)),
        bd_from(s, i) + 3 > s.len() ==> bd_from(s, i) == s.len(),
    decreases s.len() - i,
{
    if i + 3 <= s.len() && !boundary_at(s, i as int) {
        lemma_bd_from_props(s, i + 1);
    }
}

/// The scan bookkeeping of the decoder, as spec data.
pub struct CodecState {
    /// Offset below which the buffer has been examined and holds no
    /// terminator of the current message.
    pub examined: nat,
    /// The current message opened with the error marker, so its end is the
    /// first newline.
    pub pending_error: bool,
    /// The greeting line has been validated.
    pub greeted: bool,
}

/// The state after a complete message has been removed from the buffer.
pub open spec fn reset_state(greeted: bool) -> CodecState {
    CodecState { examined: 0, pending_error: false, greeted }
}

/// What one decode call produces.
pub enum SpecOutcome {
    /// No complete message yet; nothing is consumed.
    Pending,
    /// The first line was not a valid greeting; the connection is unusable.
    GreetingFailed,
    /// An empty success: the message was just the terminator.
    GotEmpty,
    /// A key-value message with this body (the terminator and the newline
    /// before it stripped).
    GotFields(Seq<u8>),
    /// An error message with this body (its trailing newline stripped).
    GotError(Seq<u8>),
}

/// A decode step as a whole: next state, remaining buffer, and outcome.
pub struct StepResult {
    /// The decoder state after the call.
    pub state: CodecState,
    /// The buffer contents after the call.
    pub buf: Seq<u8>,
    /// What the call produced.
    pub out: SpecOutcome,
}

/// The examined cursor recorded by an incomplete steady-state scan: all
/// complete windows, rounded down to a multiple of 3 so that a terminator
/// split across deliveries is still re-examined whole.
pub open spec fn rest_cursor(len: int) -> nat {
    if len >= 3 {
        ((len - 2) - (len - 2) % 3) as nat
    } else {
        0
    }
}

/// One steady-state (post-greeting) decode step on buffer `s`. The result
/// depends only on the buffer contents: the saved scan state never changes
/// what is produced.
pub open spec fn steady_step(s: Seq<u8>) -> StepResult {
    if starts_with_ack(s) {
        let k = nl_from(s, 0);
        if k < s.len() {
            StepResult {
                state: reset_state(true),
                buf: s.subrange(k + 1, s.len() as int),
                out: SpecOutcome::GotError(s.subrange(0, k)),
            }
        } else {
            StepResult {
                state: CodecState {
                    examined: rest_cursor(s.len() as int),
                    pending_error: true,
                    greeted: true,
                },
                buf: s,
                out: SpecOutcome::Pending,
            }
        }
    } else {
        let p = bd_from(s, 0);
        if p + 3 <= s.len() {
            if p == 0 {
                StepResult {
                    state: reset_state(true),
                    buf: s.subrange(3, s.len() as int),
                    out: SpecOutcome::GotEmpty,
                }
            } else {
                StepResult {
                    state: reset_state(true),
                    buf: s.subrange(p + 3, s.len() as int),
                    out: SpecOutcome::GotFields(s.subrange(0, p - 1)),
                }
            }
        } else {
            StepResult {
                state: CodecState {
                    examined: rest_cursor(s.len() as int),
                    pending_error: false,
                    greeted: true,
                },
                buf: s,
                out: SpecOutcome::Pending,
            }
        }
    }
}

/// The greeting line (without its newline) starts with the 6-byte marker
/// `b"OK MPD"`.
pub open spec fn greeting_ok(line: Seq<u8>) -> bool {
    line.len() >= 6 && line[0] == 79u8 && line[1] == 75u8 && line[2] == 32u8 && line[3] == 77u8
        && line[4] == 80u8 && line[5] == 68u8
}

/// One full decode step on buffer `s`: while not greeted, the first line is
/// consumed and checked; a valid greeting is followed by a steady-state
/// scan of the remainder within the same step.
pub open spec fn step(greeted: bool, s: Seq<u8>) -> StepResult {
    if greeted {
        steady_step(s)
    } else {
        let k = nl_from(s, 0);
        if k < s.len() {
            let rest = s.subrange(k + 1, s.len() as int);
            if greeting_ok(s.subrange(0, k)) {
                steady_step(rest)
            } else {
                StepResult {
                    state: CodecState { examined: 0, pending_error: false, greeted: false },
                    buf: rest,
                    out: SpecOutcome::GreetingFailed,
                }
            }
        } else {
            StepResult {
                state: CodecState {
                    examined: s.len(),
                    pending_error: false,
                    greeted: false,
                },
                buf: s,
                out: SpecOutcome::Pending,
            }
        }
    }
}

/// No newline stands in `s` at positions `[a, b)`.
pub open spec fn no_nl_in(s: Seq<u8>, a: int, b: int) -> bool {
    forall|j: int| a <= j < b && 0 <= j < s.len() ==> s[j] != 10u8
}

/// The decoder's invariant, tying the saved scan state to the buffer: the
/// cursor never passes a terminator of the current message, and the
/// error-mode flag is truthful. It holds of a fresh state against any
/// buffer, is preserved by every decode call, and is indifferent to bytes
/// appended at the back.
pub open spec fn inv(st: CodecState, s: Seq<u8>) -> bool {
    if !st.greeted {
        st.examined <= s.len() && !st.pending_error && no_nl_in(s, 0, st.examined as int)
    } else {
        let e = st.examined as int;
        &&& e == 0 || e + 2 <= s.len()
        &&& st.pending_error ==> starts_with_ack(s)
        &&& e >= 1 ==> (st.pending_error <==> starts_with_ack(s))
        &&& (st.pending_error && e >= 1) ==> no_nl_in(s, 0, e + 2)
        &&& !st.pending_error ==> forall|p: int| 0 <= p < e ==> !boundary_at(s, p)
    }
}

/// How a decode call's result relates to the step outcome: a completed
/// message body is handed to the matching parser, whose verdict (or an
/// encoding failure) becomes the call's result.
pub open spec fn outcome_matches(
    out: SpecOutcome,
    r: Result<Option<Response>, MpdCodecError>,
) -> bool {
    match out {
        SpecOutcome::Pending => r matches Ok(None),
        SpecOutcome::GreetingFailed => r matches Err(MpdCodecError::InvalidGreeting),
        SpecOutcome::GotEmpty => r matches Ok(Some(Response::Empty)),
        SpecOutcome::GotFields(body) => {
            if !vstd::utf8::valid_utf8(body) {
                r matches Err(MpdCodecError::InvalidEncoding)
            } else {
                match parse_fields_from(vstd::utf8::decode_utf8(body), 0) {
                    None => r matches Err(MpdCodecError::InvalidKeyValueSequence),
                    Some(kvs) => r matches Ok(Some(Response::Fields(v))) && pairs_view(v@)
                        == kvs,
                }
            }
        },
        SpecOutcome::GotError(body) => {
            if !vstd::utf8::valid_utf8(body) {
                r matches Err(MpdCodecError::InvalidEncoding)
            } else {
                match parse_error_spec(vstd::utf8::decode_utf8(body)) {
                    None => r matches Err(MpdCodecError::InvalidErrorMessage),
                    Some(e) => r matches Ok(
                        Some(
                            Response::Error {
                                error_code,
                                command_list_index,
                                current_command,
                                message,
                            },
                        ),
                    ) && error_code == e.code && command_list_index == e.index
                        && current_command@ == e.command && message@ == e.message,
                }
            }
        },
    }
}

/// The full contract of one decode call.
pub open spec fn decode_post(
    greeted: bool,
    s0: Seq<u8>,
    st1: CodecState,
    s1: Seq<u8>,
    r: Result<Option<Response>, MpdCodecError>,
) -> bool {
    let sr = step(greeted, s0);
    &&& st1 == sr.state
    &&& s1 == sr.buf
    &&& outcome_matches(sr.out, r)
}

/// After an incomplete steady-state scan, the saved state satisfies the
/// invariant against the buffer however it is later extended.
proof fn lemma_steady_pending_inv(s: Seq<u8>, more: Seq<u8>)
    requires
        steady_step(s).out is Pending,
    ensures
        inv(steady_step(s).state, s + more),
{
    let st1 = steady_step(s).state;
    let w = s + more;
    let e = st1.examined as int;
    assert(forall|j: int| 0 <= j < s.len() ==> w[j] == s[j]);
    if starts_with_ack(s) {
        lemma_nl_from_props(s, 0);
        assert(nl_from(s, 0) == s.len());
        assert(starts_with_ack(w));
        assert(no_nl_in(w, 0, e + 2));
    } else {
        lemma_bd_from_props(s, 0);
        assert(bd_from(s, 0) == s.len() as int);
        if e >= 1 {
            assert(s.len() >= 3);
            assert(!starts_with_ack(w));
        }
        assert forall|p: int| 0 <= p < e implies !boundary_at(w, p) by {
            assert(!boundary_at(s, p));
            assert(p + 3 <= s.len());
        }
    }
}

/// Chunking invariance: a decode step that finds no complete message saves
/// a state from which the next step, on the buffer extended with any later
/// delivery, produces exactly what one step on the whole delivery at once
/// would produce. Decoding a well-formed stream therefore yields the same
/// message sequence however the bytes are split into chunks, including
/// splits inside a terminator.
pub proof fn lemma_chunking_invariance(st: CodecState, s: Seq<u8>, more: Seq<u8>)
    requires
        inv(st, s),
        step(st.greeted, s).out is Pending,
    ensures
        inv(step(st.greeted, s).state, step(st.greeted, s).buf + more),
        step(step(st.greeted, s).state.greeted, step(st.greeted, s).buf + more) == step(
            st.greeted,
            s + more,
        ),
{
    let w = s + more;
    assert(forall|j: int| 0 <= j < s.len() ==> w[j] == s[j]);
    if st.greeted {
        lemma_steady_pending_inv(s, more);
        assert(step(st.greeted, s).buf == s);
    } else {
        let k = nl_from(s, 0);
        lemma_nl_from_props(s, 0);
        if k == s.len() {
            // the greeting line itself is still incomplete
            assert(step(st.greeted, s).buf == s);
            lemma_nl_from_props(w, 0);
            assert(inv(step(st.greeted, s).state, w));
        } else {
            // a valid greeting was consumed; the rest was scanned
            assert(greeting_ok(s.subrange(0, k)));
            let rest = s.subrange(k + 1, s.len() as int);
            lemma_steady_pending_inv(rest, more);
            assert(rest + more =~= w.subrange(k + 1, w.len() as int));
            lemma_nl_from(w, 0, k);
            assert(w.subrange(0, k) =~= s.subrange(0, k));
        }
    }
}

/// The greeting gate: while the greeting has not been validated, no
/// message is decoded, however well-formed the bytes that follow. A step
/// either waits for the greeting line to complete, rejects a bad greeting,
/// or consumes a valid greeting — and only then scans what follows it.
pub proof fn lemma_greeting_gate(st: CodecState, s: Seq<u8>)
    requires
        inv(st, s),
        !st.greeted,
    ensures
        nl_from(s, 0) == s.len() ==> step(st.greeted, s) == (StepResult {
            state: CodecState { examined: s.len(), pending_error: false, greeted: false },
            buf: s,
            out: SpecOutcome::Pending,
        }),
        nl_from(s, 0) < s.len() && !greeting_ok(s.subrange(0, nl_from(s, 0)))
            ==> step(st.greeted, s).out is GreetingFailed,
        nl_from(s, 0) < s.len() && greeting_ok(s.subrange(0, nl_from(s, 0))) ==> step(
            st.greeted,
            s,
        ) == steady_step(s.subrange(nl_from(s, 0) + 1, s.len() as int)),
{
    lemma_nl_from_props(s, 0);
}

/// Idempotence of a partial scan: a decode step that finds no complete
/// message reaches a fixpoint, so running it again on the unchanged buffer
/// again finds none and leaves the state and the buffer exactly as the
/// first run left them.
pub proof fn lemma_partial_scan_idempotent(st: CodecState, s: Seq<u8>)
    requires
        inv(st, s),
        step(st.greeted, s).out is Pending,
    ensures
        ({
            let st1 = step(st.greeted, s).state;
            let s1 = step(st.greeted, s).buf;
            step(st1.greeted, s1) == (StepResult {
                state: st1,
                buf: s1,
                out: SpecOutcome::Pending,
            })
        }),
{
    if !st.greeted {
        let k = nl_from(s, 0);
        if k < s.len() {
            assert(greeting_ok(s.subrange(0, k)));
        }
    }
}

/// Codec for the MPD protocol: decodes a stream of bytes into messages.
#[derive(Debug)]
pub struct MpdCodec {
    examined_up_to: usize,
    parsing_error: bool,
    greeted: bool,
}

impl View for MpdCodec {
    type V = CodecState;

    closed spec fn view(&self) -> CodecState {
        CodecState {
            examined: self.examined_up_to as nat,
            pending_error: self.parsing_error,
            greeted: self.greeted,
        }
    }
}

impl Default for MpdCodec {
    /// A fresh codec that still expects the server greeting.
    fn default() -> (r: Self)
        ensures
            r@ == reset_state(false),
    {
        MpdCodec { examined_up_to: 0, parsing_error: false, greeted: false }
    }
}

/// The invariant asks nothing of a freshly reset state.
pub proof fn lemma_inv_fresh(greeted: bool, s: Seq<u8>)
    ensures
        inv(reset_state(greeted), s),
{
}

impl MpdCodec {
    /// Creates a new codec that first expects the server greeting.
    pub fn new() -> (r: Self)
        ensures
            r@ == reset_state(false),
    {
        MpdCodec { examined_up_to: 0, parsing_error: false, greeted: false }
    }

    /// Creates a new codec that does not expect a server greeting.
    pub fn new_greeted() -> (r: Self)
        ensures
            r@ == reset_state(true),
    {
        MpdCodec { examined_up_to: 0, parsing_error: false, greeted: true }
    }

    /// Records the examined cursor after an incomplete steady-state scan.
    fn set_rest_cursor(&mut self, len: usize)
        ensures
            final(self)@ == (CodecState {
                examined: rest_cursor(len as int),
                ..old(self)@
            }),
    {
        if len >= 3 {
            let m = len - 2;
            self.examined_up_to = m - m % 3;
        } else {
            self.examined_up_to = 0;
        }
    }

    /// Scans for the first newline, resuming after `start` already-cleared
    /// positions.
    fn scan_nl(src: &bytes::BytesMut, start: usize) -> (r: usize)
        requires
            start <= bview(*src).len(),
            no_nl_in(bview(*src), 0, start as int),
        ensures
            r == nl_from(bview(*src), 0),
            r <= bview(*src).len(),
    {
        let ghost s = bview(*src);
        let len = buf_len(src);
        let mut j: usize = start;
        while j < len
            invariant
                start <= j <= len == s.len(),
                s == bview(*src),
                forall|q: int| 0 <= q < j ==> s[q] != 10u8,
            decreases len - j,
        {
            if buf_get(src, j) == 10u8 {
                proof {
                    lemma_nl_from(s, 0, j as int);
                }
                return j;
            }
            j += 1;
        }
        proof {
            lemma_nl_from(s, 0, len as int);
        }
        len
    }

    /// Scans for the first line-initial terminator, resuming after `start`
    /// already-cleared positions; `None` means the buffer holds none.
    fn scan_boundary(src: &bytes::BytesMut, start: usize) -> (r: Option<usize>)
        requires
            start <= bview(*src).len(),
            forall|p: int| 0 <= p < start ==> !boundary_at(bview(*src), p),
        ensures
            match r {
                Some(p) => p == bd_from(bview(*src), 0) && p + 3 <= bview(*src).len(),
                None => bd_from(bview(*src), 0) == bview(*src).len() as int && bd_from(
                    bview(*src),
                    0,
                ) + 3 > bview(*src).len(),
            },
    {
        let ghost s = bview(*src);
        let len = buf_len(src);
        let mut p: usize = start;
        while len >= 3 && p <= len - 3
            invariant
                start <= p <= len == s.len(),
                s == bview(*src),
                forall|q: int| 0 <= q < p ==> !boundary_at(s, q),
            decreases len - p,
        {
            let w0 = buf_get(src, p);
            let w1 = buf_get(src, p + 1);
            let w2 = buf_get(src, p + 2);
            if w0 == 79u8 && w1 == 75u8 && w2 == 10u8 && (p == 0 || buf_get(src, p - 1) == 10u8)
            {
                proof {
                    lemma_bd_from(s, 0, p as int);
                }
                return Some(p);
            }
            proof {
                assert(!boundary_at(s, p as int));
            }
            p += 1;
        }
        proof {
            lemma_bd_from_props(s, 0);
            if bd_from(s, 0) + 3 <= s.len() {
                let b = bd_from(s, 0);
                assert(!boundary_at(s, b));
            }
        }
        None
    }

    /// One steady-state decode step: at most one message is produced, and
    /// nothing is consumed unless a whole message (or its terminator) is.
    fn decode_steady(&mut self, src: &mut bytes::BytesMut) -> (r: Result<
        Option<Response>,
        MpdCodecError,
    >)
        requires
            old(self)@.greeted,
            inv(old(self)@, bview(*old(src))),
        ensures
            inv(final(self)@, bview(*final(src))),
            final(self)@ == steady_step(bview(*old(src))).state,
            bview(*final(src)) == steady_step(bview(*old(src))).buf,
            outcome_matches(steady_step(bview(*old(src))).out, r),
    {
        let ghost s = bview(*src);
        let len = buf_len(src);
        // settle error mode once the marker window is visible
        if self.examined_up_to == 0 && len >= 3 {
            self.parsing_error = buf_get(src, 0) == 65u8 && buf_get(src, 1) == 67u8 && buf_get(
                src,
                2,
            ) == 75u8;
        }
        proof {
            assert(len >= 3 ==> (self.parsing_error <==> starts_with_ack(s)));
            assert(len < 3 ==> !self.parsing_error && !starts_with_ack(s));
        }
        if self.parsing_error {
            // error mode: the message ends at the first newline
            let start = if self.examined_up_to >= 1 {
                self.examined_up_to + 2
            } else {
                3
            };
            let k = Self::scan_nl(src, start);
            if k == len {
                proof {
                    lemma_nl_from_props(s, 0);
                }
                self.set_rest_cursor(len);
                return Ok(None);
            }
            proof {
                lemma_nl_from_props(s, 0);
            }
            let body_buf = buf_split_to(src, k);
            self.examined_up_to = 0;
            self.parsing_error = false;
            buf_advance(src, 1);
            proof {
                assert(bview(*src) =~= s.subrange(k + 1, s.len() as int));
            }
            let body = buf_to_vec(&body_buf);
            match parse_error_line(&body) {
                Ok(resp) => Ok(Some(resp)),
                Err(e) => Err(e),
            }
        } else {
            match Self::scan_boundary(src, self.examined_up_to) {
                Some(p) => {
                    if p == 0 {
                        buf_advance(src, 3);
                        self.examined_up_to = 0;
                        proof {
                            assert(bview(*src) =~= s.subrange(3, s.len() as int));
                        }
                        Ok(Some(Response::Empty))
                    } else {
                        let body_buf = buf_split_to(src, p - 1);
                        buf_advance(src, 4);
                        self.examined_up_to = 0;
                        proof {
                            assert(bview(*src) =~= s.subrange(p + 3, s.len() as int));
                        }
                        let body = buf_to_vec(&body_buf);
                        match parse_key_value_response(&body) {
                            Ok(kv) => Ok(Some(Response::Fields(kv))),
                            Err(e) => Err(e),
                        }
                    }
                },
                None => {
                    self.set_rest_cursor(len);
                    proof {
                        lemma_bd_from_props(s, 0);
                    }
                    Ok(None)
                },
            }
        }
    }

    /// Decodes at most one message from the front of `src`, consuming
    /// exactly the bytes of that message, or consuming nothing and
    /// reporting `Ok(None)` while the message at the front is incomplete.
    /// Until the greeting line has been validated, only the greeting is
    /// examined; a valid greeting is consumed silently and decoding of the
    /// remainder continues within the same call.
    pub fn decode(&mut self, src: &mut bytes::BytesMut) -> (r: Result<
        Option<Response>,
        MpdCodecError,
    >)
        requires
            inv(old(self)@, bview(*old(src))),
        ensures
            inv(final(self)@, bview(*final(src))),
            decode_post(old(self)@.greeted, bview(*old(src)), final(self)@, bview(*final(src)), r),
    {
        if self.greeted {
            return self.decode_steady(src);
        }
        let ghost s = bview(*src);
        let len = buf_len(src);
        let k = Self::scan_nl(src, self.examined_up_to);
        if k == len {
            proof {
                lemma_nl_from_props(s, 0);
            }
            self.examined_up_to = len;
            return Ok(None);
        }
        let header = buf_split_to(src, k + 1);
        self.examined_up_to = 0;
        let ok = k >= 6 && buf_get(&header, 0) == 79u8 && buf_get(&header, 1) == 75u8 && buf_get(
            &header,
            2,
        ) == 32u8 && buf_get(&header, 3) == 77u8 && buf_get(&header, 4) == 80u8 && buf_get(
            &header,
            5,
        ) == 68u8;
        proof {
            assert(ok == greeting_ok(s.subrange(0, k as int)));
        }
        if !ok {
            return Err(MpdCodecError::InvalidGreeting);
        }
        self.greeted = true;
        self.decode_steady(src)
    }
}

} // verus!


