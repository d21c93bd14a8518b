//! The error-line parser: turns the raw bytes of one completed error
//! message into a structured error record.
//!
//! The line must match the fixed shape `ACK [<code>@<index>] {<command>}
//! <message>`, where `<code>` and `<index>` are non-empty runs of decimal
//! digits whose values fit in a `u64`, `<command>` is a possibly-empty run
//! of word characters, and `<message>` is the non-empty remainder of the
//! line, which may not contain a newline.

use vstd::prelude::*;

use crate::response::{MpdCodecError, Response};
use crate::text::{
    chars_to_string, cfind_from, digit_end_from, digits_val, find_char_range, parse_u64_digits,
    scan_digit_end, scan_word_end, string_to_chars, utf8_to_string, word_end_from,
};

verus! {

/// The four fields extracted from a well-formed error line.
pub struct ErrorParts {
    /// Numeric error code.
    pub code: u64,
    /// Index of the failing command in the command list.
    pub index: u64,
    /// Name of the failing command; may be empty.
    pub command: Seq<char>,
    /// Human-readable message text.
    pub message: Seq<char>,
}

/// Matches `t` against `ACK [<code>@<index>] {<command>} <message>`;
/// `None` if the shape does not fit or a numeric field overflows a `u64`.
pub open spec fn parse_error_spec(t: Seq<char>) -> Option<ErrorParts> {
    if t.len() < 5 || t[0] != 'A' || t[1] != 'C' || t[2] != 'K' || t[3] != ' ' || t[4] != '[' {
        None
    } else {
        let d1e = digit_end_from(t, 5);
        if d1e <= 5 || d1e >= t.len() || t[d1e] != '@' {
            None
        } else {
            let d2e = digit_end_from(t, (d1e + 1) as nat);
            if d2e <= d1e + 1 || d2e + 3 > t.len() || t[d2e] != ']' || t[d2e + 1] != ' '
                || t[d2e + 2] != '{' {
                None
            } else {
                let we = word_end_from(t, (d2e + 3) as nat);
                if we + 2 > t.len() || t[we] != '}' || t[we + 1] != ' ' {
                    None
                } else {
                    let msg = t.subrange(we + 2, t.len() as int);
                    if msg.len() == 0 || cfind_from(msg, '\n', 0) < msg.len() {
                        None
                    } else {
                        let code = digits_val(t.subrange(5, d1e));
                        let index = digits_val(t.subrange(d1e + 1, d2e));
                        if code > u64::MAX || index > u64::MAX {
                            None
                        } else {
                            Some(
                                ErrorParts {
                                    code: code as u64,
                                    index: index as u64,
                                    command: t.subrange(d2e + 3, we),
                                    message: msg,
                                },
                            )
                        }
                    }
                }
            }
        }
    }
}

/// The complete contract of the error-line parser on a message body.
pub open spec fn error_parse_post(body: Seq<u8>, r: Result<Response, MpdCodecError>) -> bool {
    if !vstd::utf8::valid_utf8(body) {
        r matches Err(MpdCodecError::InvalidEncoding)
    } else {
        match parse_error_spec(vstd::utf8::decode_utf8(body)) {
            None => r matches Err(MpdCodecError::InvalidErrorMessage),
            Some(e) => r matches Ok(
                Response::Error { error_code, command_list_index, current_command, message },
            ) && error_code == e.code && command_list_index == e.index && current_command@
                == e.command && message@ == e.message,
        }
    }
}

/// Parses the body of one completed error message.
pub fn parse_error_line(bytes: &Vec<u8>) -> (r: Result<Response, MpdCodecError>)
    ensures
        error_parse_post(bytes@, r),
{
    let s = match utf8_to_string(bytes) {
        Some(s) => s,
        None => {
            return Err(MpdCodecError::InvalidEncoding);
        },
    };
    let cs = string_to_chars(&s);
    let ghost t = cs@;
    let n = cs.len();
    if n < 5 || cs[0] != 'A' || cs[1] != 'C' || cs[2] != 'K' || cs[3] != ' ' || cs[4] != '[' {
        return Err(MpdCodecError::InvalidErrorMessage);
    }
    let d1e = scan_digit_end(&cs, 5);
    if d1e == 5 || d1e == n || cs[d1e] != '@' {
        return Err(MpdCodecError::InvalidErrorMessage);
    }
    let d2e = scan_digit_end(&cs, d1e + 1);
    if d2e == d1e + 1 || n - d2e < 3 || cs[d2e] != ']' || cs[d2e + 1] != ' ' || cs[d2e + 2] != '{'
    {
        return Err(MpdCodecError::InvalidErrorMessage);
    }
    let we = scan_word_end(&cs, d2e + 3);
    if n - we < 2 || cs[we] != '}' || cs[we + 1] != ' ' {
        return Err(MpdCodecError::InvalidErrorMessage);
    }
    let ms = we + 2;
    let ghost msg = t.subrange(ms as int, n as int);
    if ms == n {
        proof {
            assert(msg.len() == 0);
        }
        return Err(MpdCodecError::InvalidErrorMessage);
    }
    let nl = find_char_range(&cs, '\n', ms, n);
    if nl < n {
        proof {
            assert(cfind_from(msg, '\n', 0) == nl - ms);
            assert(cfind_from(msg, '\n', 0) < msg.len());
        }
        return Err(MpdCodecError::InvalidErrorMessage);
    }
    proof {
        assert(cfind_from(msg, '\n', 0) == msg.len());
    }
    let code = match parse_u64_digits(&cs, 5, d1e) {
        Some(v) => v,
        None => {
            return Err(MpdCodecError::InvalidErrorMessage);
        },
    };
    let index = match parse_u64_digits(&cs, d1e + 1, d2e) {
        Some(v) => v,
        None => {
            return Err(MpdCodecError::InvalidErrorMessage);
        },
    };
    let command = chars_to_string(&cs, d2e + 3, we);
    let message = chars_to_string(&cs, ms, n);
    Ok(
        Response::Error {
            error_code: code,
            command_list_index: index,
            current_command: command,
            message,
        },
    )
}

} // verus!
