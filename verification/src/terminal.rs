//! The computing side of a terminal session: Base64 framing of what the
//! shell prints and of what the UI types, and the events a session emits.

use vstd::prelude::*;
use base64::Engine;
use crate::protocol::Event;
use crate::text::{decimal, push_decimal, push_str};

verus! {

/// Why Base64 input was refused (the cases of `base64::DecodeError`).
#[derive(Debug, Clone, Copy, PartialEq, Eq)]
pub enum Base64Error {
    /// A byte outside the alphabet, with its offset and value.
    InvalidByte(usize, u8),
    /// An input length that no encoding has.
    InvalidLength(usize),
    /// A last symbol whose discarded bits are not zero, with offset and value.
    InvalidLastSymbol(usize, u8),
    /// Padding that is missing, misplaced or not canonical.
    InvalidPadding,
}

/// What the standard Base64 engine (standard alphabet, canonical padding)
/// decodes from `input`.
pub uninterp spec fn base64_decoded(input: Seq<char>) -> Result<Seq<u8>, Base64Error>;

/// The standard Base64 alphabet.
pub open spec fn b64_char(i: int) -> char {
    if i < 26 {
        ((65 + i) as u8) as char
    } else if i < 52 {
        ((97 + i - 26) as u8) as char
    } else if i < 62 {
        ((48 + i - 52) as u8) as char
    } else if i == 62 {
        '+'
    } else {
        '/'
    }
}

/// Standard Base64 with padding: every three bytes become four symbols of
/// six bits each, most significant first; a final one or two bytes become
/// two or three symbols followed by `=` up to four.
pub open spec fn b64_encode(s: Seq<u8>) -> Seq<char>
    decreases s.len(),
{
    if s.len() == 0 {
        seq![]
    } else {
        let a = s[0] as int;
        if s.len() == 1 {
            seq![b64_char(a / 4), b64_char((a % 4) * 16), '=', '=']
        } else {
            let b = s[1] as int;
            if s.len() == 2 {
                seq![b64_char(a / 4), b64_char((a % 4) * 16 + b / 16), b64_char((b % 16) * 4), '=']
            } else {
                let c = s[2] as int;
                seq![
                    b64_char(a / 4),
                    b64_char((a % 4) * 16 + b / 16),
                    b64_char((b % 16) * 4 + c / 64),
                    b64_char(c % 64),
                ] + b64_encode(s.skip(3))
            }
        }
    }
}

/// Calls `base64::engine::general_purpose::STANDARD.decode`; its result is
/// `base64_decoded` of the input, with `DecodeError` mapped case for case.
/// The engine requires canonical padding and zero trailing bits, so it
/// succeeds exactly on the standard encodings of byte strings, and gives
/// back the bytes that were encoded.
#[verifier::external_body]
fn base64_decode(input: &str) -> (r: Result<Vec<u8>, Base64Error>)
    ensures
        match r {
            Ok(v) => base64_decoded(input@) == Ok::<Seq<u8>, Base64Error>(v@) && input@
                == b64_encode(v@),
            Err(e) => base64_decoded(input@) == Err::<Seq<u8>, Base64Error>(e),
        },
        forall|w: Seq<u8>| #[trigger] b64_encode(w) == input@ ==> (r is Ok && r->Ok_0@ == w),
{
    match base64::engine::general_purpose::STANDARD.decode(input) {
        Ok(v) => Ok(v),
        Err(base64::DecodeError::InvalidByte(i, b)) => Err(Base64Error::InvalidByte(i, b)),
        Err(base64::DecodeError::InvalidLength(n)) => Err(Base64Error::InvalidLength(n)),
        Err(base64::DecodeError::InvalidLastSymbol(i, b)) => Err(Base64Error::InvalidLastSymbol(i, b)),
        Err(base64::DecodeError::InvalidPadding) => Err(Base64Error::InvalidPadding),
    }
}

/// Calls `base64::engine::general_purpose::STANDARD.encode`, which gives the
/// standard padded encoding of the input (it panics when the encoded length
/// overflows `usize`, which `requires` rules out).
#[verifier::external_body]
fn base64_encode(input: &[u8]) -> (r: String)
    requires
        4 * ((input@.len() + 2) / 3) <= usize::MAX,
    ensures
        r@ == b64_encode(input@),
{
    base64::engine::general_purpose::STANDARD.encode(input)
}

/// The text `base64::DecodeError` displays for `e`.
pub open spec fn base64_error_text(e: Base64Error) -> Seq<char> {
    match e {
        Base64Error::InvalidByte(i, b) => "Invalid symbol "@ + decimal(b as nat) + ", offset "@
            + decimal(i as nat) + "."@,
        Base64Error::InvalidLength(n) => "Invalid input length: "@ + decimal(n as nat),
        Base64Error::InvalidLastSymbol(i, b) => "Invalid last symbol "@ + decimal(b as nat)
            + ", offset "@ + decimal(i as nat) + "."@,
        Base64Error::InvalidPadding => "Invalid padding"@,
    }
}

impl Base64Error {
    /// The message for this error, as `base64` words it.
    pub fn message(&self) -> (s: String)
        ensures
            s@ == base64_error_text(*self),
    {
        let mut s = String::new();
        match *self {
            Base64Error::InvalidByte(i, b) => {
                push_str(&mut s, "Invalid symbol ");
                push_decimal(&mut s, b as u64);
                push_str(&mut s, ", offset ");
                push_decimal(&mut s, i as u64);
                push_str(&mut s, ".");
            },
            Base64Error::InvalidLength(n) => {
                push_str(&mut s, "Invalid input length: ");
                push_decimal(&mut s, n as u64);
            },
            Base64Error::InvalidLastSymbol(i, b) => {
                push_str(&mut s, "Invalid last symbol ");
                push_decimal(&mut s, b as u64);
                push_str(&mut s, ", offset ");
                push_decimal(&mut s, i as u64);
                push_str(&mut s, ".");
            },
            Base64Error::InvalidPadding => {
                push_str(&mut s, "Invalid padding");
            },
        }
        assert(s@ =~= base64_error_text(*self));
        s
    }
}

/// The bytes that Base64 terminal input `data` stands for: it succeeds
/// exactly when `data` is the standard encoding of some bytes, and then gives
/// those bytes.
pub fn decode_terminal_input(data: &str) -> (r: Result<Vec<u8>, Base64Error>)
    ensures
        match r {
            Ok(v) => base64_decoded(data@) == Ok::<Seq<u8>, Base64Error>(v@) && data@
                == b64_encode(v@),
            Err(e) => base64_decoded(data@) == Err::<Seq<u8>, Base64Error>(e),
        },
        forall|w: Seq<u8>| #[trigger] b64_encode(w) == data@ ==> (r is Ok && r->Ok_0@ == w),
{
    base64_decode(data)
}

/// The event that forwards a chunk the shell printed: the chunk in standard
/// Base64.
pub fn terminal_output_event(terminal_id: u64, chunk: &[u8]) -> (e: Event)
    requires
        4 * ((chunk@.len() + 2) / 3) <= usize::MAX,
    ensures
        match e {
            Event::TerminalOutput { terminal_id: id, data } => id == terminal_id && data@
                == b64_encode(chunk@),
            _ => false,
        },
{
    Event::TerminalOutput { terminal_id, data: base64_encode(chunk) }
}

/// The event that tells the UI a terminal's shell has gone.
pub fn terminal_exit_event(terminal_id: u64) -> (e: Event)
    ensures
        e == (Event::TerminalExit { terminal_id, code: None }),
{
    Event::TerminalExit { terminal_id, code: None }
}

} // verus!
