//! Text forms of the JSON-lines driver: hexadecimal payloads and the names of
//! connection states.

use vstd::prelude::*;
use vstd::string::{StringExecFns, StringSliceAdditionalSpecFns};
use vstd::utf8::is_char_boundary;

use crate::types::State;

verus! {

/// The name of a connection state.
pub open spec fn state_label(state: State) -> &'static str {
    match state {
        State::SynSent => "syn-sent",
        State::SynReceived => "syn-received",
        State::Established => "established",
        State::FinWait1 => "fin-wait-1",
        State::FinWait2 => "fin-wait-2",
        State::CloseWait => "close-wait",
        State::Closing => "closing",
        State::LastAck => "last-ack",
        State::TimeWait => "time-wait",
    }
}

pub fn state_name(state: State) -> (r: &'static str)
    ensures
        r == state_label(state),
{
    match state {
        State::SynSent => "syn-sent",
        State::SynReceived => "syn-received",
        State::Established => "established",
        State::FinWait1 => "fin-wait-1",
        State::FinWait2 => "fin-wait-2",
        State::CloseWait => "close-wait",
        State::Closing => "closing",
        State::LastAck => "last-ack",
        State::TimeWait => "time-wait",
    }
}

/// Why a hexadecimal string does not decode.
#[derive(Clone, Copy, Debug, PartialEq, Eq, Structural)]
pub enum HexError {
    /// The string has an odd number of bytes.
    OddLength,
    /// A pair of bytes is not a hexadecimal number.
    InvalidDigit,
    /// A pair of bytes would split a multi-byte character.
    NotCharBoundary,
}

/// The value of one hexadecimal digit, in either case.
pub open spec fn hex_digit(c: u8) -> Option<u8> {
    if 48 <= c <= 57 {
        Some((c - 48) as u8)
    } else if 97 <= c <= 102 {
        Some((c - 87) as u8)
    } else if 65 <= c <= 70 {
        Some((c - 55) as u8)
    } else {
        None
    }
}

/// The number two bytes spell in base 16: two digits, or a plus sign before
/// one digit.
pub open spec fn hex_pair(b0: u8, b1: u8) -> Option<u8> {
    if b0 == 43 {
        hex_digit(b1)
    } else {
        match (hex_digit(b0), hex_digit(b1)) {
            (Some(h), Some(l)) => Some((h * 16 + l) as u8),
            _ => None,
        }
    }
}

/// Decode the pairs of `b` from byte `k` on, stopping at the first pair that
/// splits a character or is no number.
pub open spec fn hex_decode_from(b: Seq<u8>, k: int) -> Result<Seq<u8>, HexError>
    decreases b.len() - k,
{
    if k < 0 || k + 2 > b.len() {
        Ok(Seq::empty())
    } else if !is_char_boundary(b, k) || !is_char_boundary(b, k + 2) {
        Err(HexError::NotCharBoundary)
    } else {
        match hex_pair(b[k], b[k + 1]) {
            None => Err(HexError::InvalidDigit),
            Some(v) => match hex_decode_from(b, k + 2) {
                Ok(rest) => Ok(seq![v] + rest),
                Err(e) => Err(e),
            },
        }
    }
}

/// The bytes a hexadecimal string (given by its UTF-8 bytes) stands for.
pub open spec fn hex_decode_spec(b: Seq<u8>) -> Result<Seq<u8>, HexError> {
    if b.len() % 2 != 0 {
        Err(HexError::OddLength)
    } else {
        hex_decode_from(b, 0)
    }
}

fn digit_value(c: u8) -> (r: Option<u8>)
    ensures
        r == hex_digit(c),
{
    if 48 <= c && c <= 57 {
        Some(c - 48)
    } else if 97 <= c && c <= 102 {
        Some(c - 87)
    } else if 65 <= c && c <= 70 {
        Some(c - 55)
    } else {
        None
    }
}

fn pair_value(b0: u8, b1: u8) -> (r: Option<u8>)
    ensures
        r == hex_pair(b0, b1),
{
    if b0 == 43 {
        return digit_value(b1);
    }
    match (digit_value(b0), digit_value(b1)) {
        (Some(h), Some(l)) => Some(h * 16 + l),
        _ => None,
    }
}

/// Decode a hexadecimal string, two characters per byte.
pub fn decode_hex(value: &str) -> (r: Result<Vec<u8>, HexError>)
    ensures
        match hex_decode_spec(value.spec_bytes()) {
            Ok(v) => r matches Ok(x) && x@ == v,
            Err(e) => r == Err::<Vec<u8>, HexError>(e),
        },
{
    let bytes = value.as_bytes();
    let ghost b = value.spec_bytes();
    if bytes.len() % 2 != 0 {
        return Err(HexError::OddLength);
    }
    let mut out: Vec<u8> = Vec::new();
    let mut k: usize = 0;
    while k < bytes.len()
        invariant
            bytes@ == b,
            b == value.spec_bytes(),
            b.len() % 2 == 0,
            k % 2 == 0,
            k <= b.len(),
            hex_decode_spec(b) == match hex_decode_from(b, k as int) {
                Ok(rest) => Ok(out@ + rest),
                Err(e) => Err::<Seq<u8>, HexError>(e),
            },
        decreases b.len() - k,
    {
        if !value.is_char_boundary(k) || !value.is_char_boundary(k + 2) {
            return Err(HexError::NotCharBoundary);
        }
        match pair_value(bytes[k], bytes[k + 1]) {
            None => {
                return Err(HexError::InvalidDigit);
            },
            Some(v) => {
                let ghost before = out@;
                out.push(v);
                proof {
                    match hex_decode_from(b, k + 2) {
                        Ok(rest) => {
                            assert(before + (seq![v] + rest) =~= out@ + rest);
                        },
                        Err(_) => {},
                    }
                }
            },
        }
        k = k + 2;
    }
    assert(out@ + Seq::<u8>::empty() =~= out@);
    Ok(out)
}

/// The lowercase hexadecimal digit for a value below 16.
pub open spec fn hex_char(n: int) -> char {
    if n < 10 {
        (48 + n) as char
    } else {
        (87 + n) as char
    }
}

/// Two lowercase hexadecimal digits per byte.
pub open spec fn hex_encode_spec(b: Seq<u8>) -> Seq<char>
    decreases b.len(),
{
    if b.len() == 0 {
        Seq::empty()
    } else {
        hex_encode_spec(b.drop_last()) + seq![
            hex_char((b.last() as int) / 16),
            hex_char((b.last() as int) % 16),
        ]
    }
}

fn digit_str(n: u8) -> (r: &'static str)
    requires
        n < 16,
    ensures
        r@ == seq![hex_char(n as int)],
{
    let r = match n {
        0 => "0",
        1 => "1",
        2 => "2",
        3 => "3",
        4 => "4",
        5 => "5",
        6 => "6",
        7 => "7",
        8 => "8",
        9 => "9",
        10 => "a",
        11 => "b",
        12 => "c",
        13 => "d",
        14 => "e",
        _ => "f",
    };
    proof {
        reveal_strlit("0");
        reveal_strlit("1");
        reveal_strlit("2");
        reveal_strlit("3");
        reveal_strlit("4");
        reveal_strlit("5");
        reveal_strlit("6");
        reveal_strlit("7");
        reveal_strlit("8");
        reveal_strlit("9");
        reveal_strlit("a");
        reveal_strlit("b");
        reveal_strlit("c");
        reveal_strlit("d");
        reveal_strlit("e");
        reveal_strlit("f");
    }
    r
}

/// Encode bytes as lowercase hexadecimal, two characters per byte.
pub fn encode_hex(bytes: &[u8]) -> (r: String)
    ensures
        r@ == hex_encode_spec(bytes@),
{
    let mut out = String::new();
    let mut i: usize = 0;
    while i < bytes.len()
        invariant
            i <= bytes@.len(),
            out@ == hex_encode_spec(bytes@.take(i as int)),
        decreases bytes@.len() - i,
    {
        let byte = bytes[i];
        out.append(digit_str(byte / 16));
        out.append(digit_str(byte % 16));
        proof {
            assert(bytes@.take(i + 1).drop_last() =~= bytes@.take(i as int));
            assert(bytes@.take(i + 1).last() == byte);
        }
        i = i + 1;
    }
    assert(bytes@.take(bytes@.len() as int) =~= bytes@);
    out
}

} // verus!
