//! Parse trees: what a grammar-driven parser hands over.

use vstd::prelude::*;

verus! {

/// One node of a parse tree: the rule that matched, the text it matched,
/// and the nodes of the rules that matched inside it, in order.
#[derive(Debug)]
pub struct Node<R> {
    pub rule: R,
    pub text: String,
    pub children: Vec<Node<R>>,
}

/// The tree is not of the shape that the readers of this library expect.
#[derive(Debug, Clone, Copy, PartialEq, Eq, Structural)]
pub struct Malformed;

/// The value of a lower-case hexadecimal digit.
pub open spec fn hex_value(digit: u8) -> Option<u8> {
    if 0x30 <= digit <= 0x39 {
        Some((digit - 0x30) as u8)
    } else if 0x61 <= digit <= 0x66 {
        Some((digit - 0x61 + 10) as u8)
    } else {
        None
    }
}

/// The symbol that a symbol token stands for. A token of three bytes is a
/// symbol between two delimiters; one of five bytes holds two hexadecimal
/// digits at its third and fourth place.
pub open spec fn char_of(bytes: Seq<u8>) -> Result<u8, Malformed> {
    if bytes.len() == 3 {
        Ok(bytes[1])
    } else if bytes.len() == 5 {
        match (hex_value(bytes[2]), hex_value(bytes[3])) {
            (Some(high), Some(low)) => Ok((high * 16 + low) as u8),
            _ => Err(Malformed),
        }
    } else {
        Err(Malformed)
    }
}

/// Reads one lower-case hexadecimal digit.
fn hex_digit(digit: u8) -> (out: Option<u8>)
    ensures
        out == hex_value(digit),
        out is Some ==> out->Some_0 < 16,
{
    if 0x30 <= digit && digit <= 0x39 {
        Some(digit - 0x30)
    } else if 0x61 <= digit && digit <= 0x66 {
        Some(digit - 0x61 + 10)
    } else {
        None
    }
}

/// Reads a symbol token.
pub fn parse_char(bytes: &[u8]) -> (out: Result<u8, Malformed>)
    ensures
        out == char_of(bytes@),
{
    if bytes.len() == 3 {
        Ok(bytes[1])
    } else if bytes.len() == 5 {
        match (hex_digit(bytes[2]), hex_digit(bytes[3])) {
            (Some(high), Some(low)) => Ok(high * 16 + low),
            _ => Err(Malformed),
        }
    } else {
        Err(Malformed)
    }
}

/// The bytes of a text.
pub open spec fn bytes_of(text: String) -> Seq<u8> {
    vstd::utf8::encode_utf8(text@)
}

} // verus!
