//! Byte arrays as hexadecimal text, as they stand in files and messages.
use crate::bytes::array_from;
use crate::text::{hex_decode, hex_encode, hex_text, hex_value};
use vstd::prelude::*;
use vstd::utf8::encode_utf8;

verus! {

/// Why a text is not that of a byte array.
#[derive(Debug, Clone, Copy, PartialEq, Eq, Structural)]
pub enum HexError {
    NotHex,
    /// The text holds another number of bytes: this many.
    WrongLength(usize),
}

/// The text of a byte array.
pub fn serialize(data: &[u8]) -> (r: String)
    ensures
        r@ == hex_text(data@),
{
    hex_encode(data)
}

/// The byte array that a text holds.
pub fn deserialize<const N: usize>(text: &str) -> (r: Result<[u8; N], HexError>)
    ensures
        match (r, hex_value(encode_utf8(text@))) {
            (Ok(a), value) => value == Some(a@),
            (Err(HexError::NotHex), value) => value is None,
            (Err(HexError::WrongLength(n)), value) => value is Some && value->0.len() == n && n != N,
        },
{
    let bytes = match hex_decode(text) {
        Some(bytes) => bytes,
        None => return Err(HexError::NotHex),
    };
    if bytes.len() != N {
        return Err(HexError::WrongLength(bytes.len()));
    }
    let a: [u8; N] = array_from(bytes.as_slice());
    assert(a@ =~= bytes@);
    Ok(a)
}

} // verus!
