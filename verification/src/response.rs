//! The two forms in which a response carries a chain structure: as a
//! structured value, or as the hexadecimal text of its packed bytes.

use vstd::prelude::*;

verus! {

/// Selects the form of a response between a structured value and hex text.
pub enum ResponseFormat<V, P> {
    /// The structured value, serialized as it is.
    Json(V),
    /// The packed value. Its bytes are written as lowercase hexadecimal
    /// digits behind the prefix `0x`.
    Hex(P),
}

#[verifier::external_type_specification]
#[verifier::external_body]
pub struct ExHexError(faster_hex::Error);

/// The ASCII code of the lowercase hexadecimal digit for `nibble`.
pub open spec fn hex_digit(nibble: int) -> u8 {
    if nibble < 10 {
        (0x30 + nibble) as u8
    } else {
        (0x57 + nibble) as u8
    }
}

/// Two lowercase hexadecimal digits for each byte, the high nibble first.
pub open spec fn hex_digits(bytes: Seq<u8>) -> Seq<u8> {
    Seq::new(
        2 * bytes.len(),
        |i: int|
            if i % 2 == 0 {
                hex_digit(bytes[i / 2] as int / 16)
            } else {
                hex_digit(bytes[i / 2] as int % 16)
            },
    )
}

/// The text of a packed value: `0x`, then the digits of its bytes.
pub open spec fn hex_text_of(bytes: Seq<u8>) -> Seq<u8> {
    seq![0x30u8, 0x78u8] + hex_digits(bytes)
}

/// Calls `faster_hex::hex_encode` on `src` and `dst`. The claim: where `dst`
/// has room for two digits per byte of `src`, the call succeeds and writes
/// exactly the lowercase digits of `src` at the start of `dst`, leaving the
/// rest of `dst` as it was; where it has not, the call fails and leaves
/// `dst` unchanged.
#[verifier::external_body]
fn hex_encode(src: &[u8], dst: &mut Vec<u8>) -> (done: Result<(), faster_hex::Error>)
    ensures
        final(dst)@.len() == old(dst)@.len(),
        done is Ok <==> 2 * src@.len() <= old(dst)@.len(),
        done is Ok ==> final(dst)@ == hex_digits(src@) + old(dst)@.skip(2 * src@.len() as int),
        done is Err ==> final(dst)@ == old(dst)@,
{
    match faster_hex::hex_encode(src, dst.as_mut_slice()) {
        Ok(_) => Ok(()),
        Err(e) => Err(e),
    }
}

/// Writes `bytes` as text: the prefix `0x`, then two lowercase hexadecimal
/// digits for each byte.
pub fn hex_text(bytes: &[u8]) -> (text: Vec<u8>)
    requires
        2 * bytes.len() + 2 <= usize::MAX,
    ensures
        text@ == hex_text_of(bytes@),
{
    let mut digits: Vec<u8> = vec![0u8; bytes.len() * 2];
    match hex_encode(bytes, &mut digits) {
        Ok(()) => {
            let mut text: Vec<u8> = Vec::with_capacity(bytes.len() * 2 + 2);
            text.push(0x30u8);
            text.push(0x78u8);
            text.append(&mut digits);
            assert(text@ =~= hex_text_of(bytes@));
            text
        },
        Err(_) => unreached(),
    }
}

impl<V> ResponseFormat<V, Vec<u8>> {
    /// Replaces the bytes of a packed value by their text, and leaves a
    /// structured value as it is.
    pub fn into_text(self) -> (out: Self)
        requires
            self matches ResponseFormat::Hex(bytes) ==> 2 * bytes@.len() + 2 <= usize::MAX,
        ensures
            match (self, out) {
                (ResponseFormat::Json(v), ResponseFormat::Json(w)) => v == w,
                (ResponseFormat::Hex(bytes), ResponseFormat::Hex(text)) => text@ == hex_text_of(
                    bytes@,
                ),
                _ => false,
            },
    {
        match self {
            ResponseFormat::Json(v) => ResponseFormat::Json(v),
            ResponseFormat::Hex(bytes) => ResponseFormat::Hex(hex_text(bytes.as_slice())),
        }
    }
}

} // verus!
