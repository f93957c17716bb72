//! Content digests and the hexadecimal rendering used by the persisted index.
use vstd::prelude::*;

verus! {

/// The 32-byte content digest of a byte sequence, as the digest function
/// computes it. The result depends on the bytes alone.
pub uninterp spec fn digest_of(bytes: Seq<u8>) -> Seq<u8>;

/// The lowercase hexadecimal digit for a value below 16.
pub open spec fn hex_digit(v: u8) -> u8 {
    if v < 10 {
        (48 + v) as u8
    } else {
        (87 + v) as u8
    }
}

/// The value of a hexadecimal digit byte (either case); 0 on other bytes.
pub open spec fn hex_val(c: u8) -> u8 {
    if 48 <= c <= 57 {
        (c - 48) as u8
    } else if 97 <= c <= 102 {
        (c - 87) as u8
    } else if 65 <= c <= 70 {
        (c - 55) as u8
    } else {
        0
    }
}

pub open spec fn is_hex_digit(c: u8) -> bool {
    (48 <= c <= 57) || (97 <= c <= 102) || (65 <= c <= 70)
}

/// Lowercase hexadecimal rendering: two digit bytes per input byte.
pub open spec fn hex_of(bytes: Seq<u8>) -> Seq<u8> {
    Seq::new(
        bytes.len() * 2,
        |i: int|
            if i % 2 == 0 {
                hex_digit(bytes[i / 2] >> 4)
            } else {
                hex_digit(bytes[i / 2] & 15)
            },
    )
}

/// An even-length sequence of hexadecimal digit bytes.
pub open spec fn valid_hex(s: Seq<u8>) -> bool {
    &&& s.len() % 2 == 0
    &&& forall|i: int| 0 <= i < s.len() ==> is_hex_digit(#[trigger] s[i])
}

/// The bytes a valid hexadecimal rendering stands for.
pub open spec fn unhex_of(s: Seq<u8>) -> Seq<u8> {
    Seq::new(s.len() / 2, |i: int| (hex_val(s[2 * i]) * 16 + hex_val(s[2 * i + 1])) as u8)
}

/// Rendering to hexadecimal and reading it back gives the original bytes.
pub proof fn lemma_hex_round_trip(bytes: Seq<u8>)
    ensures
        hex_of(bytes).len() == bytes.len() * 2,
        valid_hex(hex_of(bytes)),
        unhex_of(hex_of(bytes)) == bytes,
{
    let h = hex_of(bytes);
    assert forall|i: int| 0 <= i < h.len() implies is_hex_digit(#[trigger] h[i]) by {
        let b = bytes[i / 2];
        assert((b >> 4) < 16 && (b & 15) < 16) by (bit_vector);
    }
    assert forall|i: int| 0 <= i < bytes.len() implies unhex_of(h)[i] == bytes[i] by {
        let b = bytes[i];
        assert(h[2 * i] == hex_digit(b >> 4));
        assert(h[2 * i + 1] == hex_digit(b & 15));
        assert((b >> 4) < 16 && (b & 15) < 16) by (bit_vector);
        assert(((b >> 4) as int) * 16 + ((b & 15) as int) == b as int) by (bit_vector);
    }
    assert(unhex_of(h) =~= bytes);
}

/// Relies on hex::encode: two lowercase hexadecimal digits per input byte,
/// in input order.
#[verifier::external_body]
pub fn to_hex(data: &[u8]) -> (r: Vec<u8>)
    ensures
        r@ == hex_of(data@),
{
    hex::encode(data).into_bytes()
}

/// Relies on hex::decode: succeeds exactly on even-length input whose bytes
/// are hexadecimal digits of either case, and then returns the bytes they
/// stand for.
#[verifier::external_body]
pub fn from_hex(data: &[u8]) -> (r: Option<Vec<u8>>)
    ensures
        (r is Some) <==> valid_hex(data@),
        r matches Some(b) ==> b@ == unhex_of(data@),
{
    hex::decode(data).ok()
}

} // verus!
