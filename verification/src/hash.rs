//! Content hashes of byte strings, written as lowercase hexadecimal.

use vstd::prelude::*;

verus! {

/// The SHA-256 digest of a byte string.
pub uninterp spec fn sha256(data: Seq<u8>) -> Seq<u8>;

/// The lowercase hexadecimal digit for a value below sixteen.
pub open spec fn hex_digit(n: int) -> char {
    if n == 0 {
        '0'
    } else if n == 1 {
        '1'
    } else if n == 2 {
        '2'
    } else if n == 3 {
        '3'
    } else if n == 4 {
        '4'
    } else if n == 5 {
        '5'
    } else if n == 6 {
        '6'
    } else if n == 7 {
        '7'
    } else if n == 8 {
        '8'
    } else if n == 9 {
        '9'
    } else if n == 10 {
        'a'
    } else if n == 11 {
        'b'
    } else if n == 12 {
        'c'
    } else if n == 13 {
        'd'
    } else if n == 14 {
        'e'
    } else {
        'f'
    }
}

/// Bytes written as hexadecimal text: two digits for each byte, the high
/// half first.
pub open spec fn hex_text(data: Seq<u8>) -> Seq<char> {
    Seq::new(
        2 * data.len(),
        |i: int|
            if i % 2 == 0 {
                hex_digit(data[i / 2] as int / 16)
            } else {
                hex_digit(data[i / 2] as int % 16)
            },
    )
}

/// Calls `sha2::Sha256::digest` (the `Digest` trait's one-shot function) and
/// copies the output into a vector. The result is the SHA-256 digest of
/// `data`, which this crate names [`sha256`] without spelling it out.
#[verifier::external_body]
fn sha256_digest(data: &[u8]) -> (r: Vec<u8>)
    ensures
        r@ == sha256(data@),
{
    let out = <sha2::Sha256 as sha2::Digest>::digest(data);
    out.to_vec()
}

/// Calls `hex::encode`. As that crate documents, each byte becomes two
/// lowercase hexadecimal digits, high half first, in the order of the bytes.
#[verifier::external_body]
fn hex_encode(data: &[u8]) -> (r: String)
    ensures
        r@ == hex_text(data@),
{
    hex::encode(data)
}

/// The SHA-256 digest of `data` as lowercase hexadecimal text.
pub fn compute_hash(data: &[u8]) -> (r: String)
    ensures
        r@ == hex_text(sha256(data@)),
{
    let digest = sha256_digest(data);
    hex_encode(digest.as_slice())
}

} // verus!
