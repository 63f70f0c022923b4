use sha2::Digest;
use vstd::prelude::*;

verus! {

/// The SHA-256 digest of a byte sequence, named but not defined here:
/// it is computed by an outside implementation and depends on the input alone.
pub uninterp spec fn sha_digest_of(data: Seq<u8>) -> Seq<u8>;

/// Relies on sha2::Sha256: the digest is a function of the input bytes alone
/// and is 32 bytes long.
#[verifier::external_body]
fn sha256_digest(data: &Vec<u8>) -> (r: Vec<u8>)
    ensures
        r@ == sha_digest_of(data@),
        r@.len() == 32,
{
    sha2::Sha256::digest(data.as_slice()).to_vec()
}

/// The lowercase hexadecimal digit for a value below 16.
pub open spec fn hex_digit(n: u8) -> u8
    recommends
        n < 16,
{
    if n < 10 {
        (48 + n) as u8
    } else {
        (87 + n) as u8
    }
}

/// The lowercase hexadecimal encoding of a byte sequence,
/// two digits per byte, high-order digit first.
pub open spec fn hex_of(data: Seq<u8>) -> Seq<u8>
    decreases data.len(),
{
    if data.len() == 0 {
        Seq::empty()
    } else {
        seq![hex_digit(data.first() / 16), hex_digit(data.first() % 16)] + hex_of(
            data.drop_first(),
        )
    }
}

pub proof fn lemma_hex_len(data: Seq<u8>)
    ensures
        hex_of(data).len() == 2 * data.len(),
    decreases data.len(),
{
    if data.len() > 0 {
        lemma_hex_len(data.drop_first());
    }
}

/// Relies on hex::encode: lowercase hexadecimal, two digits per byte,
/// high-order digit first.
#[verifier::external_body]
fn hex_lower(data: &Vec<u8>) -> (r: Vec<u8>)
    ensures
        r@ == hex_of(data@),
{
    hex::encode(data.as_slice()).into_bytes()
}

/// The hex-encoded SHA-256 digest of a byte sequence.
pub open spec fn digest_hex_of(data: Seq<u8>) -> Seq<u8> {
    hex_of(sha_digest_of(data))
}

/// Computes the content digest recorded for every resolved file:
/// the lowercase hex encoding of the SHA-256 hash of its raw bytes.
pub fn calculate_hash(content: &Vec<u8>) -> (r: Vec<u8>)
    ensures
        r@ == digest_hex_of(content@),
        r@.len() == 64,
{
    let d = sha256_digest(content);
    let r = hex_lower(&d);
    proof {
        lemma_hex_len(d@);
    }
    r
}

} // verus!
