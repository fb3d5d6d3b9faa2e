//! Content digests for change detection: an MD5 hex digest of a file's
//! bytes, obtained from the `crypto` crate behind one trusted wrapper.

use vstd::prelude::*;

verus! {

/// The digest of a byte string: the bytes of its MD5 hex representation.
/// The digest depends on the input bytes alone.
pub uninterp spec fn md5_hex_of(data: Seq<u8>) -> Seq<u8>;

/// `b` is an ASCII lowercase hexadecimal digit.
pub open spec fn is_hex_lower(b: u8) -> bool {
    (48 <= b <= 57) || (97 <= b <= 102)
}

/// A well-formed digest: 32 lowercase hexadecimal digits.
pub open spec fn hash_wf(h: Seq<u8>) -> bool {
    &&& h.len() == 32
    &&& forall|i: int| 0 <= i < h.len() ==> is_hex_lower(#[trigger] h[i])
}

/// Relies on `crypto::md5::Md5` with `Digest::input` and `Digest::result_str`:
/// the digest is a function of the input bytes alone, and `result_str` renders
/// the 128-bit result as 32 lowercase hexadecimal characters.
#[verifier::external_body]
fn md5_hex(data: &Vec<u8>) -> (r: Vec<u8>)
    ensures
        r@ == md5_hex_of(data@),
        hash_wf(r@),
{
    let mut h = crypto::md5::Md5::new();
    crypto::digest::Digest::input(&mut h, data.as_slice());
    crypto::digest::Digest::result_str(&mut h).into_bytes()
}

/// The digest of `data`, as 32 lowercase hexadecimal digit bytes.
pub fn digest_hex(data: &Vec<u8>) -> (r: Vec<u8>)
    ensures
        r@ == md5_hex_of(data@),
        hash_wf(r@),
{
    md5_hex(data)
}

/// A well-formed digest never holds a line terminator: every byte is a
/// hexadecimal digit.
pub proof fn lemma_hash_wf_no_newline(h: Seq<u8>)
    requires
        hash_wf(h),
    ensures
        !h.contains(10u8),
{
    if h.contains(10u8) {
        let k = choose|k: int| 0 <= k < h.len() && h[k] == 10u8;
        assert(is_hex_lower(h[k]));
    }
}

/// Re-hashing identical byte content always yields an identical digest.
pub proof fn lemma_digest_deterministic(a: Seq<u8>, b: Seq<u8>)
    requires
        a == b,
    ensures
        md5_hex_of(a) == md5_hex_of(b),
{
}

} // verus!
