//! Digests of streams of bytes, from the `blake3` and `md5` crates.
//!
//! Everything here is stated of outside code and believed without proof.
use md5::Digest;
use vstd::prelude::*;

verus! {

/// The running hash `blake3::Hasher`.
#[verifier::external_type_specification]
#[verifier::external_body]
pub struct ExBlake3Hasher(blake3::Hasher);

/// The bytes that a running BLAKE3 hash was fed.
pub uninterp spec fn blake3_fed(hasher: blake3::Hasher) -> Seq<u8>;

/// The BLAKE3 hash of the bytes.
pub uninterp spec fn blake3_of(bytes: Seq<u8>) -> Seq<u8>;

/// `blake3::Hasher::new` was fed nothing.
pub assume_specification[ blake3::Hasher::new ]() -> (hasher: blake3::Hasher)
    ensures
        blake3_fed(hasher) == Seq::<u8>::empty(),
;

/// `blake3::Hasher::update` feeds the bytes, after those fed before. The
/// length of all of them is counted in 64 bits.
#[verifier::external_body]
pub(crate) fn blake3_update(hasher: &mut blake3::Hasher, bytes: &[u8])
    requires
        blake3_fed(*old(hasher)).len() + bytes@.len() <= u64::MAX,
    ensures
        blake3_fed(*final(hasher)) == blake3_fed(*old(hasher)) + bytes@,
{
    hasher.update(bytes);
}

/// `blake3::Hasher::finalize` is the hash of the bytes fed.
#[verifier::external_body]
pub(crate) fn blake3_finalize(hasher: &blake3::Hasher) -> (hash: [u8; 32])
    ensures
        hash@ == blake3_of(blake3_fed(*hasher)),
{
    *hasher.finalize().as_bytes()
}

/// A running hash `md5::Md5`.
#[verifier::external_body]
pub struct Md5Hasher {
    hasher: md5::Md5,
}

/// The bytes that a running MD5 hash was fed.
pub uninterp spec fn md5_fed(hasher: Md5Hasher) -> Seq<u8>;

/// The MD5 hash of the bytes.
pub uninterp spec fn md5_of(bytes: Seq<u8>) -> Seq<u8>;

/// `md5::Md5::new` was fed nothing.
#[verifier::external_body]
pub(crate) fn md5_new() -> (hasher: Md5Hasher)
    ensures
        md5_fed(hasher) == Seq::<u8>::empty(),
{
    Md5Hasher { hasher: md5::Md5::new() }
}

/// `md5::Md5::update` feeds the bytes, after those fed before.
#[verifier::external_body]
pub(crate) fn md5_update(hasher: &mut Md5Hasher, bytes: &[u8])
    ensures
        md5_fed(*final(hasher)) == md5_fed(*old(hasher)) + bytes@,
{
    hasher.hasher.update(bytes);
}

/// `md5::Md5::finalize` is the hash of the bytes fed.
#[verifier::external_body]
pub(crate) fn md5_finalize(hasher: Md5Hasher) -> (hash: [u8; 16])
    ensures
        hash@ == md5_of(md5_fed(hasher)),
{
    hasher.hasher.finalize().into()
}

} // verus!
