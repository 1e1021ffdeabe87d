//! Authenticated encryption of one frame, from the `aes_gcm` crate.
use aes_gcm::aead::{AeadInPlace, KeyInit};
use aes_gcm::{Aes256Gcm, Nonce, Tag};
use bytes::BytesMut;
use vstd::prelude::*;

use crate::buffer::contents_mut;

verus! {

/// Most bytes that one call encrypts.
pub const MAX_PLAINTEXT: u64 = 0x10_0000_0000;

/// What AES-256-GCM makes of a plaintext under a key and a nonce, with no
/// associated data: the ciphertext and the tag.
pub uninterp spec fn gcm_sealed(key: Seq<u8>, nonce: Seq<u8>, plaintext: Seq<u8>) -> (
    Seq<u8>,
    Seq<u8>,
);

/// What AES-256-GCM makes of a ciphertext and a tag under a key and a nonce,
/// with no associated data: the plaintext, or nothing where the tag is not
/// that of the ciphertext.
pub uninterp spec fn gcm_opened(
    key: Seq<u8>,
    nonce: Seq<u8>,
    ciphertext: Seq<u8>,
    tag: Seq<u8>,
) -> Option<Seq<u8>>;

/// `Aes256Gcm::encrypt_in_place_detached` turns the buffer into the ciphertext
/// and returns the tag; it refuses exactly the buffers longer than
/// `MAX_PLAINTEXT` and leaves those as they are. Decrypting the ciphertext with
/// the tag, under the same key and nonce, gives the plaintext back.
#[verifier::external_body]
pub(crate) fn seal(key: &[u8; 32], nonce: &[u8; 12], buffer: &mut BytesMut) -> (sealed: Option<
    [u8; 16],
>)
    ensures
        sealed is Some <==> contents_mut(*old(buffer)).len() <= MAX_PLAINTEXT,
        sealed is None ==> contents_mut(*final(buffer)) == contents_mut(*old(buffer)),
        sealed matches Some(tag) ==> (contents_mut(*final(buffer)), tag@) == gcm_sealed(
            key@,
            nonce@,
            contents_mut(*old(buffer)),
        ),
        sealed is Some ==> contents_mut(*final(buffer)).len() == contents_mut(*old(buffer)).len(),
        sealed matches Some(tag) ==> gcm_opened(
            key@,
            nonce@,
            contents_mut(*final(buffer)),
            tag@,
        ) == Some(contents_mut(*old(buffer))),
{
    let cipher = Aes256Gcm::new(key.into());
    let tag = cipher.encrypt_in_place_detached(Nonce::from_slice(nonce), b"", buffer).ok()?;
    Some(tag.into())
}

/// `Aes256Gcm::decrypt_in_place_detached` turns the buffer into the plaintext
/// where the tag is that of the ciphertext, and leaves it as it is otherwise. A
/// tag of another length than 16 bytes would panic.
#[verifier::external_body]
pub(crate) fn open_sealed(
    key: &[u8; 32],
    nonce: &[u8; 12],
    buffer: &mut BytesMut,
    tag: &[u8],
) -> (opened: bool)
    requires
        tag@.len() == 16,
    ensures
        opened == gcm_opened(key@, nonce@, contents_mut(*old(buffer)), tag@) is Some,
        contents_mut(*final(buffer)).len() == contents_mut(*old(buffer)).len(),
        contents_mut(*final(buffer)) == (match gcm_opened(
            key@,
            nonce@,
            contents_mut(*old(buffer)),
            tag@,
        ) {
            Some(plaintext) => plaintext,
            None => contents_mut(*old(buffer)),
        }),
{
    let cipher = Aes256Gcm::new(key.into());
    cipher.decrypt_in_place_detached(Nonce::from_slice(nonce), b"", buffer, Tag::from_slice(tag)).is_ok()
}

} // verus!
