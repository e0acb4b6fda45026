//! The cryptographic primitives: AEGIS-128L and BLAKE3.
use vstd::prelude::*;

verus! {

/// What AEGIS-128L makes of a message: the ciphertext and the 16 byte tag, for a key, a
/// nonce, the message and the associated data.
pub uninterp spec fn aegis_sealed(
    key: Seq<u8>,
    nonce: Seq<u8>,
    message: Seq<u8>,
    ad: Seq<u8>,
) -> (Seq<u8>, Seq<u8>);

/// What AEGIS-128L makes of a ciphertext and a tag: the message, or nothing where the tag
/// does not match.
pub uninterp spec fn aegis_opened(
    key: Seq<u8>,
    nonce: Seq<u8>,
    ciphertext: Seq<u8>,
    tag: Seq<u8>,
    ad: Seq<u8>,
) -> Option<Seq<u8>>;

/// `aegis::aegis128l::Aegis128L::<16>::encrypt_in_place`: the message is replaced by a
/// ciphertext of the same length, and a tag is returned. Not proved here: which bytes these
/// are (they are a function of key, nonce, message and associated data), and that
/// decryption with the same key, nonce and associated data gives the message back.
#[verifier::external_body]
pub(crate) fn aegis_encrypt(
    key: &[u8; 16],
    nonce: &[u8; 16],
    message: &[u8],
    ad: &[u8],
) -> (sealed: (Vec<u8>, [u8; 16]))
    ensures
        (sealed.0@, sealed.1@) == aegis_sealed(key@, nonce@, message@, ad@),
        sealed.0@.len() == message@.len(),
        aegis_opened(key@, nonce@, sealed.0@, sealed.1@, ad@) == Some(message@),
{
    let mut buffer = message.to_vec();
    let tag = aegis::aegis128l::Aegis128L::<16>::new(key, nonce).encrypt_in_place(&mut buffer, ad);
    (buffer, tag)
}

/// `aegis::aegis128l::Aegis128L::<16>::decrypt_in_place`: the ciphertext is replaced by a
/// message of the same length, or refused where the tag does not match. Not proved here:
/// which message it is (it is a function of key, nonce, ciphertext, tag and associated
/// data), and when it is refused.
#[verifier::external_body]
pub(crate) fn aegis_decrypt(
    key: &[u8; 16],
    nonce: &[u8; 16],
    ciphertext: &[u8],
    tag: &[u8; 16],
    ad: &[u8],
) -> (opened: Option<Vec<u8>>)
    ensures
        match opened {
            Some(message) => {
                &&& aegis_opened(key@, nonce@, ciphertext@, tag@, ad@) == Some(message@)
                &&& message@.len() == ciphertext@.len()
            },
            None => aegis_opened(key@, nonce@, ciphertext@, tag@, ad@) is None,
        },
{
    let mut buffer = ciphertext.to_vec();
    let cipher = aegis::aegis128l::Aegis128L::<16>::new(key, nonce);
    match cipher.decrypt_in_place(&mut buffer, tag, ad) {
        Ok(()) => Some(buffer),
        Err(_) => None,
    }
}

/// The BLAKE3 hash of `input`, 32 bytes.
pub uninterp spec fn blake3_hash(input: Seq<u8>) -> Seq<u8>;

/// `blake3::hash`. Not proved here: which 32 bytes it returns; they are a function of the
/// input.
#[verifier::external_body]
pub(crate) fn hash(input: &[u8]) -> (digest: [u8; 32])
    ensures
        digest@ == blake3_hash(input@),
{
    *blake3::hash(input).as_bytes()
}

/// The byte at `index` of the extended output of BLAKE3 in keyed mode for the empty input.
pub uninterp spec fn blake3_keyed_stream(key: Seq<u8>, index: u64) -> u8;

/// `blake3::OutputReader::fill` on the extended output of `blake3::Hasher::new_keyed`,
/// from `position` on. Not proved here: which bytes the output holds; each one is a function
/// of the key and its index.
#[verifier::external_body]
pub(crate) fn keyed_stream(key: &[u8; 32], position: u64, len: usize) -> (bytes: Vec<u8>)
    requires
        position + len <= u64::MAX,
    ensures
        bytes@ == Seq::new(len as nat, |i: int| blake3_keyed_stream(key@, (position + i) as u64)),
{
    let mut bytes = vec![0u8; len];
    let mut reader = blake3::Hasher::new_keyed(key).finalize_xof();
    reader.set_position(position);
    reader.fill(&mut bytes);
    bytes
}

/// The 32 byte key that BLAKE3 derives from key material in a context.
pub uninterp spec fn blake3_derived(context: Seq<char>, material: Seq<u8>) -> Seq<u8>;

/// `blake3::derive_key`. Not proved here: which 32 bytes it returns; they are a function of
/// the context and the key material.
#[verifier::external_body]
pub(crate) fn derive_key(context: &str, material: &[u8]) -> (key: [u8; 32])
    ensures
        key@ == blake3_derived(context@, material@),
{
    blake3::derive_key(context, material)
}

/// The 32 byte BLAKE3 hash of `input` in keyed mode.
pub uninterp spec fn blake3_keyed(key: Seq<u8>, input: Seq<u8>) -> Seq<u8>;

/// `blake3::keyed_hash`. Not proved here: which 32 bytes it returns; they are a function of
/// the key and the input.
#[verifier::external_body]
pub(crate) fn keyed_hash(key: &[u8; 32], input: &[u8]) -> (digest: [u8; 32])
    ensures
        digest@ == blake3_keyed(key@, input@),
{
    *blake3::keyed_hash(key, input).as_bytes()
}

} // verus!
