//! The cryptographic primitives of the database format. Each is computed by
//! an outside crate; the results are named, not restated.
use vstd::prelude::*;
use sha2::Digest;
use hmac::Mac;
use twofish::cipher::{BlockDecrypt, BlockDecryptMut, BlockEncrypt, BlockEncryptMut, KeyInit, KeyIvInit};
use rand::RngCore;

verus! {

/// SHA-256 of a byte string.
pub uninterp spec fn sha256_of(data: Seq<u8>) -> Seq<u8>;

/// Each byte of `a` combined by exclusive or with the byte `b`.
pub open spec fn xor_byte(a: Seq<u8>, b: u8) -> Seq<u8> {
    Seq::new(a.len(), |i: int| a[i] ^ b)
}

/// Two byte strings combined by exclusive or, up to the first one's length.
pub open spec fn xor_bytes(a: Seq<u8>, b: Seq<u8>) -> Seq<u8> {
    Seq::new(a.len(), |i: int| a[i] ^ b[i])
}

/// HMAC-SHA-256 of `msg` under `key` (RFC 2104 over 64-byte blocks): a key
/// longer than a block is digested first, the key is padded with zeros to a
/// block, and the inner and outer pads are 0x36 and 0x5c.
pub open spec fn hmac_sha256_of(key: Seq<u8>, msg: Seq<u8>) -> Seq<u8> {
    let k0 = if key.len() > 64 { sha256_of(key) } else { key };
    let kp = k0 + Seq::new((64 - k0.len()) as nat, |i: int| 0u8);
    sha256_of(xor_byte(kp, 0x5c) + sha256_of(xor_byte(kp, 0x36) + msg))
}

/// Twofish encryption of one 16-byte block.
pub uninterp spec fn twofish_enc_of(key: Seq<u8>, block: Seq<u8>) -> Seq<u8>;

/// Twofish decryption of one 16-byte block.
pub uninterp spec fn twofish_dec_of(key: Seq<u8>, block: Seq<u8>) -> Seq<u8>;

/// Twofish in CBC mode, encrypting whole blocks: each plaintext block is
/// combined with the previous ciphertext block (the initial vector first),
/// then encrypted.
pub open spec fn cbc_enc_of(key: Seq<u8>, iv: Seq<u8>, data: Seq<u8>) -> Seq<u8>
    decreases data.len(),
{
    if data.len() < 16 {
        Seq::empty()
    } else {
        let c = twofish_enc_of(key, xor_bytes(data.subrange(0, 16), iv));
        c + cbc_enc_of(key, c, data.subrange(16, data.len() as int))
    }
}

/// Twofish in CBC mode, decrypting whole blocks: each ciphertext block is
/// decrypted, then combined with the previous ciphertext block (the initial
/// vector first).
pub open spec fn cbc_dec_of(key: Seq<u8>, iv: Seq<u8>, data: Seq<u8>) -> Seq<u8>
    decreases data.len(),
{
    if data.len() < 16 {
        Seq::empty()
    } else {
        let c = data.subrange(0, 16);
        xor_bytes(twofish_dec_of(key, c), iv) + cbc_dec_of(key, c, data.subrange(16, data.len() as int))
    }
}

/// Relies on sha2::Sha256::digest: a 32-byte digest that depends on the data alone.
#[verifier::external_body]
pub(crate) fn sha256(data: &[u8]) -> (r: Vec<u8>)
    ensures
        r@ == sha256_of(data@),
        r@.len() == 32,
{
    sha2::Sha256::digest(data).to_vec()
}

/// Relies on hmac::Hmac<Sha256> (new_from_slice, update, finalize): HMAC accepts a
/// key of any length and gives the 32-byte tag of RFC 2104 over SHA-256.
#[verifier::external_body]
pub(crate) fn hmac_sha256(key: &[u8], msg: &[u8]) -> (r: Vec<u8>)
    ensures
        r@ == hmac_sha256_of(key@, msg@),
        r@.len() == 32,
{
    let mut mac = <hmac::Hmac<sha2::Sha256> as Mac>::new_from_slice(key).unwrap();
    mac.update(msg);
    mac.finalize().into_bytes().to_vec()
}

/// Relies on twofish::Twofish (new_from_slice, encrypt_block): a 32-byte key is
/// accepted, and a block maps to a block.
#[verifier::external_body]
pub(crate) fn twofish_encrypt_block(key: &[u8], block: &[u8]) -> (r: Vec<u8>)
    requires
        key@.len() == 32,
        block@.len() == 16,
    ensures
        r@ == twofish_enc_of(key@, block@),
        r@.len() == 16,
{
    let cipher = twofish::Twofish::new_from_slice(key).unwrap();
    let mut b = twofish::cipher::Block::<twofish::Twofish>::clone_from_slice(block);
    cipher.encrypt_block(&mut b);
    b.to_vec()
}

/// Relies on twofish::Twofish (new_from_slice, decrypt_block): a 32-byte key is
/// accepted, and a block maps to a block.
#[verifier::external_body]
pub(crate) fn twofish_decrypt_block(key: &[u8], block: &[u8]) -> (r: Vec<u8>)
    requires
        key@.len() == 32,
        block@.len() == 16,
    ensures
        r@ == twofish_dec_of(key@, block@),
        r@.len() == 16,
{
    let cipher = twofish::Twofish::new_from_slice(key).unwrap();
    let mut b = twofish::cipher::Block::<twofish::Twofish>::clone_from_slice(block);
    cipher.decrypt_block(&mut b);
    b.to_vec()
}

/// Relies on cbc::Encryptor<Twofish> (new_from_slices, encrypt_padded_mut with
/// block_padding::ZeroPadding): on whole blocks nothing is padded, and the
/// ciphertext is CBC chaining over Twofish block encryption.
#[verifier::external_body]
pub(crate) fn cbc_encrypt(key: &[u8], iv: &[u8], data: &[u8]) -> (r: Vec<u8>)
    requires
        key@.len() == 32,
        iv@.len() == 16,
        data@.len() % 16 == 0,
    ensures
        r@ == cbc_enc_of(key@, iv@, data@),
        r@.len() == data@.len(),
{
    let mut buf = data.to_vec();
    let n = buf.len();
    let cipher = cbc::Encryptor::<twofish::Twofish>::new_from_slices(key, iv).unwrap();
    let _ = cipher.encrypt_padded_mut::<block_padding::ZeroPadding>(&mut buf, n);
    buf
}

/// Relies on cbc::Decryptor<Twofish> (new_from_slices, decrypt_padded_mut with
/// block_padding::ZeroPadding): every block is decrypted in place by CBC
/// chaining over Twofish block decryption.
#[verifier::external_body]
pub(crate) fn cbc_decrypt(key: &[u8], iv: &[u8], data: &[u8]) -> (r: Vec<u8>)
    requires
        key@.len() == 32,
        iv@.len() == 16,
        data@.len() % 16 == 0,
    ensures
        r@ == cbc_dec_of(key@, iv@, data@),
        r@.len() == data@.len(),
{
    let mut buf = data.to_vec();
    let cipher = cbc::Decryptor::<twofish::Twofish>::new_from_slices(key, iv).unwrap();
    let _ = cipher.decrypt_padded_mut::<block_padding::ZeroPadding>(&mut buf);
    buf
}

/// Relies on rand::rngs::OsRng::fill_bytes: `n` bytes from the operating system's
/// random source. Nothing is known of their values.
#[verifier::external_body]
pub(crate) fn random_bytes(n: usize) -> (r: Vec<u8>)
    ensures
        r@.len() == n,
{
    let mut buf = vec![0u8; n];
    rand::rngs::OsRng.fill_bytes(&mut buf);
    buf
}

} // verus!
