use crate::constants::{ARGON_M_COST, ARGON_P_COST, ARGON_T_COST, AUTH_TAG_LEN, KEY_LEN, STREAM_NONCE_LEN};
use crate::error::PackError;
use chacha20poly1305::aead::generic_array::GenericArray;
use chacha20poly1305::aead::stream::{NewStream, StreamBE32, StreamPrimitive};
use chacha20poly1305::{KeyInit, XChaCha20Poly1305};
use vstd::prelude::*;
use vstd::utf8::encode_utf8;

verus! {

/// Errors of the `aead` crate (a unit struct: the operation failed).
#[verifier::external_type_specification]
#[verifier::external_body]
pub struct ExAeadError(chacha20poly1305::aead::Error);

/// Errors of the `argon2` crate.
#[verifier::external_type_specification]
#[verifier::external_body]
pub struct ExArgon2Error(argon2::Error);

/// Argon2 variants.
pub enum KdfAlgorithm {
    Argon2d,
    Argon2i,
    Argon2id,
}

/// Argon2 versions.
pub enum KdfVersion {
    V0x10,
    V0x13,
}

/// Whether `argon2::Params::new(m_cost, t_cost, p_cost, Some(out_len))`
/// accepts its arguments: at least 8 KiB of memory and 8 KiB per lane, at
/// least one pass, 1 to 0xFFFFFF lanes and 4 to 0xFFFFFFFF output bytes.
pub open spec fn argon2_params_valid(m_cost: u32, t_cost: u32, p_cost: u32, out_len: usize) -> bool {
    &&& m_cost >= 8
    &&& m_cost >= p_cost * 8
    &&& t_cost >= 1
    &&& 1 <= p_cost <= 0xFFFFFF
    &&& 4 <= out_len <= 0xFFFF_FFFF
}

/// The `out_len`-byte key Argon2 derives from `password` and `salt` with the
/// given variant, version and costs (no secret, no associated data), as a
/// function of its arguments.
pub uninterp spec fn argon2_key(
    algorithm: KdfAlgorithm,
    version: KdfVersion,
    m_cost: u32,
    t_cost: u32,
    p_cost: u32,
    password: Seq<u8>,
    salt: Seq<u8>,
    out_len: usize,
) -> Seq<u8>;

/// `argon2::Params::new(m_cost, t_cost, p_cost, Some(out_len))`, then
/// `argon2::Argon2::new(algorithm, version, params).hash_password_into` into
/// an `out_len`-byte buffer; the enums are converted one for one. The source
/// fails exactly when the parameters are refused (see
/// [`argon2_params_valid`]), the password is longer than 0xFFFFFFFF bytes or
/// the salt is outside 8..=0xFFFFFFFF bytes; that is claimed, and that the key
/// is [`argon2_key`] of the arguments. The source computes `p_cost * 8` in
/// `u32`, so lane counts for which that overflows are left out.
#[verifier::external_body]
fn argon2_hash(
    algorithm: KdfAlgorithm,
    version: KdfVersion,
    m_cost: u32,
    t_cost: u32,
    p_cost: u32,
    password: &[u8],
    salt: &[u8],
    out_len: usize,
) -> (r: Result<Vec<u8>, argon2::Error>)
    requires
        p_cost * 8 <= u32::MAX,
    ensures
        r is Ok <==> (argon2_params_valid(m_cost, t_cost, p_cost, out_len) && password@.len() <= 0xFFFF_FFFF && 8 <= salt@.len() <= 0xFFFF_FFFF),
        r matches Ok(k) ==> (k@.len() == out_len && k@ == argon2_key(algorithm, version, m_cost, t_cost, p_cost, password@, salt@, out_len)),
{
    let algorithm = match algorithm {
        KdfAlgorithm::Argon2d => argon2::Algorithm::Argon2d,
        KdfAlgorithm::Argon2i => argon2::Algorithm::Argon2i,
        KdfAlgorithm::Argon2id => argon2::Algorithm::Argon2id,
    };
    let version = match version {
        KdfVersion::V0x10 => argon2::Version::V0x10,
        KdfVersion::V0x13 => argon2::Version::V0x13,
    };
    let params = argon2::Params::new(m_cost, t_cost, p_cost, Some(out_len))?;
    let mut key = vec![0u8; out_len];
    argon2::Argon2::new(algorithm, version, params).hash_password_into(password, salt, &mut key)?;
    Ok(key)
}

/// The STREAM (big-endian 32-bit counter, one-byte last-block flag) sealing
/// of one chunk with XChaCha20-Poly1305 under `key` and the 19-byte STREAM
/// `nonce`, at `position`, as a function of its arguments.
pub uninterp spec fn stream_seal(
    key: Seq<u8>,
    nonce: Seq<u8>,
    position: u32,
    last: bool,
    plaintext: Seq<u8>,
) -> Seq<u8>;

/// Whether a chunk is short enough for ChaCha20-Poly1305 (fewer than
/// `u32::MAX` blocks of 64 bytes).
pub open spec fn sealable(plaintext: Seq<u8>) -> bool {
    plaintext.len() / 64 < 0xFFFF_FFFF
}

/// `StreamPrimitive::encrypt(position, last, plaintext)` of
/// `aead::stream::StreamBE32` over `XChaCha20Poly1305::new(key)` with the
/// given STREAM nonce (`NewStream::from_aead`). Claimed: the result is
/// [`stream_seal`] of the arguments, it is the plaintext's length plus a
/// 16-byte tag, and it fails exactly for a chunk too long for ChaCha20.
#[verifier::external_body]
fn stream_encrypt(key: &[u8], nonce: &[u8], position: u32, last: bool, plaintext: &[u8]) -> (r:
    Result<Vec<u8>, chacha20poly1305::aead::Error>)
    requires
        key@.len() == KEY_LEN,
        nonce@.len() == STREAM_NONCE_LEN,
    ensures
        r is Ok <==> sealable(plaintext@),
        r matches Ok(c) ==> c@ == stream_seal(key@, nonce@, position, last, plaintext@) && c@.len()
            == plaintext@.len() + AUTH_TAG_LEN,
{
    let aead = XChaCha20Poly1305::new(GenericArray::from_slice(key));
    let stream = StreamBE32::from_aead(aead, GenericArray::from_slice(nonce));
    stream.encrypt(position, last, plaintext)
}

/// `StreamPrimitive::decrypt(position, last, ciphertext)`, set up as in
/// [`stream_encrypt`]. Claimed, as the deterministic AEAD construction gives
/// it: what opens is a plaintext whose sealing is the ciphertext, and the
/// sealing of any sealable plaintext opens to that plaintext.
#[verifier::external_body]
fn stream_decrypt(key: &[u8], nonce: &[u8], position: u32, last: bool, ciphertext: &[u8]) -> (r:
    Result<Vec<u8>, chacha20poly1305::aead::Error>)
    requires
        key@.len() == KEY_LEN,
        nonce@.len() == STREAM_NONCE_LEN,
    ensures
        r matches Ok(p) ==> ciphertext@ == stream_seal(key@, nonce@, position, last, p@)
            && sealable(p@) && p@.len() + AUTH_TAG_LEN == ciphertext@.len(),
        r matches Ok(p) ==> forall|m: Seq<u8>|
            sealable(m) && #[trigger] stream_seal(key@, nonce@, position, last, m) == ciphertext@
                ==> m == p@,
        r is Err ==> forall|m: Seq<u8>|
            sealable(m) ==> #[trigger] stream_seal(key@, nonce@, position, last, m) != ciphertext@,
{
    let aead = XChaCha20Poly1305::new(GenericArray::from_slice(key));
    let stream = StreamBE32::from_aead(aead, GenericArray::from_slice(nonce));
    stream.decrypt(position, last, ciphertext)
}

/// The archive key for a password (as UTF-8 bytes) and salt: Argon2id,
/// version 0x13, the library's fixed costs, `KEY_LEN` bytes.
pub open spec fn derived_key(password: Seq<u8>, salt: Seq<u8>) -> Seq<u8> {
    argon2_key(
        KdfAlgorithm::Argon2id,
        KdfVersion::V0x13,
        ARGON_M_COST,
        ARGON_T_COST,
        ARGON_P_COST,
        password,
        salt,
        KEY_LEN,
    )
}

/// Derives the archive key from a password and salt (see [`derived_key`]).
/// The fixed costs are always accepted, so this succeeds exactly when the
/// salt holds 8 to 0xFFFFFFFF bytes and the password at most 0xFFFFFFFF
/// bytes.
pub fn cipher_from_password(password: &str, salt: &[u8]) -> (r: Result<Vec<u8>, PackError>)
    ensures
        r is Ok <==> 8 <= salt@.len() <= 0xFFFF_FFFF && encode_utf8(password@).len()
            <= 0xFFFF_FFFF,
        r matches Ok(k) ==> k@ == derived_key(encode_utf8(password@), salt@) && k@.len()
            == KEY_LEN,
        r matches Err(e) ==> e == PackError::KeyDerivation,
{
    let key = argon2_hash(
        KdfAlgorithm::Argon2id,
        KdfVersion::V0x13,
        ARGON_M_COST,
        ARGON_T_COST,
        ARGON_P_COST,
        password.as_bytes(),
        salt,
        KEY_LEN,
    );
    match key {
        Ok(k) => Ok(k),
        Err(_) => Err(PackError::KeyDerivation),
    }
}

/// Seals one chunk (see [`stream_encrypt`]).
pub(crate) fn seal_chunk(key: &Vec<u8>, nonce: &Vec<u8>, position: u32, last: bool, chunk: &[u8]) -> (r:
    Result<Vec<u8>, PackError>)
    requires
        key@.len() == KEY_LEN,
        nonce@.len() == STREAM_NONCE_LEN,
    ensures
        r is Ok <==> sealable(chunk@),
        r matches Ok(c) ==> c@ == stream_seal(key@, nonce@, position, last, chunk@) && c@.len()
            == chunk@.len() + AUTH_TAG_LEN,
        r matches Err(e) ==> e == PackError::Encryption,
{
    match stream_encrypt(key.as_slice(), nonce.as_slice(), position, last, chunk) {
        Ok(c) => Ok(c),
        Err(_) => Err(PackError::Encryption),
    }
}

/// Opens one chunk (see [`stream_decrypt`]).
pub(crate) fn open_chunk(key: &Vec<u8>, nonce: &Vec<u8>, position: u32, last: bool, chunk: &[u8]) -> (r:
    Result<Vec<u8>, PackError>)
    requires
        key@.len() == KEY_LEN,
        nonce@.len() == STREAM_NONCE_LEN,
    ensures
        r matches Ok(p) ==> chunk@ == stream_seal(key@, nonce@, position, last, p@) && sealable(p@)
            && p@.len() + AUTH_TAG_LEN == chunk@.len(),
        forall|m: Seq<u8>|
            sealable(m) && #[trigger] stream_seal(key@, nonce@, position, last, m) == chunk@ ==> (
            r matches Ok(p) && p@ == m),
        r matches Err(e) ==> e == PackError::Decryption,
{
    match stream_decrypt(key.as_slice(), nonce.as_slice(), position, last, chunk) {
        Ok(p) => Ok(p),
        Err(_) => Err(PackError::Decryption),
    }
}

} // verus!
