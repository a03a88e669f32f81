//! The envelope codec: a passphrase and a random salt give a key, the key and
//! a random nonce seal a payload, and salt, nonce and sealed payload are
//! framed into one blob.
//!
//! The cryptography itself is done by `argon2`, `chacha20poly1305`, `base64`
//! and `rand`. Each call into them goes through one small function whose
//! contract is taken on trust; what those calls return is named by the
//! uninterpreted functions below, and everything around them is proved.

use argon2::PasswordHasher;
use base64::Engine;
use chacha20poly1305::aead::Aead;
use chacha20poly1305::KeyInit;
use rand::RngCore;
use vstd::prelude::*;
use vstd::slice::{slice_subrange, slice_to_vec};
use vstd::string::StringSliceAdditionalSpecFns;
use vstd::utf8::{decode_utf8, encode_utf8, valid_utf8};

verus! {

/// Bytes of salt at the head of an envelope.
pub const SALT_LEN: usize = 16;

/// Bytes of nonce after the salt.
pub const NONCE_LEN: usize = 12;

/// Bytes of salt and nonce together: the least an envelope can hold.
pub const HEADER_LEN: usize = 28;

/// Bytes of the symmetric key.
pub const KEY_LEN: usize = 32;

/// Bytes of authentication tag that sealing appends to the payload.
pub const TAG_LEN: usize = 16;

/// Why sealing or opening failed.
#[derive(Clone, Copy, Debug, PartialEq, Eq, Structural)]
pub enum CryptoError {
    /// The operating system's random source gave nothing.
    Random,
    /// No key could be derived from the passphrase and salt.
    KeyDerivation,
    /// The cipher refused the payload.
    Encryption,
    /// The blob is shorter than salt and nonce together.
    Truncated,
    /// The tag does not verify: a wrong passphrase or altered data.
    Authentication,
    /// A sealed field is not base64 text, or does not open to UTF-8 text.
    Malformed,
    /// A sealed field would be longer than a text can be.
    TooLarge,
}

/// `rand::Error`, carried from the call to where it is mapped.
#[verifier::external_type_specification]
#[verifier::external_body]
pub struct ExRandError(rand::Error);

/// `argon2::password_hash::Error`, carried from the call to where it is mapped.
#[verifier::external_type_specification]
#[verifier::external_body]
pub struct ExPasswordHashError(argon2::password_hash::Error);

/// `chacha20poly1305::aead::Error`, carried from the call to where it is mapped.
#[verifier::external_type_specification]
#[verifier::external_body]
pub struct ExAeadError(chacha20poly1305::aead::Error);

/// `base64::DecodeError`, carried from the call to where it is mapped.
#[verifier::external_type_specification]
#[verifier::external_body]
pub struct ExDecodeError(base64::DecodeError);

/// `std::string::FromUtf8Error`, carried from the call to where it is mapped.
#[verifier::external_type_specification]
#[verifier::external_body]
pub struct ExFromUtf8Error(std::string::FromUtf8Error);

/// The text that the standard base64 engine without padding gives for `bytes`.
pub uninterp spec fn base64_unpadded(bytes: Seq<u8>) -> Seq<char>;

/// The text that the standard base64 engine with padding gives for `bytes`.
pub uninterp spec fn base64_padded(bytes: Seq<u8>) -> Seq<char>;

/// The bytes that the standard base64 engine with padding reads from `text`,
/// where it accepts `text`.
pub uninterp spec fn base64_decoded(text: Seq<char>) -> Option<Seq<u8>>;

/// The Argon2 hash (default parameters) of `password` under the salt written
/// as `salt_text`, where the salt is accepted and hashing succeeds.
pub uninterp spec fn argon2_hash(password: Seq<char>, salt_text: Seq<char>) -> Option<Seq<u8>>;

/// ChaCha20-Poly1305 of `plaintext` under `key` and `nonce`: ciphertext and
/// tag, where the cipher accepts the payload.
pub uninterp spec fn aead_sealed(key: Seq<u8>, nonce: Seq<u8>, plaintext: Seq<u8>) -> Option<
    Seq<u8>,
>;

/// The plaintext that ChaCha20-Poly1305 under `key` and `nonce` recovers from
/// `sealed`, where the tag verifies.
pub uninterp spec fn aead_opened(key: Seq<u8>, nonce: Seq<u8>, sealed: Seq<u8>) -> Option<
    Seq<u8>,
>;

/// Calls `rand::rngs::OsRng.try_fill_bytes` on a new buffer of `len` bytes.
/// Claims only the length of what comes back: the bytes are the operating
/// system's, and differ from call to call.
#[verifier::external_body]
fn random_bytes(len: usize) -> (r: Result<Vec<u8>, rand::Error>)
    ensures
        r matches Ok(v) ==> v@.len() == len,
{
    let mut buf = vec![0u8; len];
    rand::rngs::OsRng.try_fill_bytes(&mut buf).map(|_| buf)
}

/// Calls `base64::engine::general_purpose::STANDARD_NO_PAD.encode`. Claims
/// that the text depends on the bytes alone. The call panics where the encoded
/// length overflows `usize`; the precondition leaves those inputs out.
#[verifier::external_body]
fn encode_unpadded(bytes: &[u8]) -> (text: String)
    requires
        (bytes@.len() / 3 + 1) * 4 <= usize::MAX,
    ensures
        text@ == base64_unpadded(bytes@),
{
    base64::engine::general_purpose::STANDARD_NO_PAD.encode(bytes)
}

/// Calls `base64::engine::general_purpose::STANDARD.encode`. Claims that the
/// text depends on the bytes alone, and that the same engine decodes the text
/// to the bytes it was made from. The call panics where the encoded length
/// overflows `usize`; the precondition leaves those inputs out.
#[verifier::external_body]
fn encode_padded(bytes: &[u8]) -> (text: String)
    requires
        (bytes@.len() / 3 + 1) * 4 <= usize::MAX,
    ensures
        text@ == base64_padded(bytes@),
        base64_decoded(text@) == Some(bytes@),
{
    base64::engine::general_purpose::STANDARD.encode(bytes)
}

/// Calls `base64::engine::general_purpose::STANDARD.decode`. Claims that
/// success and the decoded bytes depend on the text alone.
#[verifier::external_body]
fn decode_padded(text: &str) -> (r: Result<Vec<u8>, base64::DecodeError>)
    ensures
        match r {
            Ok(bytes) => base64_decoded(text@) == Some(bytes@),
            Err(_) => base64_decoded(text@) is None,
        },
{
    base64::engine::general_purpose::STANDARD.decode(text)
}

/// Calls `Argon2::default().hash_password` with the salt that
/// `SaltString::from_b64` reads from `salt_text`, and hands out the bytes of
/// the hash. Claims that the outcome depends on the password and the salt text
/// alone.
#[verifier::external_body]
fn hash_password(password: &str, salt_text: &str) -> (r: Result<
    Option<Vec<u8>>,
    argon2::password_hash::Error,
>)
    ensures
        match r {
            Ok(Some(hash)) => argon2_hash(password@, salt_text@) == Some(hash@),
            _ => argon2_hash(password@, salt_text@) is None,
        },
{
    let salt = argon2::password_hash::SaltString::from_b64(salt_text)?;
    let hashed = argon2::Argon2::default().hash_password(password.as_bytes(), &salt)?;
    Ok(hashed.hash.map(|output| output.as_bytes().to_vec()))
}

/// Calls `ChaCha20Poly1305::new(key).encrypt(nonce, plaintext)`. Claims that
/// the outcome depends on key, nonce and plaintext alone; that the result is
/// the plaintext's length plus a 16-byte tag; and that the same key and nonce
/// open it to the plaintext again. Key and nonce must have the cipher's
/// sizes: the call panics on others.
#[verifier::external_body]
fn aead_seal(key: &[u8], nonce: &[u8], plaintext: &[u8]) -> (r: Result<
    Vec<u8>,
    chacha20poly1305::aead::Error,
>)
    requires
        key@.len() == KEY_LEN,
        nonce@.len() == NONCE_LEN,
    ensures
        match r {
            Ok(sealed) => {
                &&& aead_sealed(key@, nonce@, plaintext@) == Some(sealed@)
                &&& sealed@.len() == plaintext@.len() + TAG_LEN
                &&& aead_opened(key@, nonce@, sealed@) == Some(plaintext@)
            },
            Err(_) => aead_sealed(key@, nonce@, plaintext@) is None,
        },
{
    let cipher = chacha20poly1305::ChaCha20Poly1305::new(chacha20poly1305::Key::from_slice(key));
    cipher.encrypt(chacha20poly1305::Nonce::from_slice(nonce), plaintext)
}

/// Calls `ChaCha20Poly1305::new(key).decrypt(nonce, sealed)`. Claims that the
/// outcome depends on key, nonce and sealed bytes alone, and that what opens
/// is 16 bytes (the tag) shorter than what was sealed. Key and nonce must have
/// the cipher's sizes: the call panics on others.
#[verifier::external_body]
fn aead_open(key: &[u8], nonce: &[u8], sealed: &[u8]) -> (r: Result<
    Vec<u8>,
    chacha20poly1305::aead::Error,
>)
    requires
        key@.len() == KEY_LEN,
        nonce@.len() == NONCE_LEN,
    ensures
        match r {
            Ok(plaintext) => {
                &&& aead_opened(key@, nonce@, sealed@) == Some(plaintext@)
                &&& sealed@.len() == plaintext@.len() + TAG_LEN
            },
            Err(_) => aead_opened(key@, nonce@, sealed@) is None,
        },
{
    let cipher = chacha20poly1305::ChaCha20Poly1305::new(chacha20poly1305::Key::from_slice(key));
    cipher.decrypt(chacha20poly1305::Nonce::from_slice(nonce), sealed)
}

/// Calls `String::from_utf8`. Claims what its documentation says: it succeeds
/// exactly on valid UTF-8, and the text is the one the bytes encode.
#[verifier::external_body]
fn text_from_utf8(bytes: Vec<u8>) -> (r: Result<String, std::string::FromUtf8Error>)
    ensures
        r is Ok <==> valid_utf8(bytes@),
        r matches Ok(text) ==> text@ == decode_utf8(bytes@),
{
    String::from_utf8(bytes)
}

/// A hash cut or zero-filled to the 32 bytes of a key.
pub open spec fn padded_key(hash: Seq<u8>) -> Seq<u8> {
    Seq::new(
        KEY_LEN as nat,
        |i: int|
            if i < hash.len() {
                hash[i]
            } else {
                0u8
            },
    )
}

/// The key that `password` and `salt` give.
pub open spec fn derived_key(password: Seq<char>, salt: Seq<u8>) -> Option<Seq<u8>> {
    match argon2_hash(password, base64_unpadded(salt)) {
        Some(hash) => Some(padded_key(hash)),
        None => None,
    }
}

/// The envelope that sealing `payload` under `password` gives when the random
/// source hands out `salt` and `nonce`: salt, nonce and sealed payload, in
/// that order.
pub open spec fn sealed_with(
    payload: Seq<u8>,
    password: Seq<char>,
    salt: Seq<u8>,
    nonce: Seq<u8>,
) -> Result<Seq<u8>, CryptoError> {
    match derived_key(password, salt) {
        None => Err(CryptoError::KeyDerivation),
        Some(key) => match aead_sealed(key, nonce, payload) {
            Some(sealed) => Ok(salt + nonce + sealed),
            None => Err(CryptoError::Encryption),
        },
    }
}

/// What opening the envelope `bytes` under `password` gives.
pub open spec fn opened(bytes: Seq<u8>, password: Seq<char>) -> Result<Seq<u8>, CryptoError> {
    if bytes.len() < HEADER_LEN {
        Err(CryptoError::Truncated)
    } else {
        match derived_key(password, bytes.subrange(0, SALT_LEN as int)) {
            None => Err(CryptoError::KeyDerivation),
            Some(key) => match aead_opened(
                key,
                bytes.subrange(SALT_LEN as int, HEADER_LEN as int),
                bytes.subrange(HEADER_LEN as int, bytes.len() as int),
            ) {
                Some(payload) => Ok(payload),
                None => Err(CryptoError::Authentication),
            },
        }
    }
}

/// What opening the sealed field `text` under `password` gives.
pub open spec fn entry_opened(text: Seq<char>, password: Seq<char>) -> Result<
    Seq<char>,
    CryptoError,
> {
    match base64_decoded(text) {
        None => Err(CryptoError::Malformed),
        Some(blob) => match opened(blob, password) {
            Err(e) => Err(e),
            Ok(payload) => if valid_utf8(payload) {
                Ok(decode_utf8(payload))
            } else {
                Err(CryptoError::Malformed)
            },
        },
    }
}

/// A field of `field_len` bytes is too long to seal: the base64 text of its
/// envelope would not fit a `usize`.
pub open spec fn field_too_large(field_len: nat) -> bool {
    ((field_len + HEADER_LEN + TAG_LEN) / 3 + 1) * 4 > usize::MAX
}

/// Sealing `payload` under `password` can fail with `e`: the random source
/// gives nothing, or for some salt and nonce that it hands out no key is
/// derived or the cipher refuses the payload.
pub open spec fn sealing_fails(payload: Seq<u8>, password: Seq<char>, e: CryptoError) -> bool {
    e == CryptoError::Random || exists|salt: Seq<u8>, nonce: Seq<u8>|
        salt.len() == SALT_LEN && nonce.len() == NONCE_LEN && #[trigger] sealed_with(
            payload,
            password,
            salt,
            nonce,
        ) == Err::<Seq<u8>, CryptoError>(e)
}

/// Sealing the text `field` under `password` can fail with `e`: a field too
/// long for its sealed text fails as too large and in no other way; any
/// other field fails as sealing its bytes does.
pub open spec fn field_sealing_fails(field: Seq<char>, password: Seq<char>, e: CryptoError) -> bool {
    if field_too_large(encode_utf8(field).len()) {
        e == CryptoError::TooLarge
    } else {
        sealing_fails(encode_utf8(field), password, e)
    }
}

/// Derives the 32-byte key from `password` and a 16-byte `salt`.
pub fn derive_key(password: &str, salt: &[u8]) -> (r: Result<Vec<u8>, CryptoError>)
    requires
        salt@.len() == SALT_LEN,
    ensures
        match r {
            Ok(key) => derived_key(password@, salt@) == Some(key@) && key@.len() == KEY_LEN,
            Err(e) => e == CryptoError::KeyDerivation && derived_key(password@, salt@) is None,
        },
{
    let salt_text = encode_unpadded(salt);
    let hash = match hash_password(password, salt_text.as_str()) {
        Ok(Some(hash)) => hash,
        Ok(None) => {
            return Err(CryptoError::KeyDerivation);
        },
        Err(_) => {
            return Err(CryptoError::KeyDerivation);
        },
    };
    let mut key: Vec<u8> = Vec::new();
    let mut i: usize = 0;
    while i < KEY_LEN
        invariant
            i <= KEY_LEN,
            key@.len() == i,
            forall|k: int| 0 <= k < i ==> key@[k] == padded_key(hash@)[k],
        decreases KEY_LEN - i,
    {
        if i < hash.len() {
            key.push(hash[i]);
        } else {
            key.push(0u8);
        }
        i += 1;
    }
    proof {
        assert(key@ =~= padded_key(hash@));
    }
    Ok(key)
}

/// Seals `payload` under `password` with the given 16-byte `salt` and 12-byte
/// `nonce`. The result opens under the same password to `payload`.
pub fn seal_with(payload: &[u8], password: &str, salt: &[u8], nonce: &[u8]) -> (r: Result<
    Vec<u8>,
    CryptoError,
>)
    requires
        salt@.len() == SALT_LEN,
        nonce@.len() == NONCE_LEN,
    ensures
        match r {
            Ok(blob) => {
                &&& sealed_with(payload@, password@, salt@, nonce@) == Ok::<Seq<u8>, CryptoError>(
                    blob@,
                )
                &&& blob@.len() == payload@.len() + HEADER_LEN + TAG_LEN
                &&& opened(blob@, password@) == Ok::<Seq<u8>, CryptoError>(payload@)
            },
            Err(e) => sealed_with(payload@, password@, salt@, nonce@) == Err::<
                Seq<u8>,
                CryptoError,
            >(e),
        },
{
    let key = match derive_key(password, salt) {
        Ok(key) => key,
        Err(e) => {
            return Err(e);
        },
    };
    let mut sealed = match aead_seal(key.as_slice(), nonce, payload) {
        Ok(sealed) => sealed,
        Err(_) => {
            return Err(CryptoError::Encryption);
        },
    };
    let ghost body = sealed@;
    let mut blob = slice_to_vec(salt);
    let mut nonce_part = slice_to_vec(nonce);
    blob.append(&mut nonce_part);
    blob.append(&mut sealed);
    proof {
        assert(blob@ == salt@ + nonce@ + body);
        assert(blob@.subrange(0, SALT_LEN as int) =~= salt@);
        assert(blob@.subrange(SALT_LEN as int, HEADER_LEN as int) =~= nonce@);
        assert(blob@.subrange(HEADER_LEN as int, blob@.len() as int) =~= body);
    }
    Ok(blob)
}

/// A salt and a nonce from the operating system's random source, drawn anew
/// at every call.
pub fn fresh_salt_and_nonce() -> (r: Result<(Vec<u8>, Vec<u8>), CryptoError>)
    ensures
        match r {
            Ok((salt, nonce)) => salt@.len() == SALT_LEN && nonce@.len() == NONCE_LEN,
            Err(e) => e == CryptoError::Random,
        },
{
    let salt = match random_bytes(SALT_LEN) {
        Ok(salt) => salt,
        Err(_) => {
            return Err(CryptoError::Random);
        },
    };
    let nonce = match random_bytes(NONCE_LEN) {
        Ok(nonce) => nonce,
        Err(_) => {
            return Err(CryptoError::Random);
        },
    };
    Ok((salt, nonce))
}

/// Seals `payload` under `password` with a fresh random salt and nonce, and
/// frames salt, nonce and sealed payload into one blob.
///
/// Whatever salt and nonce were drawn, a blob that comes back opens under the
/// same password to `payload`.
pub fn encrypt(payload: &[u8], password: &str) -> (r: Result<Vec<u8>, CryptoError>)
    ensures
        match r {
            Ok(blob) => {
                &&& exists|salt: Seq<u8>, nonce: Seq<u8>|
                    salt.len() == SALT_LEN && nonce.len() == NONCE_LEN && #[trigger] sealed_with(
                        payload@,
                        password@,
                        salt,
                        nonce,
                    ) == Ok::<Seq<u8>, CryptoError>(blob@)
                &&& blob@.len() == payload@.len() + HEADER_LEN + TAG_LEN
                &&& opened(blob@, password@) == Ok::<Seq<u8>, CryptoError>(payload@)
            },
            Err(e) => sealing_fails(payload@, password@, e),
        },
{
    let (salt, nonce) = match fresh_salt_and_nonce() {
        Ok(pair) => pair,
        Err(e) => {
            return Err(e);
        },
    };
    seal_with(payload, password, salt.as_slice(), nonce.as_slice())
}

/// Opens the envelope `bytes` under `password`.
///
/// Anything shorter than salt and nonce together is refused before any
/// cryptography; a tag that does not verify is an authentication failure,
/// whether the passphrase was wrong or the data was altered. What opens is
/// 44 bytes shorter than the envelope, so an envelope without room for the
/// tag never opens.
pub fn decrypt(bytes: &[u8], password: &str) -> (r: Result<Vec<u8>, CryptoError>)
    ensures
        match r {
            Ok(payload) => opened(bytes@, password@) == Ok::<Seq<u8>, CryptoError>(payload@),
            Err(e) => opened(bytes@, password@) == Err::<Seq<u8>, CryptoError>(e),
        },
        r matches Ok(payload) ==> bytes@.len() == payload@.len() + HEADER_LEN + TAG_LEN,
        bytes@.len() < HEADER_LEN + TAG_LEN ==> r is Err,
{
    if bytes.len() < HEADER_LEN {
        return Err(CryptoError::Truncated);
    }
    let salt = slice_subrange(bytes, 0, SALT_LEN);
    let nonce = slice_subrange(bytes, SALT_LEN, HEADER_LEN);
    let sealed = slice_subrange(bytes, HEADER_LEN, bytes.len());
    let key = match derive_key(password, salt) {
        Ok(key) => key,
        Err(e) => {
            return Err(e);
        },
    };
    match aead_open(key.as_slice(), nonce, sealed) {
        Ok(payload) => Ok(payload),
        Err(_) => Err(CryptoError::Authentication),
    }
}

/// Seals one text field under `password` and writes the envelope as base64
/// text. The text opens under the same password to `field`, and its base64
/// payload is 44 bytes longer than the field.
pub fn encrypt_entry(field: &str, password: &str) -> (r: Result<String, CryptoError>)
    ensures
        match r {
            Ok(text) => {
                &&& !field_too_large(field.spec_bytes().len())
                &&& entry_opened(text@, password@) == Ok::<Seq<char>, CryptoError>(field@)
                &&& base64_decoded(text@) matches Some(blob) && blob.len()
                    == field.spec_bytes().len() + HEADER_LEN + TAG_LEN
            },
            Err(e) => {
                &&& field_sealing_fails(field@, password@, e)
                &&& e == CryptoError::TooLarge <==> field_too_large(field.spec_bytes().len())
                &&& e == CryptoError::TooLarge || e == CryptoError::Random || e
                    == CryptoError::KeyDerivation || e == CryptoError::Encryption
            },
        },
{
    let payload = field.as_bytes();
    if payload.len() > usize::MAX - (HEADER_LEN + TAG_LEN) || (payload.len() + (HEADER_LEN
        + TAG_LEN)) / 3 >= usize::MAX / 4 {
        return Err(CryptoError::TooLarge);
    }
    let blob = match encrypt(payload, password) {
        Ok(blob) => blob,
        Err(e) => {
            return Err(e);
        },
    };
    let text = encode_padded(blob.as_slice());
    proof {
        vstd::utf8::encode_utf8_valid_utf8(field@);
        vstd::utf8::encode_utf8_decode_utf8(field@);
    }
    Ok(text)
}

/// Opens one sealed text field under `password`.
pub fn decrypt_entry(text: &str, password: &str) -> (r: Result<String, CryptoError>)
    ensures
        match r {
            Ok(field) => entry_opened(text@, password@) == Ok::<Seq<char>, CryptoError>(field@),
            Err(e) => entry_opened(text@, password@) == Err::<Seq<char>, CryptoError>(e),
        },
{
    let blob = match decode_padded(text) {
        Ok(blob) => blob,
        Err(_) => {
            return Err(CryptoError::Malformed);
        },
    };
    let payload = match decrypt(blob.as_slice(), password) {
        Ok(payload) => payload,
        Err(e) => {
            return Err(e);
        },
    };
    match text_from_utf8(payload) {
        Ok(field) => Ok(field),
        Err(_) => Err(CryptoError::Malformed),
    }
}

/// How many bytes the base64 `text` stands for; `None` where it is not
/// base64.
pub fn decoded_length(text: &str) -> (r: Option<usize>)
    ensures
        match r {
            Some(n) => base64_decoded(text@) matches Some(bytes) && bytes.len() == n,
            None => base64_decoded(text@) is None,
        },
{
    match decode_padded(text) {
        Ok(bytes) => Some(bytes.len()),
        Err(_) => None,
    }
}

} // verus!
