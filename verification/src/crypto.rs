//! The authenticated-encryption codec: a password-derived secret held in
//! zero-on-drop memory, and sealing/opening of value bytes under the store's
//! single public nonce.
//!
//! The cipher itself is sodiumoxide's `secretbox` (XSalsa20-Poly1305); its
//! results are named, not restated, and everything around the calls is
//! verified.

use vstd::prelude::*;
use vstd::string::StringSliceAdditionalSpecFns;

use crate::errors::{ErrorType, KVError};

verus! {

/// Size in bytes of a secretbox key, and of the hashed password secret.
pub const KEY_LEN: usize = 32;

/// Size in bytes of a secretbox nonce.
pub const NONCE_LEN: usize = 24;

/// A buffer of sensitive bytes that is zeroed when dropped, from the secstr
/// crate. Opaque to the verifier; its contents are reached only through the
/// trusted wrappers below.
#[verifier::external_type_specification]
#[verifier::external_body]
#[verifier::reject_recursive_types(T)]
pub struct ExSecVec<T>(secstr::SecVec<T>) where T: Sized + Copy;

/// The bytes held by a secured buffer.
pub uninterp spec fn sec_bytes(v: secstr::SecVec<u8>) -> Seq<u8>;

/// Relies on secstr's `SecVec::new`: it moves the given bytes into locked,
/// zero-on-drop memory without changing them.
#[verifier::external_body]
pub fn sec_new(bytes: Vec<u8>) -> (r: secstr::SecVec<u8>)
    ensures
        sec_bytes(r) == bytes@,
{
    secstr::SecVec::new(bytes)
}

/// Relies on secstr's `SecVec::unsecure`: it borrows the wrapped bytes
/// unchanged; the wrapper copies them out.
#[verifier::external_body]
pub fn sec_reveal(v: &secstr::SecVec<u8>) -> (r: Vec<u8>)
    ensures
        r@ == sec_bytes(*v),
{
    v.unsecure().to_vec()
}

/// Relies on secstr's `Clone` for `SecVec`: it copies the wrapped bytes
/// into a new secured buffer.
#[verifier::external_body]
pub fn sec_clone(v: &secstr::SecVec<u8>) -> (r: secstr::SecVec<u8>)
    ensures
        sec_bytes(r) == sec_bytes(*v),
{
    v.clone()
}

/// The SHA-256 digest of a byte sequence.
pub uninterp spec fn sha256_of(m: Seq<u8>) -> Seq<u8>;

/// Relies on sodiumoxide's `sha256::hash`: a 32-byte digest that depends on
/// the input bytes alone.
#[verifier::external_body]
pub fn hash_password(password: &str) -> (r: Vec<u8>)
    ensures
        r@ == sha256_of(password.spec_bytes()),
        r@.len() == KEY_LEN,
{
    sodiumoxide::crypto::hash::sha256::hash(password.as_bytes()).0.to_vec()
}

/// Relies on sodiumoxide's `secretbox::gen_nonce`: a randomly generated
/// 24-byte nonce. Nothing is promised of its value.
#[verifier::external_body]
pub fn generate_nonce() -> (r: Vec<u8>)
    ensures
        r@.len() == NONCE_LEN,
{
    sodiumoxide::crypto::secretbox::gen_nonce().0.to_vec()
}

/// The ciphertext that secretbox produces for a message under a nonce and a
/// key. XSalsa20-Poly1305 is deterministic in these three inputs.
pub uninterp spec fn seal_of(plain: Seq<u8>, nonce: Seq<u8>, key: Seq<u8>) -> Seq<u8>;

/// Relies on sodiumoxide's `secretbox::seal`: it encrypts and authenticates
/// a message with a secret key and a nonce, deterministically in its inputs.
/// `Nonce::from_slice` and `Key::from_slice` only copy bytes of the checked
/// lengths into the newtypes.
#[verifier::external_body]
fn seal(plain: &Vec<u8>, nonce: &Vec<u8>, key: &Vec<u8>) -> (r: Vec<u8>)
    requires
        nonce@.len() == NONCE_LEN,
        key@.len() == KEY_LEN,
    ensures
        r@ == seal_of(plain@, nonce@, key@),
{
    let n = sodiumoxide::crypto::secretbox::Nonce::from_slice(nonce).unwrap();
    let k = sodiumoxide::crypto::secretbox::Key::from_slice(key).unwrap();
    sodiumoxide::crypto::secretbox::seal(plain, &n, &k)
}

/// Relies on sodiumoxide's `secretbox::open`: it verifies and decrypts a
/// ciphertext, returning the plaintext that `seal` would have sealed to it,
/// and fails on any bytes that `seal` could not have produced under this
/// nonce and key.
#[verifier::external_body]
fn open_sealed(cipher: &Vec<u8>, nonce: &Vec<u8>, key: &Vec<u8>) -> (r: Option<Vec<u8>>)
    requires
        nonce@.len() == NONCE_LEN,
        key@.len() == KEY_LEN,
    ensures
        r matches Some(p) ==> cipher@ == seal_of(p@, nonce@, key@),
        r matches Some(p) ==> forall|m: Seq<u8>|
            cipher@ == #[trigger] seal_of(m, nonce@, key@) ==> p@ == m,
        r is None ==> forall|m: Seq<u8>| cipher@ != #[trigger] seal_of(m, nonce@, key@),
{
    let n = sodiumoxide::crypto::secretbox::Nonce::from_slice(nonce).unwrap();
    let k = sodiumoxide::crypto::secretbox::Key::from_slice(key).unwrap();
    match sodiumoxide::crypto::secretbox::open(cipher, &n, &k) {
        Ok(p) => Some(p),
        Err(()) => None,
    }
}

/// The bytes held by an optional password secret.
pub open spec fn pwd_view(pwd: Option<secstr::SecVec<u8>>) -> Option<Seq<u8>> {
    match pwd {
        Some(p) => Some(sec_bytes(p)),
        None => None,
    }
}

/// Whether an optional password secret has the size the cipher's key needs.
pub open spec fn pwd_len_ok(pv: Option<Seq<u8>>) -> bool {
    match pv {
        Some(k) => k.len() == KEY_LEN,
        None => true,
    }
}

/// The blob stored for a value: its sealed ciphertext when a password secret
/// is set, the bytes themselves otherwise.
pub open spec fn spec_sealed_blob(plain: Seq<u8>, pv: Option<Seq<u8>>, nonce: Seq<u8>) -> Seq<u8> {
    match pv {
        Some(k) => seal_of(plain, nonce, k),
        None => plain,
    }
}

/// Turn serialized value bytes into the blob that goes into the storage map:
/// seal them when a password secret is set, pass them through unchanged
/// otherwise. Fails only when the secret does not have the key size.
pub fn protect_value(plain: &Vec<u8>, pwd: &Option<secstr::SecVec<u8>>, nonce: &Vec<u8>) -> (r:
    Result<Vec<u8>, KVError>)
    requires
        nonce@.len() == NONCE_LEN,
    ensures
        pwd_len_ok(pwd_view(*pwd)) ==> (r matches Ok(b) && b@ == spec_sealed_blob(
            plain@,
            pwd_view(*pwd),
            nonce@,
        )),
        r matches Err(e) ==> e.error == ErrorType::CryptoError && !pwd_len_ok(pwd_view(*pwd)),
{
    match pwd {
        Some(p) => {
            let key_bytes = sec_reveal(p);
            if key_bytes.len() != KEY_LEN {
                Err(KVError::with_msg(
                    ErrorType::CryptoError,
                    "cannot derive key from password hash",
                ))
            } else {
                Ok(seal(plain, nonce, &key_bytes))
            }
        },
        None => Ok(plain.clone()),
    }
}

/// Turn a blob read from the storage map back into serialized value bytes:
/// open it when a password secret is set, return it unchanged otherwise.
/// With a password set, this succeeds exactly on blobs that are seals of
/// some message under the store's nonce and that key, and returns that
/// message; so it returns the value bytes that `protect_value` stored, and
/// fails on tampered blobs and on blobs sealed under another key.
pub fn recover_value(blob: &Vec<u8>, pwd: &Option<secstr::SecVec<u8>>, nonce: &Vec<u8>) -> (r:
    Result<Vec<u8>, KVError>)
    requires
        nonce@.len() == NONCE_LEN,
    ensures
        match pwd_view(*pwd) {
            Some(k) => r matches Ok(p) ==> k.len() == KEY_LEN && blob@ == seal_of(
                p@,
                nonce@,
                k,
            ),
            None => true,
        },
        match pwd_view(*pwd) {
            Some(k) => k.len() == KEY_LEN ==> forall|m: Seq<u8>|
                blob@ == #[trigger] seal_of(m, nonce@, k) ==> (r matches Ok(p) && p@ == m),
            None => true,
        },
        pwd_view(*pwd) is None ==> (r matches Ok(p) && p@ == blob@),
        r matches Err(e) ==> e.error == ErrorType::CryptoError && match pwd_view(*pwd) {
            Some(k) => k.len() != KEY_LEN || (forall|m: Seq<u8>|
                blob@ != #[trigger] seal_of(m, nonce@, k)),
            None => false,
        },
{
    match pwd {
        Some(p) => {
            let key_bytes = sec_reveal(p);
            if key_bytes.len() != KEY_LEN {
                Err(KVError::with_msg(
                    ErrorType::CryptoError,
                    "cannot derive key from password hash",
                ))
            } else {
                match open_sealed(blob, nonce, &key_bytes) {
                    Some(plain) => Ok(plain),
                    None => Err(KVError::with_msg(
                        ErrorType::CryptoError,
                        "cannot validate value being decrypted",
                    )),
                }
            }
        },
        None => Ok(blob.clone()),
    }
}

} // verus!
