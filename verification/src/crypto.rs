//! Authenticated encryption of stored clipboard content.
//!
//! A stored blob is a random 24-byte nonce followed by the XChaCha20-Poly1305
//! ciphertext (with its 16-byte tag) of the content under the store's key.
use vstd::prelude::*;

use chacha20poly1305::aead::{Aead, KeyInit};
use chacha20poly1305::{XChaCha20Poly1305, XNonce};
use rand::RngCore;

verus! {

/// Length of the nonce that starts every blob.
pub const NONCE_LEN: usize = 24;

#[verifier::external_type_specification]
#[verifier::external_body]
pub struct ExAeadError(chacha20poly1305::aead::Error);

/// The ciphertext (tag included) that XChaCha20-Poly1305 produces for a key,
/// a nonce and a plaintext, without associated data.
pub uninterp spec fn aead_seal(key: Seq<u8>, nonce: Seq<u8>, plaintext: Seq<u8>) -> Seq<u8>;

/// Whether a plaintext of `n` bytes is short enough for one ChaCha20 keystream
/// (fewer than `u32::MAX` blocks of 64 bytes).
pub open spec fn sealable(n: nat) -> bool {
    n / 64 < 0xffff_ffff
}

/// `Aead::encrypt` of `XChaCha20Poly1305` (chacha20poly1305 crate): fails
/// exactly when the plaintext is too long for the keystream, and otherwise
/// returns the sealed ciphertext, 16 bytes longer than the plaintext.
#[verifier::external_body]
fn xchacha_seal(key: &[u8; 32], nonce: &[u8; 24], plaintext: &[u8]) -> (r: Result<
    Vec<u8>,
    chacha20poly1305::aead::Error,
>)
    ensures
        r is Ok <==> sealable(plaintext@.len()),
        r matches Ok(ct) ==> ct@ == aead_seal(key@, nonce@, plaintext@) && ct@.len()
            == plaintext@.len() + 16,
        r matches Ok(ct) ==> forall|q: Seq<u8>|
            sealable(q.len()) && #[trigger] aead_seal(key@, nonce@, q) == ct@ ==> q
                == plaintext@,
{
    let cipher = XChaCha20Poly1305::new(key.into());
    cipher.encrypt(nonce.into(), plaintext)
}

/// `Aead::decrypt` of `XChaCha20Poly1305`: it accepts a ciphertext only when
/// its tag authenticates it, and then returns the plaintext that seals to it;
/// so it gives back every plaintext that was sealed under the same key and
/// nonce.
#[verifier::external_body]
fn xchacha_open(key: &[u8; 32], nonce: &[u8], ciphertext: &[u8]) -> (r: Result<
    Vec<u8>,
    chacha20poly1305::aead::Error,
>)
    requires
        nonce@.len() == 24,
    ensures
        r matches Ok(p) ==> sealable(p@.len()) && aead_seal(key@, nonce@, p@) == ciphertext@,
        r matches Ok(p) ==> forall|pt: Seq<u8>|
            sealable(pt.len()) && #[trigger] aead_seal(key@, nonce@, pt) == ciphertext@ ==> pt
                == p@,
        r is Err ==> forall|pt: Seq<u8>|
            sealable(pt.len()) ==> #[trigger] aead_seal(key@, nonce@, pt) != ciphertext@,

{
    let cipher = XChaCha20Poly1305::new(key.into());
    cipher.decrypt(XNonce::from_slice(nonce), ciphertext)
}

/// The text of the crate's error (`Display` of `aead::Error`).
#[verifier::external_body]
fn aead_error_message(e: &chacha20poly1305::aead::Error) -> (r: String)
    ensures
        r@ == "aead::Error"@,
{
    e.to_string()
}

/// 24 bytes from the thread-local random generator (rand); nothing is known
/// of their values.
#[verifier::external_body]
fn random_nonce() -> (r: [u8; 24]) {
    let mut n = [0u8;24];
    rand::rng().fill_bytes(&mut n);
    n
}

/// A fresh random 32-byte key from the thread-local random generator (rand);
/// nothing is known of its value.
#[verifier::external_body]
pub(crate) fn random_key() -> (r: [u8; 32]) {
    let mut k = [0u8;32];
    rand::rng().fill_bytes(&mut k);
    k
}

/// Whether `blob` is a nonce followed by the sealing of `plaintext` under
/// `key` and that nonce.
pub open spec fn blob_opens_to(key: Seq<u8>, blob: Seq<u8>, plaintext: Seq<u8>) -> bool {
    &&& blob.len() >= 24
    &&& sealable(plaintext.len())
    &&& aead_seal(key, blob.take(24), plaintext) == blob.skip(24)
}

/// The plaintext that a blob holds under `key`, if it holds one.
pub open spec fn opened(key: Seq<u8>, blob: Seq<u8>) -> Option<Seq<u8>> {
    if exists|p: Seq<u8>| blob_opens_to(key, blob, p) {
        Some(choose|p: Seq<u8>| blob_opens_to(key, blob, p))
    } else {
        None
    }
}

/// The message of a failed encryption.
pub open spec fn encrypt_error() -> Seq<char> {
    "encrypt: aead::Error"@
}

/// The message of a blob too short to hold a nonce.
pub open spec fn short_blob_error() -> Seq<char> {
    "ciphertext too short"@
}

/// The message of a blob that does not authenticate under the key.
pub open spec fn decrypt_error() -> Seq<char> {
    "decrypt: aead::Error"@
}

/// Encrypts `plaintext` under `key` with a fresh random nonce. It fails only
/// on a plaintext too long for the cipher; the blob holds the plaintext.
pub fn encrypt(key: &[u8; 32], plaintext: &[u8]) -> (r: Result<Vec<u8>, String>)
    ensures
        r is Ok <==> sealable(plaintext@.len()),
        r matches Ok(b) ==> blob_opens_to(key@, b@, plaintext@),
        r matches Ok(b) ==> opened(key@, b@) == Some(plaintext@),
        r matches Err(m) ==> m@ == encrypt_error(),
{
    let nonce = random_nonce();
    match xchacha_seal(key, &nonce, plaintext) {
        Ok(ct) => {
            let mut out: Vec<u8> = Vec::new();
            let mut i: usize = 0;
            while i < 24
                invariant
                    i <= 24,
                    nonce@.len() == 24,
                    out@ == nonce@.take(i as int),
                decreases 24 - i,
            {
                out.push(nonce[i]);
                assert(nonce@.take(i + 1) =~= nonce@.take(i as int).push(nonce@[i as int]));
                i += 1;
            }
            assert(nonce@.take(24) =~= nonce@);
            out.extend_from_slice(ct.as_slice());
            assert(out@.take(24) =~= nonce@);
            assert(out@.skip(24) =~= ct@);
            proof {
                assert forall|p: Seq<u8>| #[trigger] blob_opens_to(key@, out@, p) implies p
                    == plaintext@ by {
                    assert(aead_seal(key@, nonce@, p) == ct@);
                }
                lemma_opened(key@, out@, plaintext@);
            }
            Ok(out)
        },
        Err(e) => {
            let mut m = String::from_str("encrypt: ");
            let t = aead_error_message(&e);
            m.append(t.as_str());
            proof {
                reveal_strlit("encrypt: ");
                reveal_strlit("aead::Error");
                reveal_strlit("encrypt: aead::Error");
                assert(m@ =~= encrypt_error());
            }
            Err(m)
        },
    }
}

/// Decrypts a blob under `key`: the plaintext it holds, an error for a blob
/// shorter than a nonce, and an error for one that does not authenticate.
pub fn decrypt(key: &[u8; 32], blob: &[u8]) -> (r: Result<Vec<u8>, String>)
    ensures
        r is Ok <==> opened(key@, blob@) is Some,
        r matches Ok(p) ==> opened(key@, blob@) == Some(p@),
        blob@.len() < 24 ==> (r matches Err(m) && m@ == short_blob_error()),
        blob@.len() >= 24 ==> (r matches Err(m) ==> m@ == decrypt_error()),
{
    if blob.len() < NONCE_LEN {
        proof {
            reveal_strlit("ciphertext too short");
        }
        return Err(String::from_str("ciphertext too short"));
    }
    let (nonce, ct) = blob.split_at(NONCE_LEN);
    assert(nonce@ =~= blob@.take(24));
    assert(ct@ =~= blob@.skip(24));
    match xchacha_open(key, nonce, ct) {
        Ok(p) => {
            assert(blob_opens_to(key@, blob@, p@));
            let ghost q = choose|q: Seq<u8>| blob_opens_to(key@, blob@, q);
            assert(blob_opens_to(key@, blob@, q));
            assert(q == p@);
            Ok(p)
        },
        Err(e) => {
            assert forall|q: Seq<u8>| !blob_opens_to(key@, blob@, q) by {
                if blob_opens_to(key@, blob@, q) {
                    assert(sealable(q.len()) && aead_seal(key@, nonce@, q) == ct@);
                }
            }
            let mut m = String::from_str("decrypt: ");
            let t = aead_error_message(&e);
            m.append(t.as_str());
            proof {
                reveal_strlit("decrypt: ");
                reveal_strlit("aead::Error");
                reveal_strlit("decrypt: aead::Error");
                assert(m@ =~= decrypt_error());
            }
            Err(m)
        },
    }
}

/// A blob that opens to a plaintext holds exactly that plaintext.
pub proof fn lemma_opened(key: Seq<u8>, blob: Seq<u8>, plaintext: Seq<u8>)
    requires
        blob_opens_to(key, blob, plaintext),
        forall|p: Seq<u8>| #[trigger] blob_opens_to(key, blob, p) ==> p == plaintext,
    ensures
        opened(key, blob) == Some(plaintext),
{
}

} // verus!
