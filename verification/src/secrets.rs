//! Tenant secrets at rest: AES-256-GCM encryption under the node's master
//! key, with the nonce prefixed to the ciphertext and the blob in base64.

use vstd::prelude::*;
use vstd::string::*;
use std::collections::HashMap;
use aes_gcm::aead::{Aead, KeyInit};
use aes_gcm::aead::rand_core::RngCore;
use base64::Engine;
use crate::text::{chars_of, white_space};
use crate::runtime_registry::trimmed;

verus! {

/// The secrets of one tenant, by name.
pub struct TenantSecrets {
    pub secrets: HashMap<String, String>,
}

/// Length of the nonce that starts every encrypted blob.
pub const NONCE_LEN: usize = 12;

/// Length of a master key.
pub const KEY_LEN: usize = 32;

/// Why secrets could not be sealed or opened.
pub enum SecretsError {
    /// The plaintext is longer than AES-GCM accepts.
    TooLong,
    /// The blob is shorter than a nonce.
    BlobTooShort,
    /// The blob does not decrypt under the key.
    DecryptFailed,
}

// ── Outside primitives ───────────────────────────────────────────────────────

/// The AES-256-GCM ciphertext (with its tag) of `pt` under `key` and `nonce`.
pub uninterp spec fn aes_seal(key: Seq<u8>, nonce: Seq<u8>, pt: Seq<u8>) -> Seq<u8>;

/// The AES-256-GCM decryption of `ct` under `key` and `nonce`; `None` when
/// the tag does not verify.
pub uninterp spec fn aes_open(key: Seq<u8>, nonce: Seq<u8>, ct: Seq<u8>) -> Option<Seq<u8>>;

/// The standard padded base64 form of `b`.
pub uninterp spec fn base64_of(b: Seq<u8>) -> Seq<char>;

/// The bytes of the standard padded base64 text `s`; `None` when it is not
/// valid base64.
pub uninterp spec fn base64_decode_of(s: Seq<char>) -> Option<Seq<u8>>;

/// A character of the standard base64 alphabet, or its padding.
pub open spec fn base64_char(c: char) -> bool {
    ('A' <= c && c <= 'Z') || ('a' <= c && c <= 'z') || ('0' <= c && c <= '9') || c == '+' || c == '/' || c == '='
}

/// AES-256-GCM encryption from the `aes-gcm` crate, with no associated
/// data. It refuses plaintexts longer than 2^36 bytes; otherwise the output
/// is the ciphertext and its 16-byte tag, and decrypting it under the same
/// key and nonce gives the plaintext back.
#[verifier::external_body]
fn aes_encrypt(key: &[u8], nonce: &[u8], pt: &[u8]) -> (r: Option<Vec<u8>>)
    requires
        key@.len() == 32,
        nonce@.len() == 12,
    ensures
        pt@.len() <= 0x10_0000_0000 <==> r is Some,
        r matches Some(ct) ==> ct@ == aes_seal(key@, nonce@, pt@) && ct@.len() == pt@.len() + 16
            && aes_open(key@, nonce@, ct@) == Some(pt@),
{
    let cipher = aes_gcm::Aes256Gcm::new(aes_gcm::Key::<aes_gcm::Aes256Gcm>::from_slice(key));
    cipher.encrypt(aes_gcm::Nonce::from_slice(nonce), pt).ok()
}

/// AES-256-GCM decryption from the `aes-gcm` crate, with no associated data.
#[verifier::external_body]
fn aes_decrypt(key: &[u8], nonce: &[u8], ct: &[u8]) -> (r: Option<Vec<u8>>)
    requires
        key@.len() == 32,
        nonce@.len() == 12,
    ensures
        match r {
            Some(pt) => aes_open(key@, nonce@, ct@) == Some(pt@),
            None => aes_open(key@, nonce@, ct@) is None,
        },
{
    let cipher = aes_gcm::Aes256Gcm::new(aes_gcm::Key::<aes_gcm::Aes256Gcm>::from_slice(key));
    cipher.decrypt(aes_gcm::Nonce::from_slice(nonce), ct).ok()
}

/// Bytes from the operating system's random source, through `aead::OsRng`;
/// only their number is known.
#[verifier::external_body]
fn random_bytes(n: usize) -> (r: Vec<u8>)
    ensures
        r@.len() == n,
{
    let mut b = vec![0u8; n];
    aes_gcm::aead::OsRng.fill_bytes(&mut b);
    b
}

/// Standard padded base64 from the `base64` crate. The text holds only the
/// alphabet and padding characters, and decodes back to the bytes.
#[verifier::external_body]
fn base64_encode(b: &[u8]) -> (r: String)
    requires
        b@.len() <= usize::MAX / 2,
    ensures
        r@ == base64_of(b@),
        forall|i: int| 0 <= i < r@.len() ==> base64_char(#[trigger] r@[i]),
        base64_decode_of(r@) == Some(b@),
{
    base64::engine::general_purpose::STANDARD.encode(b)
}

/// Standard padded base64 decoding from the `base64` crate.
#[verifier::external_body]
fn base64_decode(s: &str) -> (r: Option<Vec<u8>>)
    ensures
        match r {
            Some(b) => base64_decode_of(s@) == Some(b@),
            None => base64_decode_of(s@) is None,
        },
{
    base64::engine::general_purpose::STANDARD.decode(s).ok()
}

// ── Keys and blobs ───────────────────────────────────────────────────────────

/// A fresh random master key.
pub fn new_master_key() -> (k: Vec<u8>)
    ensures
        k@.len() == KEY_LEN,
{
    random_bytes(KEY_LEN)
}

/// The stored master key when it has the right length; otherwise a new one
/// must be made.
pub fn usable_master_key(stored: Option<Vec<u8>>) -> (r: Option<Vec<u8>>)
    ensures
        r == match stored {
            Some(k) => if k@.len() == KEY_LEN { Some(k) } else { None::<Vec<u8>> },
            None => None::<Vec<u8>>,
        },
{
    match stored {
        Some(k) => if k.len() == KEY_LEN { Some(k) } else { None },
        None => None,
    }
}

/// `blob` opens under `key` to `pt`: it starts with a nonce, and the rest
/// decrypts under that nonce.
pub open spec fn blob_opens(key: Seq<u8>, blob: Seq<u8>, pt: Seq<u8>) -> bool {
    blob.len() >= NONCE_LEN && aes_open(key, blob.take(NONCE_LEN as int), blob.skip(NONCE_LEN as int)) == Some(pt)
}

fn copy_range(v: &Vec<u8>, lo: usize, hi: usize) -> (r: Vec<u8>)
    requires
        lo <= hi <= v@.len(),
    ensures
        r@ == v@.subrange(lo as int, hi as int),
{
    let mut r: Vec<u8> = Vec::new();
    let mut i = lo;
    while i < hi
        invariant
            lo <= i <= hi <= v@.len(),
            r@ == v@.subrange(lo as int, i as int),
        decreases hi - i,
    {
        r.push(v[i]);
        i += 1;
    }
    r
}

/// Encrypts `plaintext` under `master_key` with a fresh random nonce, which
/// starts the blob.
pub fn encrypt(plaintext: &Vec<u8>, master_key: &Vec<u8>) -> (r: Result<Vec<u8>, SecretsError>)
    requires
        master_key@.len() == KEY_LEN,
    ensures
        plaintext@.len() <= 0x10_0000_0000 <==> r is Ok,
        r matches Ok(blob) ==> blob@.len() == NONCE_LEN + plaintext@.len() + 16 && blob_opens(master_key@, blob@, plaintext@),
        r matches Err(e) ==> e is TooLong,
{
    let nonce = random_bytes(NONCE_LEN);
    match aes_encrypt(master_key.as_slice(), nonce.as_slice(), plaintext.as_slice()) {
        None => Err(SecretsError::TooLong),
        Some(ct) => {
            let mut blob = nonce;
            let mut i: usize = 0;
            let ghost n0 = blob@;
            while i < ct.len()
                invariant
                    n0.len() == NONCE_LEN,
                    i <= ct@.len(),
                    blob@ == n0 + ct@.take(i as int),
                decreases ct.len() - i,
            {
                blob.push(ct[i]);
                proof {
                    assert(ct@.take(i + 1) =~= ct@.take(i as int).push(ct@[i as int]));
                }
                i += 1;
            }
            proof {
                assert(ct@.take(ct@.len() as int) =~= ct@);
                assert(blob@.take(NONCE_LEN as int) =~= n0);
                assert(blob@.skip(NONCE_LEN as int) =~= ct@);
            }
            Ok(blob)
        },
    }
}

/// Decrypts a blob made by `encrypt`.
pub fn decrypt(blob: &Vec<u8>, master_key: &Vec<u8>) -> (r: Result<Vec<u8>, SecretsError>)
    requires
        master_key@.len() == KEY_LEN,
    ensures
        blob@.len() < NONCE_LEN ==> r matches Err(SecretsError::BlobTooShort),
        blob@.len() >= NONCE_LEN ==> match aes_open(master_key@, blob@.take(NONCE_LEN as int), blob@.skip(NONCE_LEN as int)) {
            Some(pt) => r matches Ok(p) && p@ == pt,
            None => r matches Err(SecretsError::DecryptFailed),
        },
{
    if blob.len() < NONCE_LEN {
        return Err(SecretsError::BlobTooShort);
    }
    let nonce = copy_range(blob, 0, NONCE_LEN);
    let ct = copy_range(blob, NONCE_LEN, blob.len());
    proof {
        assert(nonce@ =~= blob@.take(NONCE_LEN as int));
        assert(ct@ =~= blob@.skip(NONCE_LEN as int));
    }
    match aes_decrypt(master_key.as_slice(), nonce.as_slice(), ct.as_slice()) {
        Some(pt) => Ok(pt),
        None => Err(SecretsError::DecryptFailed),
    }
}

/// The text stored for the serialized secrets `plain`: the encrypted blob in
/// base64.
pub fn save_secrets(plain: &Vec<u8>, master_key: &Vec<u8>) -> (r: Result<String, SecretsError>)
    requires
        master_key@.len() == KEY_LEN,
        plain@.len() <= 0x10_0000_0000,
        plain@.len() <= usize::MAX / 4,
    ensures
        r matches Ok(s) && exists|blob: Seq<u8>| #[trigger] blob_opens(master_key@, blob, plain@)
            && base64_decode_of(s@) == Some(blob)
            && (forall|i: int| 0 <= i < s@.len() ==> base64_char(#[trigger] s@[i])),
{
    match encrypt(plain, master_key) {
        Ok(blob) => {
            let s = base64_encode(blob.as_slice());
            proof {
                assert(blob_opens(master_key@, blob@, plain@));
            }
            Ok(s)
        },
        Err(e) => Err(e),
    }
}

/// What a stored secrets file holds: bytes that decrypted, or, failing
/// that, the text itself (files of older nodes hold plain JSON).
pub enum StoredSecrets {
    Decrypted(Vec<u8>),
    Legacy(String),
}

/// The plaintext of a stored secrets file `raw`: its trimmed text decoded
/// from base64 and decrypted when both succeed, else the trimmed text.
pub fn load_secrets(raw: &str, master_key: &Vec<u8>) -> (r: StoredSecrets)
    requires
        master_key@.len() == KEY_LEN,
    ensures
        ({
            let t = trimmed(raw@);
            match base64_decode_of(t) {
                Some(blob) => if blob.len() >= NONCE_LEN && aes_open(master_key@, blob.take(NONCE_LEN as int),
                    blob.skip(NONCE_LEN as int)) is Some {
                    r matches StoredSecrets::Decrypted(p)
                        && Some(p@) == aes_open(master_key@, blob.take(NONCE_LEN as int), blob.skip(NONCE_LEN as int))
                } else {
                    r matches StoredSecrets::Legacy(s) && s@ == t
                },
                None => r matches StoredSecrets::Legacy(s) && s@ == t,
            }
        }),
{
    let cs = chars_of(raw);
    let tv = crate::runtime_registry::trim_text(&cs);
    let t = crate::text::string_of(&tv);
    match base64_decode(t.as_str()) {
        Some(blob) => match decrypt(&blob, master_key) {
            Ok(p) => StoredSecrets::Decrypted(p),
            Err(_) => StoredSecrets::Legacy(t),
        },
        None => StoredSecrets::Legacy(t),
    }
}

/// Text of base64 characters has no white space to trim.
proof fn lemma_trim_base64(s: Seq<char>)
    requires
        forall|i: int| 0 <= i < s.len() ==> base64_char(#[trigger] s[i]),
    ensures
        trimmed(s) == s,
{
    if s.len() > 0 {
        assert(!white_space(s[0]));
        assert(!white_space(s[s.len() - 1]));
        assert(crate::runtime_registry::leading_ws(s, 0) == 0);
        assert(crate::runtime_registry::trailing_end(s, s.len() as int) == s.len());
        assert(s.subrange(0, s.len() as int) =~= s);
    }
}

/// What is sealed opens again: the stored text of sealed secrets gives back
/// the serialized secrets under the same key.
pub proof fn lemma_seal_then_open(plain: Seq<u8>, key: Seq<u8>, stored: Seq<char>, blob: Seq<u8>)
    requires
        key.len() == KEY_LEN,
        blob_opens(key, blob, plain),
        base64_decode_of(stored) == Some(blob),
        forall|i: int| 0 <= i < stored.len() ==> base64_char(#[trigger] stored[i]),
    ensures
        base64_decode_of(trimmed(stored)) == Some(blob),
        aes_open(key, blob.take(NONCE_LEN as int), blob.skip(NONCE_LEN as int)) == Some(plain),
{
    lemma_trim_base64(stored);
}

/// `HashMap::extend` of std: every pair of `new` is inserted, replacing the
/// value of a key already present.
#[verifier::external_body]
fn extend_map(m: &mut HashMap<String, String>, new: HashMap<String, String>)
    ensures
        final(m)@ == old(m)@.union_prefer_right(new@),
{
    m.extend(new)
}

/// The secrets with `new` merged in; a new value replaces an old one.
pub fn upsert_secrets(existing: TenantSecrets, new: HashMap<String, String>) -> (r: TenantSecrets)
    ensures
        r.secrets@ == existing.secrets@.union_prefer_right(new@),
{
    let mut existing = existing;
    extend_map(&mut existing.secrets, new);
    existing
}

} // verus!
