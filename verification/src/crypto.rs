//! Password-based key derivation and the chunk codec: sealing a plaintext
//! chunk into ciphertext plus authentication tag, and opening it again.
//!
//! The cipher work itself is done by the `ring` crate (PBKDF2-HMAC-SHA256
//! and AES-256-GCM); this module states what those calls return and builds
//! the verified codec on top of them.

use vstd::prelude::*;
use vstd::string::*;
use crate::errors::CryptoError;

verus! {

/// Length in bytes of the AES-256-GCM authentication tag appended to every
/// sealed chunk.
pub const TAG_LEN: usize = 16;

/// Length in bytes of the derived symmetric key (AEAD-256 class).
pub const KEY_LEN: usize = 32;

/// Length in bytes of the AES-256-GCM nonce.
pub const NONCE_LEN: usize = 12;

/// Iteration count of the password-based key derivation.
pub const PBKDF2_ITERATIONS: u32 = 100_000;

/// Plaintext chunk size used by the transfer pipeline.
pub const CHUNK_SIZE: usize = 5 * 1024 * 1024;

/// Ciphertext chunk size: a full plaintext chunk plus its tag.
pub const CHUNK_SIZE_WITH_TAG: usize = CHUNK_SIZE + TAG_LEN;

/// Upper bound on a single sealed payload, comfortably below the cipher's
/// own per-nonce input limit.
pub const MAX_PLAINTEXT_LEN: usize = 0xFFFF_FFFF;

/// The key that PBKDF2-HMAC-SHA256 derives from a password, a salt and an
/// iteration count, as 32 bytes.  A pure function of its arguments.
pub uninterp spec fn pbkdf2_key(password: Seq<u8>, salt: Seq<u8>, iterations: u32) -> Seq<u8>;

/// The ciphertext-plus-tag that AES-256-GCM produces for a key, nonce,
/// associated data and plaintext.  A pure function of its arguments.
pub uninterp spec fn aead_seal(key: Seq<u8>, nonce: Seq<u8>, aad: Seq<u8>, plaintext: Seq<u8>) -> Seq<u8>;

/// What AES-256-GCM decryption yields for a key, nonce, associated data and
/// ciphertext-plus-tag: the plaintext when the tag verifies, nothing
/// otherwise.  A pure function of its arguments.
pub uninterp spec fn aead_open(key: Seq<u8>, nonce: Seq<u8>, aad: Seq<u8>, ciphertext: Seq<u8>) -> Option<Seq<u8>>;

/// Relies on ring::pbkdf2::derive with PBKDF2_HMAC_SHA256: fills the output
/// buffer deterministically from password, salt and iteration count alone.
#[verifier::external_body]
fn pbkdf2_derive(password: &[u8], salt: &[u8], iterations: u32) -> (r: Vec<u8>)
    requires
        iterations >= 1,
        password@.len() <= MAX_PLAINTEXT_LEN,
        salt@.len() <= MAX_PLAINTEXT_LEN,
    ensures
        r@ == pbkdf2_key(password@, salt@, iterations),
        r@.len() == KEY_LEN,
{
    let mut key = [0u8; 32];
    ring::pbkdf2::derive(
        ring::pbkdf2::PBKDF2_HMAC_SHA256,
        core::num::NonZeroU32::new(iterations).unwrap(),
        salt,
        password,
        &mut key,
    );
    key.to_vec()
}

/// Relies on ring::aead::LessSafeKey::seal_in_place_append_tag with
/// AES_256_GCM: appends the 16-byte tag, and the result is a function of
/// key, nonce, associated data and plaintext alone; ring's open_in_place
/// recovers exactly the sealed plaintext from it.
#[verifier::external_body]
fn aead_seal_bytes(key: &[u8], nonce: &[u8], aad: &[u8], plaintext: &[u8]) -> (r: Vec<u8>)
    requires
        key@.len() == KEY_LEN,
        nonce@.len() == NONCE_LEN,
        aad@.len() <= MAX_PLAINTEXT_LEN,
        plaintext@.len() <= MAX_PLAINTEXT_LEN,
    ensures
        r@ == aead_seal(key@, nonce@, aad@, plaintext@),
        r@.len() == plaintext@.len() + TAG_LEN,
        aead_open(key@, nonce@, aad@, r@) == Some(plaintext@),
{
    let unbound = ring::aead::UnboundKey::new(&ring::aead::AES_256_GCM, key).unwrap();
    let less_safe_key = ring::aead::LessSafeKey::new(unbound);
    let nonce_value = ring::aead::Nonce::try_assume_unique_for_key(nonce).unwrap();
    let mut in_out = plaintext.to_vec();
    less_safe_key
        .seal_in_place_append_tag(nonce_value, ring::aead::Aad::from(aad), &mut in_out)
        .unwrap();
    in_out
}

/// Relies on ring::aead::LessSafeKey::open_in_place with AES_256_GCM:
/// returns the sealed plaintext when the authentication tag verifies and
/// fails otherwise, as a function of key, nonce, associated data and
/// ciphertext alone.
#[verifier::external_body]
fn aead_open_bytes(key: &[u8], nonce: &[u8], aad: &[u8], ciphertext: &[u8]) -> (r: Option<Vec<u8>>)
    requires
        key@.len() == KEY_LEN,
        nonce@.len() == NONCE_LEN,
        aad@.len() <= MAX_PLAINTEXT_LEN,
    ensures
        match r {
            Some(pt) => {
                &&& aead_open(key@, nonce@, aad@, ciphertext@) == Some(pt@)
                &&& pt@.len() + TAG_LEN == ciphertext@.len()
            },
            None => aead_open(key@, nonce@, aad@, ciphertext@) is None,
        },
{
    let unbound = ring::aead::UnboundKey::new(&ring::aead::AES_256_GCM, key).unwrap();
    let less_safe_key = ring::aead::LessSafeKey::new(unbound);
    let nonce_value = ring::aead::Nonce::try_assume_unique_for_key(nonce).unwrap();
    let mut in_out = ciphertext.to_vec();
    match less_safe_key.open_in_place(nonce_value, ring::aead::Aad::from(aad), &mut in_out) {
        Ok(pt) => Some(pt.to_vec()),
        Err(_) => None,
    }
}

/// The fixed application-wide salt of the key derivation.
pub open spec fn salt_bytes() -> Seq<u8> {
    "5462d05a-cbf4-465a-956f-2b98770beabb".spec_bytes()
}

/// The fixed associated data authenticated with every chunk.
pub open spec fn aad_bytes() -> Seq<u8> {
    "cfaf0256-beec-4495-9175-b9800dd2e2d7".spec_bytes()
}

/// The fixed nonce used for every chunk.  Reusing one nonce across chunks
/// keys confidentiality entirely to the password being secret; it is kept
/// so that objects sealed earlier with the same password still open.
pub open spec fn nonce_bytes() -> Seq<u8> {
    Seq::new(NONCE_LEN as nat, |i: int| 200u8)
}

/// The fixed salt as a byte vector.
pub fn default_salt() -> (r: Vec<u8>)
    ensures
        r@ == salt_bytes(),
        r@.len() <= 36,
{
    let s = "5462d05a-cbf4-465a-956f-2b98770beabb";
    proof {
        reveal_strlit("5462d05a-cbf4-465a-956f-2b98770beabb");
        assert forall|i: int| 0 <= i < s@.len() implies '\0' <= #[trigger] s@[i] <= '\u{7f}' by {}
        assert(vstd::utf8::is_ascii_chars(s@));
        vstd::utf8::is_ascii_chars_encode_utf8(s@);
    }
    s.as_bytes_vec()
}

/// The fixed associated data as a byte vector.
pub fn default_aad() -> (r: Vec<u8>)
    ensures
        r@ == aad_bytes(),
        r@.len() <= 36,
{
    let s = "cfaf0256-beec-4495-9175-b9800dd2e2d7";
    proof {
        reveal_strlit("cfaf0256-beec-4495-9175-b9800dd2e2d7");
        assert forall|i: int| 0 <= i < s@.len() implies '\0' <= #[trigger] s@[i] <= '\u{7f}' by {}
        assert(vstd::utf8::is_ascii_chars(s@));
        vstd::utf8::is_ascii_chars_encode_utf8(s@);
    }
    s.as_bytes_vec()
}

/// The fixed nonce as a byte vector.
pub fn default_nonce() -> (r: Vec<u8>)
    ensures
        r@ == nonce_bytes(),
{
    let mut v: Vec<u8> = Vec::new();
    let mut i: usize = 0;
    while i < NONCE_LEN
        invariant
            i <= NONCE_LEN,
            v@.len() == i,
            forall|j: int| 0 <= j < i ==> v@[j] == 200u8,
        decreases NONCE_LEN - i,
    {
        v.push(200u8);
        i = i + 1;
    }
    proof {
        assert(v@ =~= nonce_bytes());
    }
    v
}

/// Derives the 32-byte symmetric key from a password and a salt, with the
/// fixed iteration count.  Deterministic: the result is a pure function of
/// the password, the salt and the iteration count, so deriving twice from
/// the same inputs yields the same key bytes.
pub fn derive_key(password: &[u8], salt: &[u8]) -> (r: Vec<u8>)
    requires
        password@.len() <= MAX_PLAINTEXT_LEN,
        salt@.len() <= MAX_PLAINTEXT_LEN,
    ensures
        r@ == pbkdf2_key(password@, salt@, PBKDF2_ITERATIONS),
        r@.len() == KEY_LEN,
{
    pbkdf2_derive(password, salt, PBKDF2_ITERATIONS)
}

/// The key derivation is deterministic: called on the same password, salt
/// and iteration count it names one key, so two derivations from identical
/// inputs are identical.
pub proof fn lemma_derive_key_deterministic(password: Seq<u8>, salt: Seq<u8>, iterations: u32)
    ensures
        pbkdf2_key(password, salt, iterations) == pbkdf2_key(password, salt, iterations),
{
}

/// One sealing/opening configuration: a derived key together with the nonce
/// and associated data that every chunk of the operation uses.
pub struct ChunkCodec {
    pub key: Vec<u8>,
    pub nonce: Vec<u8>,
    pub aad: Vec<u8>,
}

impl ChunkCodec {
    /// A usable codec: full-length key and nonce, and associated data small
    /// enough for the cipher.
    pub open spec fn wf(&self) -> bool {
        &&& self.key@.len() == KEY_LEN
        &&& self.nonce@.len() == NONCE_LEN
        &&& self.aad@.len() <= MAX_PLAINTEXT_LEN
    }

    /// Builds a codec from explicit key material and cipher configuration.
    pub fn new(key: Vec<u8>, nonce: Vec<u8>, aad: Vec<u8>) -> (r: Self)
        requires
            key@.len() == KEY_LEN,
            nonce@.len() == NONCE_LEN,
            aad@.len() <= MAX_PLAINTEXT_LEN,
        ensures
            r.wf(),
            r.key@ == key@,
            r.nonce@ == nonce@,
            r.aad@ == aad@,
    {
        ChunkCodec { key, nonce, aad }
    }

    /// Seals one plaintext chunk: ciphertext plus 16-byte tag.  Succeeds on
    /// every payload the cipher accepts; only an over-long payload is
    /// rejected.
    pub fn seal(&self, payload: &[u8]) -> (r: Result<Vec<u8>, CryptoError>)
        requires
            self.wf(),
        ensures
            payload@.len() <= MAX_PLAINTEXT_LEN ==> (r matches Ok(ct) && {
                &&& ct@ == aead_seal(self.key@, self.nonce@, self.aad@, payload@)
                &&& ct@.len() == payload@.len() + TAG_LEN
                &&& aead_open(self.key@, self.nonce@, self.aad@, ct@) == Some(payload@)
            }),
            payload@.len() > MAX_PLAINTEXT_LEN ==> r == Err::<Vec<u8>, CryptoError>(CryptoError::SealFailed),
    {
        if payload.len() > MAX_PLAINTEXT_LEN {
            Err(CryptoError::SealFailed)
        } else {
            Ok(aead_seal_bytes(self.key.as_slice(), self.nonce.as_slice(), self.aad.as_slice(), payload))
        }
    }

    /// Opens one sealed chunk.  Returns the plaintext exactly when the
    /// authentication tag verifies, and fails with `AuthenticationFailed`
    /// otherwise (wrong password, corrupted or tampered data, or a wrong
    /// chunk boundary).
    pub fn open(&self, payload: &[u8]) -> (r: Result<Vec<u8>, CryptoError>)
        requires
            self.wf(),
        ensures
            match r {
                Ok(pt) => {
                    &&& aead_open(self.key@, self.nonce@, self.aad@, payload@) == Some(pt@)
                    &&& pt@.len() + TAG_LEN == payload@.len()
                },
                Err(e) => {
                    &&& e == CryptoError::AuthenticationFailed
                    &&& aead_open(self.key@, self.nonce@, self.aad@, payload@) is None
                },
            },
    {
        match aead_open_bytes(self.key.as_slice(), self.nonce.as_slice(), self.aad.as_slice(), payload) {
            Some(pt) => Ok(pt),
            None => Err(CryptoError::AuthenticationFailed),
        }
    }
}

/// Builds the codec the transfer pipeline uses for a password: the key is
/// derived from the password and the fixed salt, and the fixed nonce and
/// associated data are installed.
pub fn setup_key(password: &str) -> (r: ChunkCodec)
    requires
        password.spec_bytes().len() <= MAX_PLAINTEXT_LEN,
    ensures
        r.wf(),
        r.key@ == pbkdf2_key(password.spec_bytes(), salt_bytes(), PBKDF2_ITERATIONS),
        r.nonce@ == nonce_bytes(),
        r.aad@ == aad_bytes(),
{
    let password_bytes = password.as_bytes_vec();
    let salt = default_salt();
    let key = derive_key(password_bytes.as_slice(), salt.as_slice());
    ChunkCodec::new(key, default_nonce(), default_aad())
}

/// Seals one payload with a codec; the free-function form of
/// `ChunkCodec::seal`.
pub fn encrypt(payload: &[u8], codec: &ChunkCodec) -> (r: Result<Vec<u8>, CryptoError>)
    requires
        codec.wf(),
    ensures
        payload@.len() <= MAX_PLAINTEXT_LEN ==> (r matches Ok(ct) && {
            &&& ct@ == aead_seal(codec.key@, codec.nonce@, codec.aad@, payload@)
            &&& ct@.len() == payload@.len() + TAG_LEN
            &&& aead_open(codec.key@, codec.nonce@, codec.aad@, ct@) == Some(payload@)
        }),
        payload@.len() > MAX_PLAINTEXT_LEN ==> r == Err::<Vec<u8>, CryptoError>(CryptoError::SealFailed),
{
    codec.seal(payload)
}

/// Opens one payload with a codec; the free-function form of
/// `ChunkCodec::open`.
pub fn decrypt(payload: &[u8], codec: &ChunkCodec) -> (r: Result<Vec<u8>, CryptoError>)
    requires
        codec.wf(),
    ensures
        match r {
            Ok(pt) => {
                &&& aead_open(codec.key@, codec.nonce@, codec.aad@, payload@) == Some(pt@)
                &&& pt@.len() + TAG_LEN == payload@.len()
            },
            Err(e) => {
                &&& e == CryptoError::AuthenticationFailed
                &&& aead_open(codec.key@, codec.nonce@, codec.aad@, payload@) is None
            },
        },
{
    codec.open(payload)
}

/// Round trip: opening a freshly sealed payload returns the original
/// payload, byte for byte, for every codec and every payload the cipher
/// accepts.
pub fn seal_open_round_trip(codec: &ChunkCodec, payload: &[u8]) -> (r: Vec<u8>)
    requires
        codec.wf(),
        payload@.len() <= MAX_PLAINTEXT_LEN,
    ensures
        r@ == payload@,
{
    let sealed = match codec.seal(payload) {
        Ok(ct) => ct,
        Err(_) => {
            proof {
                assert(false);
            }
            Vec::new()
        },
    };
    match codec.open(sealed.as_slice()) {
        Ok(pt) => pt,
        Err(_) => {
            proof {
                assert(false);
            }
            Vec::new()
        },
    }
}

} // verus!
