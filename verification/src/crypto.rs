//! Key material and the trusted boundary to openssl and chrono.
//!
//! Everything the protocol needs from the outside world is a pure
//! computation: hashing, Ed25519 signing and verification, base64, PEM
//! decoding and RFC 3339 formatting. Each is reached through exactly one
//! wrapper below; the names (`sha256_of`, `ed25519_sig_of`, ...) stand for
//! the results, and the contracts of this crate speak of those names.

use vstd::prelude::*;
use vstd::string::StringSliceAdditionalSpecFns;

verus! {

/// The SHA-256 digest of a byte sequence.
pub uninterp spec fn sha256_of(data: Seq<u8>) -> Seq<u8>;

/// The raw Ed25519 public key derived from a raw 32-byte private key.
pub uninterp spec fn ed25519_public_of(prv: Seq<u8>) -> Seq<u8>;

/// The Ed25519 signature of a message under a raw 32-byte private key.
/// Ed25519 signing is deterministic, so this is a function of the two.
pub uninterp spec fn ed25519_sig_of(prv: Seq<u8>, msg: Seq<u8>) -> Seq<u8>;

/// Whether a signature verifies over a message under a raw public key.
pub uninterp spec fn ed25519_ok(pubk: Seq<u8>, msg: Seq<u8>, sig: Seq<u8>) -> bool;

/// The base64 encoding of a byte sequence.
pub uninterp spec fn b64_of(data: Seq<u8>) -> Seq<char>;

/// The bytes that base64 decoding yields on an accepted input.
pub uninterp spec fn b64_dec_of(text: Seq<char>) -> Seq<u8>;

/// The UTF-8 bytes of the RFC 3339 rendering of a UTC timestamp
/// (seconds since the epoch), e.g. `2030-01-01T00:00:00+00:00`.
pub uninterp spec fn rfc3339_of(secs: int) -> Seq<u8>;

/// The raw public key that PEM decoding yields, if the input is a valid
/// PEM-encoded Ed25519 public key.
pub uninterp spec fn pem_pubkey_of(pem: Seq<u8>) -> Option<Seq<u8>>;

/// Timestamps the protocol accepts as expirations: those whose RFC 3339
/// rendering has a four-digit year, from 0000-01-01T00:00:00Z up to
/// 9999-12-31T23:59:59Z.
pub const MIN_EXPIRATION: i64 = -62167219200;

/// See `MIN_EXPIRATION`.
pub const MAX_EXPIRATION: i64 = 253402300799;

/// The longest byte sequence the base64 encoder accepts: for anything
/// longer, the encoder's output-length computation — four output bytes
/// for every three input bytes, plus padding and a terminator, carried
/// out in signed 32-bit arithmetic — overflows, and the call panics.
/// This is (i32::MAX - 1) / 4 * 3.
pub const MAX_ENCODABLE_LEN: usize = 1_610_612_733;

/// The longest base64 text the decoder accepts: it is limited to inputs
/// whose byte length fits a signed 32-bit integer.
pub const MAX_B64_LEN: usize = 0x7FFF_FFFF;

/// Text that stays on one line: it holds no line feed and no carriage
/// return, so it fits a line-oriented file format.
pub open spec fn single_line(s: Seq<char>) -> bool {
    forall|i: int| 0 <= i < s.len() ==> #[trigger] s[i] != '\n' && s[i] != '\r'
}

/// A raw Ed25519 private key (a 32-byte seed).
pub struct PrivateKey {
    bytes: Vec<u8>,
}

/// A raw Ed25519 public key (32 bytes).
pub struct PublicKey {
    bytes: Vec<u8>,
}

impl View for PrivateKey {
    type V = Seq<u8>;

    closed spec fn view(&self) -> Seq<u8> {
        self.bytes@
    }
}

impl View for PublicKey {
    type V = Seq<u8>;

    closed spec fn view(&self) -> Seq<u8> {
        self.bytes@
    }
}

impl PrivateKey {
    /// Wraps a raw 32-byte Ed25519 seed; any 32-byte value is a valid seed.
    pub fn from_bytes(bytes: Vec<u8>) -> (r: Option<PrivateKey>)
        ensures
            match r {
                Some(k) => k@ == bytes@ && bytes@.len() == 32,
                None => bytes@.len() != 32,
            },
    {
        if bytes.len() == 32 {
            Some(PrivateKey { bytes })
        } else {
            None
        }
    }

    pub open spec fn wf(&self) -> bool {
        self@.len() == 32
    }
}

impl PublicKey {
    /// Wraps a raw 32-byte Ed25519 public key.
    pub fn from_bytes(bytes: Vec<u8>) -> (r: Option<PublicKey>)
        ensures
            match r {
                Some(k) => k@ == bytes@ && bytes@.len() == 32,
                None => bytes@.len() != 32,
            },
    {
        if bytes.len() == 32 {
            Some(PublicKey { bytes })
        } else {
            None
        }
    }

    /// The raw key bytes.
    pub fn as_bytes(&self) -> (r: &Vec<u8>)
        ensures
            r@ == self@,
    {
        &self.bytes
    }

    pub open spec fn wf(&self) -> bool {
        self@.len() == 32
    }

    /// Decodes a PEM-encoded Ed25519 public key.
    ///
    /// Relies on openssl's `PKey::public_key_from_pem` and
    /// `raw_public_key`: decoding is a function of the PEM bytes alone; it
    /// fails on anything but a valid PEM public key, and an Ed25519 raw
    /// public key has 32 bytes.
    #[verifier::external_body]
    pub fn from_pem(pem: &Vec<u8>) -> (r: Option<PublicKey>)
        ensures
            match r {
                Some(k) => pem_pubkey_of(pem@) == Some(k@) && k@.len() == 32,
                None => pem_pubkey_of(pem@) is None,
            },
    {
        let key = openssl::pkey::PKey::public_key_from_pem(pem).ok()?;
        if key.id() != openssl::pkey::Id::ED25519 {
            return None;
        }
        let raw = key.raw_public_key().ok()?;
        Some(PublicKey { bytes: raw })
    }
}

/// The public key belonging to a private key.
///
/// Relies on openssl's `PKey::private_key_from_raw_bytes` and
/// `raw_public_key`: the Ed25519 public key is derived deterministically
/// from the 32-byte seed and has 32 bytes. Returns `None` only if openssl
/// reports an internal error.
#[verifier::external_body]
pub(crate) fn public_key_of(prv: &PrivateKey) -> (r: Option<PublicKey>)
    requires
        prv.wf(),
    ensures
        match r {
            Some(k) => k@ == ed25519_public_of(prv@) && k@.len() == 32,
            None => true,
        },
{
    let key = openssl::pkey::PKey::private_key_from_raw_bytes(
        &prv.bytes,
        openssl::pkey::Id::ED25519,
    ).ok()?;
    let raw = key.raw_public_key().ok()?;
    Some(PublicKey { bytes: raw })
}

/// The SHA-256 digest of the given bytes.
///
/// Relies on openssl's `hash` with `MessageDigest::sha256`: the digest is a
/// function of the input and has 32 bytes. Returns `None` only if openssl
/// reports an internal error.
#[verifier::external_body]
pub(crate) fn sha256(data: &Vec<u8>) -> (r: Option<Vec<u8>>)
    ensures
        match r {
            Some(digest) => digest@ == sha256_of(data@) && digest@.len() == 32,
            None => true,
        },
{
    match openssl::hash::hash(openssl::hash::MessageDigest::sha256(), data) {
        Ok(digest) => Some(digest.to_vec()),
        Err(_) => None,
    }
}

/// Signs a message with an Ed25519 private key.
///
/// Relies on openssl's `Signer::new_without_digest` and
/// `sign_oneshot_to_vec` (PureEdDSA): signing is deterministic in the key
/// and the message, and the produced signature verifies under the matching
/// public key. Returns `None` only if openssl reports an internal error.
#[verifier::external_body]
pub(crate) fn ed25519_sign(prv: &PrivateKey, msg: &Vec<u8>) -> (r: Option<Vec<u8>>)
    requires
        prv.wf(),
    ensures
        match r {
            Some(sig) => sig@ == ed25519_sig_of(prv@, msg@) && ed25519_ok(
                ed25519_public_of(prv@),
                msg@,
                sig@,
            ),
            None => true,
        },
{
    let key = openssl::pkey::PKey::private_key_from_raw_bytes(
        &prv.bytes,
        openssl::pkey::Id::ED25519,
    ).ok()?;
    let mut signer = openssl::sign::Signer::new_without_digest(&key).ok()?;
    signer.sign_oneshot_to_vec(msg).ok()
}

/// Checks an Ed25519 signature over a message.
///
/// Relies on openssl's `Verifier::new_without_digest` and `verify_oneshot`
/// (PureEdDSA): the outcome is a function of key, message and signature;
/// any mismatch, truncation or corruption yields `false` rather than an
/// error surfaced to the caller.
#[verifier::external_body]
pub(crate) fn ed25519_verify(pubk: &PublicKey, msg: &Vec<u8>, sig: &Vec<u8>) -> (r: bool)
    requires
        pubk.wf(),
    ensures
        r == ed25519_ok(pubk@, msg@, sig@),
{
    let key = match openssl::pkey::PKey::public_key_from_raw_bytes(
        &pubk.bytes,
        openssl::pkey::Id::ED25519,
    ) {
        Ok(k) => k,
        Err(_) => return false,
    };
    let mut verifier = match openssl::sign::Verifier::new_without_digest(&key) {
        Ok(v) => v,
        Err(_) => return false,
    };
    verifier.verify_oneshot(sig, msg).unwrap_or(false)
}

/// Base64-encodes bytes.
///
/// Relies on openssl's `encode_block`: the encoding is a function of the
/// input; the output is four bytes for every three of input, rounded up;
/// it is ASCII drawn from the base64 alphabet, so it holds no line
/// break, no carriage return and no quote; and the call panics only when
/// the 32-bit output-length computation overflows, which the
/// precondition excludes.
#[verifier::external_body]
pub(crate) fn b64_encode(data: &Vec<u8>) -> (r: String)
    requires
        data@.len() <= MAX_ENCODABLE_LEN,
    ensures
        r@ == b64_of(data@),
        r@.len() == 4 * ((data@.len() + 2) / 3),
        vstd::utf8::is_ascii_chars(r@),
        single_line(r@),
        forall|i: int| 0 <= i < r@.len() ==> #[trigger] r@[i] != '"',
{
    openssl::base64::encode_block(data)
}

/// Base64-decodes a string.
///
/// Relies on openssl's `decode_block`: it inverts `encode_block`, so on the
/// encoding of any byte sequence it succeeds and returns that sequence; what
/// it accepts and returns is a function of the input; the output holds at
/// most three bytes for every four of input; and it panics only on inputs
/// longer than `i32::MAX` bytes, which the precondition excludes.
#[verifier::external_body]
pub(crate) fn b64_decode(text: &str) -> (r: Option<Vec<u8>>)
    requires
        text.spec_bytes().len() <= MAX_B64_LEN,
    ensures
        forall|x: Seq<u8>| text@ == b64_of(x) ==> r is Some && r->Some_0@ == x,
        match r {
            Some(v) => v@ == b64_dec_of(text@) && v@.len() <= (text.spec_bytes().len() / 4) * 3,
            None => true,
        },
{
    openssl::base64::decode_block(text).ok()
}

/// Formats a UTC timestamp as RFC 3339.
///
/// Relies on chrono's `DateTime::<Utc>::from_timestamp` and `to_rfc3339`:
/// the rendering is a function of the timestamp, and construction succeeds
/// on every timestamp between years 0000 and 9999, well inside chrono's
/// documented range.
#[verifier::external_body]
pub(crate) fn rfc3339_format(secs: i64) -> (r: Vec<u8>)
    requires
        MIN_EXPIRATION <= secs <= MAX_EXPIRATION,
    ensures
        r@ == rfc3339_of(secs as int),
{
    match chrono::DateTime::<chrono::Utc>::from_timestamp(secs, 0) {
        Some(dt) => dt.to_rfc3339().into_bytes(),
        None => Vec::new(),
    }
}

/// Builds a string from UTF-8 bytes.
///
/// Relies on std's `String::from_utf8`: it succeeds exactly on valid UTF-8
/// and decodes it.
#[verifier::external_body]
pub(crate) fn string_from_utf8(bytes: Vec<u8>) -> (r: Option<String>)
    ensures
        r is Some <==> vstd::utf8::valid_utf8(bytes@),
        r matches Some(s) ==> s@ == vstd::utf8::decode_utf8(bytes@),
{
    String::from_utf8(bytes).ok()
}

} // verus!
