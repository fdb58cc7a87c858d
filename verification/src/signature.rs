//! ECDSA over secp256k1: the sequencer's signer, and the checks of issuer
//! signatures on credential roots.
use vstd::prelude::*;
use k256::ecdsa::signature::hazmat::{PrehashSigner, PrehashVerifier};

verus! {

#[verifier::external_type_specification]
#[verifier::external_body]
pub struct ExSignatureError(k256::ecdsa::Error);

/// A secp256k1 public key, held as `k256::ecdsa::VerifyingKey`. Opaque:
/// the generic `ecdsa` key types cannot be declared, as their bounds name
/// outside traits.
#[verifier::external_body]
struct VerifyingKeyHandle {
    inner: k256::ecdsa::VerifyingKey,
}

/// A public key together with the SEC1 bytes it was parsed from.
struct ParsedKey {
    handle: VerifyingKeyHandle,
    encoding: Ghost<Seq<u8>>,
}

/// A secp256k1 signing key, held as `k256::ecdsa::SigningKey`. Opaque, for
/// the same reason as `VerifyingKeyHandle`.
#[verifier::external_body]
struct SigningKeyHandle {
    inner: k256::ecdsa::SigningKey,
}

/// A signing key together with the secret bytes it was parsed from.
struct ParsedSecret {
    handle: SigningKeyHandle,
    encoding: Ghost<Seq<u8>>,
}

/// A parsed ECDSA signature, held as `k256::ecdsa::Signature`. Opaque, for
/// the same reason as `VerifyingKeyHandle`.
#[verifier::external_body]
struct EcdsaSignature {
    inner: k256::ecdsa::Signature,
}

/// A signature together with the `r || s` bytes it was parsed from.
struct ParsedSignature {
    signature: EcdsaSignature,
    encoding: Ghost<Seq<u8>>,
}

/// `bytes` is a SEC1 encoding of a point on secp256k1 that
/// `k256::ecdsa::VerifyingKey::from_sec1_bytes` accepts.
pub uninterp spec fn sec1_public_key_valid(bytes: Seq<u8>) -> bool;

/// `bytes` is a signature `r || s` that `k256::ecdsa::Signature::from_slice`
/// accepts.
pub uninterp spec fn signature_encoding_valid(bytes: Seq<u8>) -> bool;

/// `bytes` is a secret scalar that `k256::ecdsa::SigningKey::from_slice`
/// accepts.
pub uninterp spec fn secret_key_valid(bytes: Seq<u8>) -> bool;

/// `PrehashVerifier::verify_prehash` of the key with SEC1 encoding
/// `public_key` accepts the signature with encoding `signature` over
/// `prehash`. ECDSA verification is a function of these bytes alone.
pub uninterp spec fn ecdsa_accepts(public_key: Seq<u8>, prehash: Seq<u8>, signature: Seq<u8>) -> bool;

/// The `r || s` encoding of the signature that
/// `PrehashSigner::sign_prehash` of the key with secret bytes `secret` makes
/// over `prehash`, or `None` when it fails. Signing is deterministic
/// (RFC 6979), a function of these bytes alone.
pub uninterp spec fn ecdsa_signature(secret: Seq<u8>, prehash: Seq<u8>) -> Option<Seq<u8>>;

/// The SEC1 encoding, as `VerifyingKey::to_sec1_bytes` gives it, of the
/// public key that goes with the secret bytes `secret`.
pub uninterp spec fn ecdsa_public_key(secret: Seq<u8>) -> Seq<u8>;

/// Calls `k256::ecdsa::VerifyingKey::from_sec1_bytes`; the contract claims
/// that it succeeds exactly on the encodings it accepts, and records the
/// bytes that the key was parsed from.
#[verifier::external_body]
fn parse_public_key(bytes: &[u8]) -> (res: Result<ParsedKey, k256::ecdsa::Error>)
    ensures
        res.is_ok() == sec1_public_key_valid(bytes@),
        res matches Ok(key) ==> key.encoding@ == bytes@,
{
    match k256::ecdsa::VerifyingKey::from_sec1_bytes(bytes) {
        Ok(inner) => Ok(ParsedKey { handle: VerifyingKeyHandle { inner }, encoding: Ghost(bytes@) }),
        Err(e) => Err(e),
    }
}

/// Calls `k256::ecdsa::Signature::from_slice`; the contract claims that it
/// succeeds exactly on the encodings it accepts, and (as its source shows)
/// only on 64-byte input, and records the bytes that the signature was
/// parsed from.
#[verifier::external_body]
fn parse_signature(bytes: &[u8]) -> (res: Result<ParsedSignature, k256::ecdsa::Error>)
    ensures
        res.is_ok() == signature_encoding_valid(bytes@),
        res.is_ok() ==> bytes@.len() == 64,
        res matches Ok(sig) ==> sig.encoding@ == bytes@,
{
    match k256::ecdsa::Signature::from_slice(bytes) {
        Ok(inner) => Ok(ParsedSignature { signature: EcdsaSignature { inner }, encoding: Ghost(bytes@) }),
        Err(e) => Err(e),
    }
}

/// Calls `PrehashVerifier::verify_prehash` of `k256::ecdsa::VerifyingKey`;
/// the contract claims that it succeeds exactly when the signature is
/// accepted, as `ecdsa_accepts` names it over the bytes that the key and the
/// signature were parsed from.
#[verifier::external_body]
fn verify_prehash(key: &ParsedKey, prehash: &[u8], signature: &ParsedSignature) -> (res: Result<
    (),
    k256::ecdsa::Error,
>)
    ensures
        res.is_ok() == ecdsa_accepts(key.encoding@, prehash@, signature.encoding@),
{
    key.handle.inner.verify_prehash(prehash, &signature.signature.inner)
}

/// Calls `k256::ecdsa::SigningKey::from_slice`; the contract claims that
/// it succeeds exactly on the secrets it accepts, and records the bytes that
/// the key was parsed from.
#[verifier::external_body]
fn parse_signing_key(bytes: &[u8]) -> (res: Result<ParsedSecret, k256::ecdsa::Error>)
    ensures
        res.is_ok() == secret_key_valid(bytes@),
        res matches Ok(key) ==> key.encoding@ == bytes@,
{
    match k256::ecdsa::SigningKey::from_slice(bytes) {
        Ok(inner) => Ok(ParsedSecret { handle: SigningKeyHandle { inner }, encoding: Ghost(bytes@) }),
        Err(e) => Err(e),
    }
}

/// Calls `PrehashSigner::sign_prehash` of `k256::ecdsa::SigningKey` and
/// encodes the signature with `Signature::to_vec`; the contract claims that
/// the outcome is the one `ecdsa_signature` names over the key's secret
/// bytes, and that an encoding `r || s` is 64 bytes long, as the source
/// shows.
#[verifier::external_body]
fn sign_prehash(key: &ParsedSecret, prehash: &[u8]) -> (res: Result<Vec<u8>, k256::ecdsa::Error>)
    ensures
        res.is_ok() == ecdsa_signature(key.encoding@, prehash@) is Some,
        res matches Ok(v) ==> ecdsa_signature(key.encoding@, prehash@) == Some(v@) && v@.len() == 64,
{
    match PrehashSigner::<k256::ecdsa::Signature>::sign_prehash(&key.handle.inner, prehash) {
        Ok(signature) => Ok(signature.to_vec()),
        Err(e) => Err(e),
    }
}

/// Calls `SigningKey::verifying_key` and encodes the key with
/// `VerifyingKey::to_sec1_bytes`; the contract claims that the result is the
/// encoding `ecdsa_public_key` names, that it parses as a public key, and,
/// as the k256 documentation shows of a signing key and its verifying key,
/// that every signature the signing key makes parses and is accepted under
/// it.
#[verifier::external_body]
fn verifying_key_bytes(key: &ParsedSecret) -> (res: Vec<u8>)
    ensures
        res@ == ecdsa_public_key(key.encoding@),
        sec1_public_key_valid(res@),
        forall|prehash: Seq<u8>|
            #[trigger] ecdsa_signature(key.encoding@, prehash) matches Some(sig) ==> signature_check(
                res@,
                prehash,
                sig,
            ) == SignatureCheck::Accepted,
{
    key.handle.inner.verifying_key().to_sec1_bytes().to_vec()
}

/// Why a signing or verification request failed.
#[derive(Clone, Copy, PartialEq, Eq, Debug, Structural)]
pub enum SignatureError {
    /// The secret bytes are not a valid secp256k1 scalar.
    InvalidSecretKey,
    /// The public key bytes are not a valid SEC1 point.
    InvalidPublicKey,
    /// The signature bytes are not a valid `r || s` encoding.
    InvalidSignature,
    /// The signer failed to produce a signature.
    SigningFailed,
}

/// The outcome of checking one signature.
#[derive(Clone, Copy, PartialEq, Eq, Debug, Structural)]
pub enum SignatureCheck {
    InvalidKey,
    InvalidSignature,
    Rejected,
    Accepted,
}

/// The outcome of checking the signature `signature` over `msg_hash` with
/// the SEC1 public key `public_key`: the key is parsed first, then the
/// signature, and then the signature is verified.
pub open spec fn signature_check(public_key: Seq<u8>, msg_hash: Seq<u8>, signature: Seq<u8>) -> SignatureCheck {
    if !sec1_public_key_valid(public_key) {
        SignatureCheck::InvalidKey
    } else if !signature_encoding_valid(signature) {
        SignatureCheck::InvalidSignature
    } else if ecdsa_accepts(public_key, msg_hash, signature) {
        SignatureCheck::Accepted
    } else {
        SignatureCheck::Rejected
    }
}

/// Checks an ECDSA signature over the 32-byte prehash `msg_hash` with a
/// SEC1-encoded public key.
pub fn check_signature(public_key: &[u8], msg_hash: &[u8; 32], signature: &[u8]) -> (res: SignatureCheck)
    ensures
        res == signature_check(public_key@, msg_hash@, signature@),
        (res == SignatureCheck::Accepted || res == SignatureCheck::Rejected) ==> signature@.len() == 64,
{
    let key = match parse_public_key(public_key) {
        Ok(key) => key,
        Err(_) => return SignatureCheck::InvalidKey,
    };
    let sig = match parse_signature(signature) {
        Ok(sig) => sig,
        Err(_) => return SignatureCheck::InvalidSignature,
    };
    match verify_prehash(&key, msg_hash.as_slice(), &sig) {
        Ok(()) => SignatureCheck::Accepted,
        Err(_) => SignatureCheck::Rejected,
    }
}

/// A service that signs 32-byte message hashes and verifies signatures on
/// them.
pub trait DigitalSignatureService {
    fn sign(&self, msg_hash: &[u8; 32]) -> Result<Vec<u8>, SignatureError>;

    fn verify(&self, public_key_bytes: &[u8], msg_hash: &[u8; 32], sig: &[u8]) -> Result<bool, SignatureError>;
}

/// The sequencer's secp256k1 signer.
pub struct Secp256k1 {
    private_key: ParsedSecret,
}

impl Secp256k1 {
    /// The secret bytes the signer was made with.
    pub closed spec fn secret(&self) -> Seq<u8> {
        self.private_key.encoding@
    }

    /// A signer with the secret scalar `bytes`; fails exactly when `bytes`
    /// is not a valid secret.
    pub fn new(bytes: &[u8; 32]) -> (res: Result<Self, SignatureError>)
        ensures
            res.is_ok() == secret_key_valid(bytes@),
            res matches Ok(signer) ==> signer.secret() == bytes@,
            res matches Err(e) ==> e == SignatureError::InvalidSecretKey,
    {
        match parse_signing_key(bytes.as_slice()) {
            Ok(private_key) => Ok(Secp256k1 { private_key }),
            Err(_) => Err(SignatureError::InvalidSecretKey),
        }
    }

    /// The SEC1 encoding of the signer's public key. Every signature the
    /// signer makes over a message hash passes the check under this key.
    pub fn public_key(&self) -> (res: Vec<u8>)
        ensures
            res@ == ecdsa_public_key(self.secret()),
            forall|msg_hash: Seq<u8>|
                #[trigger] ecdsa_signature(self.secret(), msg_hash) matches Some(sig) ==> signature_check(
                    res@,
                    msg_hash,
                    sig,
                ) == SignatureCheck::Accepted,
    {
        verifying_key_bytes(&self.private_key)
    }
}

impl DigitalSignatureService for Secp256k1 {
    /// Signs `msg_hash`: the 64 bytes `r || s` of the deterministic
    /// signature, or `SigningFailed` when the signer fails.
    fn sign(&self, msg_hash: &[u8; 32]) -> (res: Result<Vec<u8>, SignatureError>)
        ensures
            res is Ok == ecdsa_signature(self.secret(), msg_hash@) is Some,
            res matches Ok(v) ==> ecdsa_signature(self.secret(), msg_hash@) == Some(v@) && v@.len() == 64,
            res matches Err(e) ==> e == SignatureError::SigningFailed,
    {
        match sign_prehash(&self.private_key, msg_hash.as_slice()) {
            Ok(sig) => Ok(sig),
            Err(_) => Err(SignatureError::SigningFailed),
        }
    }

    /// Verifies `sig` over `msg_hash`: an error when the key or the signature
    /// does not parse, otherwise whether the signature is accepted.
    fn verify(&self, public_key_bytes: &[u8], msg_hash: &[u8; 32], sig: &[u8]) -> (res: Result<
        bool,
        SignatureError,
    >)
        ensures
            res == match signature_check(public_key_bytes@, msg_hash@, sig@) {
                SignatureCheck::InvalidKey => Err(SignatureError::InvalidPublicKey),
                SignatureCheck::InvalidSignature => Err(SignatureError::InvalidSignature),
                SignatureCheck::Rejected => Ok(false),
                SignatureCheck::Accepted => Ok(true),
            },
    {
        match check_signature(public_key_bytes, msg_hash, sig) {
            SignatureCheck::InvalidKey => Err(SignatureError::InvalidPublicKey),
            SignatureCheck::InvalidSignature => Err(SignatureError::InvalidSignature),
            SignatureCheck::Rejected => Ok(false),
            SignatureCheck::Accepted => Ok(true),
        }
    }
}

} // verus!
