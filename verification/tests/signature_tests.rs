use k256::ecdsa::signature::hazmat::PrehashSigner;
use k256::ecdsa::{Signature, SigningKey, VerifyingKey};
use starrol::signature::{check_signature, DigitalSignatureService, Secp256k1, SignatureCheck, SignatureError};

fn secret(seed: u8) -> [u8; 32] {
    let mut bytes = [0u8; 32];
    bytes[31] = seed;
    bytes[3] = 7;
    bytes
}

fn public(seed: u8) -> Vec<u8> {
    let sk = SigningKey::from_slice(&secret(seed)).unwrap();
    VerifyingKey::from(&sk).to_sec1_bytes().to_vec()
}

#[test]
fn sign_then_verify() {
    let signer = Secp256k1::new(&secret(1)).unwrap();
    let msg = [42u8; 32];
    let sig = signer.sign(&msg).unwrap();
    assert_eq!(sig.len(), 64);
    assert_eq!(signer.verify(&public(1), &msg, &sig), Ok(true));
    assert_eq!(signer.verify(&public(2), &msg, &sig), Ok(false));
    assert_eq!(signer.verify(&public(1), &[41u8; 32], &sig), Ok(false));
}

#[test]
fn signing_is_deterministic() {
    let signer = Secp256k1::new(&secret(3)).unwrap();
    assert_eq!(signer.sign(&[1u8; 32]).unwrap(), signer.sign(&[1u8; 32]).unwrap());
}

#[test]
fn invalid_inputs_are_errors() {
    assert!(matches!(Secp256k1::new(&[0u8; 32]), Err(SignatureError::InvalidSecretKey)));
    assert!(matches!(Secp256k1::new(&[0xffu8; 32]), Err(SignatureError::InvalidSecretKey)));
    let signer = Secp256k1::new(&secret(1)).unwrap();
    let sig = signer.sign(&[5u8; 32]).unwrap();
    assert_eq!(signer.verify(&[1, 2, 3], &[5u8; 32], &sig), Err(SignatureError::InvalidPublicKey));
    assert_eq!(signer.verify(&public(1), &[5u8; 32], &sig[..63]), Err(SignatureError::InvalidSignature));
    assert_eq!(signer.verify(&public(1), &[5u8; 32], &[0u8; 64]), Err(SignatureError::InvalidSignature));
}

#[test]
fn signature_checks() {
    let signer = Secp256k1::new(&secret(9)).unwrap();
    let sig = signer.sign(&[8u8; 32]).unwrap();
    assert_eq!(check_signature(&public(9), &[8u8; 32], &sig), SignatureCheck::Accepted);
    assert_eq!(check_signature(&public(9), &[7u8; 32], &sig), SignatureCheck::Rejected);
    assert_eq!(check_signature(&[4u8; 65], &[8u8; 32], &sig), SignatureCheck::InvalidKey);
    assert_eq!(check_signature(&public(9), &[8u8; 32], &[1u8; 10]), SignatureCheck::InvalidSignature);
}

#[test]
fn signature_is_the_prehash_signature_of_the_secret() {
    let signer = Secp256k1::new(&secret(4)).unwrap();
    let other = Secp256k1::new(&secret(4)).unwrap();
    let sk = SigningKey::from_slice(&secret(4)).unwrap();
    let expected: Signature = sk.sign_prehash(&[9u8; 32]).unwrap();
    assert_eq!(signer.sign(&[9u8; 32]).unwrap(), expected.to_vec());
    assert_eq!(other.sign(&[9u8; 32]).unwrap(), expected.to_vec());
}

#[test]
fn a_signature_verifies_under_the_signers_public_key() {
    let signer = Secp256k1::new(&secret(6)).unwrap();
    let key = signer.public_key();
    assert_eq!(key, public(6));
    let sig = signer.sign(&[3u8; 32]).unwrap();
    assert_eq!(signer.verify(&key, &[3u8; 32], &sig), Ok(true));
    assert_eq!(check_signature(&key, &[3u8; 32], &sig), SignatureCheck::Accepted);
}
