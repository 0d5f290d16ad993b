use ed420::schnorr::{
    keygen, sign, sign_with_nonce, verify, verify_blind_signature,
    verify_partially_blind_signature, hash_points_and_message, add_mod_l, BlindSignatureSigner,
    BlindSignatureRequester, PartiallyBlindSignatureRequester, PartiallyBlindSignature, Signature,
};
use ed420::curve::base_point;
use ed420::scalar::Scalar;
use sha2::{Digest, Sha512};

#[test]
fn test_sign_verify_ok() {
    let (sk, pk) = keygen();
    let m = b"This is a test message for the ed420 rust library.";
    let sig = sign(&sk, &pk, m);
    assert!(verify(&pk, m, &sig), "Signature should be valid for the correct message.");
}

#[test]
fn test_verify_tampered_message_fails() {
    let (sk, pk) = keygen();
    let m = b"This is a test message for the ed420 rust library.";
    let sig = sign(&sk, &pk, m);
    let bad = b"This is a different message.";
    assert!(!verify(&pk, bad, &sig), "Signature should be invalid for a tampered message.");
}

#[test]
fn test_verify_wrong_public_key_fails() {
    let (sk1, pk1) = keygen();
    let (_sk2, pk2) = keygen();
    let m = b"A message to be signed.";
    let sig = sign(&sk1, &pk1, m);
    assert!(!verify(&pk2, m, &sig), "Signature should be invalid with a different public key.");
}

#[test]
fn test_blind_signature_ok() {
    // 1) signer / requester
    let (signer_sk, signer_pk) = keygen();
    let message = b"This is the message to be blindly signed.";

    // 2) signer nonce commit
    let signer = BlindSignatureSigner::new(signer_sk, signer_pk.clone());

    // 3) requester: blind challenge
    let requester = BlindSignatureRequester::new(signer_pk.clone(), message, &signer.r);
    let e_blinded = requester.create_blinded_challenge();

    // 4) signer answers
    let s_signed = signer.sign(&e_blinded);

    // 5) requester unblinds
    let final_sig = requester.unblind_signature(&s_signed);

    // 6) verify
    assert!(
        verify_blind_signature(&signer_pk, message, &final_sig),
        "The blind signature should be valid."
    );

    // 7) negative test
    let tampered = b"some other message";
    assert!(
        !verify_blind_signature(&signer_pk, tampered, &final_sig),
        "Blind signature must fail on different message."
    );
}

#[test]
fn test_partially_blind_signature_ok() {
    // 1) Setup
    let (signer_sk, signer_pk) = keygen();
    let message = b"Blinded part of the message.";
    let info = b"Public info, known to signer.";

    // 2) Signer commits to nonce R
    let signer = BlindSignatureSigner::new(signer_sk, signer_pk.clone());

    // 3) Requester creates blinded challenge
    let requester =
        PartiallyBlindSignatureRequester::new(signer_pk.clone(), message, info, &signer.r);
    let e_blinded = requester.create_blinded_challenge();

    // 4) Signer signs the blinded challenge
    let s_signed = signer.sign(&e_blinded);

    // 5) Requester unblinds the signature
    let final_sig = requester.unblind_signature(&s_signed);

    // 6) Verification
    assert!(
        verify_partially_blind_signature(&signer_pk, message, &final_sig),
        "The partially blind signature should be valid."
    );

    // 7) Negative tests
    let tampered_message = b"different blinded part";
    assert!(
        !verify_partially_blind_signature(&signer_pk, tampered_message, &final_sig),
        "Partially blind signature must fail for different message."
    );

    let tampered_info_sig = PartiallyBlindSignature {
        info: b"different public info".to_vec(),
        ..final_sig.clone()
    };
    assert!(
        !verify_partially_blind_signature(&signer_pk, message, &tampered_info_sig),
        "Partially blind signature must fail for different info."
    );
}

#[test]
fn challenge_hash_matches_direct_sha512() {
    // Recompute the challenge with sha2 and num-bigint directly and compare
    // with the library's hashing pipeline.
    let g = base_point();
    let msg = b"cross-check message";
    let e = hash_points_and_message(&[g.clone(), g.clone()], msg);

    let (gx, gy) = g.coords();
    let gx_be: Vec<u8> = {
        let mut v = gx.to_biguint().to_le_bytes();
        v.reverse();
        v
    };
    let gy_be: Vec<u8> = {
        let mut v = gy.to_biguint().to_le_bytes();
        v.reverse();
        v
    };
    let mut h = Sha512::new();
    h.update(b"ed420-schnorr-v1");
    h.update(&gx_be);
    h.update(&gy_be);
    h.update(&gx_be);
    h.update(&gy_be);
    h.update(msg);
    let digest = h.finalize();
    let l = num_bigint::BigUint::from_bytes_le(&ed420::curve::l_order().to_le_bytes());
    let expected = num_bigint::BigUint::from_bytes_be(&digest) % &l;
    let expected_scalar = Scalar::from_le_bytes(&expected.to_bytes_le());
    assert!(e.equals(&expected_scalar));
}

#[test]
fn deterministic_unit_key_signature() {
    // sk = 1: pk = G; signing "" with k = 1 gives R = G and s = (1 + e) mod L
    let one = Scalar::from_u64(1);
    let g = base_point();
    let pk = g.mul(&one);
    assert_eq!(pk, g);
    let sig = sign_with_nonce(&one, &pk, b"", &one);
    assert_eq!(sig.r, g);
    let e = hash_points_and_message(&[g.clone(), g.clone()], b"");
    let expected_s = add_mod_l(&one, &e);
    assert!(sig.s.equals(&expected_s));
    assert!(verify(&g, b"", &sig));
}

#[test]
fn bit_flips_invalidate_signature() {
    let (sk, pk) = keygen();
    let msg = b"abc";
    let sig = sign(&sk, &pk, msg);
    assert!(verify(&pk, msg, &sig));
    for i in 0..msg.len() {
        let mut bad = msg.to_vec();
        bad[i] ^= 1;
        assert!(!verify(&pk, &bad, &sig));
    }
}

#[test]
fn out_of_range_response_rejected() {
    let (sk, pk) = keygen();
    let msg = b"range check";
    let sig = sign(&sk, &pk, msg);
    // s = 0 is rejected
    let zero_sig = Signature { r: sig.r.clone(), s: Scalar::from_u64(0) };
    assert!(!verify(&pk, msg, &zero_sig));
    // s = L is rejected
    let l_sig = Signature { r: sig.r.clone(), s: ed420::curve::l_order() };
    assert!(!verify(&pk, msg, &l_sig));
}

#[test]
fn blind_vote_scenario() {
    let (signer_sk, signer_pk) = keygen();
    let message = b"vote=yes";
    let signer = BlindSignatureSigner::new(signer_sk, signer_pk.clone());
    // the signer's view of the session is only R and the blinded challenge
    let requester = BlindSignatureRequester::new(signer_pk.clone(), message, &signer.r);
    let e_blinded = requester.create_blinded_challenge();
    let s_signed = signer.sign(&e_blinded);
    let final_sig = requester.unblind_signature(&s_signed);
    assert!(verify(&signer_pk, message, &final_sig));
    assert!(!verify(&signer_pk, b"vote=no", &final_sig));
}

#[test]
fn partially_blind_epoch_scenario() {
    let (signer_sk, signer_pk) = keygen();
    let message = b"a token request bound to an epoch";
    let info = b"epoch=42";
    let signer = BlindSignatureSigner::new(signer_sk, signer_pk.clone());
    let requester =
        PartiallyBlindSignatureRequester::new(signer_pk.clone(), message, info, &signer.r);
    let e_blinded = requester.create_blinded_challenge();
    let s_signed = signer.sign(&e_blinded);
    let final_sig = requester.unblind_signature(&s_signed);
    assert!(verify_partially_blind_signature(&signer_pk, message, &final_sig));
    let swapped = PartiallyBlindSignature { info: b"epoch=43".to_vec(), ..final_sig.clone() };
    assert!(!verify_partially_blind_signature(&signer_pk, message, &swapped));
}
