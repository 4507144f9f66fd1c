use pscred::error::Error;
use pscred::field::Scalar;
use pscred::g1::G1Point;
use pscred::ps::blind::{BlindSignature, BlindSignatureContext};
use pscred::ps::keys::{PublicKey, SecretKey};
use pscred::ps::pok::PokSignature;
use pscred::ps::proof_message::ProofMessage;
use pscred::ps::scheme::PsScheme;
use pscred::ps::signature::Signature;
use pscred::ps::verification::Verifier;
use merlin::Transcript;

fn random_messages(n: usize) -> Vec<Scalar> {
    let mut rng = rand_core::OsRng;
    (0..n).map(|_| Scalar::random(&mut rng)).collect()
}

#[test]
fn test_ps_signature() {
    let mut rng = rand_core::OsRng;
    let (pk, sk) = PsScheme::new_keys(1, &mut rng).unwrap();
    let message = Scalar::from_u64(12345);
    let signature = PsScheme::sign(&sk, &[message]).unwrap();
    let is_valid = signature.verify(&pk, &[message]);
    assert!(is_valid, "The signature should be valid for the given message and keys.");
}

#[test]
fn test_ps_multi_signature() {
    let mut rng = rand_core::OsRng;
    let (pk, sk) = PsScheme::new_keys(5, &mut rng).unwrap();
    let message = random_messages(5);
    let signature = PsScheme::sign(&sk, &message).unwrap();
    let is_valid = signature.verify(&pk, &message);
    assert!(is_valid, "The signature should be valid for the given message and keys.");
}

#[test]
fn pok_sig_proof_works() {
    let mut rng = rand_core::OsRng;

    let (pk, sk) = PsScheme::new_keys(5, &mut rng).unwrap();
    let messages = [
        Scalar::random(&mut rng),
        Scalar::random(&mut rng),
        Scalar::random(&mut rng),
        Scalar::random(&mut rng),
        Scalar::random(&mut rng),
    ];

    let res = PsScheme::sign(&sk, &messages);
    assert!(res.is_ok());

    let signature = res.unwrap();

    let proof_messages = [
        ProofMessage::HiddenProofSpecific(messages[0]),
        ProofMessage::HiddenProofSpecific(messages[1]),
        ProofMessage::HiddenExternalBlinding(messages[2], Scalar::from_u64(5)),
        ProofMessage::Revealed(messages[3]),
        ProofMessage::Revealed(messages[4]),
    ];

    let res = PokSignature::commit(&signature, &pk, &proof_messages, &mut rng);
    assert!(res.is_ok());

    let pok_sig = res.unwrap();
    let nonce = Verifier::generate_proof_nonce(&mut rng);
    let mut transcript = Transcript::new(b"signature proof of knowledge");
    pok_sig.add_proof_contribution(&mut transcript).unwrap();
    transcript.append_message(b"nonce", nonce.to_be_bytes().as_ref());
    let mut tmp = [0u8; 64];
    transcript.challenge_bytes(b"signature proof of knowledge", &mut tmp);
    let challenge = Scalar::from_bytes_wide(&tmp);
    let res = pok_sig.generate_proof(&challenge);
    assert!(res.is_ok());

    let rvl_msgs = &[(3, messages[3]), (4, messages[4])];
    let proof = res.unwrap();
    assert!(proof.verify(rvl_msgs, &pk).is_ok());

    let mut transcript = Transcript::new(b"signature proof of knowledge");
    proof.add_proof_contribution(&pk, rvl_msgs, &challenge, &mut transcript).unwrap();
    transcript.append_message(b"nonce", nonce.to_be_bytes().as_ref());
    transcript.challenge_bytes(b"signature proof of knowledge", &mut tmp);
    let challenge2 = Scalar::from_bytes_wide(&tmp);
    assert!(challenge.eq(&challenge2));

    assert!(PsScheme::verify_signature_pok(
        &[(3, messages[3]), (4, messages[4])][..],
        &pk,
        &proof,
        nonce,
        challenge
    ));

    // A changed disclosed message is refused.
    assert!(!PsScheme::verify_signature_pok(
        &[(3, messages[3].add(&Scalar::from_u64(1))), (4, messages[4])][..],
        &pk,
        &proof,
        nonce,
        challenge
    ));
    // So is another nonce.
    assert!(!PsScheme::verify_signature_pok(
        &[(3, messages[3]), (4, messages[4])][..],
        &pk,
        &proof,
        nonce.add(&Scalar::from_u64(1)),
        challenge
    ));

    assert!(Verifier::verify_signature_pok(
        &[(3, messages[3]), (4, messages[4])][..],
        &pk,
        proof,
        nonce,
        challenge
    ));
}

#[test]
fn sign_verify_for_each_key_length() {
    let mut rng = rand_core::OsRng;
    for n in [1usize, 2, 7, 128] {
        let (pk, sk) = PsScheme::new_keys(n, &mut rng).unwrap();
        let msgs = random_messages(n);
        let sig = PsScheme::sign(&sk, &msgs).unwrap();
        assert!(sig.verify(&pk, &msgs));
    }
}

#[test]
fn key_generation_bounds() {
    let mut rng = rand_core::OsRng;
    assert_eq!(PsScheme::new_keys(0, &mut rng).err(), Some(Error::InvalidKeyGeneration));
    assert_eq!(PsScheme::new_keys(129, &mut rng).err(), Some(Error::InvalidKeyGeneration));
    assert!(SecretKey::from_scalars(Scalar::from_u64(0), vec![Scalar::from_u64(1); 2]).is_none());
    assert!(SecretKey::from_scalars(Scalar::from_u64(3), vec![Scalar::from_u64(1); 1]).is_none());
    assert!(SecretKey::from_scalars(Scalar::from_u64(3), vec![Scalar::from_u64(1); 2]).is_some());
}

#[test]
fn tampering_is_detected() {
    let mut rng = rand_core::OsRng;
    let (pk, sk) = PsScheme::new_keys(3, &mut rng).unwrap();
    let msgs = random_messages(3);
    let sig = PsScheme::sign(&sk, &msgs).unwrap();
    assert!(sig.verify(&pk, &msgs));

    let one = Scalar::from_u64(1);
    for i in 0..3 {
        let mut other = msgs.clone();
        other[i] = other[i].add(&one);
        assert!(!sig.verify(&pk, &other));
    }
    let mut forged = sig;
    forged.m_tick = sig.m_tick.add(&one);
    assert!(!forged.verify(&pk, &msgs));
    let mut forged = sig;
    forged.sigma_2 = sig.sigma_2.add(&sig.sigma_1);
    assert!(!forged.verify(&pk, &msgs));
    let mut forged = sig;
    forged.sigma_1 = sig.sigma_1.add(&sig.sigma_1);
    assert!(!forged.verify(&pk, &msgs));

    let mut other_key = pk.duplicate();
    other_key.x_tilde = pk.x_tilde.add(&pk.g_tilde);
    assert!(!sig.verify(&other_key, &msgs));
    let mut other_key = pk.duplicate();
    other_key.y_tilde[2] = pk.y_tilde[2].add(&pk.g_tilde);
    assert!(!sig.verify(&other_key, &msgs));

    assert!(!sig.verify(&pk, &msgs[..2]));
}

#[test]
fn signing_with_a_nonce_is_exact() {
    let x = Scalar::from_u64(3);
    let y = vec![Scalar::from_u64(5), Scalar::from_u64(7), Scalar::from_u64(11)];
    let sk = SecretKey::from_scalars(x, y).unwrap();
    let pk = PublicKey::from_secret(&sk);
    let msgs = [Scalar::from_u64(2), Scalar::from_u64(4)];
    let sig = Signature::with_nonce(&sk, &msgs, Scalar::from_u64(9)).unwrap();
    // 3 + 5 * 9 + 7 * 2 + 11 * 4 = 106
    assert!(sig.sigma_2.eq(&sig.sigma_1.mul(&Scalar::from_u64(106))));
    assert!(sig.verify(&pk, &msgs));
    let again = Signature::with_nonce(&sk, &msgs, Scalar::from_u64(9)).unwrap();
    assert!(again.sigma_1.eq(&sig.sigma_1));

    assert_eq!(
        Signature::with_nonce(&sk, &msgs, Scalar::from_u64(0)).err(),
        Some(Error::InvalidSignature)
    );
    assert_eq!(
        Signature::with_nonce(&sk, &msgs[..1], Scalar::from_u64(9)).err(),
        Some(Error::InvalidSignature)
    );
}

#[test]
fn blind_issuance_gives_a_signature_on_all_messages() {
    let mut rng = rand_core::OsRng;
    let (pk, sk) = PsScheme::new_keys(5, &mut rng).unwrap();
    let one = Scalar::from_u64(1);
    let hidden = [(0usize, Scalar::from_u64(42)), (2usize, Scalar::from_u64(7))];
    let known = [(1usize, one), (3usize, one), (4usize, one)];
    let nonce = Scalar::random(&mut rng);

    let (ctx, blinding) =
        PsScheme::new_blind_signature_context(&hidden, &pk, nonce, &mut rng).unwrap();
    assert_eq!(ctx.verify(&known, &pk, &nonce), Ok(true));
    let blind = PsScheme::blind_sign(&ctx, &sk, &known, nonce).unwrap();
    let sig = blind.to_unblinded(&blinding);

    let all = [Scalar::from_u64(42), one, Scalar::from_u64(7), one, one];
    assert!(sig.verify(&pk, &all));
    let other = [Scalar::from_u64(41), one, Scalar::from_u64(7), one, one];
    assert!(!sig.verify(&pk, &other));

    // Another nonce, or other known positions, and the opening is refused.
    let other_nonce = nonce.add(&one);
    assert_eq!(
        PsScheme::blind_sign(&ctx, &sk, &known, other_nonce).err(),
        Some(Error::InvalidOpeningProof)
    );
    assert_eq!(
        PsScheme::blind_sign(&ctx, &sk, &known[..2], nonce).err(),
        Some(Error::InvalidBlindMessage)
    );
    assert_eq!(
        PsScheme::blind_sign(&ctx, &sk, &[(5usize, one)], nonce).err(),
        Some(Error::InvalidBlindIndex)
    );
    assert_eq!(
        PsScheme::blind_sign(&ctx, &sk, &[(3usize, one), (3usize, one)], nonce).err(),
        Some(Error::InvalidBlindIndex)
    );
    assert_eq!(
        PsScheme::blind_sign(&ctx, &sk, &[(3usize, one), (1usize, one)], nonce).err(),
        Some(Error::InvalidBlindMessage)
    );
    assert_eq!(
        PsScheme::new_blind_signature_context(&[(5usize, one)], &pk, nonce, &mut rng).err(),
        Some(Error::InvalidBlindIndex)
    );
}

#[test]
fn blind_context_with_given_blinders_is_exact() {
    let x = Scalar::from_u64(3);
    let y = vec![Scalar::from_u64(5), Scalar::from_u64(7), Scalar::from_u64(11)];
    let sk = SecretKey::from_scalars(x, y).unwrap();
    let pk = PublicKey::from_secret(&sk);
    let hidden = [(1usize, Scalar::from_u64(10))];
    let nonce = Scalar::from_u64(77);
    let blinding = Scalar::from_u64(100);
    let blinders = vec![Scalar::from_u64(1000), Scalar::from_u64(2000)];
    let ctx =
        BlindSignatureContext::with_blinders(&hidden, &pk, &nonce, &blinding, &blinders).unwrap();
    // 11 * 10 + 100 = 210
    let g = pscred::g1::G1Point::generator();
    assert!(ctx.commitment.eq(&g.mul(&Scalar::from_u64(210))));
    // Responses are b - c * s.
    let c = ctx.challenge;
    assert!(ctx.proofs[0].eq(&Scalar::from_u64(1000).sub(&c.mul(&Scalar::from_u64(10)))));
    assert!(ctx.proofs[1].eq(&Scalar::from_u64(2000).sub(&c.mul(&Scalar::from_u64(100)))));
    assert_eq!(ctx.verify(&[(0usize, Scalar::from_u64(1))], &pk, &nonce), Ok(true));

    let blind = BlindSignature::issue(
        &ctx.commitment,
        &sk,
        &[(0usize, Scalar::from_u64(6))],
        Scalar::from_u64(9),
        Scalar::from_u64(13),
    )
    .unwrap();
    // (3 + 5 * 9 + 7 * 6 + 210) * 13 = 3900
    assert!(blind.sigma_1.eq(&g.mul(&Scalar::from_u64(13))));
    assert!(blind.sigma_2.eq(&g.mul(&Scalar::from_u64(3900))));
    let sig = blind.to_unblinded(&blinding);
    // 3900 - 13 * 100 = 2600 = 13 * (3 + 45 + 42 + 110)
    assert!(sig.sigma_2.eq(&g.mul(&Scalar::from_u64(2600))));
    assert!(sig.verify(&pk, &[Scalar::from_u64(6), Scalar::from_u64(10)]));

    assert_eq!(
        BlindSignatureContext::with_blinders(
            &hidden,
            &pk,
            &nonce,
            &blinding,
            &blinders[..1].to_vec(),
        )
        .err(),
        Some(Error::InvalidBlindMessage)
    );
    assert_eq!(
        BlindSignature::issue(
            &ctx.commitment,
            &sk,
            &[(0usize, Scalar::from_u64(6))],
            Scalar::from_u64(0),
            Scalar::from_u64(13)
        )
        .err(),
        Some(Error::InvalidSignature)
    );
}

#[test]
fn proof_messages() {
    let mut rng = rand_core::OsRng;
    let m = Scalar::from_u64(3);
    let b = Scalar::from_u64(4);
    let revealed = ProofMessage::Revealed(m);
    let specific = ProofMessage::HiddenProofSpecific(m);
    let external = ProofMessage::HiddenExternalBlinding(m, b);
    assert!(revealed.get_message().eq(&m));
    assert!(!revealed.is_hidden());
    assert!(specific.is_hidden());
    assert!(external.is_hidden());
    assert!(revealed.get_blinder(&mut rng).is_none());
    assert!(specific.get_blinder(&mut rng).is_some());
    assert!(external.get_blinder(&mut rng).unwrap().eq(&b));
    match specific.with_blinder(b) {
        ProofMessage::HiddenExternalBlinding(x, y) => assert!(x.eq(&m) && y.eq(&b)),
        _ => panic!("a blinder was expected"),
    }
    assert!(!revealed.with_blinder(b).is_hidden());
}

#[test]
fn proof_of_knowledge_with_given_randomness() {
    let mut rng = rand_core::OsRng;
    let (pk, sk) = PsScheme::new_keys(2, &mut rng).unwrap();
    let msgs = [Scalar::from_u64(10), Scalar::from_u64(20)];
    let sig = PsScheme::sign(&sk, &msgs).unwrap();
    let messages = [
        ProofMessage::Revealed(msgs[0]),
        ProofMessage::HiddenExternalBlinding(msgs[1], Scalar::from_u64(1000)),
    ];
    let r = Scalar::from_u64(3);
    let t = Scalar::from_u64(5);
    let pok = PokSignature::commit_with(
        &sig,
        &pk,
        &messages,
        &r,
        &t,
        &Scalar::from_u64(2000),
        &Scalar::from_u64(3000),
    )
    .unwrap();
    assert!(pok.sigma_1.eq(&sig.sigma_1.mul(&r)));
    assert!(pok.sigma_2.eq(&sig.sigma_2.add(&sig.sigma_1.mul(&t)).mul(&r)));
    assert_eq!(pok.revealed.len(), 1);
    let c = Scalar::from_u64(7);
    let proof = pok.generate_proof(&c).unwrap();
    // The responses are b - c * s for the nonce, the hidden message and t.
    assert_eq!(proof.proof.len(), 3);
    assert!(proof.proof[0].eq(&Scalar::from_u64(2000).sub(&c.mul(&sig.m_tick))));
    assert!(proof.proof[1].eq(&Scalar::from_u64(1000 - 7 * 20)));
    assert!(proof.proof[2].eq(&Scalar::from_u64(3000 - 7 * 5)));
    assert!(proof.verify(&[(0, msgs[0])], &pk).is_ok());
    assert_eq!(
        proof.verify(&[(0, msgs[1])], &pk).err(),
        Some(Error::ProofVerificationFailed)
    );
    assert_eq!(
        proof.verify(&[(1, msgs[1])], &pk).err(),
        Some(Error::ProofVerificationFailed)
    );
    assert_eq!(
        proof.verify(&[(2, msgs[1])], &pk).err(),
        Some(Error::InvalidPresentationData)
    );

    // A hidden message without its blinder, or a wrong number of messages.
    let unblinded = [ProofMessage::Revealed(msgs[0]), ProofMessage::HiddenProofSpecific(msgs[1])];
    assert_eq!(
        PokSignature::commit_with(&sig, &pk, &unblinded, &r, &t, &r, &t).err(),
        Some(Error::InvalidClaimData)
    );
    assert_eq!(
        PokSignature::commit_with(&sig, &pk, &messages[..1], &r, &t, &r, &t).err(),
        Some(Error::InvalidSignature)
    );
    assert_eq!(
        PokSignature::commit_with(&sig, &pk, &messages, &Scalar::from_u64(0), &t, &r, &t).err(),
        Some(Error::InvalidSignature)
    );
}

#[test]
fn the_scheme_proves_knowledge_of_a_signature() {
    let mut rng = rand_core::OsRng;
    let (pk, sk) = PsScheme::new_keys(3, &mut rng).unwrap();
    let msgs = random_messages(3);
    let sig = PsScheme::sign(&sk, &msgs).unwrap();
    let messages = [
        ProofMessage::HiddenProofSpecific(msgs[0]),
        ProofMessage::Revealed(msgs[1]),
        ProofMessage::HiddenProofSpecific(msgs[2]),
    ];
    let pok = PsScheme::commit_signature_pok(sig, &pk, &messages, &mut rng).unwrap();
    let nonce = Verifier::generate_proof_nonce(&mut rng);
    let mut transcript = Transcript::new(b"signature proof of knowledge");
    pok.add_proof_contribution(&mut transcript).unwrap();
    transcript.append_message(b"nonce", nonce.to_be_bytes().as_ref());
    let mut out = [0u8; 64];
    transcript.challenge_bytes(b"signature proof of knowledge", &mut out);
    let challenge = Scalar::from_bytes_wide(&out);
    let proof = pok.generate_proof(&challenge).unwrap();
    assert_eq!(proof.proof.len(), 4);
    assert!(PsScheme::verify_signature_pok(&[(1, msgs[1])][..], &pk, &proof, nonce, challenge));
    // Another nonce, or a message revealed at another place, is refused.
    let other = nonce.add(&Scalar::from_u64(1));
    assert!(!PsScheme::verify_signature_pok(&[(1, msgs[1])][..], &pk, &proof, other, challenge));
    assert!(!PsScheme::verify_signature_pok(&[(0, msgs[1])][..], &pk, &proof, nonce, challenge));
    assert!(Verifier::verify_signature_pok(&[(1, msgs[1])][..], &pk, proof, nonce, challenge));

    // A key for another number of messages is refused.
    let (pk2, _) = PsScheme::new_keys(2, &mut rng).unwrap();
    assert_eq!(
        PsScheme::commit_signature_pok(sig, &pk2, &messages, &mut rng).err(),
        Some(Error::InvalidSignature)
    );
}

#[test]
fn scalars_drawn_for_keys_are_not_zero() {
    let mut rng = rand_core::OsRng;
    for _ in 0..64 {
        assert!(!Scalar::random_nonzero(&mut rng).is_zero());
    }
    for n in [1usize, 2, 128] {
        let sk = SecretKey::random(n, &mut rng).unwrap();
        assert_eq!(sk.y.len(), n + 1);
        assert!(sk.is_valid());
    }
    assert!(SecretKey::random(0, &mut rng).is_none());
    assert!(SecretKey::random(129, &mut rng).is_none());
}

#[test]
fn a_proof_of_a_signature_with_a_neutral_first_point_is_refused() {
    let mut rng = rand_core::OsRng;
    let (pk, sk) = PsScheme::new_keys(2, &mut rng).unwrap();
    let msgs = random_messages(2);
    let sig = PsScheme::sign(&sk, &msgs).unwrap();
    let messages = [ProofMessage::Revealed(msgs[0]), ProofMessage::HiddenProofSpecific(msgs[1])];
    assert!(PsScheme::commit_signature_pok(sig, &pk, &messages, &mut rng).is_ok());

    let mut forged = sig;
    forged.sigma_1 = G1Point::identity();
    assert_eq!(
        PsScheme::commit_signature_pok(forged, &pk, &messages, &mut rng).err(),
        Some(Error::InvalidSignature)
    );
    let mut lame = pk.duplicate();
    lame.y_blinds.pop();
    assert_eq!(
        PsScheme::commit_signature_pok(sig, &lame, &messages, &mut rng).err(),
        Some(Error::InvalidKeyGeneration)
    );
}

#[test]
fn indexed_messages_come_in_any_order() {
    let mut rng = rand_core::OsRng;
    let (pk, sk) = PsScheme::new_keys(5, &mut rng).unwrap();
    let one = Scalar::from_u64(1);
    let nonce = Scalar::random(&mut rng);

    // Hidden messages that do not come in the order of their indices: the
    // commitment is the sum over the list as it comes.
    let hidden = [(2usize, Scalar::from_u64(7)), (0usize, Scalar::from_u64(42))];
    let (ctx, blinding) =
        PsScheme::new_blind_signature_context(&hidden, &pk, nonce, &mut rng).unwrap();
    let sum = pk.y_blinds[3]
        .mul(&Scalar::from_u64(7))
        .add(&pk.y_blinds[1].mul(&Scalar::from_u64(42)))
        .add(&G1Point::generator().mul(&blinding));
    assert!(ctx.commitment.eq(&sum));
    assert_eq!(ctx.proofs.len(), 3);

    // Known messages in any order.
    let hidden = [(0usize, Scalar::from_u64(42)), (2usize, Scalar::from_u64(7))];
    let (ctx, blinding) =
        PsScheme::new_blind_signature_context(&hidden, &pk, nonce, &mut rng).unwrap();
    let known = [(4usize, Scalar::from_u64(5)), (1usize, Scalar::from_u64(3)), (3usize, one)];
    let blind = PsScheme::blind_sign(&ctx, &sk, &known, nonce).unwrap();
    assert!(!blind.m_tick.is_zero());
    let sig = blind.to_unblinded(&blinding);
    let all = [
        Scalar::from_u64(42),
        Scalar::from_u64(3),
        Scalar::from_u64(7),
        one,
        Scalar::from_u64(5),
    ];
    assert!(sig.verify(&pk, &all));

    // Revealed messages in any order.
    let direct = PsScheme::sign(&sk, &all).unwrap();
    assert!(!direct.m_tick.is_zero());
    let messages = [
        ProofMessage::HiddenProofSpecific(all[0]),
        ProofMessage::Revealed(all[1]),
        ProofMessage::HiddenProofSpecific(all[2]),
        ProofMessage::Revealed(all[3]),
        ProofMessage::Revealed(all[4]),
    ];
    let pok = PsScheme::commit_signature_pok(direct, &pk, &messages, &mut rng).unwrap();
    assert_eq!(pok.revealed.len(), 3);
    let mut transcript = Transcript::new(b"signature proof of knowledge");
    pok.add_proof_contribution(&mut transcript).unwrap();
    transcript.append_message(b"nonce", nonce.to_be_bytes().as_ref());
    let mut out = [0u8; 64];
    transcript.challenge_bytes(b"signature proof of knowledge", &mut out);
    let challenge = Scalar::from_bytes_wide(&out);
    let proof = pok.generate_proof(&challenge).unwrap();
    let shown = [(4usize, all[4]), (1usize, all[1]), (3usize, all[3])];
    assert!(PsScheme::verify_signature_pok(&shown, &pk, &proof, nonce, challenge));
    let twice = [(4usize, all[4]), (1usize, all[1]), (3usize, all[3]), (1usize, all[1])];
    assert!(!PsScheme::verify_signature_pok(&twice, &pk, &proof, nonce, challenge));
    assert!(Verifier::verify_signature_pok(&shown, &pk, proof, nonce, challenge));
}
