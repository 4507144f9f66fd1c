use merlin::Transcript;
use pscred::error::Error;
use pscred::field::Scalar;
use pscred::g1::G1Point;
use pscred::g2::G2Point;
use pscred::group::{inner_product, sum_of_products, Group};
use pscred::schnorr::{recover_commitment, Committer};

fn commit<P: Group>(g: &P, h: &P, message: &Scalar, blinding: &Scalar) -> P {
    g.times(message).plus(&h.times(blinding))
}

#[test]
fn test_pedersen_commitment_g1() {
    let mut rng = rand_core::OsRng;
    let message = Scalar::random(&mut rng);
    let g = G1Point::generator();
    let h = g.mul(&Scalar::random(&mut rng));
    let blinding_factor = Scalar::random(&mut rng);
    let commitment = commit(&g, &h, &message, &blinding_factor);
    println!("Pedersen Commitment (G1): {:?}", commitment);
    println!("Blinding Factor: {:?}", blinding_factor);
    assert!(commitment.eq(&sum_of_products(&vec![g, h], &vec![message, blinding_factor])));
}

#[test]
fn test_pedersen_commitment_g2() {
    let mut rng = rand_core::OsRng;
    let message = Scalar::random(&mut rng);
    let g = G2Point::generator();
    let h = g.mul(&Scalar::random(&mut rng));
    let blinding_factor = Scalar::random(&mut rng);
    let commitment = commit(&g, &h, &message, &blinding_factor);
    println!("Pedersen Commitment (G2): {:?}", commitment);
    println!("Blinding Factor: {:?}", blinding_factor);
    assert!(commitment.eq(&sum_of_products(&vec![g, h], &vec![message, blinding_factor])));
    assert!(!commitment.eq(&commit(&g, &h, &message.add(&Scalar::from_u64(1)), &blinding_factor)));
}

#[test]
fn test_commit_verify() {
    let mut rng = rand_core::OsRng;
    let g = G1Point::generator();
    let h = g.mul(&Scalar::random(&mut rng));

    // The prover commits.
    let m = Scalar::random(&mut rng);
    let r = Scalar::random(&mut rng);
    let commitment = commit(&g, &h, &m, &r);

    // The prover's random commitment.
    let mut committer: Committer<G1Point> = Committer::new();
    let m_prime = committer.commit_random(g, &mut rng);
    let r_prime = committer.commit_random(h, &mut rng);
    let t = committer.commitment();
    assert!(t.eq(&commit(&g, &h, &m_prime, &r_prime)));

    // The verifier's challenge.
    let challenge = Scalar::random(&mut rng);

    // The responses are b - c * s.
    let responses = committer.generate_proof(&challenge, &vec![m, r]).unwrap();
    assert!(responses[0].eq(&m_prime.sub(&challenge.mul(&m))));
    assert!(responses[1].eq(&r_prime.sub(&challenge.mul(&r))));
    assert_eq!(
        committer.generate_proof(&challenge, &vec![m]).err(),
        Some(Error::InvalidPresentationData)
    );

    // The verifier recovers the random commitment.
    let t_prime = recover_commitment(&vec![g, h], &responses, &challenge, &commitment);
    println!("Equal? : {} ", t_prime.eq(&t));
    assert!(t_prime.eq(&t));
    let other = recover_commitment(&vec![g, h], &responses, &challenge, &commitment.add(&g));
    assert!(!other.eq(&t));

    // The committer and the verifier absorb the same bytes.
    let mut a = Transcript::new(b"test");
    committer.add_challenge_contribution("random commitment", &mut a);
    let mut b = Transcript::new(b"test");
    b.append_message(b"random commitment", &t_prime.to_bytes());
    let (mut x, mut y) = ([0u8; 64], [0u8; 64]);
    a.challenge_bytes(b"c", &mut x);
    b.challenge_bytes(b"c", &mut y);
    assert_eq!(x, y);
}

#[test]
fn sums_of_products() {
    let g = G1Point::generator();
    let two = Scalar::from_u64(2);
    let three = Scalar::from_u64(3);
    let five = Scalar::from_u64(5);
    // 2 * 3 + 5 * 5 = 31
    let p = sum_of_products(&vec![g.mul(&two), g.mul(&five)], &vec![three, five]);
    assert!(p.eq(&g.mul(&Scalar::from_u64(31))));
    // What one vector has more than the other is left out.
    let q = sum_of_products(&vec![g.mul(&two), g.mul(&five)], &vec![three]);
    assert!(q.eq(&g.mul(&Scalar::from_u64(6))));
    let none: Vec<G1Point> = vec![];
    assert!(sum_of_products(&none, &vec![three]).is_identity());
    assert!(inner_product(&vec![two, five], &vec![three, five]).eq(&Scalar::from_u64(31)));
    assert!(inner_product(&vec![two, five], &vec![three]).eq(&Scalar::from_u64(6)));
}

#[test]
fn field_arithmetic() {
    let a = Scalar::from_u64(7);
    let b = Scalar::from_u64(9);
    assert!(a.add(&b).eq(&Scalar::from_u64(16)));
    assert!(a.mul(&b).eq(&Scalar::from_u64(63)));
    assert!(b.sub(&a).eq(&Scalar::from_u64(2)));
    // 7 - 9 is the modulus less two.
    let d = a.sub(&b);
    assert!(d.add(&Scalar::from_u64(2)).is_zero());
    assert!(!d.eq(&Scalar::from_u64(2)));
    assert!(a.neg().add(&a).is_zero());
    assert!(Scalar::from_u64(0).neg().is_zero());
    assert!(Scalar::from_u64(0).is_zero());
    assert!(!a.is_zero());
    let mut rng = rand_core::OsRng;
    assert!(!Scalar::random(&mut rng).eq(&Scalar::random(&mut rng)));
}
