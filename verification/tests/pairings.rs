use pscred::field::Scalar;
use pscred::g1::G1Point;
use pscred::g2::G2Point;
use pscred::pairing::pair;

#[test]
fn test_bls() {
    let mut rng = rand_core::OsRng;
    let a = Scalar::random(&mut rng);
    let b = Scalar::random(&mut rng);

    let g1 = G1Point::generator();
    let g2 = G2Point::generator();

    let first = pair(&g1.mul(&a), &g2.mul(&b));
    println!("Pairing result: {:?}", first);

    let second = pair(&g1.mul(&a).mul(&b), &g2);
    println!("Pairing result: {:?}", second);
    assert!(first.eq(&second));

    let third = pair(&g1, &g2.mul(&a).mul(&b));
    println!("Pairing result: {:?}", third);
    assert!(first.eq(&third));

    let other = pair(&g1, &g2.mul(&a));
    println!("Pairing result (must differ): {:?}", other);
    assert!(!first.eq(&other));
}

#[test]
fn second_group_arithmetic() {
    let g = G2Point::generator();
    let two = Scalar::from_u64(2);
    let three = Scalar::from_u64(3);
    assert!(g.add(&g).eq(&g.mul(&two)));
    assert!(g.mul(&two).mul(&three).eq(&g.mul(&Scalar::from_u64(6))));
    assert!(g.mul(&two).add(&g.mul(&three)).eq(&g.mul(&Scalar::from_u64(5))));
    assert!(!g.mul(&two).eq(&g.mul(&three)));
    assert!(g.mul(&Scalar::from_u64(0)).is_identity());
    assert!(g.add(&G2Point::identity()).eq(&g));
}

#[test]
fn hashing_to_the_first_group() {
    let a = G1Point::hash(b"message", b"tag");
    let b = G1Point::hash(b"message", b"tag");
    let c = G1Point::hash(b"other message", b"tag");
    let d = G1Point::hash(b"message", b"other tag");
    assert!(a.eq(&b));
    assert!(!a.eq(&c));
    assert!(!a.eq(&d));
    assert!(!a.is_identity());
    assert!(G1Point::from_bytes(&a.to_bytes()).unwrap().eq(&a));
}

#[test]
fn pairing_with_the_neutral_element() {
    let g1 = G1Point::generator();
    let g2 = G2Point::generator();
    let one = pair(&G1Point::identity(), &g2);
    assert!(one.eq(&pair(&g1, &G2Point::identity())));
    assert!(!one.eq(&pair(&g1, &g2)));
}
