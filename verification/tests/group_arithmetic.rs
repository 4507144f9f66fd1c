use pscred::field::Scalar;
use pscred::g1::G1Point;

#[test]
fn test_pedersen_commitment_g3() {
    let k = Scalar::from_u64(4);
    let l = Scalar::from_u64(5);
    let m = Scalar::from_u64(7);
    let n = k.add(&m.mul(&l));

    let g = G1Point::generator();

    let t1 = g.mul(&k).add(&g.mul(&l.mul(&m)));
    let t2 = g.mul(&n);
    assert!(t1.eq(&t2));

    let t3 = g.mul(&l).mul(&m);
    let t4 = g.mul(&l.mul(&m));
    assert!(t3.eq(&t4));
    assert!(!t3.eq(&t1));
    assert!(l.mul(&m).eq(&Scalar::from_u64(35)));
}
