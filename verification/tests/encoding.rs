use pscred::error::Error;
use pscred::field::Scalar;
use pscred::g1::G1Point;
use pscred::g2::G2Point;
use pscred::presentation::claim::ClaimData;
use pscred::presentation::credential::{
    NamedCredential, PresentationCredential, SignatureCredential,
};
use pscred::presentation::parts::Presentation;
use pscred::presentation::statement::{
    ClaimReference, CommitmentStatement, EqualityStatement, PresentationSchema, RangeStatement,
    SignatureStatement, Statement,
};
use pscred::ps::scheme::PsScheme;

fn example() -> (PresentationSchema, Presentation) {
    let mut rng = rand_core::OsRng;
    let (pk, sk) = PsScheme::new_keys(3, &mut rng).unwrap();
    let claims = vec![
        ClaimData::Number(30),
        ClaimData::Scalar(Scalar::from_u64(77)),
        ClaimData::Number(9),
    ];
    let msgs: Vec<Scalar> = claims.iter().map(|c| c.to_scalar()).collect();
    let cred = NamedCredential {
        id: "crédential".to_string(),
        credential: PresentationCredential::Signature(SignatureCredential {
            signature: PsScheme::sign(&sk, &msgs).unwrap(),
            claims,
            revocation_handle: G1Point::identity(),
        }),
    };
    let schema = PresentationSchema {
        statements: vec![
            Statement::Signature(SignatureStatement {
                id: "crédential".to_string(),
                issuer: pk,
                labels: vec!["age".to_string(), "name".to_string(), "level".to_string()],
                disclosed: vec![1, 2],
            }),
            Statement::Commitment(CommitmentStatement {
                id: "com".to_string(),
                reference_id: "crédential".to_string(),
                claim: 0,
                message_generator: G1Point::generator(),
                blinder_generator: G1Point::hash(b"h", b"test"),
            }),
            Statement::Range(RangeStatement {
                id: "adult".to_string(),
                signature_id: "crédential".to_string(),
                reference_id: "com".to_string(),
                claim: 0,
                lower: 18,
                upper: 33,
            }),
            Statement::Equality(EqualityStatement {
                id: "self".to_string(),
                references: vec![ClaimReference {
                    reference_id: "crédential".to_string(),
                    claim: 0,
                }],
            }),
        ],
    };
    let p = Presentation::create(&vec![cred], &schema, b"nonce").unwrap();
    (schema, p)
}

#[test]
fn presentation_is_read_back_from_its_bytes() {
    let (schema, p) = example();
    let bytes = p.to_bytes();
    let q = Presentation::from_bytes(&bytes).unwrap();
    assert_eq!(q.to_bytes(), bytes);
    assert!(q.challenge.eq(&p.challenge));
    assert_eq!(q.proofs.len(), 4);
    assert_eq!(q.disclosed_messages.len(), 1);
    assert_eq!(q.disclosed_messages[0].id, "crédential");
    assert_eq!(q.disclosed_messages[0].claims[0].label, "name");
    assert!(q.disclosed_messages[0].claims[0].claim.same(&ClaimData::Scalar(Scalar::from_u64(77))));
    assert!(q.disclosed_messages[0].claims[1].claim.same(&ClaimData::Number(9)));
    assert!(q.verify(&schema, b"nonce"));
}

#[test]
fn bytes_that_are_no_presentation_are_refused() {
    let (schema, p) = example();
    let bytes = p.to_bytes();
    assert_eq!(Presentation::from_bytes(&[]).err(), Some(Error::InvalidEncoding));
    assert!(Presentation::from_bytes(&bytes[..bytes.len() - 1]).is_err());
    let mut longer = bytes.clone();
    longer.push(0);
    assert!(Presentation::from_bytes(&longer).is_err());
    // The challenge comes first; a number that is no field element is refused.
    let mut high = bytes.clone();
    for b in high.iter_mut().take(32) {
        *b = 0xff;
    }
    assert!(Presentation::from_bytes(&high).is_err());
    // Another challenge is read, and refused by the verifier.
    let mut other = bytes.clone();
    other[31] ^= 1;
    let q = Presentation::from_bytes(&other).unwrap();
    assert!(!q.verify(&schema, b"nonce"));
}

#[test]
fn scalars_and_points_from_bytes() {
    let s = Scalar::from_u64(0x0102);
    let bytes = s.to_be_bytes();
    assert_eq!(bytes[31], 2);
    assert_eq!(bytes[30], 1);
    assert!(bytes[..30].iter().all(|b| *b == 0));
    assert!(Scalar::from_be_bytes(&bytes).unwrap().eq(&s));
    assert!(Scalar::from_be_bytes(&[0xff; 32]).is_none());
    assert!(Scalar::from_be_slice(&bytes[1..]).is_none());
    assert_eq!(s.to_u64(), Some(0x0102));
    assert_eq!(Scalar::from_u64(0).sub(&Scalar::from_u64(1)).to_u64(), None);

    let mut wide = [0u8; 64];
    wide[0] = 5;
    wide[1] = 1;
    assert!(Scalar::from_bytes_wide(&wide).eq(&Scalar::from_u64(261)));
    // 2^256 modulo the group order.
    let mut top = [0u8; 64];
    top[32] = 1;
    let r = Scalar::from_bytes_wide(&top);
    let two_64 = Scalar::from_u64(u64::MAX).add(&Scalar::from_u64(1));
    let two_256 = two_64.mul(&two_64).mul(&two_64).mul(&two_64);
    assert!(r.eq(&two_256));

    let g = G1Point::generator();
    assert!(G1Point::from_bytes(&g.to_bytes()).unwrap().eq(&g));
    assert!(G1Point::from_bytes(&[1u8; 48]).is_none());
    assert!(G1Point::from_slice(&g.to_bytes()[..47]).is_none());
    let h = G2Point::generator();
    assert!(G2Point::from_bytes(&h.to_bytes()).unwrap().eq(&h));
    assert!(G2Point::from_bytes(&[1u8; 96]).is_none());
    assert!(G1Point::identity().is_identity());
    assert!(!g.is_identity());
    assert!(G2Point::identity().is_identity());
    assert_eq!(Error::InvalidEncoding, Error::InvalidEncoding);
}
