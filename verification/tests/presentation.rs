use pscred::error::Error;
use pscred::field::Scalar;
use pscred::g1::G1Point;
use pscred::g2::G2Point;
use pscred::presentation::bits::count_bits;
use pscred::presentation::claim::ClaimData;
use pscred::presentation::credential::{
    MembershipCredential, NamedCredential, PresentationCredential, SignatureCredential,
};
use pscred::presentation::parts::{Presentation, SubProof};
use pscred::presentation::statement::{
    ClaimReference, CommitmentStatement, EqualityStatement, MembershipStatement,
    PresentationSchema, RangeStatement, SignatureStatement, Statement,
    VerifiableEncryptionDecryptionStatement, VerifiableEncryptionStatement,
};
use pscred::ps::keys::{PublicKey, SecretKey};
use pscred::ps::scheme::PsScheme;

fn invert(s: &Scalar) -> Scalar {
    let inner = blsful::inner_types::Scalar::from_be_bytes(&s.to_be_bytes()).unwrap();
    let inv = inner.invert().unwrap();
    Scalar::from_be_bytes(&inv.to_be_bytes()).unwrap()
}

struct Issuer {
    pk: PublicKey,
    sk: SecretKey,
}

fn issuer(n: usize) -> Issuer {
    let mut rng = rand_core::OsRng;
    let (pk, sk) = PsScheme::new_keys(n, &mut rng).unwrap();
    Issuer { pk, sk }
}

fn labels(n: usize) -> Vec<String> {
    (0..n).map(|i| format!("claim {}", i)).collect()
}

fn credential(id: &str, issuer: &Issuer, claims: Vec<ClaimData>) -> NamedCredential {
    let msgs: Vec<Scalar> = claims.iter().map(|c| c.to_scalar()).collect();
    let signature = PsScheme::sign(&issuer.sk, &msgs).unwrap();
    NamedCredential {
        id: id.to_string(),
        credential: PresentationCredential::Signature(SignatureCredential {
            signature,
            claims,
            revocation_handle: G1Point::identity(),
        }),
    }
}

fn signature_statement(id: &str, issuer: &Issuer, n: usize, disclosed: Vec<usize>) -> Statement {
    Statement::Signature(SignatureStatement {
        id: id.to_string(),
        issuer: issuer.pk.duplicate(),
        labels: labels(n),
        disclosed,
    })
}

fn numbers(values: &[u64]) -> Vec<ClaimData> {
    values.iter().map(|v| ClaimData::Number(*v)).collect()
}

#[test]
fn presentation_with_one_signature_statement() {
    let iss = issuer(5);
    let cred = credential("c1", &iss, numbers(&[11, 22, 33, 44, 55]));
    let schema = PresentationSchema {
        statements: vec![signature_statement("c1", &iss, 5, vec![3, 4])],
    };
    let nonce = b"verifier nonce";
    let p = Presentation::create(&vec![cred], &schema, nonce).unwrap();
    assert!(p.verify(&schema, nonce));
    assert_eq!(p.proofs.len(), 1);
    assert_eq!(p.disclosed_messages.len(), 1);
    assert_eq!(p.disclosed_messages[0].claims.len(), 2);
    assert_eq!(p.disclosed_messages[0].claims[0].label, "claim 3");
    assert!(p.disclosed_messages[0].claims[0].claim.same(&ClaimData::Number(44)));

    // Another nonce than the prover used: the challenge does not match.
    assert!(!p.verify(&schema, b"another nonce"));
    assert_eq!(p.check(&schema, b"another nonce"), Err(Error::ProofVerificationFailed));

    // A changed disclosed claim.
    let mut changed = p;
    changed.disclosed_messages[0].claims[0].claim = ClaimData::Number(45);
    assert!(!changed.verify(&schema, nonce));

    // Another schema.
    let other = PresentationSchema {
        statements: vec![signature_statement("c1", &iss, 5, vec![2, 3, 4])],
    };
    assert!(!changed.verify(&other, nonce));
}

#[test]
fn presentation_with_duplicate_statement_ids_is_refused() {
    let iss = issuer(2);
    let cred = credential("c1", &iss, numbers(&[1, 2]));
    let schema = PresentationSchema {
        statements: vec![
            signature_statement("c1", &iss, 2, vec![]),
            signature_statement("c1", &iss, 2, vec![]),
        ],
    };
    assert_eq!(
        Presentation::create(&vec![cred], &schema, b"nonce").err(),
        Some(Error::InvalidPresentationData)
    );
}

#[test]
fn presentation_without_the_credential_is_refused() {
    let iss = issuer(2);
    let cred = credential("other", &iss, numbers(&[1, 2]));
    let schema =
        PresentationSchema { statements: vec![signature_statement("c1", &iss, 2, vec![])] };
    assert_eq!(
        Presentation::create(&vec![cred], &schema, b"nonce").err(),
        Some(Error::InvalidPresentationData)
    );
    assert_eq!(
        Presentation::create(&vec![], &schema, b"nonce").err(),
        Some(Error::InvalidPresentationData)
    );
    // A credential with another number of claims than the statement has labels.
    let short = credential("c1", &issuer(1), numbers(&[1]));
    assert_eq!(
        Presentation::create(&vec![short], &schema, b"nonce").err(),
        Some(Error::InvalidPresentationData)
    );
}

#[test]
fn equality_across_two_credentials() {
    let a = issuer(3);
    let b = issuer(3);
    let schema = PresentationSchema {
        statements: vec![
            signature_statement("a", &a, 3, vec![0]),
            signature_statement("b", &b, 3, vec![]),
            Statement::Equality(EqualityStatement {
                id: "same".to_string(),
                references: vec![
                    ClaimReference { reference_id: "a".to_string(), claim: 1 },
                    ClaimReference { reference_id: "b".to_string(), claim: 1 },
                ],
            }),
        ],
    };
    let creds = vec![
        credential("a", &a, numbers(&[1, 777, 3])),
        credential("b", &b, numbers(&[4, 777, 6])),
    ];
    let p = Presentation::create(&creds, &schema, b"n").unwrap();
    assert!(p.verify(&schema, b"n"));
    assert_eq!(p.proofs.len(), 3);

    // The two claims differ: no presentation.
    let creds = vec![
        credential("a", &a, numbers(&[1, 777, 3])),
        credential("b", &b, numbers(&[4, 778, 6])),
    ];
    assert_eq!(
        Presentation::create(&creds, &schema, b"n").err(),
        Some(Error::InvalidClaimData)
    );

    // Proofs of two credentials whose claims differ, put together, are refused.
    let plain = PresentationSchema {
        statements: vec![
            signature_statement("a", &a, 3, vec![0]),
            signature_statement("b", &b, 3, vec![]),
        ],
    };
    let mut q = Presentation::create(&creds, &plain, b"n").unwrap();
    assert!(q.verify(&plain, b"n"));
    let marker = match &p.proofs[2] {
        SubProof::Equality(e) => SubProof::Equality(pscred::presentation::parts::EqualityProof {
            id: e.id.clone(),
        }),
        _ => panic!("an equality proof was expected"),
    };
    q.proofs.push(marker);
    assert!(!q.verify(&schema, b"n"));

    // An equality of a disclosed claim is refused.
    let disclosed = PresentationSchema {
        statements: vec![
            signature_statement("a", &a, 3, vec![1]),
            signature_statement("b", &b, 3, vec![]),
            Statement::Equality(EqualityStatement {
                id: "same".to_string(),
                references: vec![
                    ClaimReference { reference_id: "a".to_string(), claim: 1 },
                    ClaimReference { reference_id: "b".to_string(), claim: 1 },
                ],
            }),
        ],
    };
    let creds = vec![
        credential("a", &a, numbers(&[1, 777, 3])),
        credential("b", &b, numbers(&[4, 777, 6])),
    ];
    assert_eq!(
        Presentation::create(&creds, &disclosed, b"n").err(),
        Some(Error::InvalidClaimData)
    );
}

fn range_schema(iss: &Issuer, lower: u64, upper: u64) -> PresentationSchema {
    let g = G1Point::generator();
    let h = G1Point::hash(b"blinder generator", b"test");
    PresentationSchema {
        statements: vec![
            signature_statement("c", iss, 2, vec![]),
            Statement::Range(RangeStatement {
                id: "age".to_string(),
                signature_id: "c".to_string(),
                reference_id: "com".to_string(),
                claim: 0,
                lower,
                upper,
            }),
            Statement::Commitment(CommitmentStatement {
                id: "com".to_string(),
                reference_id: "c".to_string(),
                claim: 0,
                message_generator: g,
                blinder_generator: h,
            }),
        ],
    }
}

#[test]
fn range_of_a_committed_claim() {
    let iss = issuer(2);
    let creds = vec![credential("c", &iss, numbers(&[100, 5]))];
    let schema = range_schema(&iss, 50, 200);
    let p = Presentation::create(&creds, &schema, b"n").unwrap();
    assert!(p.verify(&schema, b"n"));
    assert_eq!(p.proofs.len(), 3);
    // 200 - 50 = 150 has eight bits: sixteen bit commitments, three
    // responses for each.
    match &p.proofs[2] {
        SubProof::Range(r) => {
            assert_eq!(r.points.len(), 16);
            assert_eq!(r.responses.len(), 48);
        }
        _ => panic!("the range proof was expected last"),
    }

    // The same presentation does not prove another range.
    let other = range_schema(&iss, 150, 200);
    assert!(!p.verify(&other, b"n"));
    // And none can be made for a range that the claim is not in.
    assert_eq!(
        Presentation::create(&creds, &other, b"n").err(),
        Some(Error::InvalidClaimData)
    );
    assert_eq!(
        Presentation::create(&creds, &range_schema(&iss, 0, 99), b"n").err(),
        Some(Error::InvalidClaimData)
    );
    assert_eq!(
        Presentation::create(&creds, &range_schema(&iss, 200, 50), b"n").err(),
        Some(Error::InvalidClaimData)
    );

}

#[test]
fn range_bounds_are_in_the_range() {
    let iss = issuer(2);
    let creds = vec![credential("c", &iss, numbers(&[100, 5]))];
    for (lower, upper) in [(100u64, 100u64), (100, 101), (99, 100), (0, 100)] {
        let schema = range_schema(&iss, lower, upper);
        let p = Presentation::create(&creds, &schema, b"n").unwrap();
        assert!(p.verify(&schema, b"n"));
    }
}

#[test]
fn range_of_sixteen_bits() {
    let iss = issuer(2);
    let creds = vec![credential("c", &iss, numbers(&[u64::MAX - 3, 5]))];
    let schema = range_schema(&iss, u64::MAX - 65535, u64::MAX);
    let p = Presentation::create(&creds, &schema, b"n").unwrap();
    match &p.proofs[2] {
        SubProof::Range(r) => assert_eq!(r.points.len(), 32),
        _ => panic!("the range proof was expected last"),
    }
}

#[test]
fn bits_of_a_span() {
    assert_eq!(count_bits(0), 1);
    assert_eq!(count_bits(1), 1);
    assert_eq!(count_bits(2), 2);
    assert_eq!(count_bits(150), 8);
    assert_eq!(count_bits(255), 8);
    assert_eq!(count_bits(256), 9);
    assert_eq!(count_bits(u64::MAX), 64);
}

#[test]
fn range_of_a_claim_that_is_no_number_is_refused() {
    let iss = issuer(2);
    let creds = vec![credential(
        "c",
        &iss,
        vec![ClaimData::Scalar(Scalar::from_u64(100)), ClaimData::Number(5)],
    )];
    assert_eq!(
        Presentation::create(&creds, &range_schema(&iss, 50, 200), b"n").err(),
        Some(Error::InvalidClaimData)
    );
}

#[test]
fn tampered_range_proof_is_refused() {
    let iss = issuer(2);
    let creds = vec![credential("c", &iss, numbers(&[100, 5]))];
    let schema = range_schema(&iss, 50, 200);
    let mut p = Presentation::create(&creds, &schema, b"n").unwrap();
    if let SubProof::Range(r) = &mut p.proofs[2] {
        r.points.swap(0, 1);
    }
    assert!(!p.verify(&schema, b"n"));
}

#[test]
fn commitment_and_encryptions_of_a_claim() {
    let iss = issuer(3);
    let creds = vec![credential("c", &iss, numbers(&[7, 8, 9]))];
    let g = G1Point::generator();
    let h = G1Point::hash(b"h", b"test");
    let key = G1Point::hash(b"key", b"test");
    let issuer_key = G1Point::hash(b"issuer key", b"test");
    let schema = PresentationSchema {
        statements: vec![
            signature_statement("c", &iss, 3, vec![2]),
            Statement::Commitment(CommitmentStatement {
                id: "com".to_string(),
                reference_id: "c".to_string(),
                claim: 0,
                message_generator: g,
                blinder_generator: h,
            }),
            Statement::VerifiableEncryption(VerifiableEncryptionStatement {
                id: "enc".to_string(),
                reference_id: "c".to_string(),
                claim: 0,
                message_generator: g,
                encryption_key: key,
            }),
            Statement::VerifiableEncryptionDecryption(VerifiableEncryptionDecryptionStatement {
                id: "dec".to_string(),
                reference_id: "c".to_string(),
                claim: 1,
                message_generator: g,
                encryption_key: key,
                issuer_key,
            }),
        ],
    };
    let mut p = Presentation::create(&creds, &schema, b"n").unwrap();
    assert!(p.verify(&schema, b"n"));
    assert_eq!(p.proofs.len(), 4);

    // The response of the claim is the same in the three proofs of claim 0.
    let (sig, com, enc) = match (&p.proofs[0], &p.proofs[1], &p.proofs[2]) {
        (SubProof::Signature(s), SubProof::Commitment(c), SubProof::VerifiableEncryption(e)) => {
            (s, c, e)
        }
        _ => panic!("other proofs were expected"),
    };
    // Hidden positions are the nonce, claim 0 and claim 1: claim 0 has the second response.
    assert!(sig.pok.proof[1].eq(&com.responses[0]));
    assert!(sig.pok.proof[1].eq(&enc.responses[0]));
    assert_eq!(com.points.len(), 1);
    assert_eq!(enc.points.len(), 2);

    // A commitment to another value does not pass.
    if let SubProof::Commitment(c) = &mut p.proofs[1] {
        c.responses[0] = c.responses[0].add(&Scalar::from_u64(1));
    }
    assert!(!p.verify(&schema, b"n"));

    // A commitment to a disclosed claim is refused.
    let mut bad = schema;
    bad.statements[0] = signature_statement("c", &iss, 3, vec![0, 2]);
    assert_eq!(
        Presentation::create(&creds, &bad, b"n").err(),
        Some(Error::InvalidClaimData)
    );
}

#[test]
fn membership_and_revocation() {
    let iss = issuer(2);
    let mut rng = rand_core::OsRng;
    let alpha = Scalar::random(&mut rng);
    let accumulator = G1Point::generator().mul(&Scalar::random(&mut rng));
    let verification_key = G2Point::generator().mul(&alpha);
    let witness_of =
        |y: u64| accumulator.mul(&invert(&alpha.add(&Scalar::from_u64(y))));

    let signed = {
        let claims = numbers(&[1234, 5]);
        let msgs: Vec<Scalar> = claims.iter().map(|c| c.to_scalar()).collect();
        NamedCredential {
            id: "c".to_string(),
            credential: PresentationCredential::Signature(SignatureCredential {
                signature: PsScheme::sign(&iss.sk, &msgs).unwrap(),
                claims,
                revocation_handle: witness_of(1234),
            }),
        }
    };
    let member = NamedCredential {
        id: "in set".to_string(),
        credential: PresentationCredential::Membership(MembershipCredential {
            witness: witness_of(5),
        }),
    };
    let schema = PresentationSchema {
        statements: vec![
            signature_statement("c", &iss, 2, vec![]),
            Statement::Revocation(MembershipStatement {
                id: "not revoked".to_string(),
                reference_id: "c".to_string(),
                claim: 0,
                accumulator,
                verification_key,
            }),
            Statement::Membership(MembershipStatement {
                id: "in set".to_string(),
                reference_id: "c".to_string(),
                claim: 1,
                accumulator,
                verification_key,
            }),
        ],
    };
    let creds = vec![signed, member];
    let p = Presentation::create(&creds, &schema, b"n").unwrap();
    assert!(p.verify(&schema, b"n"));

    // A witness of another member is refused.
    let wrong = NamedCredential {
        id: "in set".to_string(),
        credential: PresentationCredential::Membership(MembershipCredential {
            witness: witness_of(6),
        }),
    };
    let creds = vec![
        credential("c", &iss, numbers(&[1234, 5])),
        wrong,
    ];
    assert_eq!(
        Presentation::create(&creds, &schema, b"n").err(),
        Some(Error::InvalidClaimData)
    );
}

fn commitment(id: &str, reference_id: &str, claim: usize) -> Statement {
    Statement::Commitment(CommitmentStatement {
        id: id.to_string(),
        reference_id: reference_id.to_string(),
        claim,
        message_generator: G1Point::generator(),
        blinder_generator: G1Point::hash(b"h", b"test"),
    })
}

#[test]
fn statements_about_claims_that_are_not_there_are_refused() {
    let iss = issuer(2);
    let creds = vec![credential("c", &iss, numbers(&[1, 2]))];
    // A claim past the last, which would stand where the proof's last response stands.
    for claim in [2usize, 3, usize::MAX] {
        let schema = PresentationSchema {
            statements: vec![
                signature_statement("c", &iss, 2, vec![]),
                commitment("com", "c", claim),
            ],
        };
        assert_eq!(
            Presentation::create(&creds, &schema, b"n").err(),
            Some(Error::InvalidPresentationData)
        );
    }
    // A credential that is not in the schema, and a statement that is no credential's.
    for reference in ["d", "com"] {
        let schema = PresentationSchema {
            statements: vec![
                signature_statement("c", &iss, 2, vec![]),
                commitment("com", reference, 0),
            ],
        };
        assert_eq!(
            Presentation::create(&creds, &schema, b"n").err(),
            Some(Error::InvalidPresentationData)
        );
    }
    // A range over a statement that is no commitment, or over another claim
    // than the commitment is about.
    let schema = PresentationSchema {
        statements: vec![
            signature_statement("c", &iss, 2, vec![]),
            commitment("com", "c", 0),
            Statement::Range(RangeStatement {
                id: "r".to_string(),
                signature_id: "c".to_string(),
                reference_id: "c".to_string(),
                claim: 0,
                lower: 0,
                upper: 5,
            }),
        ],
    };
    assert_eq!(
        Presentation::create(&creds, &schema, b"n").err(),
        Some(Error::InvalidPresentationData)
    );
    let schema = PresentationSchema {
        statements: vec![
            signature_statement("c", &iss, 2, vec![]),
            commitment("com", "c", 0),
            Statement::Range(RangeStatement {
                id: "r".to_string(),
                signature_id: "c".to_string(),
                reference_id: "com".to_string(),
                claim: 1,
                lower: 0,
                upper: 5,
            }),
        ],
    };
    assert_eq!(
        Presentation::create(&creds, &schema, b"n").err(),
        Some(Error::InvalidPresentationData)
    );
    // An equality that names one claim twice.
    let schema = PresentationSchema {
        statements: vec![
            signature_statement("c", &iss, 2, vec![]),
            Statement::Equality(EqualityStatement {
                id: "e".to_string(),
                references: vec![
                    ClaimReference { reference_id: "c".to_string(), claim: 0 },
                    ClaimReference { reference_id: "c".to_string(), claim: 0 },
                ],
            }),
        ],
    };
    assert_eq!(
        Presentation::create(&creds, &schema, b"n").err(),
        Some(Error::InvalidPresentationData)
    );
}

#[test]
fn proofs_are_in_the_order_of_the_passes() {
    let iss = issuer(2);
    let creds = vec![credential("c", &iss, numbers(&[3, 3]))];
    let schema = PresentationSchema {
        statements: vec![
            Statement::Range(RangeStatement {
                id: "r".to_string(),
                signature_id: "c".to_string(),
                reference_id: "com".to_string(),
                claim: 0,
                lower: 3,
                upper: 4,
            }),
            Statement::Equality(EqualityStatement {
                id: "e".to_string(),
                references: vec![
                    ClaimReference { reference_id: "c".to_string(), claim: 0 },
                    ClaimReference { reference_id: "c".to_string(), claim: 1 },
                ],
            }),
            commitment("com", "c", 0),
            signature_statement("c", &iss, 2, vec![]),
        ],
    };
    let mut p = Presentation::create(&creds, &schema, b"n").unwrap();
    assert!(p.verify(&schema, b"n"));
    let names: Vec<String> = p
        .proofs
        .iter()
        .map(|x| match x {
            SubProof::Signature(s) => s.id.clone(),
            SubProof::Equality(e) => e.id.clone(),
            SubProof::Commitment(l) | SubProof::Range(l) => l.id.clone(),
            _ => String::new(),
        })
        .collect();
    assert_eq!(names, vec!["c", "e", "com", "r"]);
    // The two claims share a blinder, so they have one response.
    if let SubProof::Signature(s) = &p.proofs[0] {
        assert!(s.pok.proof[1].eq(&s.pok.proof[2]));
    }
    // The verifier finds the proofs by their names, in whatever order they come.
    p.proofs.reverse();
    assert!(p.verify(&schema, b"n"));
    // A proof that is missing.
    p.proofs.pop();
    assert_eq!(p.check(&schema, b"n"), Err(Error::InvalidPresentationData));
}

#[test]
fn a_credential_whose_signature_does_not_hold_is_refused() {
    let iss = issuer(3);
    let schema = PresentationSchema {
        statements: vec![signature_statement("c1", &iss, 3, vec![1])],
    };
    let good = credential("c1", &iss, numbers(&[1, 2, 3]));
    assert!(Presentation::create(&vec![good], &schema, b"nonce").is_ok());

    // The signature is one on other claims.
    let mut bad = credential("c1", &iss, numbers(&[1, 2, 3]));
    if let PresentationCredential::Signature(c) = &mut bad.credential {
        c.claims[2] = ClaimData::Number(4);
    }
    assert_eq!(
        Presentation::create(&vec![bad], &schema, b"nonce").err(),
        Some(Error::InvalidSignature)
    );

    // The first of two statements that is refused gives the error.
    let other = issuer(3);
    let mut lame = signature_statement("c2", &other, 3, vec![]);
    if let Statement::Signature(ss) = &mut lame {
        ss.issuer.y_blinds.pop();
    }
    let two = PresentationSchema {
        statements: vec![lame, signature_statement("c1", &iss, 3, vec![1])],
    };
    let mut bad = credential("c1", &iss, numbers(&[1, 2, 3]));
    if let PresentationCredential::Signature(c) = &mut bad.credential {
        c.claims[0] = ClaimData::Number(9);
    }
    let held = credential("c2", &other, numbers(&[5, 6, 7]));
    assert_eq!(
        Presentation::create(&vec![held, bad], &two, b"nonce").err(),
        Some(Error::InvalidKeyGeneration)
    );
}

#[test]
fn statements_about_disclosed_claims_are_refused() {
    let iss = issuer(2);
    let creds = vec![credential("c", &iss, numbers(&[1, 2]))];
    let schema = PresentationSchema {
        statements: vec![signature_statement("c", &iss, 2, vec![0]), commitment("com", "c", 0)],
    };
    assert_eq!(
        Presentation::create(&creds, &schema, b"n").err(),
        Some(Error::InvalidClaimData)
    );
    // The claim that is not disclosed can be committed to.
    let schema = PresentationSchema {
        statements: vec![signature_statement("c", &iss, 2, vec![0]), commitment("com", "c", 1)],
    };
    let p = Presentation::create(&creds, &schema, b"n").unwrap();
    assert!(p.verify(&schema, b"n"));

    // A claim that two equality statements name.
    let other = issuer(2);
    let creds = vec![
        credential("c", &iss, numbers(&[1, 2])),
        credential("d", &other, numbers(&[1, 2])),
    ];
    let pair = |id: &str, claim: usize| {
        Statement::Equality(EqualityStatement {
            id: id.to_string(),
            references: vec![
                ClaimReference { reference_id: "c".to_string(), claim },
                ClaimReference { reference_id: "d".to_string(), claim },
            ],
        })
    };
    let schema = PresentationSchema {
        statements: vec![
            signature_statement("c", &iss, 2, vec![]),
            signature_statement("d", &other, 2, vec![]),
            pair("e", 0),
            pair("f", 0),
        ],
    };
    assert_eq!(
        Presentation::create(&creds, &schema, b"n").err(),
        Some(Error::InvalidPresentationData)
    );
    let schema = PresentationSchema {
        statements: vec![
            signature_statement("c", &iss, 2, vec![]),
            signature_statement("d", &other, 2, vec![]),
            pair("e", 0),
            pair("f", 1),
        ],
    };
    let p = Presentation::create(&creds, &schema, b"n").unwrap();
    assert!(p.verify(&schema, b"n"));
    assert_eq!(p.proofs.len(), 4);
}
