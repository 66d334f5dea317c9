use simples::error::SimplesError;
use simples::keys::{PublicKey, SecretKey};
use simples::tx::{Commitment, TransactionBuilder, Transfer};
use simples::wallet::Wallet;

fn fresh_keypair(w: &mut Wallet, name: &str) -> (PublicKey, SecretKey) {
    let key = w.generate_new_key(name);
    let pk = key.decode_public_key().unwrap();
    let sk = key.decode_secret_key().unwrap();
    (pk, sk)
}

#[test]
fn build_then_verify_succeeds() {
    let mut w = Wallet::new();
    let (pk_a, sk_a) = fresh_keypair(&mut w, "a");
    let (pk_b, _) = fresh_keypair(&mut w, "b");
    let mut builder = TransactionBuilder::new();
    builder.add_transfer(&sk_a, &pk_a, &pk_b, 100, 0);
    let tx = builder.build().unwrap();
    assert!(tx.verify_signatures().is_ok());
}

#[test]
fn one_signature_for_shared_source() {
    // Two transfers from account A, to B and to C: exactly one signature.
    let mut w = Wallet::new();
    let (pk_a, sk_a) = fresh_keypair(&mut w, "a");
    let (pk_b, _) = fresh_keypair(&mut w, "b");
    let (pk_c, _) = fresh_keypair(&mut w, "c");
    let mut builder = TransactionBuilder::new();
    builder.add_transfer(&sk_a, &pk_a, &pk_b, 10, 0);
    builder.add_transfer(&sk_a, &pk_a, &pk_c, 20, 1);
    let tx = builder.build().unwrap();
    assert_eq!(tx.signatures.len(), 1);
    assert_eq!(tx.signatures[0].public_key, pk_a.bytes);
    assert!(tx.verify_signatures().is_ok());
}

#[test]
fn signature_count_is_distinct_sources() {
    // Three transfers over two distinct source accounts: two signatures.
    let mut w = Wallet::new();
    let (pk_a, sk_a) = fresh_keypair(&mut w, "a");
    let (pk_b, sk_b) = fresh_keypair(&mut w, "b");
    let (pk_c, _) = fresh_keypair(&mut w, "c");
    let mut builder = TransactionBuilder::new();
    builder.add_transfer(&sk_a, &pk_a, &pk_c, 1, 0);
    builder.add_transfer(&sk_b, &pk_b, &pk_c, 2, 1);
    builder.add_transfer(&sk_a, &pk_a, &pk_b, 3, 2);
    let tx = builder.build().unwrap();
    assert_eq!(tx.signatures.len(), 2);
    assert!(tx.verify_signatures().is_ok());
}

#[test]
fn build_rejects_mismatched_key() {
    // The declared source account does not match the signing key.
    let mut w = Wallet::new();
    let (pk_a, _) = fresh_keypair(&mut w, "a");
    let (_, sk_b) = fresh_keypair(&mut w, "b");
    let (pk_c, _) = fresh_keypair(&mut w, "c");
    let mut builder = TransactionBuilder::new();
    builder.add_transfer(&sk_b, &pk_a, &pk_c, 5, 0);
    match builder.build() {
        Err(SimplesError::InvalidSignature(pk)) => assert_eq!(pk, pk_a.bytes),
        other => panic!("expected InvalidSignature, got {:?}", other),
    }
}

#[test]
fn build_rejects_mismatched_key_for_covered_source() {
    // A's account is already covered by the first transfer; a second
    // transfer from A supplied with B's secret key must still abort the
    // build, naming A.
    let mut w = Wallet::new();
    let (pk_a, sk_a) = fresh_keypair(&mut w, "a");
    let (_, sk_b) = fresh_keypair(&mut w, "b");
    let (pk_c, _) = fresh_keypair(&mut w, "c");
    let mut builder = TransactionBuilder::new();
    builder.add_transfer(&sk_a, &pk_a, &pk_c, 1, 0);
    builder.add_transfer(&sk_b, &pk_a, &pk_c, 2, 1);
    match builder.build() {
        Err(SimplesError::InvalidSignature(pk)) => assert_eq!(pk, pk_a.bytes),
        other => panic!("expected InvalidSignature, got {:?}", other),
    }
}

#[test]
fn transaction_encoding_round_trips() {
    let mut w = Wallet::new();
    let (pk_a, sk_a) = fresh_keypair(&mut w, "a");
    let (pk_b, sk_b) = fresh_keypair(&mut w, "b");
    let mut builder = TransactionBuilder::new();
    builder.add_transfer(&sk_a, &pk_a, &pk_b, 12, 0);
    builder.add_transfer(&sk_b, &pk_b, &pk_a, 34, 1);
    builder.set_bounty(&sk_a, &pk_a, 5);
    let tx = builder.build().unwrap();
    let bytes = tx.encode();
    let back = simples::tx::Transaction::decode(&bytes).unwrap();
    assert_eq!(back.encode(), bytes);
    assert_eq!(back.commit.transfers.len(), 2);
    assert_eq!(back.commit.transfers[1].tokens, 34);
    assert_eq!(back.commit.bounty_pk, pk_a.bytes);
    assert_eq!(back.commit.bounty, 5);
    assert_eq!(back.signatures.len(), tx.signatures.len());
    assert!(back.verify_signatures().is_ok());
    assert!(simples::tx::Transaction::decode(&vec![0xFF]).is_none());
}

#[test]
fn missing_signature_is_reported() {
    // Two distinct source accounts; removing B's signature entry fails
    // verification with MissingSignature naming B.
    let mut w = Wallet::new();
    let (pk_a, sk_a) = fresh_keypair(&mut w, "a");
    let (pk_b, sk_b) = fresh_keypair(&mut w, "b");
    let (pk_c, _) = fresh_keypair(&mut w, "c");
    let mut builder = TransactionBuilder::new();
    builder.add_transfer(&sk_a, &pk_a, &pk_c, 1, 0);
    builder.add_transfer(&sk_b, &pk_b, &pk_c, 2, 1);
    let mut tx = builder.build().unwrap();
    assert_eq!(tx.signatures.len(), 2);
    assert!(tx.verify_signatures().is_ok());
    tx.signatures.retain(|s| s.public_key != pk_b.bytes);
    match tx.verify_signatures() {
        Err(SimplesError::MissingSignature(pk)) => assert_eq!(pk, pk_b.bytes),
        other => panic!("expected MissingSignature, got {:?}", other),
    }
}

#[test]
fn empty_signature_list_is_missing() {
    let mut w = Wallet::new();
    let (pk_a, sk_a) = fresh_keypair(&mut w, "a");
    let (pk_b, _) = fresh_keypair(&mut w, "b");
    let mut builder = TransactionBuilder::new();
    builder.add_transfer(&sk_a, &pk_a, &pk_b, 1, 0);
    let mut tx = builder.build().unwrap();
    tx.signatures.clear();
    match tx.verify_signatures() {
        Err(SimplesError::MissingSignature(pk)) => assert_eq!(pk, pk_a.bytes),
        other => panic!("expected MissingSignature, got {:?}", other),
    }
}

#[test]
fn tampered_commitment_fails_verification() {
    // Changing the committed content after signing invalidates the
    // signature of the affected source.
    let mut w = Wallet::new();
    let (pk_a, sk_a) = fresh_keypair(&mut w, "a");
    let (pk_b, _) = fresh_keypair(&mut w, "b");
    let mut builder = TransactionBuilder::new();
    builder.add_transfer(&sk_a, &pk_a, &pk_b, 100, 0);
    let mut tx = builder.build().unwrap();
    tx.commit.transfers[0].tokens = 101;
    match tx.verify_signatures() {
        Err(SimplesError::InvalidSignature(pk)) => assert_eq!(pk, pk_a.bytes),
        other => panic!("expected InvalidSignature, got {:?}", other),
    }
}

#[test]
fn tampered_bounty_fails_verification() {
    let mut w = Wallet::new();
    let (pk_a, sk_a) = fresh_keypair(&mut w, "a");
    let (pk_b, sk_b) = fresh_keypair(&mut w, "b");
    let mut builder = TransactionBuilder::new();
    builder.add_transfer(&sk_a, &pk_a, &pk_b, 7, 0);
    builder.set_bounty(&sk_b, &pk_b, 50);
    let mut tx = builder.build().unwrap();
    assert!(tx.verify_signatures().is_ok());
    tx.commit.bounty = 51;
    match tx.verify_signatures() {
        Err(SimplesError::InvalidSignature(pk)) => assert_eq!(pk, pk_a.bytes),
        other => panic!("expected InvalidSignature, got {:?}", other),
    }
}

#[test]
fn verification_is_idempotent() {
    let mut w = Wallet::new();
    let (pk_a, sk_a) = fresh_keypair(&mut w, "a");
    let (pk_b, _) = fresh_keypair(&mut w, "b");
    let mut builder = TransactionBuilder::new();
    builder.add_transfer(&sk_a, &pk_a, &pk_b, 3, 0);
    let mut tx = builder.build().unwrap();
    assert!(tx.verify_signatures().is_ok());
    assert!(tx.verify_signatures().is_ok());
    tx.commit.transfers[0].tokens = 4;
    let first = tx.verify_signatures();
    let second = tx.verify_signatures();
    assert!(matches!(first, Err(SimplesError::InvalidSignature(_))));
    assert!(matches!(second, Err(SimplesError::InvalidSignature(_))));
}

#[test]
fn malformed_source_key_is_decode_error() {
    // A transfer whose source key has the wrong length, with a matching
    // signature entry present, is rejected as a key decode error.
    let commit = Commitment {
        transfers: vec![Transfer {
            op_index: 0,
            tokens: 1,
            source_pk: vec![1, 2, 3],
            destination_pk: vec![4, 5, 6],
        }],
        bounty_pk: Vec::new(),
        bounty: 0,
    };
    let tx = simples::tx::Transaction {
        commit,
        signatures: vec![simples::tx::DetachedSignature {
            public_key: vec![1, 2, 3],
            payload: vec![0; 64],
        }],
    };
    assert!(matches!(
        tx.verify_signatures(),
        Err(SimplesError::KeyDecodeError)
    ));
}

#[test]
fn commitment_encoding_is_exact() {
    let commit = Commitment {
        transfers: vec![Transfer {
            op_index: 1,
            tokens: 1,
            source_pk: vec![7, 8],
            destination_pk: vec![9],
        }],
        bounty_pk: vec![1],
        bounty: 200,
    };
    let expected: Vec<u8> = vec![
        0x0A, 0x0B, // transfer, 11 bytes
        0x08, 0x01, // op_index 1
        0x10, 0x01, // tokens 1
        0x1A, 0x02, 7, 8, // source
        0x22, 0x01, 9, // destination
        0x12, 0x01, 1, // bounty payer
        0x18, 0xC8, 0x01, // bounty 200
    ];
    assert_eq!(commit.encode(), expected);
}

#[test]
fn transaction_encoding_is_exact() {
    let commit = Commitment {
        transfers: vec![Transfer {
            op_index: 1,
            tokens: 1,
            source_pk: vec![7, 8],
            destination_pk: vec![9],
        }],
        bounty_pk: vec![1],
        bounty: 200,
    };
    let tx = simples::tx::Transaction {
        commit,
        signatures: vec![simples::tx::DetachedSignature {
            public_key: vec![1, 2],
            payload: vec![3],
        }],
    };
    let expected: Vec<u8> = vec![
        0x0A, 19, // commitment, 19 bytes
        0x0A, 0x0B, 0x08, 0x01, 0x10, 0x01, 0x1A, 0x02, 7, 8, 0x22, 0x01, 9, 0x12, 0x01, 1, 0x18,
        0xC8, 0x01, // signature, 7 bytes
        0x12, 0x07, 0x0A, 0x02, 1, 2, 0x12, 0x01, 3,
    ];
    assert_eq!(tx.encode(), expected);
}

#[test]
fn encoding_omits_absent_bounty() {
    let commit = Commitment {
        transfers: Vec::new(),
        bounty_pk: Vec::new(),
        bounty: 0,
    };
    assert_eq!(commit.encode(), Vec::<u8>::new());
}

#[test]
fn varint_boundaries_encode_exactly() {
    let commit = Commitment {
        transfers: vec![
            Transfer { op_index: 0, tokens: 127, source_pk: vec![], destination_pk: vec![] },
            Transfer { op_index: 1, tokens: 128, source_pk: vec![], destination_pk: vec![] },
            Transfer {
                op_index: 2,
                tokens: u64::MAX,
                source_pk: vec![],
                destination_pk: vec![],
            },
        ],
        bounty_pk: Vec::new(),
        bounty: 0,
    };
    let expected: Vec<u8> = vec![
        0x0A, 0x08, 0x08, 0x00, 0x10, 0x7F, 0x1A, 0x00, 0x22, 0x00, // tokens 127
        0x0A, 0x09, 0x08, 0x01, 0x10, 0x80, 0x01, 0x1A, 0x00, 0x22, 0x00, // tokens 128
        0x0A, 0x11, 0x08, 0x02, 0x10, 0xFF, 0xFF, 0xFF, 0xFF, 0xFF, 0xFF, 0xFF, 0xFF, 0xFF,
        0x01, 0x1A, 0x00, 0x22, 0x00, // tokens u64::MAX
    ];
    assert_eq!(commit.encode(), expected);
}

#[test]
fn key_length_is_checked() {
    assert!(matches!(
        PublicKey::from_bytes(&vec![0; 31]),
        Err(SimplesError::KeyDecodeError)
    ));
    assert!(PublicKey::from_bytes(&vec![0; 32]).is_ok());
    assert!(matches!(
        SecretKey::from_bytes(&vec![0; 63]),
        Err(SimplesError::KeyDecodeError)
    ));
    assert!(SecretKey::from_bytes(&vec![0; 64]).is_ok());
}
