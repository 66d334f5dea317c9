use simples::keys::{PublicKey, SecretKey};
use simples::wallet::{pretty_format, Wallet, WalletKeypair};

#[test]
fn add_key_stores_both_halves() {
    let mut w = Wallet::new();
    let pk = PublicKey::from_bytes(&vec![1; 32]).unwrap();
    let sk = SecretKey::from_bytes(&vec![2; 64]).unwrap();
    w.add_key("alice", &pk, &sk);
    assert_eq!(w.keypairs.len(), 1);
    assert_eq!(w.keypairs[0].name, "alice");
    assert_eq!(w.keypairs[0].public_key, vec![1; 32]);
    assert_eq!(w.keypairs[0].secret_key, vec![2; 64]);
}

#[test]
fn add_public_key_stores_no_secret() {
    let mut w = Wallet::new();
    let pk = PublicKey::from_bytes(&vec![3; 32]).unwrap();
    w.add_public_key("watch", &pk);
    assert_eq!(w.keypairs.len(), 1);
    assert_eq!(w.keypairs[0].secret_key, Vec::<u8>::new());
    assert!(w.keypairs[0].decode_secret_key().is_err());
    assert!(w.keypairs[0].decode_public_key().is_ok());
}

#[test]
fn generate_new_key_has_scheme_lengths() {
    let mut w = Wallet::new();
    let key = w.generate_new_key("fresh");
    assert_eq!(key.name, "fresh");
    assert_eq!(key.public_key.len(), 32);
    assert_eq!(key.secret_key.len(), 64);
    assert_eq!(w.keypairs.len(), 1);
    assert_eq!(w.keypairs[0].public_key, key.public_key);
}

#[test]
fn generate_name_takes_first_free_slot() {
    let mut w = Wallet::new();
    assert_eq!(w.generate_name(), "addr1");
    let pk = PublicKey::from_bytes(&vec![4; 32]).unwrap();
    w.add_public_key("addr1", &pk);
    assert_eq!(w.generate_name(), "addr2");
    w.add_public_key("addr3", &pk);
    // addr2 is still free: the first gap wins.
    assert_eq!(w.generate_name(), "addr2");
    w.add_public_key("addr2", &pk);
    assert_eq!(w.generate_name(), "addr4");
}

#[test]
fn search_by_name_prefix() {
    let mut w = Wallet::new();
    let pk = PublicKey::from_bytes(&vec![5; 32]).unwrap();
    w.add_public_key("alice", &pk);
    w.add_public_key("albert", &pk);
    w.add_public_key("bob", &pk);
    let hits = w.search_keys("al");
    assert_eq!(hits.len(), 2);
    assert_eq!(hits[0].name, "alice");
    assert_eq!(hits[1].name, "albert");
    assert_eq!(w.search_keys("zz").len(), 0);
    assert_eq!(w.search_keys("").len(), 3);
}

#[test]
fn search_by_base64_prefix() {
    let mut w = Wallet::new();
    // [77, 97, 110] is "Man" in base64: "TWFu".
    let key = WalletKeypair {
        public_key: vec![77, 97, 110],
        secret_key: Vec::new(),
        name: "short".to_string(),
    };
    w.keypairs.push(key);
    let hits = w.search_keys("TWF");
    assert_eq!(hits.len(), 1);
    assert_eq!(hits[0].name, "short");
    assert_eq!(w.search_keys("UW").len(), 0);
}

#[test]
fn pretty_format_is_exact() {
    let key = WalletKeypair {
        public_key: vec![77, 97, 110],
        secret_key: vec![102],
        name: "k1".to_string(),
    };
    let text = pretty_format(&key);
    assert_eq!(text, "[ TWFu ]\n name: k1\n   pk: TWFu\n   sk: Zg==\n");
}

#[test]
fn wallet_encoding_is_exact() {
    let mut w = Wallet::new();
    w.keypairs.push(WalletKeypair {
        public_key: vec![1, 2],
        secret_key: vec![3],
        name: "ab".to_string(),
    });
    let expected: Vec<u8> = vec![
        0x0A, 0x0B, // record, 11 bytes
        0x0A, 0x02, 1, 2, // public key
        0x12, 0x01, 3, // secret key
        0x1A, 0x02, 97, 98, // name "ab"
    ];
    assert_eq!(w.encode(), expected);
    assert_eq!(Wallet::new().encode(), Vec::<u8>::new());
}

#[test]
fn wallet_encoding_round_trips() {
    let mut w = Wallet::new();
    let pk = PublicKey::from_bytes(&vec![7; 32]).unwrap();
    let sk = SecretKey::from_bytes(&vec![8; 64]).unwrap();
    w.add_key("alice", &pk, &sk);
    w.add_public_key("bob — watch", &pk);
    w.generate_new_key("fresh");
    let bytes = w.encode();
    let back = Wallet::decode(&bytes).unwrap();
    assert_eq!(back.keypairs.len(), 3);
    for (a, b) in w.keypairs.iter().zip(back.keypairs.iter()) {
        assert_eq!(a.name, b.name);
        assert_eq!(a.public_key, b.public_key);
        assert_eq!(a.secret_key, b.secret_key);
    }
    assert_eq!(back.encode(), bytes);
}

#[test]
fn decode_rejects_malformed_bytes() {
    assert!(Wallet::decode(&vec![0xFF]).is_none());
    // A record field whose length runs past the end of the buffer.
    assert!(Wallet::decode(&vec![0x0A, 0x05, 0x0A]).is_none());
    // Trailing garbage after a well-formed empty buffer prefix.
    assert!(Wallet::decode(&vec![0x00]).is_none());
    assert!(Wallet::decode(&Vec::new()).is_some());
}

#[test]
fn has_name_finds_exact_names_only() {
    let mut w = Wallet::new();
    let pk = PublicKey::from_bytes(&vec![6; 32]).unwrap();
    w.add_public_key("carol", &pk);
    assert!(w.has_name(&"carol".to_string()));
    assert!(!w.has_name(&"caro".to_string()));
    assert!(!w.has_name(&"carole".to_string()));
}
