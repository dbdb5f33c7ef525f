use std::hash::BuildHasher;
use std::hash::Hasher;

use murmur_inverse::murmur;
use murmur_inverse::{bruteforce, bruteforce_single, HashSlot};

#[test]
fn hash_bruteforce() {
    let mut hashes = HashSlot::new();
    for _ in 0..50 {
        let random = std::hash::RandomState::new().build_hasher().finish();
        hashes.insert(random);
    }

    let res = bruteforce(hashes);
    for (hash, inverse_key) in res {
        assert_eq!(hash, murmur::hash(inverse_key.as_bytes()));
    }
}

#[test]
fn round_trip_first_key() {
    // all-spaces is the very first prefix and suffix of the enumeration, so
    // the search must return this exact key for its hash
    let s = [0x20u8; 15];
    let h = murmur::hash(&s);
    let mut hashes = HashSlot::new();
    assert!(hashes.insert(h));
    let res = bruteforce(hashes);
    assert_eq!(res.len(), 1);
    assert_eq!(res[0].0, h);
    assert_eq!(res[0].1.as_bytes(), &s);
    assert_eq!(res[0].1.as_str(), "               ");
    assert_eq!(res[0].1.len(), 15);
}

#[test]
fn dedup_insert_twice() {
    let mut hashes = HashSlot::new();
    assert_eq!(hashes.len(), 0);
    assert!(hashes.insert(0x1234));
    assert_eq!(hashes.len(), 1);
    assert!(!hashes.insert(0x1234));
    assert_eq!(hashes.len(), 1);
    assert!(hashes.insert(0x4321));
    assert_eq!(hashes.len(), 2);
}

#[test]
fn batch_of_constructed_targets_all_resolved() {
    // every target has a 15-byte ASCII preimage, so the search must return
    // exactly one pair per target, each hashing back to its target
    let keys: [&[u8; 15]; 3] = [b"hello world tes", b"0123456789abcde", b"zzzzzz# #zzzzzz"];
    let mut hashes = HashSlot::new();
    let mut targets = Vec::new();
    for k in keys {
        let h = murmur::hash(k);
        targets.push(h);
        assert!(hashes.insert(h));
    }
    assert_eq!(hashes.len(), 3);
    let res = bruteforce(hashes);
    assert_eq!(res.len(), 3);
    for (hash, key) in &res {
        assert!(targets.contains(hash));
        assert_eq!(*hash, murmur::hash(key.as_bytes()));
        assert_eq!(key.len(), 15);
        for &b in key.as_bytes() {
            assert!((32..127).contains(&b) && b != 92);
        }
    }
    for t in &targets {
        assert!(res.iter().any(|(h, _)| h == t));
    }
}

#[test]
fn single_literal_target_resolved() {
    let h = murmur::hash(b"hello world tes");
    assert_eq!(h, 0x63c61dd7c9b665f1);
    let mut hashes = HashSlot::new();
    hashes.insert(h);
    let res = bruteforce(hashes);
    assert_eq!(res.len(), 1);
    let (check, key) = &res[0];
    assert_eq!(*check, h);
    assert_eq!(key.len(), 15);
    assert_eq!(murmur::hash(key.as_bytes()), h);
}

#[test]
fn random_batch_with_constructed_member() {
    let mut hashes = HashSlot::new();
    let mut key = [0u8; 15];
    for b in key.iter_mut() {
        let r = std::hash::RandomState::new().build_hasher().finish();
        let mut c = 32 + (r % 94) as u8;
        if c >= 92 {
            c += 1;
        }
        *b = c;
    }
    let constructed = murmur::hash(&key);
    assert!(hashes.insert(constructed));
    for _ in 0..50 {
        let random = std::hash::RandomState::new().build_hasher().finish();
        hashes.insert(random);
    }
    let res = bruteforce(hashes);
    assert!(res.iter().any(|(h, _)| *h == constructed));
    for (hash, inverse_key) in &res {
        assert_eq!(*hash, murmur::hash(inverse_key.as_bytes()));
    }
}

#[test]
fn single_hash_string_form() {
    let h = murmur::hash(b"0123456789abcde");
    let s = bruteforce_single(h);
    assert_eq!(s.len(), 15);
    assert_eq!(murmur::hash(s.as_bytes()), h);
    for &b in s.as_bytes() {
        assert!((32..127).contains(&b) && b != 92);
    }
}
