use murmur_inverse::alphabet::AsciiIter;
use murmur_inverse::murmur;
use murmur_inverse::ASCII_HASH_MASK;

#[test]
fn hash_known_values() {
    assert_eq!(murmur::hash(b""), 0);
    assert_eq!(murmur::hash(b"a"), 0x071717d2d36b6b11);
    assert_eq!(murmur::hash(b"hello world tes"), 0x63c61dd7c9b665f1);
    assert_eq!(murmur::hash(&[0x20u8; 15]), 0xd4380a76566b9a6f);
    assert_eq!(murmur::hash(b"abcdefgh1234567"), 0x2d8462f780c1e968);
}

#[test]
fn hash_varied_lengths_differ_from_input() {
    // every remainder length exercises another arm of the tail packing
    let data = b"abcdefghij";
    let mut previous = Vec::new();
    for len in 0..=10 {
        let h = murmur::hash(&data[..len]);
        assert!(!previous.contains(&h));
        previous.push(h);
    }
}

#[test]
fn invert_trailing_mix_reproduces_tail() {
    // an ASCII prefix and tail
    let full = b"abcdefgh1234567";
    let h = murmur::hash(full);
    let tail = u64::from_le_bytes([b'1', b'2', b'3', b'4', b'5', b'6', b'7', 0]);
    assert_eq!(murmur::revhash_trim(h) ^ murmur::prehash(&full[..8], 15), tail);

    // a prefix of arbitrary bytes: invertibility does not rest on the alphabet
    let weird: [u8; 15] = [
        0xff, 0, 1, 2, 254, 92, 91, 128, b'A', b'B', b'C', b'D', b'E', b'F', b'G',
    ];
    let h2 = murmur::hash(&weird);
    assert_eq!(h2, 0xe7ab795a7f68c3ba);
    let tail2 = u64::from_le_bytes([b'A', b'B', b'C', b'D', b'E', b'F', b'G', 0]);
    assert_eq!(murmur::revhash_trim(h2) ^ murmur::prehash(&weird[..8], 15), tail2);
}

#[test]
fn masked_signatures_agree_for_valid_keys() {
    for s in [&b"hello world tes"[..], &b"  !~}ABCxyz0192"[..], &[0x20u8; 15][..]] {
        assert_eq!(s.len(), 15);
        let trim = murmur::revhash_trim(murmur::hash(s));
        let p = murmur::prehash(&s[..8], 15);
        assert_eq!(p & ASCII_HASH_MASK, trim & ASCII_HASH_MASK);
    }
}

#[test]
fn alphabet_bounds() {
    assert!(!AsciiIter::contains(31));
    assert!(AsciiIter::contains(32));
    assert!(AsciiIter::contains(91));
    assert!(!AsciiIter::contains(92));
    assert!(AsciiIter::contains(93));
    assert!(AsciiIter::contains(126));
    assert!(!AsciiIter::contains(127));
    assert!(!AsciiIter::contains(0));
    let count = (0u8..=255).filter(|&c| AsciiIter::contains(c)).count();
    assert_eq!(count, 94);
}
