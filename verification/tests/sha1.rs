use hex::ToHex;
use librypt_sha1::Sha1;

#[test]
fn test_sha1() {
    let hash = Sha1::hash(b"Hello, world!");

    assert_eq!(
        hash.encode_hex::<String>(),
        "943a702d06f34599aee1f8da8ef9f7296031d699"
    );
}

#[test]
fn empty_message_known_vector() {
    let hash = Sha1::hash(b"");
    assert_eq!(
        hash.encode_hex::<String>(),
        "da39a3ee5e6b4b0d3255bfef95601890afd80709"
    );
}

#[test]
fn empty_message_without_update() {
    let engine = Sha1::new();
    let hash = engine.finalize();
    assert_eq!(
        hash.encode_hex::<String>(),
        "da39a3ee5e6b4b0d3255bfef95601890afd80709"
    );
}

#[test]
fn abc_known_vector() {
    let hash = Sha1::hash(b"abc");
    assert_eq!(
        hash.encode_hex::<String>(),
        "a9993e364706816aba3e25717850c26c9cd0d89d"
    );
}

#[test]
fn quick_brown_fox_known_vector() {
    let hash = Sha1::hash(b"The quick brown fox jumps over the lazy dog");
    assert_eq!(
        hash.encode_hex::<String>(),
        "2fd4e1c67a2d28fced849ee1bb76e7391b93eb12"
    );
}

/// Lengths that straddle the padding-overflow boundary at fill 56 and the
/// block boundary at 64, each checked against the reference digest of that
/// many `a` bytes.
#[test]
fn boundary_lengths_known_vectors() {
    let cases: [(usize, &str); 9] = [
        (0, "da39a3ee5e6b4b0d3255bfef95601890afd80709"),
        (55, "c1c8bbdc22796e28c0e15163d20899b65621d65a"),
        (56, "c2db330f6083854c99d4b5bfb6e8f29f201be699"),
        (63, "03f09f5b158a7a8cdad920bddc29b81c18a551f5"),
        (64, "0098ba824b5c16427bd7a1122a5a442a25ec644d"),
        (65, "11655326c708d70319be2610e8a57d9a5b959d3b"),
        (119, "ee971065aaa017e0632a8ca6c77bb3bf8b1dfc56"),
        (120, "f34c1488385346a55709ba056ddd08280dd4c6d6"),
        (121, "fa6b5a6f8ac27182f838fe7841ec6d2aef3ade29"),
    ];
    for (len, expected) in cases {
        let data = vec![b'a'; len];
        let hash = Sha1::hash(&data);
        assert_eq!(hash.encode_hex::<String>(), *expected, "length {}", len);
    }
}

#[test]
fn incremental_chunks_match_one_shot() {
    let mut engine = Sha1::new();
    engine.update(b"Hel");
    engine.update(b"lo, wor");
    engine.update(b"");
    engine.update(b"ld!");
    let incremental = engine.finalize();
    assert_eq!(incremental, Sha1::hash(b"Hello, world!"));
}

#[test]
fn incremental_byte_by_byte_matches_one_shot() {
    let data: Vec<u8> = (0u16..200).map(|i| (i % 251) as u8).collect();
    let mut engine = Sha1::new();
    for byte in &data {
        engine.update(&[*byte]);
    }
    assert_eq!(engine.finalize(), Sha1::hash(&data));
}

#[test]
fn incremental_splits_at_block_boundaries() {
    let data = vec![0x5au8; 192];
    for split in [1, 55, 56, 63, 64, 65, 119, 128, 191] {
        let mut engine = Sha1::new();
        engine.update(&data[..split]);
        engine.update(&data[split..]);
        assert_eq!(engine.finalize(), Sha1::hash(&data), "split {}", split);
    }
}

#[test]
fn finalize_reset_returns_same_digest_as_finalize() {
    let mut engine = Sha1::new();
    engine.update(b"abc");
    let reset_digest = engine.finalize_reset();
    assert_eq!(reset_digest, Sha1::hash(b"abc"));
}

#[test]
fn finalize_reset_leaves_a_fresh_engine() {
    let mut engine = Sha1::new();
    engine.update(b"some earlier message");
    let _ = engine.finalize_reset();

    // The reused engine must behave bit-for-bit like a new one.
    engine.update(b"Hello, world!");
    let reused = engine.finalize_reset();
    assert_eq!(reused, Sha1::hash(b"Hello, world!"));

    // And again: the second reset also restores the initial state.
    let empty = engine.finalize_reset();
    assert_eq!(
        empty.encode_hex::<String>(),
        "da39a3ee5e6b4b0d3255bfef95601890afd80709"
    );
}

#[test]
fn same_message_same_digest() {
    let data = b"determinism check";
    let first = Sha1::hash(data);
    let second = Sha1::hash(data);
    assert_eq!(first, second);

    let mut engine_a = Sha1::new();
    engine_a.update(data);
    let mut engine_b = Sha1::new();
    engine_b.update(data);
    assert_eq!(engine_a.finalize(), engine_b.finalize());
}

#[test]
fn flipping_one_bit_changes_the_digest() {
    let data: Vec<u8> = (0u16..96).map(|i| i as u8).collect();
    let baseline = Sha1::hash(&data);
    for (byte_index, bit) in [(0usize, 0u8), (0, 7), (17, 3), (63, 6), (64, 1), (95, 5)] {
        let mut flipped = data.clone();
        flipped[byte_index] ^= 1 << bit;
        assert_ne!(
            Sha1::hash(&flipped),
            baseline,
            "byte {} bit {}",
            byte_index,
            bit
        );
    }
}
