use packet_match_fuzz::fuzz::{apply_mutation, Fuzzer, MutationStrategy};

#[test]
fn generates_requested_count() {
    let f = Fuzzer::new(b"AAAA");
    let payloads = f.generate(10);
    assert_eq!(payloads.len(), 10);
}

#[test]
fn mutations_change_payload() {
    let seed = b"HELLO WORLD";
    let f = Fuzzer::new(seed).with_mutations_per_round(5);
    let payloads = f.generate(20);
    // At least some payloads should differ from the seed
    let differs = payloads.iter().filter(|p| p.as_slice() != seed).count();
    assert!(differs > 0, "expected at least one mutated payload");
}

#[test]
fn single_strategy() {
    let f = Fuzzer::new(b"\x00\x00\x00\x00")
        .with_strategies(&[MutationStrategy::BitFlip])
        .with_mutations_per_round(1);
    let payloads = f.generate(5);
    // All payloads should still be 4 bytes (bit-flip doesn't change length)
    for p in &payloads {
        assert_eq!(p.len(), 4);
    }
}

#[test]
fn empty_seed() {
    let f = Fuzzer::new(b"");
    let payloads = f.generate(5);
    // Should not panic; payloads will have some bytes from inserts
    assert_eq!(payloads.len(), 5);
}

#[test]
fn all_lists_every_strategy() {
    let all = MutationStrategy::all();
    assert_eq!(
        all,
        vec![
            MutationStrategy::BitFlip,
            MutationStrategy::ByteReplace,
            MutationStrategy::ByteInsert,
            MutationStrategy::ByteDelete,
            MutationStrategy::ChunkShuffle,
        ]
    );
}

#[test]
fn replace_and_shuffle_preserve_length() {
    let f = Fuzzer::new(b"abcdef")
        .with_strategies(&[MutationStrategy::ByteReplace, MutationStrategy::ChunkShuffle])
        .with_mutations_per_round(7);
    for p in f.generate(25) {
        assert_eq!(p.len(), 6);
    }
}

#[test]
fn insert_and_delete_bound_length_change() {
    let f = Fuzzer::new(b"abcd")
        .with_strategies(&[MutationStrategy::ByteInsert, MutationStrategy::ByteDelete])
        .with_mutations_per_round(3);
    for p in f.generate(25) {
        assert!(p.len() <= 7);
        assert!(p.len() + 3 >= 4);
    }
}

#[test]
fn zero_mutations_is_raised_to_one() {
    let f = Fuzzer::new(b"zz")
        .with_strategies(&[MutationStrategy::ByteDelete])
        .with_mutations_per_round(0);
    // One deletion always happens, so every variant is one byte long.
    for p in f.generate(10) {
        assert_eq!(p.len(), 1);
    }
}

#[test]
fn apply_bit_flip_toggles_one_bit() {
    let mut data = vec![0b0000_0000u8, 0b1111_1111];
    apply_mutation(&mut data, MutationStrategy::BitFlip, 0, 0, 0b0000_0100);
    assert_eq!(data, vec![0b0000_0100, 0b1111_1111]);
}

#[test]
fn apply_replace_insert_delete_swap() {
    let mut data = vec![1u8, 2, 3];
    apply_mutation(&mut data, MutationStrategy::ByteReplace, 1, 0, 9);
    assert_eq!(data, vec![1, 9, 3]);
    apply_mutation(&mut data, MutationStrategy::ByteInsert, 3, 0, 7);
    assert_eq!(data, vec![1, 9, 3, 7]);
    apply_mutation(&mut data, MutationStrategy::ByteDelete, 0, 0, 0);
    assert_eq!(data, vec![9, 3, 7]);
    apply_mutation(&mut data, MutationStrategy::ChunkShuffle, 0, 2, 0);
    assert_eq!(data, vec![7, 3, 9]);
    apply_mutation(&mut data, MutationStrategy::ChunkShuffle, 1, 1, 0);
    assert_eq!(data, vec![7, 3, 9]);
}
