use stego::sampler::create_sequence;

#[test]
fn prefix_consistency() {
    let seed = [7u8; 32];
    let long = create_sequence(seed, 40, 64);
    for l1 in [0usize, 1, 10, 32, 39, 40] {
        let short = create_sequence(seed, l1, 64);
        assert_eq!(short[..], long[..l1]);
    }
}

#[test]
fn prefix_consistency_across_domains() {
    // The prefix property holds per domain; sequences over different
    // domains are unrelated, so check the property for several domains.
    for d in [33usize, 64, 100, 1000] {
        let seed = [0x42u8; 32];
        let long = create_sequence(seed, 33, d);
        let short = create_sequence(seed, 20, d);
        assert_eq!(short[..], long[..20]);
    }
}

#[test]
fn indices_unique_and_bounded() {
    let seed = [1u8; 32];
    let sample = create_sequence(seed, 40, 64);
    assert_eq!(sample.len(), 40);
    for (i, a) in sample.iter().enumerate() {
        assert!(*a < 64);
        for b in &sample[i + 1..] {
            assert_ne!(a, b);
        }
    }
}

#[test]
fn full_domain_sample_is_permutation() {
    let seed = [9u8; 32];
    let mut sample = create_sequence(seed, 64, 64);
    sample.sort();
    let identity: Vec<usize> = (0..64).collect();
    assert_eq!(sample, identity);
}

#[test]
fn sample_is_not_the_identity() {
    // A degenerate sampler that ignored the generator and echoed the
    // identity would pass the uniqueness checks; a ChaCha-driven shuffle
    // over a domain this large never leaves all of the first 16 slots in
    // place.
    let seed = [3u8; 32];
    let sample = create_sequence(seed, 16, 1 << 16);
    let identity: Vec<usize> = (0..16).collect();
    assert_ne!(sample, identity);
}

#[test]
fn different_seeds_diverge() {
    let a = create_sequence([0u8; 32], 16, 1 << 16);
    let b = create_sequence([1u8; 32], 16, 1 << 16);
    assert_ne!(a, b);
}
