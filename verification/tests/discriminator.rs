use dictawav::discriminator::Discriminator;
use dictawav::ConfigurationError;

fn identity(n: usize) -> Vec<usize> {
    (0..n).collect()
}

#[test]
fn one_ram_covers_the_whole_retina() {
    // Four kernels, one RAM of four bits: the retina [f, f, f, t] packs the
    // little-endian address 8 (bit 3 set).
    let mut disc = Discriminator::new(4, 4, identity(4), true).unwrap();
    let retina = vec![false, false, false, true];
    assert!(disc.train(&retina).is_ok());
    let votes = disc.classify(&retina).unwrap();
    assert_eq!(votes, vec![1]);
    let other = vec![true, false, false, false];
    let other_votes = disc.classify(&other).unwrap();
    assert_eq!(other_votes, vec![0]);
}

#[test]
fn last_chunk_is_narrower_when_sizes_do_not_divide() {
    // A retina of 10 bits over 4-bit RAMs: chunks [0,4), [4,8), [8,10).
    let mut disc = Discriminator::new(10, 4, identity(10), true).unwrap();
    let mut retina = vec![false; 10];
    retina[8] = true;
    assert!(disc.train(&retina).is_ok());
    let votes = disc.classify(&retina).unwrap();
    assert_eq!(votes.len(), 3);
    assert_eq!(votes, vec![1, 1, 1]);
    // A retina differing only inside the last chunk leaves the other
    // chunks' addresses alone.
    let mut probe = vec![false; 10];
    probe[9] = true;
    let probe_votes = disc.classify(&probe).unwrap();
    assert_eq!(probe_votes, vec![1, 1, 0]);
}

#[test]
fn train_then_forget_restores_every_counter() {
    let mut disc = Discriminator::new(8, 3, identity(8), true).unwrap();
    let background = vec![true, false, true, true, false, false, true, false];
    let retina = vec![true, true, false, false, true, false, false, true];
    assert!(disc.train(&background).is_ok());
    assert!(disc.train(&background).is_ok());
    let before_background = disc.classify(&background).unwrap();
    let before_retina = disc.classify(&retina).unwrap();
    assert!(disc.train(&retina).is_ok());
    assert!(disc.forget(&retina).is_ok());
    assert_eq!(disc.classify(&background).unwrap(), before_background);
    assert_eq!(disc.classify(&retina).unwrap(), before_retina);
}

#[test]
fn retina_of_the_wrong_length_is_rejected() {
    let mut disc = Discriminator::new(4, 2, identity(4), false).unwrap();
    let short = vec![true, false];
    assert_eq!(disc.train(&short), Err(ConfigurationError::RetinaLengthMismatch));
    assert_eq!(disc.forget(&short), Err(ConfigurationError::RetinaLengthMismatch));
    assert!(disc.classify(&short).is_err());
}

#[test]
fn num_bits_outside_the_range_is_rejected() {
    assert_eq!(
        Discriminator::new(4, 0, identity(4), true).err(),
        Some(ConfigurationError::NumBitsOutOfRange)
    );
    assert_eq!(
        Discriminator::new(4, 63, identity(4), true).err(),
        Some(ConfigurationError::NumBitsOutOfRange)
    );
}

#[test]
fn votes_above_threshold_never_increase_with_the_threshold() {
    let mut disc = Discriminator::new(6, 2, identity(6), true).unwrap();
    let retina = vec![true, false, true, true, false, true];
    let other = vec![true, false, false, true, false, true];
    for _ in 0..3 {
        assert!(disc.train(&retina).is_ok());
    }
    assert!(disc.train(&other).is_ok());
    let counts = disc.classify(&retina).unwrap();
    let votes_at = |threshold: u64| counts.iter().filter(|&&c| c > threshold).count();
    for t1 in 0..5u64 {
        for t2 in (t1 + 1)..6u64 {
            assert!(votes_at(t2) <= votes_at(t1));
        }
    }
}
