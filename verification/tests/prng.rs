use rand_verifier::fuzz::prng::SplitMix64;


#[test]
fn splitmix64_deterministic() {
    let mut a = SplitMix64::new(7);
    let mut b = SplitMix64::new(7);
    for _ in 0..1000 {
        assert_eq!(a.next(), b.next());
    }
}

#[test]
fn splitmix64_differs_for_different_seeds() {
    let mut a = SplitMix64::new(1);
    let mut b = SplitMix64::new(2);
    let mut any_diff = false;
    for _ in 0..64 {
        if a.next() != b.next() {
            any_diff = true;
            break;
        }
    }
    assert!(any_diff, "different seeds produced identical streams");
}

#[test]
fn below_stays_in_range() {
    let mut rng = SplitMix64::new(99);
    for _ in 0..10_000 {
        let v = rng.below(17);
        assert!(v < 17);
    }
}

/// The first outputs at seed 0 and how the state moves.
#[test]
fn splitmix64_known_values() {
    let mut rng = SplitMix64::new(0);
    assert_eq!(rng.next(), 0xE220_A839_7B1D_CDAF);
    assert_eq!(rng.next(), 0x6E78_9E6A_A1B9_65F4);
    let mut rng = SplitMix64::new(0);
    assert_eq!(rng.below(10), 0xE220_A839_7B1D_CDAFu64 % 10);
    let mut rng = SplitMix64::new(0);
    let pool = [1u8, 2, 3];
    assert_eq!(*rng.pick(&pool), pool[(0xE220_A839_7B1D_CDAFu64 % 3) as usize]);
}
