use echofront::rng::{mix64, Rng};

#[test]
fn deterministic_stream() {
    let mut a = Rng::new(12345);
    let mut b = Rng::new(12345);
    for _ in 0..1000 {
        assert_eq!(a.next_u64(), b.next_u64());
    }
}

#[test]
fn below_is_bounded() {
    let mut r = Rng::new(1);
    for _ in 0..10_000 {
        assert!(r.below(7) < 7);
    }
}

#[test]
fn unit_in_range() {
    let mut r = Rng::new(9);
    for _ in 0..10_000 {
        let u = r.unit_numerator() as f64 / (1u64 << 53) as f64;
        assert!((0.0..1.0).contains(&u));
    }
}

#[test]
fn splitmix_known_values() {
    // The published SplitMix64 stream from seed zero.
    let mut r = Rng::new(0);
    assert_eq!(r.next_u64(), 0xe220_a839_7b1d_cdaf);
    assert_eq!(r.next_u64(), 0x6e78_9e6a_a1b9_65f4);
    assert_eq!(mix64(0), 0);
}

#[test]
fn index_is_in_range_and_clone_repeats() {
    let mut r = Rng::new(77);
    let mut copy = r.clone();
    for _ in 0..100 {
        let i = r.index(5);
        assert!(i < 5);
        assert_eq!(i, copy.index(5));
    }
}
