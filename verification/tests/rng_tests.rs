use orderbook::rng::Rng;

#[test]
fn same_seed_same_sequence() {
    let mut a = Rng::new(42);
    let mut b = Rng::new(42);
    for _ in 0..1000 {
        assert_eq!(a.next_u64(), b.next_u64());
    }
}

#[test]
fn different_seed_diverges() {
    let mut a = Rng::new(1);
    let mut b = Rng::new(2);
    assert_ne!(a.next_u64(), b.next_u64());
}

#[test]
fn range_respects_bounds() {
    let mut r = Rng::new(123);
    for _ in 0..10_000 {
        let v = r.range(-5, 5);
        assert!((-5..=5).contains(&v));
    }
}

// ---- further cases ----

#[test]
fn splitmix_reference_value() {
    // SplitMix64 from state 0 gives 0xE220A8397B1DCDAF as its first output;
    // `Rng::new` mixes the seed with the same increment, so seed
    // 0x9E3779B97F4A7C15 starts from state 0.
    let mut r = Rng::new(0x9E37_79B9_7F4A_7C15);
    assert_eq!(r.next_u64(), 0xE220_A839_7B1D_CDAF);
}

#[test]
fn range_of_one_value() {
    let mut r = Rng::new(5);
    for _ in 0..100 {
        assert_eq!(r.range(7, 7), 7);
    }
}

#[test]
fn below_stays_below() {
    let mut r = Rng::new(9);
    for _ in 0..10_000 {
        assert!(r.below(3) < 3);
    }
    assert_eq!(r.below(1), 0);
}

#[test]
fn range_is_offset_of_raw_value() {
    let mut a = Rng::new(77);
    let mut b = Rng::new(77);
    let raw = a.next_u64();
    assert_eq!(b.range(10, 19), 10 + (raw % 10) as i64);
}

#[test]
fn kth_draw_in_closed_form() {
    const G: u64 = 0x9E37_79B9_7F4A_7C15;
    let seed = 12_345u64;
    let mut r = Rng::new(seed);
    for k in 1..=500u64 {
        let s = (seed ^ G).wrapping_add(k.wrapping_mul(G));
        let z1 = (s ^ (s >> 30)).wrapping_mul(0xBF58_476D_1CE4_E5B9);
        let z2 = (z1 ^ (z1 >> 27)).wrapping_mul(0x94D0_49BB_1331_11EB);
        assert_eq!(r.next_u64(), z2 ^ (z2 >> 31));
    }
}
