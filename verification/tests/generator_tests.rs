use std::collections::HashSet;
use orderbook::generator::{quote_price, walk_mid, Generator, GeneratorConfig, OpKind};
use orderbook::ops::Op;
use orderbook::rng::{Rng, UNIT_SCALE};
use orderbook::types::Side;

fn op_id(op: &Op) -> u64 {
    match op {
        Op::Place { order_id, .. } => order_id.0,
        Op::Cancel { order_id, .. } => order_id.0,
    }
}

#[test]
fn same_seed_same_stream() {
    let mut a = Generator::new(GeneratorConfig::default(), 42);
    let mut b = Generator::new(GeneratorConfig::default(), 42);
    for _ in 0..1000 {
        let (oa, ka) = a.next_op(None, None);
        let (ob, kb) = b.next_op(None, None);
        assert_eq!(ka, kb);
        assert_eq!(op_id(&oa), op_id(&ob));
    }
}

#[test]
fn mid_stays_in_corridor() {
    let cfg = GeneratorConfig::default();
    let mut g = Generator::new(cfg, 7);
    let lo = cfg.start_mid - cfg.drift_clamp;
    let hi = cfg.start_mid + cfg.drift_clamp;
    for _ in 0..100_000 {
        g.next_op(None, None);
        assert!((lo..=hi).contains(&g.mid()), "mid left the corridor: {}", g.mid());
    }
}

#[test]
fn produces_all_three_kinds() {
    let mut g = Generator::new(GeneratorConfig::default(), 3);
    let mut passive = false;
    let mut aggressive = false;
    let mut cancel = false;
    for _ in 0..10_000 {
        match g.next_op(None, None).1 {
            OpKind::PassivePlace => passive = true,
            OpKind::AggressivePlace => aggressive = true,
            OpKind::Cancel => cancel = true,
        }
    }
    assert!(passive && aggressive && cancel, "all three kinds must occur");
}

// ---- further cases ----

#[test]
fn default_probabilities_are_the_scaled_fractions() {
    let cfg = GeneratorConfig::default();
    let scale = UNIT_SCALE as f64;
    for (t, p) in [
        (cfg.side_bias, 0.5f64),
        (cfg.aggressive_fraction, 0.35),
        (cfg.cancel_fraction, 0.15),
        (cfg.big_qty_fraction, 0.05),
    ] {
        assert_eq!(t, (p * scale).ceil() as u64);
    }
}

#[test]
fn scaled_chance_decides_as_the_float_comparison() {
    let cfg = GeneratorConfig::default();
    for (t, p) in [(cfg.cancel_fraction, 0.15f64), (cfg.aggressive_fraction, 0.35)] {
        let mut a = Rng::new(11);
        let mut b = Rng::new(11);
        for _ in 0..10_000 {
            let u = (b.next_u64() >> 11) as f64 / UNIT_SCALE as f64;
            assert_eq!(a.chance_scaled(t), u < p);
        }
    }
}

#[test]
fn first_op_of_a_fresh_generator_is_a_place_with_id_one() {
    let mut g = Generator::new(GeneratorConfig::default(), 42);
    let (op, kind) = g.next_op(None, None);
    assert!(kind != OpKind::Cancel);
    match op {
        Op::Place { order_id, subaccount, qty, price, .. } => {
            assert_eq!(order_id.0, 1);
            assert!((1..=4).contains(&subaccount.0));
            assert!(qty.raw() >= 1);
            assert!((price.raw() - g.mid()).abs() <= 8);
        }
        Op::Cancel { .. } => panic!("nothing to cancel yet"),
    }
    let (op2, _) = g.next_op(None, None);
    if let Op::Place { order_id, .. } = op2 {
        assert_eq!(order_id.0, 2);
    }
}

#[test]
fn leash_holds_the_mid_near_the_book() {
    let cfg = GeneratorConfig::default();
    let mut g = Generator::new(cfg, 5);
    for _ in 0..1000 {
        g.next_op(Some(9_800), Some(9_804));
        assert!((9_802 - cfg.leash..=9_802 + cfg.leash).contains(&g.mid()));
    }
}

#[test]
fn mid_walks_within_the_corridor() {
    // corridor 9_600..=10_400
    assert_eq!(walk_mid(10_000, 2, 10_000, 400, None, None, 12), 10_002);
    assert_eq!(walk_mid(10_399, 2, 10_000, 400, None, None, 12), 10_400);
    assert_eq!(walk_mid(9_601, -2, 10_000, 400, None, None, 12), 9_600);
}

#[test]
fn mid_is_leashed_to_the_book() {
    // book mid (9_950 + 9_953) / 2 = 9_951, leash 12: mid held in 9_939..=9_963
    assert_eq!(walk_mid(10_000, 0, 10_000, 400, Some(9_950), Some(9_953), 12), 9_963);
    assert_eq!(walk_mid(9_900, 0, 10_000, 400, Some(9_950), Some(9_953), 12), 9_939);
    // one side missing: no leash
    assert_eq!(walk_mid(10_000, 0, 10_000, 400, Some(9_950), None, 12), 10_000);
}

#[test]
fn quotes_sit_on_the_expected_side() {
    assert_eq!(quote_price(Side::Bid, 100, true, 3).raw(), 103);
    assert_eq!(quote_price(Side::Ask, 100, true, 3).raw(), 97);
    assert_eq!(quote_price(Side::Bid, 100, false, 5).raw(), 95);
    assert_eq!(quote_price(Side::Ask, 100, false, 5).raw(), 105);
    // never below one tick
    assert_eq!(quote_price(Side::Bid, 2, false, 8).raw(), 1);
}

#[test]
fn ids_count_places_and_cancels_take_pending_orders() {
    let mut g = Generator::new(GeneratorConfig::default(), 17);
    let mut places = 0u64;
    let mut pending: HashSet<(u64, u64)> = HashSet::new();
    for _ in 0..20_000 {
        let (op, kind) = g.next_op(None, None);
        match op {
            Op::Place { order_id, subaccount, stp, .. } => {
                places += 1;
                assert_eq!(order_id.0, places);
                assert!(stp == orderbook::types::SelfTradeMode::ExpireTaker);
                assert!(kind != OpKind::Cancel);
                if kind == OpKind::PassivePlace {
                    pending.insert((order_id.0, subaccount.0));
                }
            }
            Op::Cancel { order_id, subaccount } => {
                assert_eq!(kind, OpKind::Cancel);
                assert!(pending.remove(&(order_id.0, subaccount.0)));
            }
        }
    }
}
