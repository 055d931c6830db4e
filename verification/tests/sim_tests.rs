use orderbook::generator::Generator;
use orderbook::orderbook::OrderBook;
use orderbook::sim::{SimConfig, SimStats};
use orderbook::types::Price;

#[test]
fn book_tracks_latent_price_tight_spread() {
    // Without the leash the book lagged the latent mid by hundreds of ticks
    // and the spread grew to about 335; with it the book stays tight.
    let cfg = SimConfig::default();
    let reference = Price::new(cfg.gen_cfg.start_mid).unwrap();
    let mut book = OrderBook::new(reference, cfg.capacity);
    let mut g = Generator::new(cfg.gen_cfg, cfg.seed);
    let mut events = Vec::new();

    let mut warm = 0; // warm-up until both sides appear
    let mut spread_sum = 0i64;
    let mut spread_max = 0i64;
    let mut samples = 0i64;

    for _ in 0..80_000 {
        let bb = book.best_bid().map(|p| p.raw());
        let ba = book.best_ask().map(|p| p.raw());
        let (op, _) = g.next_op(bb, ba);
        events.clear();
        book.apply(op, &mut events);

        if let (Some(b), Some(a)) = (book.best_bid(), book.best_ask()) {
            warm += 1;
            if warm > 2_000 {
                let s = a.raw() - b.raw();
                spread_sum += s;
                spread_max = spread_max.max(s);
                samples += 1;
            }
        }
    }

    let avg = spread_sum as f64 / samples as f64;
    assert!(avg < 15.0, "the average spread must stay tight, got {avg:.1}");
    assert!(spread_max < 80, "the largest spread must not blow up, got {spread_max}");

    // and the book lags the latent mid by no more than the leash plus the depth
    let book_mid = {
        let b = book.best_bid().unwrap().raw();
        let a = book.best_ask().unwrap().raw();
        (a + b) / 2
    };
    let lag = (book_mid - g.mid()).abs();
    assert!(
        lag < cfg.gen_cfg.leash + cfg.gen_cfg.passive_depth + 5,
        "the book lags by {lag}"
    );
}

#[test]
fn default_sim_config() {
    let cfg = SimConfig::default();
    assert_eq!(cfg.seed, 0xC0FFEE);
    assert_eq!(cfg.steps, 1_000_000);
    assert_eq!(cfg.capacity, 100_000);
    assert_eq!(cfg.gen_cfg.start_mid, 10_000);
}

#[test]
fn default_flow_stays_on_the_ladder() {
    // The default corridor fits the ladder: no order is refused for its
    // price over a long run, and the counts add up.
    let cfg = SimConfig::default();
    let reference = Price::new(cfg.gen_cfg.start_mid).unwrap();
    let mut book = OrderBook::new(reference, cfg.capacity);
    let mut g = Generator::new(cfg.gen_cfg, cfg.seed);
    let mut stats = SimStats::default();
    let mut events = Vec::new();
    let mut trades_seen = 0u64;
    for _ in 0..50_000 {
        let bb = book.best_bid().map(|p| p.raw());
        let ba = book.best_ask().map(|p| p.raw());
        let (op, _) = g.next_op(bb, ba);
        events.clear();
        book.apply(op, &mut events);
        let (step_trades, _) = stats.record(&events);
        trades_seen += step_trades;
    }
    assert_eq!(stats.rejected_out_of_range, 0);
    assert!(stats.trades > 0);
    assert_eq!(stats.trades, trades_seen);
    assert!(stats.accepted > 0);
}
