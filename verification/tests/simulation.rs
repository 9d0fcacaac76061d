use engine_core::simulation::{draw_order, limit_price_at, SimOrder, SimOrderKind};
use engine_core::Side;
use rand::{Rng, SeedableRng};
use rand_chacha::ChaCha8Rng;

struct SimConfig {
    seed: u64,
    mid_price: u64,
    price_spread: u64,
    min_qty: u64,
    max_qty: u64,
    market_order_prob: f64,
    lambda_per_sec: f64,
}

struct SimEvent {
    dt_nanos: u64,
    order: SimOrder,
}

/// The generator as the application drives it: the time step, side and
/// kind are drawn with floating point, the rest by the library.
struct Simulator {
    rng: ChaCha8Rng,
    config: SimConfig,
}

impl Simulator {
    fn new(config: SimConfig) -> Self {
        let rng = ChaCha8Rng::seed_from_u64(config.seed);
        Self { rng, config }
    }

    fn next(&mut self) -> SimEvent {
        let u: f64 = self.rng.gen_range(f64::MIN_POSITIVE..1.0);
        let dt_nanos = (-u.ln() / self.config.lambda_per_sec * 1e9) as u64;
        let side = if self.rng.gen_bool(0.5) { Side::Buy } else { Side::Sell };
        let is_market = self.rng.gen_bool(self.config.market_order_prob);
        let order = draw_order(
            &mut self.rng,
            side,
            is_market,
            self.config.mid_price,
            self.config.price_spread,
            self.config.min_qty,
            self.config.max_qty,
        );
        SimEvent { dt_nanos, order }
    }
}

fn test_config(seed: u64) -> SimConfig {
    SimConfig {
        seed,
        mid_price: 100,
        price_spread: 10,
        min_qty: 1,
        max_qty: 100,
        market_order_prob: 0.1,
        lambda_per_sec: 1000.0,
    }
}

#[test]
fn same_seed_produces_same_sequence() {
    let mut a = Simulator::new(test_config(42));
    let mut b = Simulator::new(test_config(42));

    for _ in 0..1000 {
        let ea = a.next();
        let eb = b.next();

        assert_eq!(ea.dt_nanos, eb.dt_nanos);
        assert_eq!(ea.order.side, eb.order.side);
        assert_eq!(ea.order.qty, eb.order.qty);

        match (&ea.order.kind, &eb.order.kind) {
            (SimOrderKind::Market, SimOrderKind::Market) => {}
            (SimOrderKind::Limit { price: p1 }, SimOrderKind::Limit { price: p2 }) => {
                assert_eq!(p1, p2);
            }
            _ => panic!("order kinds diverged between identical seeds"),
        }
    }
}

#[test]
fn different_seeds_diverge() {
    let mut a = Simulator::new(test_config(1));
    let mut b = Simulator::new(test_config(2));

    let mut diffs = 0;
    for _ in 0..100 {
        if a.next().dt_nanos != b.next().dt_nanos {
            diffs += 1;
        }
    }

    assert!(diffs > 50, "expected >50/100 dt_nanos to differ, got {diffs}");
}

#[test]
fn market_order_probability_approximately_matches_config() {
    let mut sim = Simulator::new(test_config(7));
    let n = 10_000;

    let markets = (0..n)
        .filter(|_| matches!(sim.next().order.kind, SimOrderKind::Market))
        .count();

    let observed = markets as f64 / n as f64;
    let expected = 0.1;

    assert!(
        (observed - expected).abs() < 0.02,
        "observed market ratio {observed}, expected ~{expected}"
    );
}

#[test]
fn dt_mean_approximately_matches_lambda() {
    let mut sim = Simulator::new(test_config(11));
    let n = 10_000u64;

    let sum: u128 = (0..n).map(|_| sim.next().dt_nanos as u128).sum();
    let mean_secs = (sum as f64 / n as f64) / 1e9;
    let expected = 1.0 / 1000.0;

    let rel_err = (mean_secs - expected).abs() / expected;
    assert!(
        rel_err < 0.05,
        "mean dt {mean_secs}s, expected ~{expected}s (rel_err {rel_err})"
    );
}

#[test]
fn limit_prices_stay_within_spread() {
    let mut cfg = test_config(13);
    cfg.market_order_prob = 0.0;
    let mid = cfg.mid_price;
    let spread = cfg.price_spread;

    let mut sim = Simulator::new(cfg);

    for _ in 0..1000 {
        let ev = sim.next();
        match ev.order.kind {
            SimOrderKind::Limit { price } => {
                assert!(
                    price >= mid - spread && price <= mid + spread,
                    "price {price} outside [{}, {}]",
                    mid - spread,
                    mid + spread
                );
            }
            SimOrderKind::Market => panic!("market_order_prob=0 should never emit Market"),
        }
    }
}

#[test]
fn quantities_stay_within_bounds() {
    let mut rng = ChaCha8Rng::seed_from_u64(5);
    for _ in 0..1000 {
        let o = draw_order(&mut rng, Side::Sell, false, 100, 10, 3, 7);
        assert!(o.qty >= 3 && o.qty <= 7);
        assert_eq!(o.side, Side::Sell);
    }
}

#[test]
fn market_draw_has_no_price() {
    let mut rng = ChaCha8Rng::seed_from_u64(9);
    let o = draw_order(&mut rng, Side::Buy, true, 100, 10, 4, 4);
    assert_eq!(o, SimOrder { side: Side::Buy, kind: SimOrderKind::Market, qty: 4 });
}

#[test]
fn prices_near_zero_are_clamped_to_one() {
    let mut rng = ChaCha8Rng::seed_from_u64(3);
    let mut saw_one = false;
    for _ in 0..1000 {
        match draw_order(&mut rng, Side::Buy, false, 2, 5, 1, 1).kind {
            SimOrderKind::Limit { price } => {
                assert!(price >= 1 && price <= 7);
                saw_one |= price == 1;
            }
            SimOrderKind::Market => panic!("limit expected"),
        }
    }
    assert!(saw_one);
}

#[test]
fn limit_price_at_offsets_and_clamps() {
    assert_eq!(limit_price_at(100, -10), 90);
    assert_eq!(limit_price_at(100, 10), 110);
    assert_eq!(limit_price_at(3, -3), 1);
    assert_eq!(limit_price_at(3, -9), 1);
    assert_eq!(limit_price_at(0, 1), 1);
}

#[test]
fn draws_cover_the_whole_range() {
    let mut rng = ChaCha8Rng::seed_from_u64(21);
    let mut qtys = std::collections::BTreeSet::new();
    let mut prices = std::collections::BTreeSet::new();
    for _ in 0..2000 {
        let o = draw_order(&mut rng, Side::Buy, false, 100, 2, 1, 3);
        qtys.insert(o.qty);
        if let SimOrderKind::Limit { price } = o.kind {
            prices.insert(price);
        }
    }
    assert_eq!(qtys.into_iter().collect::<Vec<_>>(), vec![1, 2, 3]);
    assert_eq!(prices.into_iter().collect::<Vec<_>>(), vec![98, 99, 100, 101, 102]);
}
