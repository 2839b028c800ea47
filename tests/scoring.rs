use fasterdust::counts::{CountTable, FlatCounts, HashCounts};
use fasterdust::score::{longdust_score, LOG_BOUND};
use statrs::function::factorial::ln_factorial;

fn log_table(n: usize) -> Vec<u64> {
    (0..=n)
        .map(|i| if i == 0 { 0 } else { ((i as f64).ln() * 1e12).round() as u64 })
        .collect()
}

const T: u64 = 600_000_000_000;

fn incremental(kmers: &[u64], lns: &[u64], t: u64) -> i128 {
    let mut counts = std::collections::HashMap::new();
    let mut s: i128 = 0;
    for &x in kmers {
        let c = counts.entry(x).or_insert(0usize);
        *c += 1;
        s += lns[*c] as i128 - t as i128;
    }
    s
}

#[test]
fn score_from_counts_exact_value() {
    let lns = log_table(10);
    // counts {1: 3, 2: 1}: ln 3! + ln 1! - 4t
    let s = longdust_score(&[1, 1, 2, 1], T, &lns);
    assert_eq!(s, lns[1] as i128 + lns[2] as i128 + lns[3] as i128 + lns[1] as i128 - 4 * T as i128);
}

#[test]
fn score_of_empty_window_is_zero() {
    let lns = log_table(4);
    assert_eq!(longdust_score(&[], T, &lns), 0);
}

#[test]
fn score_from_counts_matches_incremental_in_any_order() {
    let lns = log_table(20);
    let a = [5u64, 7, 5, 9, 5, 7, 11, 5];
    let mut b = a;
    b.reverse();
    let c = [7u64, 5, 5, 11, 9, 5, 7, 5];
    let s = longdust_score(&a, T, &lns);
    assert_eq!(s, incremental(&a, &lns, T));
    assert_eq!(s, incremental(&b, &lns, T));
    assert_eq!(s, incremental(&c, &lns, T));
    assert_eq!(s, longdust_score(&c, T, &lns));
}

#[test]
fn score_agrees_with_ln_factorial() {
    let lns = log_table(10);
    let s = longdust_score(&[3, 3, 3, 3, 3, 3, 3], T, &lns);
    let expected = ln_factorial(7) - 0.6 * 7.0;
    let got = s as f64 / 1e12;
    assert!((got - expected).abs() <= 1e-9 * expected.abs().max(1.0));
}

#[test]
fn log_bound_covers_the_shipped_threshold() {
    assert!(T <= LOG_BOUND);
    assert!(log_table(5001).iter().all(|&v| v <= LOG_BOUND));
}

#[test]
fn flat_counts_bump_and_reset() {
    let mut f = FlatCounts::new(16);
    assert_eq!(f.bump(3), 0);
    assert_eq!(f.bump(3), 1);
    assert_eq!(f.bump(15), 0);
    f.reset();
    assert_eq!(f.bump(3), 0);
    assert_eq!(f.bump(15), 0);
}

#[test]
fn hash_counts_bump_and_reset() {
    let mut h = HashCounts::new();
    assert_eq!(h.bump(1 << 40), 0);
    assert_eq!(h.bump(1 << 40), 1);
    assert_eq!(h.count_of(1 << 40), 2);
    h.reset();
    assert_eq!(h.count_of(1 << 40), 0);
}

#[test]
fn count_table_strategy_by_k() {
    assert!(matches!(CountTable::for_k(7), CountTable::Flat(_)));
    assert!(matches!(CountTable::for_k(13), CountTable::Hashed(_)));
    let mut t = CountTable::for_k(7);
    assert_eq!(t.bump(16383), 0);
    assert_eq!(t.bump(16383), 1);
    t.reset();
    assert_eq!(t.bump(16383), 0);
}
