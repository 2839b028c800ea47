use fasterdust::lcr::{compare_lcr, merge_intervals, LCR};
use std::cmp::Ordering;

fn lcr(name: &str, start: usize, end: usize) -> LCR {
    LCR::new(name.to_string(), start, end)
}

fn triples(v: &[LCR]) -> Vec<(String, usize, usize)> {
    v.iter().map(|l| (l.get_name().to_string(), l.get_start(), l.get_end())).collect()
}

fn t(name: &str, s: usize, e: usize) -> (String, usize, usize) {
    (name.to_string(), s, e)
}

#[test]
fn merge_overlapping_and_separate() {
    let out = merge_intervals(vec![lcr("r", 0, 10), lcr("r", 5, 15), lcr("r", 20, 25)]);
    assert_eq!(triples(&out), vec![t("r", 0, 15), t("r", 20, 25)]);
}

#[test]
fn merge_shared_end_position() {
    let out = merge_intervals(vec![lcr("r", 0, 10), lcr("r", 10, 20)]);
    assert_eq!(triples(&out), vec![t("r", 0, 20)]);
}

#[test]
fn merge_keeps_adjacent_intervals_apart() {
    let out = merge_intervals(vec![lcr("r", 11, 20), lcr("r", 0, 10)]);
    assert_eq!(triples(&out), vec![t("r", 0, 10), t("r", 11, 20)]);
}

#[test]
fn merge_sorts_unsorted_input() {
    let out = merge_intervals(vec![lcr("r", 30, 40), lcr("r", 2, 3), lcr("r", 1, 5), lcr("r", 35, 50)]);
    assert_eq!(triples(&out), vec![t("r", 1, 5), t("r", 30, 50)]);
}

#[test]
fn merge_keeps_names_apart() {
    let out = merge_intervals(vec![lcr("b", 0, 10), lcr("a", 5, 15), lcr("b", 8, 12), lcr("a", 0, 3)]);
    assert_eq!(triples(&out), vec![t("a", 0, 3), t("a", 5, 15), t("b", 0, 12)]);
}

#[test]
fn merge_contained_interval() {
    let out = merge_intervals(vec![lcr("r", 0, 100), lcr("r", 10, 20)]);
    assert_eq!(triples(&out), vec![t("r", 0, 100)]);
}

#[test]
fn merge_empty_input() {
    assert!(merge_intervals(Vec::new()).is_empty());
}

#[test]
fn merge_twice_changes_nothing() {
    let once = merge_intervals(vec![
        lcr("r", 7, 9),
        lcr("r", 0, 4),
        lcr("q", 3, 3),
        lcr("r", 4, 6),
        lcr("r", 12, 13),
    ]);
    let first = triples(&once);
    let twice = merge_intervals(once);
    assert_eq!(triples(&twice), first);
    assert_eq!(first, vec![t("q", 3, 3), t("r", 0, 6), t("r", 7, 9), t("r", 12, 13)]);
}

#[test]
fn merged_output_is_sorted_and_apart() {
    let input: Vec<LCR> = (0..40).map(|i| lcr("s", (i * 37) % 101, (i * 37) % 101 + i % 4)).collect();
    let out = merge_intervals(input);
    for w in out.windows(2) {
        assert!(w[0].get_end() < w[1].get_start());
    }
}

#[test]
fn compare_orders_by_name_then_bounds() {
    assert_eq!(compare_lcr(&lcr("a", 9, 9), &lcr("b", 0, 0)), Ordering::Less);
    assert_eq!(compare_lcr(&lcr("ab", 0, 0), &lcr("a", 5, 5)), Ordering::Greater);
    assert_eq!(compare_lcr(&lcr("a", 1, 5), &lcr("a", 1, 3)), Ordering::Greater);
    assert_eq!(compare_lcr(&lcr("a", 1, 3), &lcr("a", 2, 3)), Ordering::Less);
    assert_eq!(compare_lcr(&lcr("a", 1, 3), &lcr("a", 1, 3)), Ordering::Equal);
}

#[test]
fn lcr_getters() {
    let l = lcr("chr2", 4, 8);
    assert_eq!(l.get_name(), "chr2");
    assert_eq!(l.get_start(), 4);
    assert_eq!(l.get_end(), 8);
}
