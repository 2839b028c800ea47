use fasterdust::counts::CountTable;
use fasterdust::dust::{fasterdust, is_good_window};
use fasterdust::fasta::Fasta;
use fasterdust::kmer::precompute_kmers;
use fasterdust::lcr::LCR;
use fasterdust::report::dust_record;
use fasterdust::score::longdust_score;

const T: u64 = 600_000_000_000;

fn log_table(n: usize) -> Vec<u64> {
    (0..=n)
        .map(|i| if i == 0 { 0 } else { ((i as f64).ln() * 1e12).round() as u64 })
        .collect()
}

fn record(name: &str, seq: &str) -> Fasta {
    Fasta::new(name.to_string(), seq.as_bytes().to_vec())
}

fn bounds(v: &[LCR]) -> Vec<(usize, usize)> {
    v.iter().map(|l| (l.get_start(), l.get_end())).collect()
}

fn run(seq: &str, k: usize, mw: usize) -> Vec<LCR> {
    let lns = log_table(mw + 1);
    dust_record(&record("r", seq), k, mw, T, &lns)
}

#[test]
fn periodic_record_scores_below_threshold() {
    let lns = log_table(13);
    let out = dust_record(&record("rec1", "ACGTACGTACGT"), 4, 12, T, &lns);
    assert!(out.is_empty());
}

#[test]
fn run_of_ten_a_is_one_interval() {
    let lns = log_table(11);
    let out = dust_record(&record("rec2", "AAAAAAAAAA"), 4, 10, T, &lns);
    assert_eq!(bounds(&out), vec![(0, 9)]);
    assert_eq!(out[0].get_name(), "rec2");
}

#[test]
fn long_repeat_is_one_interval() {
    let out = run(&"A".repeat(100), 7, 5000);
    assert_eq!(bounds(&out), vec![(0, 99)]);
}

#[test]
fn non_repeating_sequence_has_no_interval() {
    let out = run("ACGTTGCAAGCTTCAGGATC", 7, 5000);
    assert!(out.is_empty());
}

#[test]
fn two_separated_runs_give_two_intervals() {
    let seq = format!("{}{}{}", "AAAAAAAAAA", "CGT".repeat(5), "TTTTTTTTTT");
    let out = run(&seq, 7, 5000);
    assert_eq!(bounds(&out), vec![(0, 9), (24, 34)]);
}

#[test]
fn ambiguous_base_splits_a_run() {
    let out = run("AAAAAANAAAAAA", 7, 5000);
    assert!(out.is_empty());
}

#[test]
fn sequence_shorter_than_k_is_empty() {
    assert!(run("AAAAAA", 7, 5000).is_empty());
    assert!(run("", 7, 5000).is_empty());
}

#[test]
fn fully_ambiguous_sequence_is_empty() {
    assert!(run(&"N".repeat(50), 7, 5000).is_empty());
}

#[test]
fn intervals_never_hold_ambiguous_bases() {
    let seq = "acgtNNNNacgtacgtacgtacgtacgtacgt";
    let out = run(seq, 4, 100);
    assert_eq!(bounds(&out), vec![(8, 31)]);
    for l in &out {
        assert!(seq.as_bytes()[l.get_start()..=l.get_end()].iter().all(|b| b"ACGTacgt".contains(b)));
    }
}

#[test]
fn name_is_first_header_token() {
    let lns = log_table(11);
    let out = dust_record(&record("  chr1 some description", "AAAAAAAAAA"), 4, 10, T, &lns);
    assert_eq!(out[0].get_name(), "chr1");
}

#[test]
fn windows_come_in_emission_order() {
    let lns = log_table(11);
    let mut out = Vec::new();
    fasterdust(&record("w", "AAAAAAAAAA"), 4, 10, T, &lns, &mut out);
    // windows of at least four k-mers: for each end, shortest first
    let expected: Vec<(usize, usize)> = (6..10)
        .flat_map(|e| (0..=e - 6).rev().map(move |s| (s, e)))
        .collect();
    assert_eq!(bounds(&out), expected);
}

#[test]
fn max_window_limits_window_length() {
    let lns = log_table(8);
    let mut out = Vec::new();
    fasterdust(&record("w", "AAAAAAAAAA"), 4, 7, T, &lns, &mut out);
    assert_eq!(bounds(&out), vec![(0, 6), (1, 7), (2, 8), (3, 9)]);
}

#[test]
fn fasterdust_appends_to_existing_output() {
    let lns = log_table(11);
    let mut out = vec![LCR::new("x".to_string(), 1, 2)];
    fasterdust(&record("w", "AAAAAAAAAA"), 4, 10, T, &lns, &mut out);
    assert_eq!(out[0].get_name(), "x");
    assert_eq!(out.len(), 11);
}

#[test]
fn goodness_rejects_window_with_better_prefix() {
    let seq = b"AAAAAAAAAACGTCA";
    let kmers = precompute_kmers(seq, 4);
    let lns = log_table(20);
    let w: Vec<u64> = kmers[0..=11].iter().map(|c| c.unwrap()).collect();
    let s_total = longdust_score(&w, T, &lns);
    let mut scratch = CountTable::for_k(4);
    assert!(!is_good_window(&kmers, 0, 14, 4, T, &lns, s_total, &mut scratch));
    let w: Vec<u64> = kmers[0..=6].iter().map(|c| c.unwrap()).collect();
    let s_total = longdust_score(&w, T, &lns);
    assert!(is_good_window(&kmers, 0, 9, 4, T, &lns, s_total, &mut scratch));
}

#[test]
fn good_window_with_better_middle() {
    // A, C x10, A with k = 1: the whole window is good, yet its middle scores higher.
    let lns = log_table(13);
    let mut out = Vec::new();
    fasterdust(&record("m", "ACCCCCCCCCCA"), 1, 12, T, &lns, &mut out);
    assert!(bounds(&out).contains(&(0, 11)));
    let kmers: Vec<u64> = precompute_kmers(b"ACCCCCCCCCCA", 1).iter().map(|c| c.unwrap()).collect();
    assert!(longdust_score(&kmers[1..11], T, &lns) > longdust_score(&kmers, T, &lns));
}

#[test]
fn same_input_gives_same_intervals() {
    let seq = format!("{}{}{}", "GATTACA".repeat(6), "NNNN", "CCGCCGCCG".repeat(4));
    let a = run(&seq, 5, 60);
    let b = run(&seq, 5, 60);
    assert_eq!(bounds(&a), bounds(&b));
    assert!(!a.is_empty());
}

#[test]
fn large_k_uses_hashed_counts() {
    let seq = "AC".repeat(40);
    let out = run(&seq, 15, 80);
    assert_eq!(bounds(&out), vec![(0, 79)]);
}

#[test]
fn good_seq_checks_parts_against_given_score() {
    let lns = log_table(20);
    let w = b"AAAAAAAAAA";
    let kmers: Vec<u64> = precompute_kmers(w, 4).iter().take(7).map(|c| c.unwrap()).collect();
    let s = longdust_score(&kmers, T, &lns);
    assert!(fasterdust::dust::is_good_seq(w, s, 4, T, &lns));
    assert!(!fasterdust::dust::is_good_seq(w, s - 1_500_000_000_000, 4, T, &lns));
}

#[test]
fn good_seq_rejects_ambiguous_window() {
    let lns = log_table(20);
    assert!(!fasterdust::dust::is_good_seq(b"AAAANAAAA", 1_000_000_000_000_000, 4, T, &lns));
}

#[test]
fn good_seq_short_window_is_good() {
    let lns = log_table(20);
    assert!(fasterdust::dust::is_good_seq(b"ACG", 0, 4, T, &lns));
}

fn both(seq: &[u8], k: usize, mw: usize) -> (Vec<(usize, usize)>, Vec<(usize, usize)>) {
    let lns = log_table(mw + 1);
    let rec = Fasta::new("x".to_string(), seq.to_vec());
    let mut fast = Vec::new();
    fasterdust(&rec, k, mw, T, &lns, &mut fast);
    let mut slow = Vec::new();
    fasterdust::dust::slowdust(&rec, k, mw, T, &lns, &mut slow);
    let mut by_bases = Vec::new();
    fasterdust::dust::testdust(&rec, k, mw, T, &lns, &mut by_bases);
    assert_eq!(bounds(&fast), bounds(&by_bases));
    (bounds(&fast), bounds(&slow))
}

#[test]
fn brute_force_agrees_on_repeats() {
    let (fast, slow) = both(b"AAAAAAAAAACGTCGTCGTCGTCGTTTTTTTTTTT", 4, 30);
    assert_eq!(fast, slow);
    assert!(!fast.is_empty());
}

#[test]
fn brute_force_agrees_on_pseudo_random_sequences() {
    let mut state: u64 = 12345;
    for round in 0..6 {
        let mut seq = Vec::new();
        for _ in 0..48 {
            state = state.wrapping_mul(6364136223846793005).wrapping_add(1442695040888963407);
            let r = (state >> 33) % 9;
            seq.push(match r {
                0 | 1 => b'A',
                2 | 3 => b'C',
                4 => b'G',
                5 | 6 => b'T',
                7 => b'a',
                _ => if round % 2 == 0 { b'A' } else { b'N' },
            });
        }
        let (fast, slow) = both(&seq, 2 + round % 3, 24);
        assert_eq!(fast, slow);
    }
}
