use fasterdust::dispatch::{backlog_full, DustArgs, DEFAULT_K, DEFAULT_MAX_WINDOW, DEFAULT_THRESHOLD};
use fasterdust::fasta::{record_name, Fasta, FastaError, FastaReader};
use fasterdust::lcr::LCR;
use fasterdust::report::{push_tsv_line, record_report};

fn log_table(n: usize) -> Vec<u64> {
    (0..=n)
        .map(|i| if i == 0 { 0 } else { ((i as f64).ln() * 1e12).round() as u64 })
        .collect()
}

#[test]
fn record_name_takes_first_token() {
    assert_eq!(record_name("chr1 Homo sapiens"), "chr1");
    assert_eq!(record_name("\t seq_7\tx"), "seq_7");
    assert_eq!(record_name("plain"), "plain");
    assert_eq!(record_name("   "), "");
    assert_eq!(record_name("a\u{3000}b"), "a");
}

#[test]
fn reader_splits_records() {
    let mut r = FastaReader::new();
    assert!(matches!(r.push_line(">one first"), Ok(None)));
    assert!(matches!(r.push_line("ACGT"), Ok(None)));
    assert!(matches!(r.push_line("  AC GT\r"), Ok(None)));
    let first = r.push_line(">two").unwrap().unwrap();
    assert_eq!(first.get_name(), "one first");
    assert_eq!(first.get_sequence(), b"ACGTACGT");
    assert!(matches!(r.push_line("NNNN"), Ok(None)));
    let second = r.finish().unwrap();
    assert_eq!(second.get_name(), "two");
    assert_eq!(second.get_sequence(), b"NNNN");
}

#[test]
fn reader_rejects_sequence_before_header() {
    let mut r = FastaReader::new();
    assert!(matches!(r.push_line(""), Ok(None)));
    assert!(matches!(r.push_line("   "), Ok(None)));
    assert!(matches!(r.push_line("ACGT"), Err(FastaError::MissingHeader)));
    assert!(r.finish().is_none());
}

#[test]
fn reader_keeps_empty_record() {
    let mut r = FastaReader::new();
    assert!(matches!(r.push_line(">empty"), Ok(None)));
    let e = r.push_line(">next").unwrap().unwrap();
    assert_eq!(e.get_name(), "empty");
    assert!(e.get_sequence().is_empty());
}

#[test]
fn tsv_line_holds_the_bases() {
    let mut out = Vec::new();
    push_tsv_line(&mut out, &LCR::new("rec".to_string(), 2, 12), b"GGAAAAAAAAAAACC");
    assert_eq!(out, b"rec\t2\t12\tAAAAAAAAAAA\n".to_vec());
}

#[test]
fn report_of_a_run() {
    let lns = log_table(11);
    let rec = Fasta::new("rec2 x".to_string(), b"AAAAAAAAAA".to_vec());
    assert_eq!(record_report(&rec, 4, 10, DEFAULT_THRESHOLD, &lns), b"rec2\t0\t9\tAAAAAAAAAA\n".to_vec());
}

#[test]
fn report_with_shipped_parameters() {
    let lns = log_table(DEFAULT_MAX_WINDOW + 1);
    let seq = format!("{}{}{}", "G".repeat(12), "NNN", "acgtgca");
    let rec = Fasta::new("r".to_string(), seq.into_bytes());
    let block = record_report(&rec, DEFAULT_K, DEFAULT_MAX_WINDOW, DEFAULT_THRESHOLD, &lns);
    assert_eq!(block, b"r\t0\t11\tGGGGGGGGGGGG\n".to_vec());
}

#[test]
fn pool_size_needs_a_worker() {
    let args = DustArgs { input_file: "in.fa".to_string(), output_file: "out.tsv".to_string(), threads: 0 };
    assert_eq!(args.pool_size(), None);
    let args = DustArgs { threads: 3, ..args };
    assert_eq!(args.pool_size(), Some(3));
}

#[test]
fn backlog_bound_is_four_per_worker() {
    assert!(!backlog_full(7, 2));
    assert!(backlog_full(8, 2));
    assert!(backlog_full(0, 0));
    assert!(!backlog_full(usize::MAX, usize::MAX));
}
