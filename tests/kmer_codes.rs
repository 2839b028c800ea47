use fasterdust::kmer::{base2, decode_kmer, precompute_kmers};

#[test]
fn base2_maps_each_nucleotide_in_either_case() {
    assert_eq!(base2(b'A'), Some(0));
    assert_eq!(base2(b'c'), Some(1));
    assert_eq!(base2(b'G'), Some(2));
    assert_eq!(base2(b't'), Some(3));
    assert_eq!(base2(b'N'), None);
    assert_eq!(base2(b'-'), None);
}

#[test]
fn precompute_gives_rolling_codes() {
    // AC = 0*4+1, CG = 1*4+2, GT = 2*4+3
    let codes = precompute_kmers(b"ACGT", 2);
    assert_eq!(codes, vec![Some(1), Some(6), Some(11), None]);
}

#[test]
fn precompute_leftmost_base_is_high_order() {
    let codes = precompute_kmers(b"TAAA", 4);
    assert_eq!(codes[0], Some(3 * 64));
}

#[test]
fn precompute_breaks_runs_at_ambiguous_bases() {
    let codes = precompute_kmers(b"ACGNACG", 3);
    assert_eq!(codes, vec![Some(6), None, None, None, Some(6), None, None]);
}

#[test]
fn precompute_is_case_insensitive() {
    assert_eq!(precompute_kmers(b"acgtac", 3), precompute_kmers(b"ACGTAC", 3));
}

#[test]
fn precompute_short_sequence_has_no_kmer() {
    assert_eq!(precompute_kmers(b"ACG", 4), vec![None, None, None]);
}

#[test]
fn precompute_handles_longest_k() {
    let seq = vec![b'T'; 33];
    let codes = precompute_kmers(&seq, 31);
    let all_t = (1u64 << 62) - 1;
    assert_eq!(codes[0], Some(all_t));
    assert_eq!(codes[2], Some(all_t));
    assert_eq!(codes[3], None);
}

#[test]
fn decode_then_encode_round_trip() {
    let s = b"acgTTGCAagct";
    let code = precompute_kmers(s, s.len())[0].unwrap();
    assert_eq!(decode_kmer(code, s.len()), b"ACGTTGCAAGCT".to_vec());
}

#[test]
fn decode_each_code_of_a_sequence() {
    let seq = b"GATTACAGATTACA";
    let codes = precompute_kmers(seq, 5);
    for s in 0..=seq.len() - 5 {
        assert_eq!(decode_kmer(codes[s].unwrap(), 5), seq[s..s + 5].to_vec());
    }
}
