//! The per-record report: merged intervals as tab-separated lines.
use crate::dust::{fasterdust, kmer_codes, lists_reported, reported, search_ok};
use crate::fasta::{first_token, Fasta};
use crate::kmer::{all_acgt, is_acgt};
use crate::lcr::{
    covers, covers_one, has_span, lemma_merge_unique, merge_intervals, merge_result, name_key,
    same_span, same_spans, LCR,
};
use vstd::prelude::*;

verus! {

/// Decimal digits of `n`, most significant first.
pub open spec fn decimal(n: nat) -> Seq<u8>
    decreases n,
{
    if n < 10 {
        seq![(48 + n) as u8]
    } else {
        decimal(n / 10).push((48 + n % 10) as u8)
    }
}

/// The line of one interval: name, start, end and its bases, tab-separated.
pub open spec fn tsv_line(l: LCR, bases: Seq<u8>) -> Seq<u8> {
    name_key(l) + seq![9u8] + decimal(l.start as nat) + seq![9u8] + decimal(l.end as nat) + seq![
        9u8,
    ] + bases.subrange(l.start as int, l.end + 1) + seq![10u8]
}

/// The lines of all intervals, in order.
pub open spec fn tsv_lines(v: Seq<LCR>, bases: Seq<u8>) -> Seq<u8>
    decreases v.len(),
{
    if v.len() == 0 {
        Seq::empty()
    } else {
        tsv_lines(v.drop_last(), bases) + tsv_line(v.last(), bases)
    }
}

fn push_decimal(out: &mut Vec<u8>, n: usize)
    ensures
        final(out)@ == old(out)@ + decimal(n as nat),
    decreases n,
{
    if n >= 10 {
        push_decimal(out, n / 10);
    }
    out.push(48 + (n % 10) as u8);
}

fn push_range(out: &mut Vec<u8>, bytes: &[u8], from: usize, to: usize)
    requires
        from <= to <= bytes@.len(),
    ensures
        final(out)@ == old(out)@ + bytes@.subrange(from as int, to as int),
{
    let ghost start = out@;
    let mut i: usize = from;
    while i < to
        invariant
            from <= i <= to <= bytes@.len(),
            out@ == start + bytes@.subrange(from as int, i as int),
        decreases to - i,
    {
        proof {
            assert(bytes@.subrange(from as int, i + 1) =~= bytes@.subrange(from as int, i as int).push(
                bytes@[i as int],
            ));
        }
        out.push(bytes[i]);
        i += 1;
    }
}

/// Appends the line of `lcr`: `name`, `start`, `end` and the bases
/// `start..=end`, separated by tabs and ended by a newline.
pub fn push_tsv_line(out: &mut Vec<u8>, lcr: &LCR, bases: &[u8])
    requires
        lcr.start <= lcr.end < bases@.len(),
    ensures
        final(out)@ == old(out)@ + tsv_line(*lcr, bases@),
{
    let ghost o = out@;
    let name = lcr.name.as_str().as_bytes();
    push_range(out, name, 0, name.len());
    out.push(9);
    push_decimal(out, lcr.start);
    out.push(9);
    push_decimal(out, lcr.end);
    out.push(9);
    let n = bases.len();
    assert(lcr.end < n);
    push_range(out, bases, lcr.start, lcr.end + 1);
    out.push(10);
    proof {
        assert(name@.subrange(0, name@.len() as int) =~= name@);
        assert(out@ =~= o + tsv_line(*lcr, bases@));
    }
}

/// The intervals of one record: the reported windows, merged.
pub fn dust_record(record: &Fasta, k: usize, max_window: usize, t: u64, ln_table: &[u64]) -> (merged:
    Vec<LCR>)
    requires
        search_ok(record.sequence@.len(), k as nat, max_window as nat, ln_table@, t as int),
    ensures
        exists|windows: Seq<LCR>|
            {
                &&& lists_reported(
                    windows,
                    first_token(record.name@),
                    record.sequence@,
                    k as nat,
                    max_window as nat,
                    ln_table@,
                    t as int,
                )
                &&& #[trigger] merge_result(windows, merged@)
            },
{
    let mut windows: Vec<LCR> = Vec::new();
    fasterdust(record, k, max_window, t, ln_table, &mut windows);
    proof {
        assert(windows@.subrange(0, windows@.len() as int) =~= windows@);
        let codes = kmer_codes(record.sequence@, k as nat);
        assert forall|i: int| 0 <= i < windows@.len() implies (#[trigger] windows@[i]).start
            <= windows@[i].end by {
            assert(reported(
                codes,
                k as nat,
                max_window as nat,
                ln_table@,
                t as int,
                windows@[i].start as int,
                windows@[i].end as int,
            ));
        }
    }
    let ghost w = windows@;
    let merged = merge_intervals(windows);
    proof {
        assert(merge_result(w, merged@));
    }
    merged
}

/// Every position of a merged interval lies in a reported window: it is
/// inside the sequence, and its base is an unambiguous nucleotide.
pub proof fn lemma_merged_positions(
    windows: Seq<LCR>,
    merged: Seq<LCR>,
    name: Seq<char>,
    bases: Seq<u8>,
    k: nat,
    mw: nat,
    lns: Seq<u64>,
    t: int,
)
    requires
        1 <= k,
        lists_reported(windows, name, bases, k, mw, lns, t),
        merge_result(windows, merged),
    ensures
        forall|j: int| 0 <= j < merged.len() ==> (#[trigger] merged[j]).start <= merged[j].end < bases.len(),
        forall|j: int, p: int|
            #![trigger merged[j], bases[p]]
            0 <= j < merged.len() && merged[j].start <= p <= merged[j].end ==> is_acgt(bases[p]),
{
    let codes = kmer_codes(bases, k);
    assert forall|j: int, p: int|
        #![trigger merged[j], bases[p]]
        0 <= j < merged.len() && merged[j].start <= p <= merged[j].end implies is_acgt(bases[p]) by {
        assert(covers_one(merged[j], name_key(merged[j]), p));
        assert(covers(windows, name_key(merged[j]), p));
        let i = choose|i: int| 0 <= i < windows.len() && covers_one(#[trigger] windows[i], name_key(merged[j]), p);
        let s = windows[i].start as int;
        let e = windows[i].end as int;
        assert(reported(codes, k, mw, lns, t, s, e));
        let q = if p <= e + 1 - k { p } else { e + 1 - k };
        assert(codes[q] is Some);
        assert(codes[q] == crate::kmer::kmer_at(bases, k, q));
        assert(q + k <= bases.len());
        assert(all_acgt(bases.subrange(q, q + k)));
        let sub = bases.subrange(q, q + k);
        assert(sub[p - q] == bases[p]);
        assert(is_acgt(sub[p - q]));
    }
    assert forall|j: int| 0 <= j < merged.len() implies (#[trigger] merged[j]).start <= merged[j].end
        < bases.len() by {
        let p = merged[j].end as int;
        assert(covers_one(merged[j], name_key(merged[j]), p));
        assert(covers(windows, name_key(merged[j]), p));
        let i = choose|i: int| 0 <= i < windows.len() && covers_one(#[trigger] windows[i], name_key(merged[j]), p);
        assert(reported(codes, k, mw, lns, t, windows[i].start as int, windows[i].end as int));
    }
}

/// The report block of one record: a line for each merged interval.
pub fn record_report(record: &Fasta, k: usize, max_window: usize, t: u64, ln_table: &[u64]) -> (block:
    Vec<u8>)
    requires
        search_ok(record.sequence@.len(), k as nat, max_window as nat, ln_table@, t as int),
    ensures
        exists|windows: Seq<LCR>, merged: Seq<LCR>|
            {
                &&& lists_reported(
                    windows,
                    first_token(record.name@),
                    record.sequence@,
                    k as nat,
                    max_window as nat,
                    ln_table@,
                    t as int,
                )
                &&& #[trigger] merge_result(windows, merged)
                &&& block@ == tsv_lines(merged, record.sequence@)
            },
{
    let merged = dust_record(record, k, max_window, t, ln_table);
    let ghost windows = choose|windows: Seq<LCR>|
        {
            &&& lists_reported(
                windows,
                first_token(record.name@),
                record.sequence@,
                k as nat,
                max_window as nat,
                ln_table@,
                t as int,
            )
            &&& #[trigger] merge_result(windows, merged@)
        };
    proof {
        lemma_merged_positions(
            windows,
            merged@,
            first_token(record.name@),
            record.sequence@,
            k as nat,
            max_window as nat,
            ln_table@,
            t as int,
        );
    }
    let bases = record.get_sequence();
    let mut block: Vec<u8> = Vec::new();
    let mut i: usize = 0;
    proof {
        assert(merged@.subrange(0, 0) =~= Seq::<LCR>::empty());
    }
    while i < merged.len()
        invariant
            i <= merged@.len(),
            bases@ == record.sequence@,
            forall|j: int| 0 <= j < merged@.len() ==> (#[trigger] merged@[j]).start <= merged@[j].end
                < bases@.len(),
            block@ == tsv_lines(merged@.subrange(0, i as int), bases@),
        decreases merged@.len() - i,
    {
        push_tsv_line(&mut block, &merged[i], bases);
        proof {
            let next = merged@.subrange(0, i + 1);
            assert(next.drop_last() =~= merged@.subrange(0, i as int));
            assert(next.last() == merged@[i as int]);
        }
        i += 1;
    }
    proof {
        assert(merged@.subrange(0, i as int) =~= merged@);
    }
    block
}

proof fn lemma_tsv_lines_same_spans(a: Seq<LCR>, b: Seq<LCR>, bases: Seq<u8>)
    requires
        a.len() == b.len(),
        forall|j: int| 0 <= j < a.len() ==> same_span(#[trigger] a[j], b[j]),
    ensures
        tsv_lines(a, bases) == tsv_lines(b, bases),
    decreases a.len(),
{
    if a.len() > 0 {
        let n = a.len() - 1;
        assert forall|j: int| 0 <= j < n implies same_span(#[trigger] a.drop_last()[j], b.drop_last()[j]) by {
            assert(same_span(a[j], b[j]));
        }
        lemma_tsv_lines_same_spans(a.drop_last(), b.drop_last(), bases);
        assert(same_span(a[n], b[n]));
        assert(tsv_line(a.last(), bases) == tsv_line(b.last(), bases));
    }
}

/// The report of a record is determined by the record and the parameters:
/// any two window lists and merges that meet the contracts give the same
/// bytes.
pub proof fn lemma_report_deterministic(
    name: Seq<char>,
    bases: Seq<u8>,
    k: nat,
    mw: nat,
    lns: Seq<u64>,
    t: int,
    w1: Seq<LCR>,
    m1: Seq<LCR>,
    w2: Seq<LCR>,
    m2: Seq<LCR>,
)
    requires
        lists_reported(w1, name, bases, k, mw, lns, t),
        merge_result(w1, m1),
        lists_reported(w2, name, bases, k, mw, lns, t),
        merge_result(w2, m2),
    ensures
        m1.len() == m2.len(),
        tsv_lines(m1, bases) == tsv_lines(m2, bases),
{
    let codes = kmer_codes(bases, k);
    assert forall|i: int| 0 <= i < w1.len() implies #[trigger] has_span(w2, w1[i]) by {
        assert(reported(codes, k, mw, lns, t, w1[i].start as int, w1[i].end as int));
        let j = choose|j: int| 0 <= j < w2.len() && (#[trigger] w2[j]).start == w1[i].start && w2[j].end == w1[i].end;
        assert(same_span(w1[i], w2[j]));
    }
    assert forall|j: int| 0 <= j < w2.len() implies #[trigger] has_span(w1, w2[j]) by {
        assert(reported(codes, k, mw, lns, t, w2[j].start as int, w2[j].end as int));
        let i = choose|i: int| 0 <= i < w1.len() && (#[trigger] w1[i]).start == w2[j].start && w1[i].end == w2[j].end;
        assert(same_span(w2[j], w1[i]));
    }
    assert(same_spans(w1, w2));
    lemma_merge_unique(m1, w1, m2, w2);
    lemma_tsv_lines_same_spans(m1, m2, bases);
}

} // verus!
