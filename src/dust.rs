//! Enumeration of good windows: for every end position, windows grow to the
//! left one k-mer at a time with an incremental score, and those that reach
//! the threshold are checked for goodness.
use crate::counts::CountTable;
use crate::fasta::{first_token, record_name, Fasta};
use crate::kmer::{kmer_at, lemma_kmer_value_bound, pow4, precompute_kmers};
use crate::lcr::LCR;
use crate::score::{lemma_score_bound, lemma_score_reverse, log_table_ok, occurrences, score};
use crate::score::{lemma_occurrences_len, lemma_score_from_counts, longdust_score, LOG_BOUND};
use crate::score::lemma_distinct_kmers;
use vstd::prelude::*;

verus! {

/// The k-mer index of `bases`: the code of the k-mer at each start position.
pub open spec fn kmer_codes(bases: Seq<u8>, k: nat) -> Seq<Option<u64>> {
    Seq::new(bases.len(), |p: int| kmer_at(bases, k, p))
}

/// Window `[s, e]` (both inclusive) holds at least one k-mer, ends inside the
/// sequence, and each of its k-mers is unambiguous.
pub open spec fn window_valid(codes: Seq<Option<u64>>, k: nat, s: int, e: int) -> bool {
    &&& 0 <= s
    &&& s + k <= e + 1
    &&& e < codes.len()
    &&& forall|p: int| s <= p <= e + 1 - k ==> (#[trigger] codes[p]) is Some
}

/// The codes of the k-mers of window `[s, e]`, from left to right.
pub open spec fn window_kmers(codes: Seq<Option<u64>>, k: nat, s: int, e: int) -> Seq<u64> {
    Seq::new((e + 2 - k - s) as nat, |i: int| codes[s + i]->Some_0)
}

/// No proper prefix of `w` scores above `bound`.
pub open spec fn prefixes_within(lns: Seq<u64>, t: int, w: Seq<u64>, bound: int) -> bool {
    forall|j: int| 0 < j < w.len() ==> score(lns, t, #[trigger] w.subrange(0, j)) <= bound
}

/// No proper suffix of `w` scores above `bound`.
pub open spec fn suffixes_within(lns: Seq<u64>, t: int, w: Seq<u64>, bound: int) -> bool {
    forall|j: int| 0 < j < w.len() ==> score(lns, t, #[trigger] w.subrange(j, w.len() as int)) <= bound
}

/// No proper prefix and no proper suffix of `w` scores above `bound`.
pub open spec fn parts_within(lns: Seq<u64>, t: int, w: Seq<u64>, bound: int) -> bool {
    prefixes_within(lns, t, w, bound) && suffixes_within(lns, t, w, bound)
}

/// A window is good when no proper prefix and no proper suffix outscores it.
pub open spec fn is_good(lns: Seq<u64>, t: int, w: Seq<u64>) -> bool {
    parts_within(lns, t, w, score(lns, t, w))
}

/// Window `[s, e]` is reported: valid, at most `mw` bases, scoring at least
/// `t`, and good.
pub open spec fn reported(
    codes: Seq<Option<u64>>,
    k: nat,
    mw: nat,
    lns: Seq<u64>,
    t: int,
    s: int,
    e: int,
) -> bool {
    &&& window_valid(codes, k, s, e)
    &&& e - s + 1 <= mw
    &&& score(lns, t, window_kmers(codes, k, s, e)) >= t
    &&& is_good(lns, t, window_kmers(codes, k, s, e))
}

/// Most k-mers a window can hold: `min(len, mw) - k + 1`.
pub open spec fn max_kmers(len: nat, k: nat, mw: nat) -> int {
    (if len < mw {
        len
    } else {
        mw
    }) - k + 1
}

/// Emission order: by end, and for one end from the shortest window up.
pub open spec fn emitted_before(a: LCR, b: LCR) -> bool {
    a.end < b.end || (a.end == b.end && a.start > b.start)
}

/// `out` lists, each once and in emission order, the reported windows of the
/// record, all under the record's name.
pub open spec fn lists_reported(
    out: Seq<LCR>,
    name: Seq<char>,
    bases: Seq<u8>,
    k: nat,
    mw: nat,
    lns: Seq<u64>,
    t: int,
) -> bool {
    let codes = kmer_codes(bases, k);
    &&& forall|i: int| 0 <= i < out.len() ==> (#[trigger] out[i]).name@ == name
    &&& forall|i: int|
        0 <= i < out.len() ==> reported(codes, k, mw, lns, t, (#[trigger] out[i]).start as int, out[i].end as int)
    &&& forall|s: int, e: int|
        reported(codes, k, mw, lns, t, s, e) ==> exists|i: int|
            0 <= i < out.len() && (#[trigger] out[i]).start == s && out[i].end == e
    &&& forall|i: int, j: int| 0 <= i < j < out.len() ==> emitted_before(#[trigger] out[i], #[trigger] out[j])
}

/// The inputs the window search runs on: `k` in range, a logarithm table that
/// covers every count a window reaches, and a threshold within bounds.
pub open spec fn search_ok(len: nat, k: nat, mw: nat, lns: Seq<u64>, t: int) -> bool {
    &&& 1 <= k <= 31
    &&& log_table_ok(lns)
    &&& 0 <= t <= LOG_BOUND
    &&& lns.len() > max_kmers(len, k, mw)
}

/// Every code of the k-mer index is below `4^k`.
proof fn lemma_codes_bounded(bases: Seq<u8>, k: nat)
    requires
        1 <= k <= 31,
    ensures
        forall|p: int|
            #![trigger kmer_codes(bases, k)[p]]
            0 <= p < bases.len() && kmer_codes(bases, k)[p] is Some ==> kmer_codes(bases, k)[p]->Some_0
                < pow4(k),
{
    assert forall|p: int|
        #![trigger kmer_codes(bases, k)[p]]
        0 <= p < bases.len() && kmer_codes(bases, k)[p] is Some implies kmer_codes(
        bases,
        k,
    )[p]->Some_0 < pow4(k) by {
        let sub = bases.subrange(p, p + k);
        lemma_kmer_value_bound(sub);
        crate::kmer::lemma_pow4_monotone(k, 31);
        crate::kmer::lemma_pow4_31();
    }
}

/// Whether no proper prefix and no proper suffix of window
/// `[start_base, end_base]` scores above `s_total`, the window's own score
/// when goodness is asked: two sweeps, each stopping at the first part that
/// scores above. `counts` is scratch space.
#[verifier::rlimit(40)]
pub fn is_good_window(
    kmers: &[Option<u64>],
    start_base: usize,
    end_base: usize,
    k: usize,
    t: u64,
    ln_table: &[u64],
    s_total: i128,
    counts: &mut CountTable,
) -> (good: bool)
    requires
        1 <= k,
        window_valid(kmers@, k as nat, start_base as int, end_base as int),
        log_table_ok(ln_table@),
        t <= LOG_BOUND,
        end_base + 2 - k - start_base < ln_table@.len(),
        old(counts).wf(),
        forall|p: int|
            start_base <= p <= end_base + 1 - k ==> old(counts).accepts(
                (#[trigger] kmers@[p])->Some_0,
            ),
    ensures
        final(counts).wf(),
        forall|x: u64| final(counts).accepts(x) == old(counts).accepts(x),
        good == parts_within(
            ln_table@,
            t as int,
            window_kmers(kmers@, k as nat, start_base as int, end_base as int),
            s_total as int,
        ),
{
    let ghost lns = ln_table@;
    let ghost ti = t as int;
    let ghost w = window_kmers(kmers@, k as nat, start_base as int, end_base as int);
    let ghost accepts0 = *counts;
    let last_k = end_base - (k - 1);
    counts.reset();
    let mut acc: i128 = 0;
    let mut pos: usize = start_base;
    proof {
        assert(w.subrange(0, 0) =~= Seq::<u64>::empty());
    }
    while pos < last_k
        invariant
            start_base <= pos <= last_k,
            last_k == end_base + 1 - k,
            1 <= k,
            window_valid(kmers@, k as nat, start_base as int, end_base as int),
            w == window_kmers(kmers@, k as nat, start_base as int, end_base as int),
            lns == ln_table@,
            ti == t as int,
            log_table_ok(lns),
            t <= LOG_BOUND,
            w.len() < lns.len(),
            counts.wf(),
            forall|x: u64| counts.accepts(x) == accepts0.accepts(x),
            accepts0 == *old(counts),
            forall|p: int|
                start_base <= p <= end_base + 1 - k ==> accepts0.accepts(
                    (#[trigger] kmers@[p])->Some_0,
                ),
            forall|x: u64| counts.count(x) == occurrences(w.subrange(0, pos - start_base), x),
            acc == score(lns, ti, w.subrange(0, pos - start_base)),
            forall|j: int|
                0 < j <= pos - start_base ==> score(lns, ti, #[trigger] w.subrange(0, j))
                    <= s_total,
        decreases last_k - pos,
    {
        let ghost i = pos - start_base;
        let ghost pre = w.subrange(0, i);
        assert(kmers@[pos as int] is Some);
        let code = match kmers[pos] {
            Some(c) => c,
            None => {
                return false;
            },
        };
        assert(w[i] == code);
        proof {
            lemma_occurrences_len(pre, code);
            lemma_score_bound(lns, ti, pre);
            assert(pre.len() * LOG_BOUND <= 0x1_0000_0000_0000_0000 * LOG_BOUND) by (nonlinear_arith)
                requires
                    pre.len() <= 0x1_0000_0000_0000_0000,
            ;
        }
        let c = counts.bump(code);
        let ghost grown = pre.push(code);
        proof {
            assert(w.subrange(0, i + 1) =~= grown);
            assert(grown.drop_last() =~= pre);
        }
        acc = acc + ln_table[c as usize + 1] as i128 - t as i128;
        if acc > s_total {
            assert(!prefixes_within(lns, ti, w, s_total as int)) by {
                assert(score(lns, ti, w.subrange(0, i + 1)) > s_total);
            }
            assert(forall|x: u64| counts.accepts(x) == accepts0.accepts(x));
            return false;
        }
        proof {
            assert forall|x: u64| counts.count(x) == occurrences(w.subrange(0, i + 1), x) by {
                crate::score::lemma_occurrences_push(pre, code, x);
            }
        }
        pos += 1;
    }
    assert(prefixes_within(lns, ti, w, s_total as int));
    counts.reset();
    acc = 0;
    let total = kmers.len();
    assert(last_k < total);
    let mut next: usize = last_k + 1;
    let ghost n = w.len() as int;
    proof {
        assert(w.subrange(n, n).reverse() =~= Seq::<u64>::empty());
    }
    while next > start_base + 1
        invariant
            start_base + 1 <= next <= last_k + 1,
            last_k == end_base + 1 - k,
            1 <= k,
            window_valid(kmers@, k as nat, start_base as int, end_base as int),
            w == window_kmers(kmers@, k as nat, start_base as int, end_base as int),
            n == w.len(),
            n == last_k + 1 - start_base,
            lns == ln_table@,
            ti == t as int,
            log_table_ok(lns),
            t <= LOG_BOUND,
            w.len() < lns.len(),
            prefixes_within(lns, ti, w, s_total as int),
            counts.wf(),
            forall|x: u64| counts.accepts(x) == accepts0.accepts(x),
            accepts0 == *old(counts),
            forall|p: int|
                start_base <= p <= end_base + 1 - k ==> accepts0.accepts(
                    (#[trigger] kmers@[p])->Some_0,
                ),
            forall|x: u64|
                counts.count(x) == occurrences(w.subrange(next - start_base, n).reverse(), x),
            acc == score(lns, ti, w.subrange(next - start_base, n).reverse()),
            forall|j: int|
                next - start_base <= j < n && 0 < j ==> score(
                    lns,
                    ti,
                    #[trigger] w.subrange(j, n),
                ) <= s_total,
        decreases next,
    {
        let pos = next - 1;
        let ghost j = pos - start_base;
        let ghost rev = w.subrange(j + 1, n).reverse();
        assert(kmers@[pos as int] is Some);
        let code = match kmers[pos] {
            Some(c) => c,
            None => {
                return false;
            },
        };
        assert(w[j] == code);
        proof {
            lemma_occurrences_len(rev, code);
            lemma_score_bound(lns, ti, rev);
            assert(rev.len() * LOG_BOUND <= 0x1_0000_0000_0000_0000 * LOG_BOUND) by (nonlinear_arith)
                requires
                    rev.len() <= 0x1_0000_0000_0000_0000,
            ;
        }
        let c = counts.bump(code);
        let ghost grown = rev.push(code);
        proof {
            assert(w.subrange(j, n).reverse() =~= grown);
            assert(grown.drop_last() =~= rev);
            lemma_score_reverse(lns, ti, w.subrange(j, n));
        }
        acc = acc + ln_table[c as usize + 1] as i128 - t as i128;
        if acc > s_total {
            assert(!suffixes_within(lns, ti, w, s_total as int)) by {
                assert(score(lns, ti, w.subrange(j, n)) > s_total);
            }
            assert(forall|x: u64| counts.accepts(x) == accepts0.accepts(x));
            return false;
        }
        proof {
            assert forall|x: u64| counts.count(x) == occurrences(grown, x) by {
                crate::score::lemma_occurrences_push(rev, code, x);
            }
        }
        next = pos;
    }
    true
}

/// `out` lists, each once and from the shortest up, the reported windows
/// that end at `e`, all under `name`.
pub open spec fn lists_end(
    out: Seq<LCR>,
    name: Seq<char>,
    codes: Seq<Option<u64>>,
    k: nat,
    mw: nat,
    lns: Seq<u64>,
    t: int,
    e: int,
) -> bool {
    &&& forall|i: int|
        0 <= i < out.len() ==> {
            &&& (#[trigger] out[i]).name@ == name
            &&& out[i].end == e
            &&& reported(codes, k, mw, lns, t, out[i].start as int, e)
        }
    &&& forall|s: int|
        reported(codes, k, mw, lns, t, s, e) ==> exists|i: int|
            0 <= i < out.len() && (#[trigger] out[i]).start == s
    &&& forall|i: int, j: int| 0 <= i < j < out.len() ==> (#[trigger] out[i]).start > (#[trigger] out[j]).start
}

/// `out` lists, each once and in emission order, the reported windows that
/// end before `bound`, all under `name`.
pub open spec fn lists_before(
    out: Seq<LCR>,
    name: Seq<char>,
    codes: Seq<Option<u64>>,
    k: nat,
    mw: nat,
    lns: Seq<u64>,
    t: int,
    bound: int,
) -> bool {
    &&& forall|i: int|
        0 <= i < out.len() ==> {
            &&& (#[trigger] out[i]).name@ == name
            &&& out[i].end < bound
            &&& reported(codes, k, mw, lns, t, out[i].start as int, out[i].end as int)
        }
    &&& forall|s: int, e: int|
        e < bound && reported(codes, k, mw, lns, t, s, e) ==> exists|i: int|
            0 <= i < out.len() && (#[trigger] out[i]).start == s && out[i].end == e
    &&& forall|i: int, j: int| 0 <= i < j < out.len() ==> emitted_before(#[trigger] out[i], #[trigger] out[j])
}

/// Appends, from the shortest up, the reported windows that end at `end`.
/// `win` holds the counts of the growing window, `scratch` serves the
/// goodness sweeps.
fn scan_end(
    kmers: &[Option<u64>],
    end: usize,
    k: usize,
    max_window: usize,
    t: u64,
    ln_table: &[u64],
    name: &String,
    win: &mut CountTable,
    scratch: &mut CountTable,
    output: &mut Vec<LCR>,
)
    requires
        1 <= k <= 31,
        k - 1 <= end < kmers@.len(),
        log_table_ok(ln_table@),
        t <= LOG_BOUND,
        ln_table@.len() > max_kmers(kmers@.len(), k as nat, max_window as nat),
        old(win).wf(),
        old(scratch).wf(),
        forall|p: int|
            0 <= p < kmers@.len() && (#[trigger] kmers@[p]) is Some ==> old(win).accepts(
                kmers@[p]->Some_0,
            ) && old(scratch).accepts(kmers@[p]->Some_0),
    ensures
        final(win).wf(),
        final(scratch).wf(),
        forall|x: u64| final(win).accepts(x) == old(win).accepts(x),
        forall|x: u64| final(scratch).accepts(x) == old(scratch).accepts(x),
        final(output)@.len() >= old(output)@.len(),
        final(output)@.subrange(0, old(output)@.len() as int) == old(output)@,
        lists_end(
            final(output)@.subrange(old(output)@.len() as int, final(output)@.len() as int),
            name@,
            kmers@,
            k as nat,
            max_window as nat,
            ln_table@,
            t as int,
            end as int,
        ),
{
    let ghost codes = kmers@;
    let ghost lns = ln_table@;
    let ghost ti = t as int;
    let ghost e = end as int;
    let ghost kk = k as nat;
    let ghost mw = max_window as nat;
    let ghost out0 = output@;
    let ghost win0 = *win;
    let ghost scratch0 = *scratch;
    let len = kmers.len();
    assert(end < len);
    let first = end - (k - 1);
    let lo = if end >= max_window {
        end + 1 - max_window
    } else {
        0
    };
    win.reset();
    let mut total: i128 = 0;
    let mut next: usize = first + 1;
    proof {
        assert(window_kmers(codes, kk, next as int, e).reverse() =~= Seq::<u64>::empty());
    }
    while next > lo && kmers[next - 1].is_some()
        invariant
            1 <= k <= 31,
            kk == k,
            mw == max_window,
            codes == kmers@,
            lns == ln_table@,
            ti == t as int,
            e == end,
            k - 1 <= end < codes.len(),
            first == end - (k - 1),
            lo == (if end >= max_window { end + 1 - max_window } else { 0 }),
            next <= first + 1,
            log_table_ok(lns),
            t <= LOG_BOUND,
            lns.len() > max_kmers(codes.len(), kk, mw),
            win.wf(),
            scratch.wf(),
            forall|x: u64| win.accepts(x) == win0.accepts(x),
            forall|x: u64| scratch.accepts(x) == scratch0.accepts(x),
            win0 == *old(win),
            scratch0 == *old(scratch),
            out0 == old(output)@,
            forall|p: int|
                0 <= p < codes.len() && (#[trigger] codes[p]) is Some ==> win0.accepts(
                    codes[p]->Some_0,
                ) && scratch0.accepts(codes[p]->Some_0),
            forall|p: int| next <= p <= first ==> (#[trigger] codes[p]) is Some,
            forall|x: u64|
                win.count(x) == occurrences(window_kmers(codes, kk, next as int, e).reverse(), x),
            total == score(lns, ti, window_kmers(codes, kk, next as int, e).reverse()),
            output@.len() >= out0.len(),
            output@.subrange(0, out0.len() as int) == out0,
            forall|i: int|
                out0.len() <= i < output@.len() ==> {
                    &&& (#[trigger] output@[i]).name@ == name@
                    &&& output@[i].end == e
                    &&& output@[i].start >= next
                    &&& reported(codes, kk, mw, lns, ti, output@[i].start as int, e)
                },
            forall|s: int|
                next <= s && reported(codes, kk, mw, lns, ti, s, e) ==> exists|i: int|
                    out0.len() <= i < output@.len() && (#[trigger] output@[i]).start == s,
            forall|i: int, j: int|
                out0.len() <= i < j < output@.len() ==> (#[trigger] output@[i]).start > (
                #[trigger] output@[j]).start,
        decreases next,
    {
        let s = next - 1;
        let code = kmers[s].unwrap();
        let ghost rev = window_kmers(codes, kk, next as int, e).reverse();
        let ghost w = window_kmers(codes, kk, s as int, e);
        proof {
            assert(w.reverse() =~= rev.push(code));
            assert(rev.push(code).drop_last() =~= rev);
            lemma_occurrences_len(rev, code);
            lemma_score_bound(lns, ti, rev);
            assert(rev.len() * LOG_BOUND <= 0x1_0000_0000_0000_0000 * LOG_BOUND) by (nonlinear_arith)
                requires
                    rev.len() <= 0x1_0000_0000_0000_0000,
            ;
            assert(codes[s as int] is Some);
        }
        let c = win.bump(code);
        total = total + ln_table[c as usize + 1] as i128 - t as i128;
        proof {
            lemma_score_reverse(lns, ti, w);
            assert forall|x: u64| win.count(x) == occurrences(w.reverse(), x) by {
                crate::score::lemma_occurrences_push(rev, code, x);
            }
        }
        assert(window_valid(codes, kk, s as int, e));
        if total >= t as i128 && is_good_window(kmers, s, end, k, t, ln_table, total, scratch) {
            let ghost before = output@;
            output.push(LCR::new(name.clone(), s, end));
            proof {
                assert(output@.subrange(0, out0.len() as int) =~= before.subrange(0, out0.len() as int));
                assert forall|x: int|
                    next - 1 <= x && reported(codes, kk, mw, lns, ti, x, e) implies exists|i: int|
                    out0.len() <= i < output@.len() && (#[trigger] output@[i]).start == x by {
                    if x == s {
                        assert(output@[before.len() as int].start == x);
                    } else {
                        let i = choose|i: int|
                            out0.len() <= i < before.len() && (#[trigger] before[i]).start == x;
                        assert(output@[i] == before[i]);
                    }
                }
            }
        } else {
            proof {
                assert(!reported(codes, kk, mw, lns, ti, s as int, e));
            }
        }
        next = s;
    }
    proof {
        let added = output@.subrange(out0.len() as int, output@.len() as int);
        assert forall|x: int| reported(codes, kk, mw, lns, ti, x, e) implies exists|i: int|
            0 <= i < added.len() && (#[trigger] added[i]).start == x by {
            if x < next {
                if next <= lo {
                } else {
                    assert(codes[next - 1] is None);
                    assert(x <= next - 1 <= first);
                }
            }
            let i = choose|i: int| out0.len() <= i < output@.len() && (#[trigger] output@[i]).start == x;
            assert(added[i - out0.len()] == output@[i]);
        }
        assert forall|i: int, j: int| 0 <= i < j < added.len() implies (#[trigger] added[i]).start > (
        #[trigger] added[j]).start by {
            assert(added[i] == output@[i + out0.len()]);
            assert(added[j] == output@[j + out0.len()]);
        }
        assert forall|i: int| 0 <= i < added.len() implies {
            &&& (#[trigger] added[i]).name@ == name@
            &&& added[i].end == e
            &&& reported(codes, kk, mw, lns, ti, added[i].start as int, e)
        } by {
            assert(added[i] == output@[i + out0.len()]);
        }
    }
}

/// Appending the block of windows that end at `e` to a list of those that
/// end before `e` lists those that end before `e + 1`.
proof fn lemma_lists_before_step(
    out0: Seq<LCR>,
    before: Seq<LCR>,
    after: Seq<LCR>,
    name: Seq<char>,
    codes: Seq<Option<u64>>,
    kk: nat,
    mw: nat,
    lns: Seq<u64>,
    ti: int,
    end: int,
)
    requires
        before.len() >= out0.len(),
        before.subrange(0, out0.len() as int) == out0,
        lists_before(before.subrange(out0.len() as int, before.len() as int), name, codes, kk, mw, lns, ti, end),
        after.len() >= before.len(),
        after.subrange(0, before.len() as int) == before,
        lists_end(after.subrange(before.len() as int, after.len() as int), name, codes, kk, mw, lns, ti, end),
    ensures
        after.subrange(0, out0.len() as int) == out0,
        lists_before(after.subrange(out0.len() as int, after.len() as int), name, codes, kk, mw, lns, ti, end + 1),
{
    let old_added = before.subrange(out0.len() as int, before.len() as int);
    let block = after.subrange(before.len() as int, after.len() as int);
    let added = after.subrange(out0.len() as int, after.len() as int);
    assert(added =~= old_added + block);
    assert(after.subrange(0, out0.len() as int) =~= before.subrange(0, out0.len() as int));
    assert forall|i: int| 0 <= i < added.len() implies {
        &&& (#[trigger] added[i]).name@ == name
        &&& added[i].end < end + 1
        &&& reported(codes, kk, mw, lns, ti, added[i].start as int, added[i].end as int)
    } by {
        if i < old_added.len() {
            assert(added[i] == old_added[i]);
        } else {
            assert(added[i] == block[i - old_added.len()]);
        }
    }
    assert forall|s: int, e: int|
        e < end + 1 && reported(codes, kk, mw, lns, ti, s, e) implies exists|i: int|
        0 <= i < added.len() && (#[trigger] added[i]).start == s && added[i].end == e by {
        if e < end {
            let i = choose|i: int|
                0 <= i < old_added.len() && (#[trigger] old_added[i]).start == s && old_added[i].end == e;
            assert(added[i] == old_added[i]);
        } else {
            let i = choose|i: int| 0 <= i < block.len() && (#[trigger] block[i]).start == s;
            assert(added[i + old_added.len()] == block[i]);
        }
    }
    assert forall|i: int, j: int| 0 <= i < j < added.len() implies emitted_before(
        #[trigger] added[i],
        #[trigger] added[j],
    ) by {
        if j < old_added.len() {
            assert(added[i] == old_added[i]);
            assert(added[j] == old_added[j]);
        } else if i < old_added.len() {
            assert(added[i] == old_added[i]);
            assert(added[j] == block[j - old_added.len()]);
        } else {
            assert(added[i] == block[i - old_added.len()]);
            assert(added[j] == block[j - old_added.len()]);
        }
    }
}

/// Appends to `output`, in emission order, every window of the record that
/// is reported: a window of at most `max_window` bases whose k-mers are all
/// unambiguous, whose score reaches `t` and that is good. The windows carry
/// the record's name, the first token of its header.
pub fn fasterdust(
    input: &Fasta,
    k: usize,
    max_window: usize,
    t: u64,
    ln_table: &[u64],
    output: &mut Vec<LCR>,
)
    requires
        search_ok(input.sequence@.len(), k as nat, max_window as nat, ln_table@, t as int),
    ensures
        final(output)@.len() >= old(output)@.len(),
        final(output)@.subrange(0, old(output)@.len() as int) == old(output)@,
        lists_reported(
            final(output)@.subrange(old(output)@.len() as int, final(output)@.len() as int),
            first_token(input.name@),
            input.sequence@,
            k as nat,
            max_window as nat,
            ln_table@,
            t as int,
        ),
{
    let ghost out0 = output@;
    let ghost lns = ln_table@;
    let ghost ti = t as int;
    let ghost kk = k as nat;
    let ghost mw = max_window as nat;
    let seq = input.get_sequence();
    let ghost codes = kmer_codes(seq@, kk);
    let n = seq.len();
    if n < k {
        proof {
            let added = output@.subrange(out0.len() as int, output@.len() as int);
            assert(added.len() == 0);
            assert forall|s: int, e: int| !reported(codes, kk, mw, lns, ti, s, e) by {}
        }
        return;
    }
    let name = record_name(input.get_name());
    let kmers = precompute_kmers(seq, k);
    proof {
        assert(kmers@ =~= codes);
        lemma_codes_bounded(seq@, kk);
    }
    let mut win = CountTable::for_k(k);
    let mut scratch = CountTable::for_k(k);
    let mut end: usize = k - 1;
    while end < n
        invariant
            1 <= k <= 31,
            kk == k,
            mw == max_window,
            n == seq@.len(),
            n == kmers@.len(),
            kmers@ == codes,
            codes == kmer_codes(seq@, kk),
            seq@ == input.sequence@,
            lns == ln_table@,
            ti == t as int,
            name@ == first_token(input.name@),
            k - 1 <= end <= n,
            search_ok(n as nat, kk, mw, lns, ti),
            win.wf(),
            scratch.wf(),
            forall|p: int|
                0 <= p < kmers@.len() && (#[trigger] kmers@[p]) is Some ==> win.accepts(
                    kmers@[p]->Some_0,
                ) && scratch.accepts(kmers@[p]->Some_0),
            out0 == old(output)@,
            output@.len() >= out0.len(),
            output@.subrange(0, out0.len() as int) == out0,
            lists_before(
                output@.subrange(out0.len() as int, output@.len() as int),
                name@,
                codes,
                kk,
                mw,
                lns,
                ti,
                end as int,
            ),
        decreases n - end,
    {
        let ghost before = output@;
        scan_end(kmers.as_slice(), end, k, max_window, t, ln_table, &name, &mut win, &mut scratch, output);
        proof {
            lemma_lists_before_step(out0, before, output@, name@, codes, kk, mw, lns, ti, end as int);
        }
        end += 1;
    }
    proof {
        let added = output@.subrange(out0.len() as int, output@.len() as int);
        assert forall|s: int, e: int| reported(codes, kk, mw, lns, ti, s, e) implies exists|i: int|
            0 <= i < added.len() && (#[trigger] added[i]).start == s && added[i].end == e by {
            assert(e < n);
        }
    }
}

/// A reported window outscores, or ties, every shorter valid window that
/// shares its start or its end.
pub proof fn lemma_reported_window_is_best(
    codes: Seq<Option<u64>>,
    k: nat,
    mw: nat,
    lns: Seq<u64>,
    t: int,
    s: int,
    e: int,
)
    requires
        reported(codes, k, mw, lns, t, s, e),
    ensures
        forall|e2: int|
            s + k <= e2 + 1 && e2 < e ==> #[trigger] score(lns, t, window_kmers(codes, k, s, e2))
                <= score(lns, t, window_kmers(codes, k, s, e)),
        forall|s2: int|
            s < s2 && s2 + k <= e + 1 ==> #[trigger] score(lns, t, window_kmers(codes, k, s2, e))
                <= score(lns, t, window_kmers(codes, k, s, e)),
{
    let w = window_kmers(codes, k, s, e);
    assert forall|e2: int| s + k <= e2 + 1 && e2 < e implies #[trigger] score(
        lns,
        t,
        window_kmers(codes, k, s, e2),
    ) <= score(lns, t, w) by {
        assert(window_kmers(codes, k, s, e2) =~= w.subrange(0, e2 + 2 - k - s));
    }
    assert forall|s2: int| s < s2 && s2 + k <= e + 1 implies #[trigger] score(
        lns,
        t,
        window_kmers(codes, k, s2, e),
    ) <= score(lns, t, w) by {
        assert(window_kmers(codes, k, s2, e) =~= w.subrange(s2 - s, w.len() as int));
    }
}

/// Goodness of a whole window given as bases, against `window_score`:
/// `false` where one of its k-mers is ambiguous, else whether no proper
/// prefix and no proper suffix of its k-mers scores above `window_score`.
pub fn is_good_seq(window: &[u8], window_score: i128, k: usize, t: u64, ln_table: &[u64]) -> (good:
    bool)
    requires
        1 <= k <= 31,
        log_table_ok(ln_table@),
        t <= LOG_BOUND,
        window@.len() + 1 < ln_table@.len() + k,
    ensures
        window@.len() < k ==> good,
        window@.len() >= k ==> good == (window_valid(
            kmer_codes(window@, k as nat),
            k as nat,
            0,
            window@.len() - 1,
        ) && parts_within(
            ln_table@,
            t as int,
            window_kmers(kmer_codes(window@, k as nat), k as nat, 0, window@.len() - 1),
            window_score as int,
        )),
{
    let n = window.len();
    if n < k {
        return true;
    }
    let kmers = precompute_kmers(window, k);
    let ghost codes = kmer_codes(window@, k as nat);
    proof {
        assert(kmers@ =~= codes);
        lemma_codes_bounded(window@, k as nat);
    }
    let last = n - k;
    let mut p: usize = 0;
    while p <= last
        invariant
            p <= last + 1,
            1 <= k <= 31,
            last == n - k,
            n == window@.len(),
            kmers@ == codes,
            codes == kmer_codes(window@, k as nat),
            codes.len() == n,
            forall|q: int| 0 <= q < p ==> (#[trigger] codes[q]) is Some,
        decreases last + 1 - p,
    {
        if kmers[p].is_none() {
            assert(codes[p as int] is None);
            assert(!window_valid(codes, k as nat, 0, n - 1));
            return false;
        }
        p += 1;
    }
    let mut scratch = CountTable::for_k(k);
    is_good_window(kmers.as_slice(), 0, n - 1, k, t, ln_table, window_score, &mut scratch)
}

/// The codes of the k-mers that start at `from..to`, all unambiguous.
fn copy_codes(kmers: &[Option<u64>], from: usize, to: usize) -> (w: Vec<u64>)
    requires
        from <= to <= kmers@.len(),
        forall|p: int| from <= p < to ==> (#[trigger] kmers@[p]) is Some,
    ensures
        w@ == Seq::new((to - from) as nat, |i: int| kmers@[from + i]->Some_0),
{
    let mut w: Vec<u64> = Vec::new();
    let mut p: usize = from;
    while p < to
        invariant
            from <= p <= to <= kmers@.len(),
            forall|q: int| from <= q < to ==> (#[trigger] kmers@[q]) is Some,
            w@ == Seq::new((p - from) as nat, |i: int| kmers@[from + i]->Some_0),
        decreases to - p,
    {
        let c = kmers[p].unwrap();
        w.push(c);
        p += 1;
        proof {
            assert(w@ =~= Seq::new((p - from) as nat, |i: int| kmers@[from + i]->Some_0));
        }
    }
    w
}

fn copy_range(w: &[u64], from: usize, to: usize) -> (r: Vec<u64>)
    requires
        from <= to <= w@.len(),
    ensures
        r@ == w@.subrange(from as int, to as int),
{
    let mut r: Vec<u64> = Vec::new();
    let mut p: usize = from;
    while p < to
        invariant
            from <= p <= to <= w@.len(),
            r@ == w@.subrange(from as int, p as int),
        decreases to - p,
    {
        r.push(w[p]);
        p += 1;
        proof {
            assert(r@ =~= w@.subrange(from as int, p as int));
        }
    }
    r
}

/// The score of `w`, recomputed from its k-mer counts.
fn counted_score(w: &[u64], t: u64, ln_table: &[u64]) -> (s: i128)
    requires
        log_table_ok(ln_table@),
        t <= LOG_BOUND,
        w@.len() < ln_table@.len(),
    ensures
        s == score(ln_table@, t as int, w@),
{
    proof {
        lemma_distinct_kmers(w@);
        lemma_score_from_counts(ln_table@, t as int, crate::score::distinct_kmers(w@), w@);
    }
    longdust_score(w, t, ln_table)
}

/// Whether no proper prefix and no proper suffix of `w` scores above
/// `bound`, each part scored afresh from its counts.
fn parts_within_by_counts(w: &[u64], bound: i128, t: u64, ln_table: &[u64]) -> (r: bool)
    requires
        log_table_ok(ln_table@),
        t <= LOG_BOUND,
        w@.len() < ln_table@.len(),
    ensures
        r == parts_within(ln_table@, t as int, w@, bound as int),
{
    let n = w.len();
    let mut j: usize = 1;
    while j < n
        invariant
            1 <= j,
            n == w@.len(),
            log_table_ok(ln_table@),
            t <= LOG_BOUND,
            w@.len() < ln_table@.len(),
            forall|i: int|
                0 < i < j && i < n ==> score(ln_table@, t as int, #[trigger] w@.subrange(0, i)) <= bound,
            forall|i: int|
                0 < i < j && i < n ==> score(ln_table@, t as int, #[trigger] w@.subrange(i, n as int))
                    <= bound,
        decreases n - j,
    {
        let p = copy_range(w, 0, j);
        if counted_score(&p, t, ln_table) > bound {
            assert(!prefixes_within(ln_table@, t as int, w@, bound as int));
            return false;
        }
        let q = copy_range(w, j, n);
        if counted_score(&q, t, ln_table) > bound {
            assert(!suffixes_within(ln_table@, t as int, w@, bound as int));
            return false;
        }
        j += 1;
    }
    true
}

/// Appends, from the shortest up, the reported windows that end at `end`,
/// each window scored and checked from scratch.
fn brute_end(
    kmers: &[Option<u64>],
    end: usize,
    k: usize,
    max_window: usize,
    t: u64,
    ln_table: &[u64],
    name: &String,
    output: &mut Vec<LCR>,
)
    requires
        1 <= k <= 31,
        k - 1 <= end < kmers@.len(),
        log_table_ok(ln_table@),
        t <= LOG_BOUND,
        ln_table@.len() > max_kmers(kmers@.len(), k as nat, max_window as nat),
    ensures
        final(output)@.len() >= old(output)@.len(),
        final(output)@.subrange(0, old(output)@.len() as int) == old(output)@,
        lists_end(
            final(output)@.subrange(old(output)@.len() as int, final(output)@.len() as int),
            name@,
            kmers@,
            k as nat,
            max_window as nat,
            ln_table@,
            t as int,
            end as int,
        ),
{
    let ghost codes = kmers@;
    let ghost lns = ln_table@;
    let ghost ti = t as int;
    let ghost e = end as int;
    let ghost kk = k as nat;
    let ghost mw = max_window as nat;
    let ghost out0 = output@;
    let len = kmers.len();
    assert(end < len);
    let first = end - (k - 1);
    let lo = if end >= max_window {
        end + 1 - max_window
    } else {
        0
    };
    let mut next: usize = first + 1;
    while next > lo && kmers[next - 1].is_some()
        invariant
            1 <= k <= 31,
            kk == k,
            mw == max_window,
            codes == kmers@,
            lns == ln_table@,
            ti == t as int,
            e == end,
            k - 1 <= end < codes.len(),
            first == end - (k - 1),
            lo == (if end >= max_window { end + 1 - max_window } else { 0 }),
            next <= first + 1,
            log_table_ok(lns),
            t <= LOG_BOUND,
            lns.len() > max_kmers(codes.len(), kk, mw),
            out0 == old(output)@,
            forall|p: int| next <= p <= first ==> (#[trigger] codes[p]) is Some,
            output@.len() >= out0.len(),
            output@.subrange(0, out0.len() as int) == out0,
            forall|i: int|
                out0.len() <= i < output@.len() ==> {
                    &&& (#[trigger] output@[i]).name@ == name@
                    &&& output@[i].end == e
                    &&& output@[i].start >= next
                    &&& reported(codes, kk, mw, lns, ti, output@[i].start as int, e)
                },
            forall|s: int|
                next <= s && reported(codes, kk, mw, lns, ti, s, e) ==> exists|i: int|
                    out0.len() <= i < output@.len() && (#[trigger] output@[i]).start == s,
            forall|i: int, j: int|
                out0.len() <= i < j < output@.len() ==> (#[trigger] output@[i]).start > (
                #[trigger] output@[j]).start,
        decreases next,
    {
        let s = next - 1;
        assert(codes[s as int] is Some);
        let w = copy_codes(kmers, s, first + 1);
        proof {
            assert(w@ =~= window_kmers(codes, kk, s as int, e));
        }
        let total = counted_score(&w, t, ln_table);
        assert(window_valid(codes, kk, s as int, e));
        if total >= t as i128 && parts_within_by_counts(&w, total, t, ln_table) {
            let ghost before = output@;
            output.push(LCR::new(name.clone(), s, end));
            proof {
                assert(output@.subrange(0, out0.len() as int) =~= before.subrange(0, out0.len() as int));
                assert forall|x: int|
                    next - 1 <= x && reported(codes, kk, mw, lns, ti, x, e) implies exists|i: int|
                    out0.len() <= i < output@.len() && (#[trigger] output@[i]).start == x by {
                    if x == s {
                        assert(output@[before.len() as int].start == x);
                    } else {
                        let i = choose|i: int|
                            out0.len() <= i < before.len() && (#[trigger] before[i]).start == x;
                        assert(output@[i] == before[i]);
                    }
                }
            }
        } else {
            proof {
                assert(!reported(codes, kk, mw, lns, ti, s as int, e));
            }
        }
        next = s;
    }
    proof {
        let added = output@.subrange(out0.len() as int, output@.len() as int);
        assert forall|x: int| reported(codes, kk, mw, lns, ti, x, e) implies exists|i: int|
            0 <= i < added.len() && (#[trigger] added[i]).start == x by {
            if x < next {
                if next <= lo {
                } else {
                    assert(codes[next - 1] is None);
                    assert(x <= next - 1 <= first);
                }
            }
            let i = choose|i: int| out0.len() <= i < output@.len() && (#[trigger] output@[i]).start == x;
            assert(added[i - out0.len()] == output@[i]);
        }
        assert forall|i: int, j: int| 0 <= i < j < added.len() implies (#[trigger] added[i]).start > (
        #[trigger] added[j]).start by {
            assert(added[i] == output@[i + out0.len()]);
            assert(added[j] == output@[j + out0.len()]);
        }
        assert forall|i: int| 0 <= i < added.len() implies {
            &&& (#[trigger] added[i]).name@ == name@
            &&& added[i].end == e
            &&& reported(codes, kk, mw, lns, ti, added[i].start as int, e)
        } by {
            assert(added[i] == output@[i + out0.len()]);
        }
    }
}

/// The reported windows found by brute force: every window is scored from
/// its k-mer counts, and so is each of its proper prefixes and suffixes.
/// Appends the same windows, in the same order, as `fasterdust`.
pub fn slowdust(
    input: &Fasta,
    k: usize,
    max_window: usize,
    t: u64,
    ln_table: &[u64],
    output: &mut Vec<LCR>,
)
    requires
        search_ok(input.sequence@.len(), k as nat, max_window as nat, ln_table@, t as int),
    ensures
        final(output)@.len() >= old(output)@.len(),
        final(output)@.subrange(0, old(output)@.len() as int) == old(output)@,
        lists_reported(
            final(output)@.subrange(old(output)@.len() as int, final(output)@.len() as int),
            first_token(input.name@),
            input.sequence@,
            k as nat,
            max_window as nat,
            ln_table@,
            t as int,
        ),
{
    let ghost out0 = output@;
    let ghost lns = ln_table@;
    let ghost ti = t as int;
    let ghost kk = k as nat;
    let ghost mw = max_window as nat;
    let seq = input.get_sequence();
    let ghost codes = kmer_codes(seq@, kk);
    let n = seq.len();
    if n < k {
        proof {
            assert forall|s: int, e: int| !reported(codes, kk, mw, lns, ti, s, e) by {}
        }
        return;
    }
    let name = record_name(input.get_name());
    let kmers = precompute_kmers(seq, k);
    proof {
        assert(kmers@ =~= codes);
    }
    let mut end: usize = k - 1;
    while end < n
        invariant
            1 <= k <= 31,
            kk == k,
            mw == max_window,
            n == seq@.len(),
            n == kmers@.len(),
            kmers@ == codes,
            codes == kmer_codes(seq@, kk),
            seq@ == input.sequence@,
            lns == ln_table@,
            ti == t as int,
            name@ == first_token(input.name@),
            k - 1 <= end <= n,
            search_ok(n as nat, kk, mw, lns, ti),
            out0 == old(output)@,
            output@.len() >= out0.len(),
            output@.subrange(0, out0.len() as int) == out0,
            lists_before(
                output@.subrange(out0.len() as int, output@.len() as int),
                name@,
                codes,
                kk,
                mw,
                lns,
                ti,
                end as int,
            ),
        decreases n - end,
    {
        let ghost before = output@;
        brute_end(kmers.as_slice(), end, k, max_window, t, ln_table, &name, output);
        proof {
            lemma_lists_before_step(out0, before, output@, name@, codes, kk, mw, lns, ti, end as int);
        }
        end += 1;
    }
    proof {
        let added = output@.subrange(out0.len() as int, output@.len() as int);
        assert forall|s: int, e: int| reported(codes, kk, mw, lns, ti, s, e) implies exists|i: int|
            0 <= i < added.len() && (#[trigger] added[i]).start == s && added[i].end == e by {
            assert(e < n);
        }
    }
}

/// Appends, from the shortest up, the reported windows that end at `end`,
/// with goodness checked on each window's bases. `win` holds the counts of
/// the growing window.
#[verifier::rlimit(100)]
fn scan_end_by_bases(
    seq: &[u8],
    kmers: &[Option<u64>],
    end: usize,
    k: usize,
    max_window: usize,
    t: u64,
    ln_table: &[u64],
    name: &String,
    win: &mut CountTable,
    output: &mut Vec<LCR>,
)
    requires
        1 <= k <= 31,
        index_of(kmers@, seq@, k as nat),
        k - 1 <= end < kmers@.len(),
        log_table_ok(ln_table@),
        t <= LOG_BOUND,
        ln_table@.len() > max_kmers(kmers@.len(), k as nat, max_window as nat),
        old(win).wf(),
        forall|p: int|
            0 <= p < kmers@.len() && (#[trigger] kmers@[p]) is Some ==> old(win).accepts(
                kmers@[p]->Some_0,
            ),
    ensures
        final(win).wf(),
        forall|x: u64| final(win).accepts(x) == old(win).accepts(x),
        final(output)@.len() >= old(output)@.len(),
        final(output)@.subrange(0, old(output)@.len() as int) == old(output)@,
        lists_end(
            final(output)@.subrange(old(output)@.len() as int, final(output)@.len() as int),
            name@,
            kmers@,
            k as nat,
            max_window as nat,
            ln_table@,
            t as int,
            end as int,
        ),
{
    let ghost codes = kmers@;
    let ghost lns = ln_table@;
    let ghost ti = t as int;
    let ghost e = end as int;
    let ghost kk = k as nat;
    let ghost mw = max_window as nat;
    let ghost out0 = output@;
    let ghost win0 = *win;
    let len = kmers.len();
    assert(end < len);
    let first = end - (k - 1);
    let lo = if end >= max_window {
        end + 1 - max_window
    } else {
        0
    };
    win.reset();
    let mut total: i128 = 0;
    let mut next: usize = first + 1;
    proof {
        assert(window_kmers(codes, kk, next as int, e).reverse() =~= Seq::<u64>::empty());
    }
    while next > lo && kmers[next - 1].is_some()
        invariant
            1 <= k <= 31,
            kk == k,
            mw == max_window,
            codes == kmers@,
            lns == ln_table@,
            ti == t as int,
            e == end,
            k - 1 <= end < codes.len(),
            first == end - (k - 1),
            lo == (if end >= max_window { end + 1 - max_window } else { 0 }),
            next <= first + 1,
            log_table_ok(lns),
            t <= LOG_BOUND,
            lns.len() > max_kmers(codes.len(), kk, mw),
            index_of(kmers@, seq@, kk),
            win.wf(),
            forall|x: u64| win.accepts(x) == win0.accepts(x),
            win0 == *old(win),
            out0 == old(output)@,
            forall|p: int|
                0 <= p < codes.len() && (#[trigger] codes[p]) is Some ==> win0.accepts(
                    codes[p]->Some_0,
                ),
            forall|p: int| next <= p <= first ==> (#[trigger] codes[p]) is Some,
            forall|x: u64|
                win.count(x) == occurrences(window_kmers(codes, kk, next as int, e).reverse(), x),
            total == score(lns, ti, window_kmers(codes, kk, next as int, e).reverse()),
            output@.len() >= out0.len(),
            output@.subrange(0, out0.len() as int) == out0,
            forall|i: int|
                out0.len() <= i < output@.len() ==> {
                    &&& (#[trigger] output@[i]).name@ == name@
                    &&& output@[i].end == e
                    &&& output@[i].start >= next
                    &&& reported(codes, kk, mw, lns, ti, output@[i].start as int, e)
                },
            forall|s: int|
                next <= s && reported(codes, kk, mw, lns, ti, s, e) ==> exists|i: int|
                    out0.len() <= i < output@.len() && (#[trigger] output@[i]).start == s,
            forall|i: int, j: int|
                out0.len() <= i < j < output@.len() ==> (#[trigger] output@[i]).start > (
                #[trigger] output@[j]).start,
        decreases next,
    {
        let s = next - 1;
        let code = kmers[s].unwrap();
        let ghost rev = window_kmers(codes, kk, next as int, e).reverse();
        let ghost w = window_kmers(codes, kk, s as int, e);
        proof {
            assert(w.reverse() =~= rev.push(code));
            assert(rev.push(code).drop_last() =~= rev);
            lemma_occurrences_len(rev, code);
            lemma_score_bound(lns, ti, rev);
            assert(rev.len() * LOG_BOUND <= 0x1_0000_0000_0000_0000 * LOG_BOUND) by (nonlinear_arith)
                requires
                    rev.len() <= 0x1_0000_0000_0000_0000,
            ;
            assert(codes[s as int] is Some);
        }
        let c = win.bump(code);
        total = total + ln_table[c as usize + 1] as i128 - t as i128;
        proof {
            lemma_score_reverse(lns, ti, w);
            assert forall|x: u64| win.count(x) == occurrences(w.reverse(), x) by {
                crate::score::lemma_occurrences_push(rev, code, x);
            }
        }
        assert(window_valid(codes, kk, s as int, e));
        if total >= t as i128 && good_by_bases(seq, kmers, s, end, k, t, ln_table, total) {
            let ghost before = output@;
            output.push(LCR::new(name.clone(), s, end));
            proof {
                assert(output@.subrange(0, out0.len() as int) =~= before.subrange(0, out0.len() as int));
                assert forall|x: int|
                    next - 1 <= x && reported(codes, kk, mw, lns, ti, x, e) implies exists|i: int|
                    out0.len() <= i < output@.len() && (#[trigger] output@[i]).start == x by {
                    if x == s {
                        assert(output@[before.len() as int].start == x);
                    } else {
                        let i = choose|i: int|
                            out0.len() <= i < before.len() && (#[trigger] before[i]).start == x;
                        assert(output@[i] == before[i]);
                    }
                }
            }
        } else {
            proof {
                assert(!reported(codes, kk, mw, lns, ti, s as int, e));
            }
        }
        next = s;
    }
    proof {
        let added = output@.subrange(out0.len() as int, output@.len() as int);
        assert forall|x: int| reported(codes, kk, mw, lns, ti, x, e) implies exists|i: int|
            0 <= i < added.len() && (#[trigger] added[i]).start == x by {
            if x < next {
                if next <= lo {
                } else {
                    assert(codes[next - 1] is None);
                    assert(x <= next - 1 <= first);
                }
            }
            let i = choose|i: int| out0.len() <= i < output@.len() && (#[trigger] output@[i]).start == x;
            assert(added[i - out0.len()] == output@[i]);
        }
        assert forall|i: int, j: int| 0 <= i < j < added.len() implies (#[trigger] added[i]).start > (
        #[trigger] added[j]).start by {
            assert(added[i] == output@[i + out0.len()]);
            assert(added[j] == output@[j + out0.len()]);
        }
        assert forall|i: int| 0 <= i < added.len() implies {
            &&& (#[trigger] added[i]).name@ == name@
            &&& added[i].end == e
            &&& reported(codes, kk, mw, lns, ti, added[i].start as int, e)
        } by {
            assert(added[i] == output@[i + out0.len()]);
        }
    }
}

/// `codes` is the k-mer index of `bases`.
#[verifier::opaque]
spec fn index_of(codes: Seq<Option<u64>>, bases: Seq<u8>, k: nat) -> bool {
    codes == kmer_codes(bases, k)
}

/// Goodness of window `[s, e]` of `seq`, checked on its bases.
fn good_by_bases(
    seq: &[u8],
    kmers: &[Option<u64>],
    s: usize,
    e: usize,
    k: usize,
    t: u64,
    ln_table: &[u64],
    total: i128,
) -> (r: bool)
    requires
        1 <= k <= 31,
        index_of(kmers@, seq@, k as nat),
        window_valid(kmers@, k as nat, s as int, e as int),
        log_table_ok(ln_table@),
        t <= LOG_BOUND,
        e + 2 - k - s < ln_table@.len(),
        total == score(ln_table@, t as int, window_kmers(kmers@, k as nat, s as int, e as int)),
    ensures
        r == is_good(ln_table@, t as int, window_kmers(kmers@, k as nat, s as int, e as int)),
{
    proof {
        reveal(index_of);
    }
    let len = seq.len();
    assert(e < len);
    let window = copy_bytes(seq, s, e + 1);
    proof {
        lemma_window_codes(seq@, k as nat, s as int, e as int);
    }
    is_good_seq(&window, total, k, t, ln_table)
}

fn copy_bytes(seq: &[u8], from: usize, to: usize) -> (r: Vec<u8>)
    requires
        from <= to <= seq@.len(),
    ensures
        r@ == seq@.subrange(from as int, to as int),
{
    let mut r: Vec<u8> = Vec::new();
    let mut p: usize = from;
    while p < to
        invariant
            from <= p <= to <= seq@.len(),
            r@ == seq@.subrange(from as int, p as int),
        decreases to - p,
    {
        r.push(seq[p]);
        p += 1;
        proof {
            assert(r@ =~= seq@.subrange(from as int, p as int));
        }
    }
    r
}

/// The k-mers of the bases of window `[s, e]` are the window's k-mers.
proof fn lemma_window_codes(bases: Seq<u8>, k: nat, s: int, e: int)
    requires
        1 <= k,
        0 <= s,
        s + k <= e + 1,
        e < bases.len(),
    ensures
        ({
            let sub = bases.subrange(s, e + 1);
            &&& window_valid(kmer_codes(sub, k), k, 0, sub.len() - 1) == window_valid(
                kmer_codes(bases, k),
                k,
                s,
                e,
            )
            &&& window_kmers(kmer_codes(sub, k), k, 0, sub.len() - 1) == window_kmers(
                kmer_codes(bases, k),
                k,
                s,
                e,
            )
        }),
{
    let sub = bases.subrange(s, e + 1);
    assert forall|i: int| 0 <= i <= e + 1 - k - s implies #[trigger] kmer_codes(sub, k)[i] == kmer_codes(
        bases,
        k,
    )[s + i] by {
        assert(sub.subrange(i, i + k) =~= bases.subrange(s + i, s + i + k));
    }
    if window_valid(kmer_codes(bases, k), k, s, e) {
        assert forall|p: int| 0 <= p <= sub.len() - 1 + 1 - k implies (#[trigger] kmer_codes(sub, k)[p]) is Some by {
            assert(kmer_codes(bases, k)[s + p] is Some);
        }
    }
    if window_valid(kmer_codes(sub, k), k, 0, sub.len() - 1) {
        assert forall|p: int| s <= p <= e + 1 - k implies (#[trigger] kmer_codes(bases, k)[p]) is Some by {
            assert(kmer_codes(sub, k)[p - s] is Some);
        }
    }
    assert(window_kmers(kmer_codes(sub, k), k, 0, sub.len() - 1) =~= window_kmers(
        kmer_codes(bases, k),
        k,
        s,
        e,
    ));
}

/// The reported windows found with incremental scores, each candidate's
/// goodness checked on its bases by `is_good_seq`. Appends the same windows,
/// in the same order, as `fasterdust`.
pub fn testdust(
    input: &Fasta,
    k: usize,
    max_window: usize,
    t: u64,
    ln_table: &[u64],
    output: &mut Vec<LCR>,
)
    requires
        search_ok(input.sequence@.len(), k as nat, max_window as nat, ln_table@, t as int),
    ensures
        final(output)@.len() >= old(output)@.len(),
        final(output)@.subrange(0, old(output)@.len() as int) == old(output)@,
        lists_reported(
            final(output)@.subrange(old(output)@.len() as int, final(output)@.len() as int),
            first_token(input.name@),
            input.sequence@,
            k as nat,
            max_window as nat,
            ln_table@,
            t as int,
        ),
{
    let ghost out0 = output@;
    let ghost lns = ln_table@;
    let ghost ti = t as int;
    let ghost kk = k as nat;
    let ghost mw = max_window as nat;
    let seq = input.get_sequence();
    let ghost codes = kmer_codes(seq@, kk);
    let n = seq.len();
    if n < k {
        proof {
            assert forall|s: int, e: int| !reported(codes, kk, mw, lns, ti, s, e) by {}
        }
        return;
    }
    let name = record_name(input.get_name());
    let kmers = precompute_kmers(seq, k);
    proof {
        assert(kmers@ =~= codes);
        lemma_codes_bounded(seq@, kk);
    }
    let mut win = CountTable::for_k(k);
    let mut end: usize = k - 1;
    while end < n
        invariant
            1 <= k <= 31,
            kk == k,
            mw == max_window,
            n == seq@.len(),
            n == kmers@.len(),
            kmers@ == codes,
            codes == kmer_codes(seq@, kk),
            seq@ == input.sequence@,
            lns == ln_table@,
            ti == t as int,
            name@ == first_token(input.name@),
            k - 1 <= end <= n,
            search_ok(n as nat, kk, mw, lns, ti),
            win.wf(),
            forall|p: int|
                0 <= p < kmers@.len() && (#[trigger] kmers@[p]) is Some ==> win.accepts(
                    kmers@[p]->Some_0,
                ),
            out0 == old(output)@,
            output@.len() >= out0.len(),
            output@.subrange(0, out0.len() as int) == out0,
            lists_before(
                output@.subrange(out0.len() as int, output@.len() as int),
                name@,
                codes,
                kk,
                mw,
                lns,
                ti,
                end as int,
            ),
        decreases n - end,
    {
        let ghost before = output@;
        proof {
            reveal(index_of);
        }
        scan_end_by_bases(seq, kmers.as_slice(), end, k, max_window, t, ln_table, &name, &mut win, output);
        proof {
            lemma_lists_before_step(out0, before, output@, name@, codes, kk, mw, lns, ti, end as int);
        }
        end += 1;
    }
    proof {
        let added = output@.subrange(out0.len() as int, output@.len() as int);
        assert forall|s: int, e: int| reported(codes, kk, mw, lns, ti, s, e) implies exists|i: int|
            0 <= i < added.len() && (#[trigger] added[i]).start == s && added[i].end == e by {
            assert(e < n);
        }
    }
}

/// A sequence shorter than `k` has no reported window.
pub proof fn lemma_short_sequence_reports_nothing(
    out: Seq<LCR>,
    name: Seq<char>,
    bases: Seq<u8>,
    k: nat,
    mw: nat,
    lns: Seq<u64>,
    t: int,
)
    requires
        bases.len() < k,
        lists_reported(out, name, bases, k, mw, lns, t),
    ensures
        out.len() == 0,
{
    if out.len() > 0 {
        assert(reported(kmer_codes(bases, k), k, mw, lns, t, out[0].start as int, out[0].end as int));
    }
}

/// A sequence without any A, C, G or T has no reported window.
pub proof fn lemma_ambiguous_sequence_reports_nothing(
    out: Seq<LCR>,
    name: Seq<char>,
    bases: Seq<u8>,
    k: nat,
    mw: nat,
    lns: Seq<u64>,
    t: int,
)
    requires
        1 <= k,
        forall|i: int| 0 <= i < bases.len() ==> !crate::kmer::is_acgt(#[trigger] bases[i]),
        lists_reported(out, name, bases, k, mw, lns, t),
    ensures
        out.len() == 0,
{
    if out.len() > 0 {
        let s = out[0].start as int;
        let e = out[0].end as int;
        let codes = kmer_codes(bases, k);
        assert(reported(codes, k, mw, lns, t, s, e));
        assert(codes[s] is Some);
        assert(codes[s] == kmer_at(bases, k, s));
        assert(bases.subrange(s, s + k)[0] == bases[s]);
    }
}

} // verus!
