//! The window score over a k-mer multiset, in fixed point.
//!
//! Scores are integers in units of 10^-12 nats. The natural logarithms come
//! from a table `lns` with `lns[n]` the logarithm of `n` in those units, so
//! that adding a k-mer whose count was `c` changes the score by
//! `lns[c + 1] - t`, and a window with counts `c_1 .. c_m` over `N` k-mers
//! scores `sum ln(c_i!) - t * N`. Integer sums are exact, so the score does
//! not depend on the order in which the k-mers are added.
use crate::counts::HashCounts;
use vstd::prelude::*;

verus! {

/// Largest logarithm (and threshold) the fixed-point scores admit: 2^48,
/// about 281 nats.
pub const LOG_BOUND: u64 = 0x1_0000_0000_0000;

/// Every entry of the logarithm table is within `LOG_BOUND`.
pub open spec fn log_table_ok(lns: Seq<u64>) -> bool {
    forall|j: int| 0 <= j < lns.len() ==> #[trigger] lns[j] <= LOG_BOUND
}

/// How often `x` occurs in `w`.
pub open spec fn occurrences(w: Seq<u64>, x: u64) -> nat
    decreases w.len(),
{
    if w.len() == 0 {
        0
    } else {
        occurrences(w.drop_last(), x) + if w.last() == x {
            1nat
        } else {
            0nat
        }
    }
}

/// `ln(c!)` in fixed point: `lns[1] + ... + lns[c]`.
pub open spec fn log_factorial(lns: Seq<u64>, c: nat) -> int
    decreases c,
{
    if c == 0 {
        0
    } else {
        log_factorial(lns, (c - 1) as nat) + lns[c as int]
    }
}

/// The score of the k-mers `w` built incrementally: each k-mer, taken from
/// left to right, adds `lns[c + 1] - t` where `c` is its count so far.
pub open spec fn score(lns: Seq<u64>, t: int, w: Seq<u64>) -> int
    decreases w.len(),
{
    if w.len() == 0 {
        0
    } else {
        score(lns, t, w.drop_last()) + lns[occurrences(w.drop_last(), w.last()) + 1int] - t
    }
}

/// `sum over the keys of ln(count!)`, the counts taken in `w`.
pub open spec fn factorial_sum(lns: Seq<u64>, keys: Seq<u64>, w: Seq<u64>) -> int
    decreases keys.len(),
{
    if keys.len() == 0 {
        0
    } else {
        factorial_sum(lns, keys.drop_last(), w) + log_factorial(lns, occurrences(w, keys.last()))
    }
}

/// The score of `w` computed from its k-mer counts, over the distinct k-mers `keys`.
pub open spec fn counts_score(lns: Seq<u64>, t: int, keys: Seq<u64>, w: Seq<u64>) -> int {
    factorial_sum(lns, keys, w) - t * w.len()
}

/// The distinct k-mers of `w` in order of first occurrence.
pub open spec fn distinct_kmers(w: Seq<u64>) -> Seq<u64>
    decreases w.len(),
{
    if w.len() == 0 {
        Seq::empty()
    } else if w.drop_last().contains(w.last()) {
        distinct_kmers(w.drop_last())
    } else {
        distinct_kmers(w.drop_last()).push(w.last())
    }
}

/// `keys` lists each k-mer of `w` exactly once.
pub open spec fn keys_cover(keys: Seq<u64>, w: Seq<u64>) -> bool {
    &&& keys.no_duplicates()
    &&& forall|i: int| 0 <= i < w.len() ==> keys.contains(#[trigger] w[i])
}

pub proof fn lemma_occurrences_push(w: Seq<u64>, x: u64, y: u64)
    ensures
        occurrences(w.push(x), y) == occurrences(w, y) + if x == y {
            1nat
        } else {
            0nat
        },
{
    assert(w.push(x).drop_last() =~= w);
}

pub proof fn lemma_occurrences_contains(w: Seq<u64>, x: u64)
    ensures
        occurrences(w, x) > 0 <==> w.contains(x),
    decreases w.len(),
{
    if w.len() > 0 {
        lemma_occurrences_contains(w.drop_last(), x);
        if w.drop_last().contains(x) {
            let i = choose|i: int| 0 <= i < w.drop_last().len() && w.drop_last()[i] == x;
            assert(w[i] == x);
        }
        if w.contains(x) && w.last() != x {
            let i = choose|i: int| 0 <= i < w.len() && w[i] == x;
            assert(w.drop_last()[i] == x);
        }
    }
}

pub proof fn lemma_distinct_kmers(w: Seq<u64>)
    ensures
        keys_cover(distinct_kmers(w), w),
        forall|x: u64| #[trigger] distinct_kmers(w).contains(x) ==> w.contains(x),
    decreases w.len(),
{
    if w.len() > 0 {
        let p = w.drop_last();
        lemma_distinct_kmers(p);
        let d = distinct_kmers(p);
        assert forall|i: int| 0 <= i < w.len() implies distinct_kmers(w).contains(#[trigger] w[i]) by {
            if i < w.len() - 1 {
                assert(p[i] == w[i]);
                assert(d.contains(w[i]));
                if !p.contains(w.last()) {
                    let j = choose|j: int| 0 <= j < d.len() && d[j] == w[i];
                    assert(d.push(w.last())[j] == w[i]);
                }
            } else if p.contains(w.last()) {
                let j = choose|j: int| 0 <= j < p.len() && p[j] == w.last();
                assert(d.contains(p[j]));
            } else {
                assert(d.push(w.last())[d.len() as int] == w.last());
            }
        }
        assert forall|x: u64| #[trigger] distinct_kmers(w).contains(x) implies w.contains(x) by {
            if d.contains(x) {
                let j = choose|j: int| 0 <= j < p.len() && p[j] == x;
                assert(w[j] == x);
            } else {
                assert(w[w.len() - 1] == x);
            }
        }
        if !p.contains(w.last()) {
            assert(!d.contains(w.last()));
        }
    }
}

/// The factorial sum over keys that miss `x` ignores one more `x` in the window.
proof fn lemma_factorial_sum_other(lns: Seq<u64>, keys: Seq<u64>, w: Seq<u64>, x: u64)
    requires
        !keys.contains(x),
    ensures
        factorial_sum(lns, keys, w.push(x)) == factorial_sum(lns, keys, w),
    decreases keys.len(),
{
    if keys.len() > 0 {
        assert(!keys.drop_last().contains(x)) by {
            if keys.drop_last().contains(x) {
                let j = choose|j: int| 0 <= j < keys.drop_last().len() && keys.drop_last()[j] == x;
                assert(keys[j] == x);
            }
        }
        lemma_factorial_sum_other(lns, keys.drop_last(), w, x);
        assert(keys[keys.len() - 1] == keys.last());
        lemma_occurrences_push(w, x, keys.last());
    }
}

/// One more `x` in the window raises the factorial sum by `lns[c + 1]`.
proof fn lemma_factorial_sum_step(lns: Seq<u64>, keys: Seq<u64>, w: Seq<u64>, x: u64)
    requires
        keys.no_duplicates(),
        keys.contains(x),
    ensures
        factorial_sum(lns, keys, w.push(x)) == factorial_sum(lns, keys, w) + lns[occurrences(w, x)
            + 1int],
    decreases keys.len(),
{
    let p = keys.drop_last();
    lemma_occurrences_push(w, x, keys.last());
    if keys.last() == x {
        assert(!p.contains(x)) by {
            if p.contains(x) {
                let j = choose|j: int| 0 <= j < p.len() && p[j] == x;
                assert(keys[j] == keys[keys.len() - 1]);
            }
        }
        lemma_factorial_sum_other(lns, p, w, x);
    } else {
        assert(p.contains(x)) by {
            let j = choose|j: int| 0 <= j < keys.len() && keys[j] == x;
            assert(j != keys.len() - 1);
            assert(p[j] == x);
        }
        assert(p.no_duplicates()) by {
            assert forall|a: int, b: int| 0 <= a < b < p.len() implies p[a] != p[b] by {
                assert(keys[a] != keys[b]);
            }
        }
        lemma_factorial_sum_step(lns, p, w, x);
    }
}

/// The incremental score equals the score recomputed from the k-mer counts.
pub proof fn lemma_score_from_counts(lns: Seq<u64>, t: int, keys: Seq<u64>, w: Seq<u64>)
    requires
        keys_cover(keys, w),
    ensures
        score(lns, t, w) == counts_score(lns, t, keys, w),
    decreases w.len(),
{
    if w.len() == 0 {
        lemma_factorial_sum_empty(lns, keys, w);
    } else {
        let p = w.drop_last();
        assert forall|i: int| 0 <= i < p.len() implies keys.contains(#[trigger] p[i]) by {
            assert(w[i] == p[i]);
        }
        lemma_score_from_counts(lns, t, keys, p);
        assert(keys.contains(w[w.len() - 1]));
        assert(p.push(w.last()) =~= w);
        lemma_factorial_sum_step(lns, keys, p, w.last());
        assert(t * w.len() == t * p.len() + t) by (nonlinear_arith)
            requires
                w.len() == p.len() + 1,
        ;
    }
}

proof fn lemma_factorial_sum_empty(lns: Seq<u64>, keys: Seq<u64>, w: Seq<u64>)
    requires
        w.len() == 0,
    ensures
        factorial_sum(lns, keys, w) == 0,
    decreases keys.len(),
{
    if keys.len() > 0 {
        lemma_factorial_sum_empty(lns, keys.drop_last(), w);
    }
}

/// Over keys that cover the window, the counts add up to its length.
proof fn lemma_count_sum(keys: Seq<u64>, w: Seq<u64>)
    requires
        keys_cover(keys, w),
    ensures
        count_sum(keys, w) == w.len(),
    decreases w.len(),
{
    if w.len() == 0 {
        lemma_count_sum_empty(keys, w);
    } else {
        let p = w.drop_last();
        assert forall|i: int| 0 <= i < p.len() implies keys.contains(#[trigger] p[i]) by {
            assert(w[i] == p[i]);
        }
        lemma_count_sum(keys, p);
        assert(keys.contains(w[w.len() - 1]));
        assert(p.push(w.last()) =~= w);
        lemma_count_sum_step(keys, p, w.last());
    }
}

spec fn count_sum(keys: Seq<u64>, w: Seq<u64>) -> int
    decreases keys.len(),
{
    if keys.len() == 0 {
        0
    } else {
        count_sum(keys.drop_last(), w) + occurrences(w, keys.last())
    }
}

proof fn lemma_count_sum_empty(keys: Seq<u64>, w: Seq<u64>)
    requires
        w.len() == 0,
    ensures
        count_sum(keys, w) == 0,
    decreases keys.len(),
{
    if keys.len() > 0 {
        lemma_count_sum_empty(keys.drop_last(), w);
    }
}

proof fn lemma_count_sum_step(keys: Seq<u64>, w: Seq<u64>, x: u64)
    requires
        keys.no_duplicates(),
        keys.contains(x),
    ensures
        count_sum(keys, w.push(x)) == count_sum(keys, w) + 1,
    decreases keys.len(),
{
    let p = keys.drop_last();
    lemma_occurrences_push(w, x, keys.last());
    if keys.last() == x {
        assert(!p.contains(x)) by {
            if p.contains(x) {
                let j = choose|j: int| 0 <= j < p.len() && p[j] == x;
                assert(keys[j] == keys[keys.len() - 1]);
            }
        }
        lemma_count_sum_other(p, w, x);
    } else {
        assert(p.contains(x)) by {
            let j = choose|j: int| 0 <= j < keys.len() && keys[j] == x;
            assert(j != keys.len() - 1);
            assert(p[j] == x);
        }
        assert(p.no_duplicates()) by {
            assert forall|a: int, b: int| 0 <= a < b < p.len() implies p[a] != p[b] by {
                assert(keys[a] != keys[b]);
            }
        }
        lemma_count_sum_step(p, w, x);
    }
}

proof fn lemma_count_sum_other(keys: Seq<u64>, w: Seq<u64>, x: u64)
    requires
        !keys.contains(x),
    ensures
        count_sum(keys, w.push(x)) == count_sum(keys, w),
    decreases keys.len(),
{
    if keys.len() > 0 {
        assert(!keys.drop_last().contains(x)) by {
            if keys.drop_last().contains(x) {
                let j = choose|j: int| 0 <= j < keys.drop_last().len() && keys.drop_last()[j] == x;
                assert(keys[j] == x);
            }
        }
        lemma_count_sum_other(keys.drop_last(), w, x);
        assert(keys[keys.len() - 1] == keys.last());
        lemma_occurrences_push(w, x, keys.last());
    }
}

proof fn lemma_sums_agree(lns: Seq<u64>, keys: Seq<u64>, a: Seq<u64>, b: Seq<u64>)
    requires
        forall|x: u64| occurrences(a, x) == occurrences(b, x),
    ensures
        factorial_sum(lns, keys, a) == factorial_sum(lns, keys, b),
        count_sum(keys, a) == count_sum(keys, b),
    decreases keys.len(),
{
    if keys.len() > 0 {
        lemma_sums_agree(lns, keys.drop_last(), a, b);
        assert(occurrences(a, keys.last()) == occurrences(b, keys.last()));
    }
}

/// The score depends on the k-mer multiset alone: windows holding each k-mer
/// equally often score the same, in whatever order the k-mers are added.
pub proof fn lemma_score_order_independent(lns: Seq<u64>, t: int, a: Seq<u64>, b: Seq<u64>)
    requires
        forall|x: u64| occurrences(a, x) == occurrences(b, x),
    ensures
        score(lns, t, a) == score(lns, t, b),
{
    let keys = distinct_kmers(a);
    lemma_distinct_kmers(a);
    assert forall|i: int| 0 <= i < b.len() implies keys.contains(#[trigger] b[i]) by {
        assert(b.contains(b[i]));
        lemma_occurrences_contains(b, b[i]);
        lemma_occurrences_contains(a, b[i]);
        let j = choose|j: int| 0 <= j < a.len() && a[j] == b[i];
        assert(keys.contains(a[j]));
    }
    lemma_score_from_counts(lns, t, keys, a);
    lemma_score_from_counts(lns, t, keys, b);
    lemma_sums_agree(lns, keys, a, b);
    lemma_count_sum(keys, a);
    lemma_count_sum(keys, b);
}

/// Reversing a window keeps every count.
pub proof fn lemma_occurrences_reverse(w: Seq<u64>, x: u64)
    ensures
        occurrences(w.reverse(), x) == occurrences(w, x),
    decreases w.len(),
{
    if w.len() > 0 {
        let p = w.drop_last();
        lemma_occurrences_reverse(p, x);
        lemma_occurrences_first(w.reverse(), x);
        assert(w.reverse().drop_first() =~= p.reverse());
        assert(w.reverse()[0] == w.last());
    }
}

/// Counting from the front: the first k-mer plus the rest.
pub proof fn lemma_occurrences_first(w: Seq<u64>, x: u64)
    requires
        w.len() > 0,
    ensures
        occurrences(w, x) == occurrences(w.drop_first(), x) + if w[0] == x {
            1nat
        } else {
            0nat
        },
    decreases w.len(),
{
    if w.len() == 1 {
        assert(w.drop_first() =~= Seq::<u64>::empty());
        assert(w.drop_last() =~= Seq::<u64>::empty());
    } else {
        lemma_occurrences_first(w.drop_last(), x);
        assert(w.drop_last().drop_first() =~= w.drop_first().drop_last());
        assert(w.drop_first().last() == w.last());
    }
}

/// Scoring the reversed window gives the same score.
pub proof fn lemma_score_reverse(lns: Seq<u64>, t: int, w: Seq<u64>)
    ensures
        score(lns, t, w.reverse()) == score(lns, t, w),
{
    assert forall|x: u64| occurrences(w.reverse(), x) == occurrences(w, x) by {
        lemma_occurrences_reverse(w, x);
    }
    lemma_score_order_independent(lns, t, w.reverse(), w);
}

/// With table entries and threshold within `LOG_BOUND`, and every count the
/// window reaches inside the table, each k-mer moves the score by at most
/// `LOG_BOUND`.
pub proof fn lemma_score_bound(lns: Seq<u64>, t: int, w: Seq<u64>)
    requires
        log_table_ok(lns),
        0 <= t <= LOG_BOUND,
        w.len() < lns.len(),
    ensures
        -(w.len() * LOG_BOUND) <= score(lns, t, w) <= w.len() * LOG_BOUND,
    decreases w.len(),
{
    if w.len() > 0 {
        let p = w.drop_last();
        lemma_score_bound(lns, t, p);
        lemma_occurrences_len(p, w.last());
        assert(lns[occurrences(p, w.last()) + 1int] <= LOG_BOUND);
        assert(w.len() * LOG_BOUND == p.len() * LOG_BOUND + LOG_BOUND) by (nonlinear_arith)
            requires
                w.len() == p.len() + 1,
        ;
    }
}

pub proof fn lemma_occurrences_len(w: Seq<u64>, x: u64)
    ensures
        occurrences(w, x) <= w.len(),
    decreases w.len(),
{
    if w.len() > 0 {
        lemma_occurrences_len(w.drop_last(), x);
    }
}

/// Over distinct keys, the counts add up to at most the window length.
proof fn lemma_count_sum_bound(keys: Seq<u64>, w: Seq<u64>)
    requires
        keys.no_duplicates(),
    ensures
        count_sum(keys, w) <= w.len(),
    decreases w.len(),
{
    if w.len() == 0 {
        lemma_count_sum_empty(keys, w);
    } else {
        let p = w.drop_last();
        lemma_count_sum_bound(keys, p);
        assert(p.push(w.last()) =~= w);
        if keys.contains(w.last()) {
            lemma_count_sum_step(keys, p, w.last());
        } else {
            lemma_count_sum_other(keys, p, w.last());
        }
    }
}

proof fn lemma_log_factorial_bound(lns: Seq<u64>, c: nat)
    requires
        log_table_ok(lns),
        c < lns.len(),
    ensures
        0 <= log_factorial(lns, c) <= c * LOG_BOUND,
    decreases c,
{
    if c > 0 {
        lemma_log_factorial_bound(lns, (c - 1) as nat);
        assert(lns[c as int] <= LOG_BOUND);
        assert((c - 1) * LOG_BOUND + LOG_BOUND == c * LOG_BOUND) by (nonlinear_arith);
    }
}

proof fn lemma_factorial_sum_bound(lns: Seq<u64>, keys: Seq<u64>, w: Seq<u64>)
    requires
        log_table_ok(lns),
        w.len() < lns.len(),
    ensures
        0 <= factorial_sum(lns, keys, w) <= count_sum(keys, w) * LOG_BOUND,
    decreases keys.len(),
{
    if keys.len() > 0 {
        lemma_factorial_sum_bound(lns, keys.drop_last(), w);
        let c = occurrences(w, keys.last());
        lemma_occurrences_len(w, keys.last());
        lemma_log_factorial_bound(lns, c);
        assert(count_sum(keys.drop_last(), w) * LOG_BOUND + c * LOG_BOUND == (count_sum(
            keys.drop_last(),
            w,
        ) + c) * LOG_BOUND) by (nonlinear_arith);
    }
}

/// The score of the k-mers `kmers` recomputed from their counts: the sum of
/// `ln(c!)` over the distinct k-mers, less `t` for each k-mer.
pub fn longdust_score(kmers: &[u64], t: u64, ln_table: &[u64]) -> (s: i128)
    requires
        log_table_ok(ln_table@),
        t <= LOG_BOUND,
        kmers@.len() < ln_table@.len(),
    ensures
        s == counts_score(ln_table@, t as int, distinct_kmers(kmers@), kmers@),
{
    let ghost lns = ln_table@;
    let ghost w = kmers@;
    let n = kmers.len();
    let mut totals = HashCounts::new();
    let mut i: usize = 0;
    proof {
        assert(w.subrange(0, 0) =~= Seq::<u64>::empty());
    }
    while i < n
        invariant
            i <= n,
            n == w.len(),
            w == kmers@,
            forall|x: u64| totals.count(x) == occurrences(w.subrange(0, i as int), x),
        decreases n - i,
    {
        let ghost pre = w.subrange(0, i as int);
        proof {
            lemma_occurrences_len(pre, kmers@[i as int]);
        }
        totals.bump(kmers[i]);
        proof {
            assert(w.subrange(0, i + 1) =~= pre.push(w[i as int]));
            assert forall|x: u64| totals.count(x) == occurrences(w.subrange(0, i + 1), x) by {
                lemma_occurrences_push(pre, w[i as int], x);
            }
        }
        i += 1;
    }
    proof {
        assert(w.subrange(0, n as int) =~= w);
    }
    let mut seen = HashCounts::new();
    let mut acc: i128 = 0;
    i = 0;
    while i < n
        invariant
            i <= n,
            n == w.len(),
            w == kmers@,
            lns == ln_table@,
            log_table_ok(lns),
            w.len() < lns.len(),
            forall|x: u64| totals.count(x) == occurrences(w, x),
            forall|x: u64| seen.count(x) == occurrences(w.subrange(0, i as int), x),
            acc == factorial_sum(lns, distinct_kmers(w.subrange(0, i as int)), w),
        decreases n - i,
    {
        let ghost pre = w.subrange(0, i as int);
        let x = kmers[i];
        proof {
            lemma_occurrences_len(pre, x);
            lemma_distinct_kmers(pre);
            lemma_factorial_sum_bound(lns, distinct_kmers(pre), w);
            lemma_count_sum_bound(distinct_kmers(pre), w);
            assert(w.len() * LOG_BOUND <= 0x1_0000_0000_0000_0000 * LOG_BOUND) by (nonlinear_arith)
                requires
                    w.len() <= 0x1_0000_0000_0000_0000,
            ;
            assert(count_sum(distinct_kmers(pre), w) * LOG_BOUND <= w.len() * LOG_BOUND)
                by (nonlinear_arith)
                requires
                    count_sum(distinct_kmers(pre), w) <= w.len(),
            ;
        }
        let first = seen.bump(x) == 0;
        let ghost next = pre.push(x);
        proof {
            assert(w.subrange(0, i + 1) =~= next);
            assert(next.drop_last() =~= pre);
            assert(next.last() == x);
            lemma_occurrences_contains(pre, x);
            assert forall|y: u64| seen.count(y) == occurrences(next, y) by {
                lemma_occurrences_push(pre, x, y);
            }
        }
        if first {
            let c64 = totals.count_of(x);
            proof {
                lemma_occurrences_len(w, x);
            }
            let c = c64 as usize;
            proof {
                lemma_log_factorial_bound(lns, c as nat);
                assert(c * LOG_BOUND <= w.len() * LOG_BOUND) by (nonlinear_arith)
                    requires
                        c <= w.len(),
                ;
            }
            let mut lf: i128 = 0;
            let mut j: usize = 0;
            while j < c
                invariant
                    j <= c,
                    c < lns.len(),
                    lns == ln_table@,
                    log_table_ok(lns),
                    lf == log_factorial(lns, j as nat),
                    c * LOG_BOUND <= 0x1_0000_0000_0000_0000 * LOG_BOUND,
                decreases c - j,
            {
                proof {
                    lemma_log_factorial_bound(lns, j as nat);
                    assert(j * LOG_BOUND <= c * LOG_BOUND) by (nonlinear_arith)
                        requires
                            j <= c,
                    ;
                }
                j += 1;
                lf = lf + ln_table[j] as i128;
            }
            proof {
                assert(!pre.contains(x));
                assert(distinct_kmers(next) == distinct_kmers(pre).push(x));
                assert(distinct_kmers(pre).push(x).drop_last() =~= distinct_kmers(pre));
            }
            acc = acc + lf;
        } else {
            proof {
                assert(pre.contains(x));
                assert(distinct_kmers(next) == distinct_kmers(pre));
            }
        }
        i += 1;
    }
    proof {
        assert(w.subrange(0, n as int) =~= w);
        assert(n * t <= 0x1_0000_0000_0000_0000 * LOG_BOUND) by (nonlinear_arith)
            requires
                n <= 0x1_0000_0000_0000_0000,
                t <= LOG_BOUND,
        ;
        lemma_distinct_kmers(w);
        lemma_factorial_sum_bound(lns, distinct_kmers(w), w);
        lemma_count_sum_bound(distinct_kmers(w), w);
        assert(count_sum(distinct_kmers(w), w) * LOG_BOUND <= 0x1_0000_0000_0000_0000 * LOG_BOUND)
            by (nonlinear_arith)
            requires
                count_sum(distinct_kmers(w), w) <= 0x1_0000_0000_0000_0000,
        ;
    }
    acc - (n as i128) * (t as i128)
}

} // verus!
