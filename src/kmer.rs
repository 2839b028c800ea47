//! Two-bit k-mer codes over the nucleotide alphabet.
use vstd::arithmetic::div_mod::{
    lemma_fundamental_div_mod_converse, lemma_mod_multiples_vanish, lemma_small_mod,
};
use vstd::prelude::*;

verus! {

/// Two-bit value of a nucleotide, case-insensitive: A=0, C=1, G=2, T=3.
pub open spec fn base_value(b: u8) -> Option<u8> {
    if b == 65u8 || b == 97u8 {
        Some(0u8)
    } else if b == 67u8 || b == 99u8 {
        Some(1u8)
    } else if b == 71u8 || b == 103u8 {
        Some(2u8)
    } else if b == 84u8 || b == 116u8 {
        Some(3u8)
    } else {
        None
    }
}

pub open spec fn is_acgt(b: u8) -> bool {
    base_value(b) is Some
}

pub open spec fn all_acgt(s: Seq<u8>) -> bool {
    forall|i: int| 0 <= i < s.len() ==> is_acgt(#[trigger] s[i])
}

pub open spec fn digit(b: u8) -> nat {
    match base_value(b) {
        Some(v) => v as nat,
        None => 0,
    }
}

pub open spec fn pow4(n: nat) -> nat
    decreases n,
{
    if n == 0 {
        1
    } else {
        4 * pow4((n - 1) as nat)
    }
}

/// Sum of `digit(s[i]) * 4^(len - 1 - i)`: the leftmost base is the high-order pair.
pub open spec fn kmer_value(s: Seq<u8>) -> nat
    decreases s.len(),
{
    if s.len() == 0 {
        0
    } else {
        kmer_value(s.drop_last()) * 4 + digit(s.last())
    }
}

/// The code of the k-mer that starts at `start`, or `None` where no full k-mer
/// starts there or the k bases hold a byte other than A, C, G, T.
pub open spec fn kmer_at(seq: Seq<u8>, k: nat, start: int) -> Option<u64> {
    if 0 <= start && start + k <= seq.len() && all_acgt(seq.subrange(start, start + k)) {
        Some(kmer_value(seq.subrange(start, start + k)) as u64)
    } else {
        None
    }
}

/// The upper-case letter of a two-bit value.
pub open spec fn letter(v: nat) -> u8 {
    if v == 0 {
        65u8
    } else if v == 1 {
        67u8
    } else if v == 2 {
        71u8
    } else {
        84u8
    }
}

/// The `k` upper-case bases whose code is `code`: base `i` is the pair of
/// bits of weight `4^(k - 1 - i)`.
pub open spec fn decode_value(code: nat, k: nat) -> Seq<u8> {
    Seq::new(k, |i: int| letter((code / pow4((k - 1 - i) as nat)) % 4))
}

pub open spec fn upper_base(b: u8) -> u8 {
    letter(digit(b))
}

pub proof fn lemma_pow4_positive(n: nat)
    ensures
        pow4(n) >= 1,
    decreases n,
{
    if n > 0 {
        lemma_pow4_positive((n - 1) as nat);
    }
}

pub proof fn lemma_pow4_monotone(a: nat, b: nat)
    requires
        a <= b,
    ensures
        pow4(a) <= pow4(b),
    decreases b,
{
    if a < b {
        lemma_pow4_monotone(a, (b - 1) as nat);
        lemma_pow4_positive((b - 1) as nat);
    }
}

pub proof fn lemma_pow4_31()
    ensures
        pow4(31) == 0x4000_0000_0000_0000,
{
    reveal_with_fuel(pow4, 32);
}

pub proof fn lemma_kmer_value_bound(s: Seq<u8>)
    ensures
        kmer_value(s) < pow4(s.len()),
    decreases s.len(),
{
    if s.len() > 0 {
        lemma_kmer_value_bound(s.drop_last());
    }
}

/// Splitting off the first base: it contributes its digit times `4^(len - 1)`.
pub proof fn lemma_kmer_value_first(s: Seq<u8>)
    requires
        s.len() >= 1,
    ensures
        kmer_value(s) == digit(s[0]) * pow4((s.len() - 1) as nat) + kmer_value(s.drop_first()),
    decreases s.len(),
{
    if s.len() == 1 {
        assert(s.drop_first() =~= Seq::<u8>::empty());
        assert(s.drop_last() =~= Seq::<u8>::empty());
        assert(kmer_value(Seq::<u8>::empty()) == 0);
        assert(pow4(0) == 1);
        assert(s.last() == s[0]);
    } else {
        let t = s.drop_last();
        lemma_kmer_value_first(t);
        assert(t.drop_first() =~= s.drop_first().drop_last());
        assert(s.drop_first().last() == s.last());
        let p = pow4((s.len() - 2) as nat);
        assert(t[0] == s[0]);
        assert(pow4((s.len() - 1) as nat) == 4 * p);
        assert(kmer_value(s.drop_first()) == kmer_value(t.drop_first()) * 4 + digit(s.last()));
        assert(kmer_value(s) == kmer_value(t) * 4 + digit(s.last()));
        assert((digit(s[0]) * p + kmer_value(t.drop_first())) * 4 == digit(s[0]) * (4 * p)
            + kmer_value(t.drop_first()) * 4) by (nonlinear_arith);
    }
}

/// Appending one base to a k-mer and keeping the last `k` bases.
proof fn lemma_roll(w: Seq<u8>, b: u8)
    requires
        w.len() >= 1,
    ensures
        (kmer_value(w) * 4 + digit(b)) % pow4(w.len()) == kmer_value(w.drop_first().push(b)),
        kmer_value(w.drop_first().push(b)) < pow4(w.len()),
{
    let x = w.push(b);
    assert(x.drop_last() =~= w);
    lemma_kmer_value_first(x);
    assert(x.drop_first() =~= w.drop_first().push(b));
    lemma_kmer_value_bound(x.drop_first());
    lemma_pow4_positive(w.len());
    let m = pow4(w.len()) as int;
    assert(x.last() == b);
    assert(kmer_value(x) == kmer_value(w) * 4 + digit(b));
    assert(digit(x[0]) * m == m * digit(x[0])) by (nonlinear_arith);
    lemma_mod_multiples_vanish(digit(x[0]) as int, kmer_value(x.drop_first()) as int, m);
    lemma_small_mod(kmer_value(x.drop_first()), m as nat);
}

/// Two-bit value of a nucleotide byte; `None` for any other byte.
pub fn base2(b: u8) -> (r: Option<u8>)
    ensures
        r == base_value(b),
{
    match b {
        65u8 | 97u8 => Some(0),
        67u8 | 99u8 => Some(1),
        71u8 | 103u8 => Some(2),
        84u8 | 116u8 => Some(3),
        _ => None,
    }
}

/// The code of the k-mer starting at each position of `seq`: `None` where no
/// full k-mer starts or where its bases hold an ambiguous byte.
pub fn precompute_kmers(seq: &[u8], k: usize) -> (codes: Vec<Option<u64>>)
    requires
        1 <= k <= 31,
    ensures
        codes@.len() == seq@.len(),
        forall|s: int| 0 <= s < seq@.len() ==> #[trigger] codes@[s] == kmer_at(seq@, k as nat, s),
{
    let n = seq.len();
    let mut codes: Vec<Option<u64>> = Vec::new();
    let mut j: usize = 0;
    while j < n
        invariant
            j <= n,
            n == seq@.len(),
            codes@.len() == j,
            forall|s: int| 0 <= s < j ==> #[trigger] codes@[s] == None::<u64>,
        decreases n - j,
    {
        codes.push(None);
        j += 1;
    }
    if n < k {
        proof {
            assert forall|s: int| 0 <= s < n implies #[trigger] codes@[s] == kmer_at(seq@, k as nat, s) by {}
        }
        return codes;
    }
    let mut span: u64 = 1;
    let mut e: usize = 0;
    while e < k
        invariant
            e <= k <= 31,
            span == pow4(e as nat),
        decreases k - e,
    {
        proof {
            lemma_pow4_monotone((e + 1) as nat, 31);
            lemma_pow4_31();
        }
        span = span * 4;
        e += 1;
    }
    proof {
        lemma_pow4_monotone(k as nat, 31);
        lemma_pow4_31();
        lemma_pow4_positive(k as nat);
    }
    let mut code: u64 = 0;
    let mut valid: usize = 0;
    let mut i: usize = 0;
    while i < n
        invariant
            1 <= k <= 31,
            n == seq@.len(),
            i <= n,
            codes@.len() == n,
            span == pow4(k as nat),
            span <= 0x4000_0000_0000_0000,
            valid <= i,
            all_acgt(seq@.subrange(i - valid, i as int)),
            valid < i ==> !is_acgt(seq@[i - valid - 1]),
            code == kmer_value(seq@.subrange(i - if valid < k { valid } else { k }, i as int)),
            code < span,
            forall|s: int|
                0 <= s < n ==> #[trigger] codes@[s] == if s + k <= i {
                    kmer_at(seq@, k as nat, s)
                } else {
                    None
                },
        decreases n - i,
    {
        let b = seq[i];
        let ghost m: int = if valid < k { valid as int } else { k as int };
        let ghost w = seq@.subrange(i - m, i as int);
        match base2(b) {
            Some(v) => {
                proof {
                    if m == k {
                        lemma_roll(w, b);
                        assert(w.drop_first().push(b) =~= seq@.subrange(i + 1 - m, i + 1));
                    } else {
                        assert(w.push(b).drop_last() =~= w);
                        assert(w.push(b) =~= seq@.subrange(i - m, i + 1));
                        lemma_kmer_value_bound(w.push(b));
                        lemma_pow4_monotone((m + 1) as nat, k as nat);
                        lemma_small_mod(kmer_value(w.push(b)), span as nat);
                    }
                    assert(seq@.subrange(i - valid, i + 1) =~= seq@.subrange(i - valid, i as int).push(b));
                }
                code = (code * 4 + v as u64) % span;
                valid += 1;
                if valid >= k {
                    let start = i + 1 - k;
                    proof {
                        assert(seq@.subrange(start as int, start + k) =~= seq@.subrange(i + 1 - k, i + 1));
                        assert forall|t: int| 0 <= t < k implies is_acgt(
                            #[trigger] seq@.subrange(start as int, start + k)[t],
                        ) by {
                            assert(seq@.subrange(start as int, start + k)[t]
                                == seq@.subrange(i + 1 - valid, i + 1)[t + valid - k]);
                        }
                    }
                    codes.set(start, Some(code));
                } else {
                    proof {
                        let start = i + 1 - k;
                        if start >= 0 {
                            let sub = seq@.subrange(start, start + k);
                            assert(sub[i - valid - start] == seq@[i - valid]);
                            assert(!all_acgt(sub));
                        }
                    }
                }
            },
            None => {
                proof {
                    let start = i + 1 - k;
                    if start >= 0 {
                        let sub = seq@.subrange(start, start + k);
                        assert(sub[k - 1] == seq@[i as int]);
                        assert(!all_acgt(sub));
                    }
                    assert(seq@.subrange(i + 1, i + 1) =~= Seq::<u8>::empty());
                }
                code = 0;
                valid = 0;
            },
        }
        i += 1;
    }
    codes
}

/// The upper-case bases of a k-mer code.
pub fn decode_kmer(code: u64, k: usize) -> (r: Vec<u8>)
    requires
        k <= 31,
    ensures
        r@ == decode_value(code as nat, k as nat),
{
    let mut r: Vec<u8> = Vec::new();
    if k == 0 {
        return r;
    }
    let mut d: u64 = 1;
    let mut e: usize = 1;
    while e < k
        invariant
            1 <= e <= k <= 31,
            d == pow4((e - 1) as nat),
        decreases k - e,
    {
        proof {
            lemma_pow4_monotone(e as nat, 31);
            lemma_pow4_31();
        }
        d = d * 4;
        e += 1;
    }
    let mut i: usize = 0;
    while i < k
        invariant
            i <= k <= 31,
            i < k ==> d == pow4((k - 1 - i) as nat),
            r@.len() == i,
            forall|j: int| 0 <= j < i ==> #[trigger] r@[j] == decode_value(code as nat, k as nat)[j],
        decreases k - i,
    {
        proof {
            lemma_pow4_positive((k - 1 - i) as nat);
        }
        let v = (code / d) % 4;
        let c: u8 = if v == 0 {
            65u8
        } else if v == 1 {
            67u8
        } else if v == 2 {
            71u8
        } else {
            84u8
        };
        r.push(c);
        if i + 1 < k {
            proof {
                assert(pow4((k - 1 - i) as nat) == 4 * pow4((k - 1 - (i + 1)) as nat));
            }
            d = d / 4;
        }
        i += 1;
    }
    r
}

/// Splitting a k-mer in two: the left part is shifted by the right part's length.
pub proof fn lemma_kmer_value_concat(a: Seq<u8>, b: Seq<u8>)
    ensures
        kmer_value(a + b) == kmer_value(a) * pow4(b.len()) + kmer_value(b),
    decreases b.len(),
{
    if b.len() == 0 {
        assert(a + b =~= a);
        assert(kmer_value(b) == 0);
        assert(pow4(0) == 1);
        assert(kmer_value(a) * 1 == kmer_value(a));
    } else {
        lemma_kmer_value_concat(a, b.drop_last());
        assert((a + b).drop_last() =~= a + b.drop_last());
        assert((a + b).last() == b.last());
        let p = pow4((b.len() - 1) as nat);
        assert(pow4(b.len()) == 4 * p);
        assert(kmer_value(a + b) == kmer_value(a + b.drop_last()) * 4 + digit(b.last()));
        assert(kmer_value(b) == kmer_value(b.drop_last()) * 4 + digit(b.last()));
        assert((kmer_value(a) * p + kmer_value(b.drop_last())) * 4 == kmer_value(a) * (4 * p)
            + kmer_value(b.drop_last()) * 4) by (nonlinear_arith);
    }
}

/// Encoding a run of nucleotides and decoding the code gives the run back, in
/// upper case.
pub proof fn lemma_decode_encode(s: Seq<u8>)
    requires
        all_acgt(s),
    ensures
        decode_value(kmer_value(s), s.len()) == s.map_values(|b: u8| upper_base(b)),
{
    let k = s.len();
    let x = kmer_value(s);
    assert forall|i: int| 0 <= i < k implies #[trigger] decode_value(x, k)[i] == upper_base(s[i]) by {
        let head = s.subrange(0, i);
        let tail = s.subrange(i + 1, k as int);
        let e = (k - 1 - i) as nat;
        assert(s =~= head.push(s[i]) + tail);
        assert(head.push(s[i]).drop_last() =~= head);
        lemma_kmer_value_concat(head.push(s[i]), tail);
        lemma_kmer_value_bound(tail);
        lemma_pow4_positive(e);
        lemma_fundamental_div_mod_converse(
            x as int,
            pow4(e) as int,
            kmer_value(head.push(s[i])) as int,
            kmer_value(tail) as int,
        );
        lemma_fundamental_div_mod_converse(
            kmer_value(head.push(s[i])) as int,
            4,
            kmer_value(head) as int,
            digit(s[i]) as int,
        );
    }
    assert(decode_value(x, k) =~= s.map_values(|b: u8| upper_base(b)));
}

} // verus!
