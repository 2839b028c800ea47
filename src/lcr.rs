//! Reported low-complexity intervals.
use core::cmp::Ordering;
use vstd::prelude::*;
use vstd::utf8::encode_utf8;

verus! {

/// A low-complexity region of a record: bases `start..=end`.
pub struct LCR {
    pub name: String,
    pub start: usize,
    pub end: usize,
}

impl LCR {
    pub fn new(name: String, start: usize, end: usize) -> (r: LCR)
        ensures
            r.name@ == name@,
            r.start == start,
            r.end == end,
    {
        LCR { name, start, end }
    }

    pub fn get_name(&self) -> (r: &str)
        ensures
            r@ == self.name@,
    {
        self.name.as_str()
    }

    pub fn get_start(&self) -> (r: usize)
        ensures
            r == self.start,
    {
        self.start
    }

    pub fn get_end(&self) -> (r: usize)
        ensures
            r == self.end,
    {
        self.end
    }
}

/// The bytes of an interval's name: names are ordered and compared by them.
pub open spec fn name_key(l: LCR) -> Seq<u8> {
    encode_utf8(l.name@)
}

/// Lexicographic order on byte strings, a proper prefix first.
pub open spec fn bytes_lt(a: Seq<u8>, b: Seq<u8>) -> bool
    decreases a.len(),
{
    if a.len() == 0 {
        b.len() > 0
    } else if b.len() == 0 {
        false
    } else if a[0] != b[0] {
        a[0] < b[0]
    } else {
        bytes_lt(a.drop_first(), b.drop_first())
    }
}

/// Order of intervals: by name, then start, then end.
pub open spec fn key_lt(a: LCR, b: LCR) -> bool {
    ||| bytes_lt(name_key(a), name_key(b))
    ||| name_key(a) == name_key(b) && a.start < b.start
    ||| name_key(a) == name_key(b) && a.start == b.start && a.end < b.end
}

/// `a` comes before `b` and does not reach it: another name that sorts
/// first, or the same name and an end before `b`'s start.
pub open spec fn separated(a: LCR, b: LCR) -> bool {
    ||| bytes_lt(name_key(a), name_key(b))
    ||| name_key(a) == name_key(b) && a.end < b.start
}

pub open spec fn all_valid(v: Seq<LCR>) -> bool {
    forall|i: int| 0 <= i < v.len() ==> (#[trigger] v[i]).start <= v[i].end
}

/// Sorted, with no two intervals of one name overlapping.
pub open spec fn is_merged(v: Seq<LCR>) -> bool {
    &&& all_valid(v)
    &&& forall|i: int, j: int| 0 <= i < j < v.len() ==> separated(#[trigger] v[i], #[trigger] v[j])
}

pub open spec fn covers_one(l: LCR, nm: Seq<u8>, p: int) -> bool {
    name_key(l) == nm && l.start <= p <= l.end
}

/// Some interval of `v` named `nm` holds position `p`.
pub open spec fn covers(v: Seq<LCR>, nm: Seq<u8>, p: int) -> bool {
    exists|i: int| 0 <= i < v.len() && covers_one(#[trigger] v[i], nm, p)
}

pub open spec fn links_one(l: LCR, nm: Seq<u8>, p: int) -> bool {
    name_key(l) == nm && l.start <= p && p + 1 <= l.end
}

/// Some interval of `v` named `nm` holds both `p` and `p + 1`.
pub open spec fn links(v: Seq<LCR>, nm: Seq<u8>, p: int) -> bool {
    exists|i: int| 0 <= i < v.len() && links_one(#[trigger] v[i], nm, p)
}

pub open spec fn contains_one(o: LCR, x: LCR) -> bool {
    name_key(o) == name_key(x) && o.start <= x.start && x.end <= o.end
}

/// Some interval of `out` holds `x`.
pub open spec fn contained_in(out: Seq<LCR>, x: LCR) -> bool {
    exists|j: int| 0 <= j < out.len() && contains_one(#[trigger] out[j], x)
}

/// Some interval of `v` carries the name of `l`.
pub open spec fn named_in(v: Seq<LCR>, l: LCR) -> bool {
    exists|i: int| 0 <= i < v.len() && (#[trigger] v[i]).name@ == l.name@
}

/// `out` is the merge of `input`: sorted and separated, holding the same
/// positions under each name, every input interval inside one output
/// interval, and each output interval chained from input intervals that
/// share positions.
pub open spec fn merged_from(out: Seq<LCR>, input: Seq<LCR>) -> bool {
    &&& is_merged(out)
    &&& forall|nm: Seq<u8>, p: int| covers(out, nm, p) <==> covers(input, nm, p)
    &&& forall|i: int| 0 <= i < input.len() ==> #[trigger] contained_in(out, input[i])
    &&& forall|j: int, p: int|
        0 <= j < out.len() && out[j].start <= p < out[j].end ==> #[trigger] links(
            input,
            name_key(out[j]),
            p,
        )
    &&& forall|j: int| 0 <= j < out.len() ==> #[trigger] named_in(input, out[j])
}

/// The same names and bounds, in the same order.
pub open spec fn same_intervals(a: Seq<LCR>, b: Seq<LCR>) -> bool {
    &&& a.len() == b.len()
    &&& forall|i: int|
        0 <= i < a.len() ==> (#[trigger] a[i]).name@ == b[i].name@ && a[i].start == b[i].start
            && a[i].end == b[i].end
}

/// What `merge_intervals` promises of its result `out` on `input`.
pub open spec fn merge_result(input: Seq<LCR>, out: Seq<LCR>) -> bool {
    &&& merged_from(out, input)
    &&& is_merged(input) ==> same_intervals(out, input)
}

pub proof fn lemma_bytes_lt_irreflexive(a: Seq<u8>)
    ensures
        !bytes_lt(a, a),
    decreases a.len(),
{
    if a.len() > 0 {
        lemma_bytes_lt_irreflexive(a.drop_first());
    }
}

pub proof fn lemma_bytes_lt_transitive(a: Seq<u8>, b: Seq<u8>, c: Seq<u8>)
    requires
        bytes_lt(a, b),
        bytes_lt(b, c),
    ensures
        bytes_lt(a, c),
    decreases a.len(),
{
    if a.len() > 0 && b.len() > 0 && c.len() > 0 && a[0] == b[0] && b[0] == c[0] {
        lemma_bytes_lt_transitive(a.drop_first(), b.drop_first(), c.drop_first());
    }
}

pub proof fn lemma_bytes_lt_total(a: Seq<u8>, b: Seq<u8>)
    requires
        a != b,
    ensures
        bytes_lt(a, b) || bytes_lt(b, a),
    decreases a.len(),
{
    if a.len() > 0 && b.len() > 0 && a[0] == b[0] {
        if a.drop_first() == b.drop_first() {
            assert(a =~= seq![a[0]] + a.drop_first());
            assert(b =~= seq![b[0]] + b.drop_first());
        }
        lemma_bytes_lt_total(a.drop_first(), b.drop_first());
    } else if a.len() == 0 && b.len() == 0 {
        assert(a =~= b);
    }
}

proof fn lemma_separated_transitive(a: LCR, b: LCR, c: LCR)
    requires
        separated(a, b),
        separated(b, c),
        b.start <= b.end,
    ensures
        separated(a, c),
{
    if bytes_lt(name_key(a), name_key(b)) && bytes_lt(name_key(b), name_key(c)) {
        lemma_bytes_lt_transitive(name_key(a), name_key(b), name_key(c));
    }
}

/// Compares byte strings lexicographically.
fn compare_bytes(a: &[u8], b: &[u8]) -> (r: Ordering)
    ensures
        (r == Ordering::Less) == bytes_lt(a@, b@),
        (r == Ordering::Equal) == (a@ == b@),
        (r == Ordering::Greater) == bytes_lt(b@, a@),
{
    let n = a.len();
    let m = b.len();
    let mut i: usize = 0;
    proof {
        assert(a@.subrange(0, n as int) =~= a@);
        assert(b@.subrange(0, m as int) =~= b@);
    }
    while i < n && i < m && a[i] == b[i]
        invariant
            i <= n,
            i <= m,
            n == a@.len(),
            m == b@.len(),
            a@.subrange(0, i as int) == b@.subrange(0, i as int),
            bytes_lt(a@, b@) == bytes_lt(a@.subrange(i as int, n as int), b@.subrange(i as int, m as int)),
            bytes_lt(b@, a@) == bytes_lt(b@.subrange(i as int, m as int), a@.subrange(i as int, n as int)),
        decreases n - i,
    {
        proof {
            assert(a@.subrange(i as int, n as int).drop_first() =~= a@.subrange(i + 1, n as int));
            assert(b@.subrange(i as int, m as int).drop_first() =~= b@.subrange(i + 1, m as int));
            assert(a@.subrange(0, i + 1) =~= a@.subrange(0, i as int).push(a@[i as int]));
            assert(b@.subrange(0, i + 1) =~= b@.subrange(0, i as int).push(b@[i as int]));
        }
        i += 1;
    }
    if i < n && i < m {
        if a[i] < b[i] {
            proof {
                assert(a@[i as int] != b@[i as int]);
            }
            Ordering::Less
        } else {
            proof {
                assert(a@[i as int] != b@[i as int]);
            }
            Ordering::Greater
        }
    } else if i < n {
        proof {
            assert(a@.len() != b@.len());
        }
        Ordering::Greater
    } else if i < m {
        proof {
            assert(a@.len() != b@.len());
        }
        Ordering::Less
    } else {
        proof {
            assert(a@ =~= a@.subrange(0, i as int));
            assert(b@ =~= b@.subrange(0, i as int));
            lemma_bytes_lt_irreflexive(a@);
        }
        Ordering::Equal
    }
}

/// The bytes of the interval's name.
fn name_bytes(l: &LCR) -> (r: &[u8])
    ensures
        r@ == name_key(*l),
{
    l.name.as_str().as_bytes()
}

/// Compares intervals by name, then start, then end.
pub fn compare_lcr(a: &LCR, b: &LCR) -> (r: Ordering)
    ensures
        (r == Ordering::Less) == key_lt(*a, *b),
        (r == Ordering::Greater) == key_lt(*b, *a),
        (r == Ordering::Equal) == (name_key(*a) == name_key(*b) && a.start == b.start && a.end
            == b.end),
{
    proof {
        lemma_bytes_lt_irreflexive(name_key(*a));
        if bytes_lt(name_key(*a), name_key(*b)) && bytes_lt(name_key(*b), name_key(*a)) {
            lemma_bytes_lt_transitive(name_key(*a), name_key(*b), name_key(*a));
        }
    }
    match compare_bytes(name_bytes(a), name_bytes(b)) {
        Ordering::Equal => {
            if a.start < b.start {
                Ordering::Less
            } else if a.start > b.start {
                Ordering::Greater
            } else if a.end < b.end {
                Ordering::Less
            } else if a.end > b.end {
                Ordering::Greater
            } else {
                Ordering::Equal
            }
        },
        other => other,
    }
}

/// No interval sorts before one that precedes it.
pub open spec fn sorted_by_key(v: Seq<LCR>) -> bool {
    forall|i: int, j: int| 0 <= i < j < v.len() ==> !key_lt(#[trigger] v[j], #[trigger] v[i])
}

/// Relies on `slice::sort_by`, here with `compare_lcr`, a total order: the
/// items are permuted into non-descending order.
#[verifier::external_body]
fn sort_lcrs(v: &mut Vec<LCR>)
    ensures
        final(v)@.to_multiset() == old(v)@.to_multiset(),
        sorted_by_key(final(v)@),
{
    v.sort_by(|a, b| compare_lcr(a, b));
}

fn copy_lcr(l: &LCR) -> (r: LCR)
    ensures
        r.name@ == l.name@,
        r.start == l.start,
        r.end == l.end,
{
    LCR { name: l.name.clone(), start: l.start, end: l.end }
}

/// Whether `a` comes before `b` without reaching it.
fn check_separated(a: &LCR, b: &LCR) -> (r: bool)
    ensures
        r == separated(*a, *b),
{
    match compare_bytes(name_bytes(a), name_bytes(b)) {
        Ordering::Less => true,
        Ordering::Equal => a.end < b.start,
        Ordering::Greater => {
            proof {
                lemma_bytes_lt_irreflexive(name_key(*a));
                if bytes_lt(name_key(*a), name_key(*b)) {
                    lemma_bytes_lt_transitive(name_key(*a), name_key(*b), name_key(*a));
                }
            }
            false
        },
    }
}

/// Whether the list is already merged: valid, sorted and separated.
fn check_merged(v: &Vec<LCR>) -> (r: bool)
    ensures
        r == is_merged(v@),
{
    let n = v.len();
    let mut i: usize = 0;
    while i < n
        invariant
            i <= n,
            n == v@.len(),
            forall|a: int| 0 <= a < i ==> (#[trigger] v@[a]).start <= v@[a].end,
            forall|a: int, b: int| 0 <= a < b < i ==> separated(#[trigger] v@[a], #[trigger] v@[b]),
        decreases n - i,
    {
        if v[i].start > v[i].end {
            return false;
        }
        if i > 0 {
            if !check_separated(&v[i - 1], &v[i]) {
                return false;
            }
            proof {
                assert forall|a: int, b: int| 0 <= a < b < i + 1 implies separated(
                    #[trigger] v@[a],
                    #[trigger] v@[b],
                ) by {
                    if b == i && a < i - 1 {
                        lemma_separated_transitive(v@[a], v@[i - 1], v@[b]);
                    }
                }
            }
        }
        i += 1;
    }
    true
}

/// The state of the sweep after `i` sorted intervals: `merged` holds the
/// closed intervals, `cur` the open one, begun by interval `g`.
#[verifier::opaque]
spec fn sweep_state(s: Seq<LCR>, merged: Seq<LCR>, cur: LCR, i: int, g: int) -> bool {
    &&& 1 <= i <= s.len()
    &&& all_valid(s)
    &&& sorted_by_key(s)
    &&& 0 <= g < i
    &&& name_key(cur) == name_key(s[g])
    &&& cur.name@ == s[g].name@
    &&& cur.start == s[g].start
    &&& cur.start <= cur.end
    &&& all_valid(merged)
    &&& forall|a: int, b: int| 0 <= a < b < merged.len() ==> separated(#[trigger] merged[a], #[trigger] merged[b])
    &&& forall|a: int| 0 <= a < merged.len() ==> separated(#[trigger] merged[a], cur)
    &&& forall|j: int, p: int|
        0 <= j < merged.len() && merged[j].start <= p <= merged[j].end ==> #[trigger] covers(
            s,
            name_key(merged[j]),
            p,
        )
    &&& forall|p: int| cur.start <= p <= cur.end ==> #[trigger] covers(s, name_key(cur), p)
    &&& forall|m: int|
        0 <= m < i ==> contains_one(cur, #[trigger] s[m]) || exists|j: int|
            0 <= j < merged.len() && contains_one(#[trigger] merged[j], s[m])
    &&& forall|j: int, p: int|
        0 <= j < merged.len() && merged[j].start <= p < merged[j].end ==> #[trigger] links(
            s,
            name_key(merged[j]),
            p,
        )
    &&& forall|p: int| cur.start <= p < cur.end ==> #[trigger] links(s, name_key(cur), p)
    &&& forall|j: int|
        0 <= j < merged.len() ==> exists|m: int|
            0 <= m < s.len() && (#[trigger] merged[j]).name@ == (#[trigger] s[m]).name@
}

/// What the sweep promises of `out` on sorted intervals `s`.
spec fn swept(s: Seq<LCR>, out: Seq<LCR>) -> bool {
    &&& is_merged(out)
    &&& forall|j: int, p: int|
        0 <= j < out.len() && out[j].start <= p <= out[j].end ==> #[trigger] covers(
            s,
            name_key(out[j]),
            p,
        )
    &&& forall|m: int|
        0 <= m < s.len() ==> exists|j: int|
            0 <= j < out.len() && contains_one(#[trigger] out[j], #[trigger] s[m])
    &&& forall|j: int, p: int|
        0 <= j < out.len() && out[j].start <= p < out[j].end ==> #[trigger] links(
            s,
            name_key(out[j]),
            p,
        )
    &&& forall|j: int|
        0 <= j < out.len() ==> exists|m: int|
            0 <= m < s.len() && (#[trigger] out[j]).name@ == (#[trigger] s[m]).name@
}

proof fn lemma_sweep_start(s: Seq<LCR>, cur: LCR)
    requires
        s.len() >= 1,
        all_valid(s),
        sorted_by_key(s),
        cur.name@ == s[0].name@,
        cur.start == s[0].start,
        cur.end == s[0].end,
    ensures
        sweep_state(s, Seq::empty(), cur, 1, 0),
{
    reveal(sweep_state);
    assert(s[0].start <= s[0].end);
    assert forall|p: int| cur.start <= p <= cur.end implies #[trigger] covers(s, name_key(cur), p) by {
        assert(covers_one(s[0], name_key(cur), p));
    }
    assert forall|p: int| cur.start <= p < cur.end implies #[trigger] links(s, name_key(cur), p) by {
        assert(links_one(s[0], name_key(cur), p));
    }
}

/// Interval `i` starts inside the open interval: the open interval grows.
proof fn lemma_sweep_extend(s: Seq<LCR>, merged: Seq<LCR>, cur: LCR, next: LCR, i: int, g: int)
    requires
        sweep_state(s, merged, cur, i, g),
        i < s.len(),
        name_key(s[i]) == name_key(cur),
        s[i].start <= cur.end,
        next.name@ == cur.name@,
        next.start == cur.start,
        next.end == if s[i].end > cur.end {
            s[i].end
        } else {
            cur.end
        },
    ensures
        sweep_state(s, merged, next, i + 1, g),
{
    reveal(sweep_state);
    let x = s[i];
    assert(!key_lt(s[i], s[g]));
    assert(x.start <= x.end);
    assert forall|p: int| next.start <= p <= next.end implies #[trigger] covers(s, name_key(next), p) by {
        if p > cur.end {
            assert(covers_one(s[i], name_key(next), p));
        } else {
            assert(covers(s, name_key(cur), p));
        }
    }
    assert forall|p: int| next.start <= p < next.end implies #[trigger] links(s, name_key(next), p) by {
        if p >= cur.end {
            assert(links_one(s[i], name_key(next), p));
        } else {
            assert(links(s, name_key(cur), p));
        }
    }
    assert forall|a: int| 0 <= a < merged.len() implies separated(#[trigger] merged[a], next) by {
        assert(separated(merged[a], cur));
    }
    assert forall|m: int| 0 <= m < i + 1 implies contains_one(next, #[trigger] s[m]) || exists|j: int|
        0 <= j < merged.len() && contains_one(#[trigger] merged[j], s[m]) by {
        if m < i {
            if contains_one(cur, s[m]) {
            }
        }
    }
}

/// Interval `i` does not reach the open interval: the open interval closes
/// and interval `i` opens the next.
proof fn lemma_sweep_close(s: Seq<LCR>, merged: Seq<LCR>, cur: LCR, next: LCR, i: int, g: int)
    requires
        sweep_state(s, merged, cur, i, g),
        i < s.len(),
        !(name_key(s[i]) == name_key(cur) && s[i].start <= cur.end),
        next.name@ == s[i].name@,
        next.start == s[i].start,
        next.end == s[i].end,
    ensures
        sweep_state(s, merged.push(cur), next, i + 1, i),
{
    reveal(sweep_state);
    let x = s[i];
    let grown = merged.push(cur);
    assert(!key_lt(s[i], s[g]));
    assert(x.start <= x.end);
    if name_key(x) != name_key(cur) {
        lemma_bytes_lt_total(name_key(s[g]), name_key(x));
    }
    assert(separated(cur, x));
    assert forall|a: int, b: int| 0 <= a < b < grown.len() implies separated(
        #[trigger] grown[a],
        #[trigger] grown[b],
    ) by {
        assert(grown[a] == merged[a]);
        if b < merged.len() {
            assert(grown[b] == merged[b]);
        }
    }
    assert forall|a: int| 0 <= a < grown.len() implies separated(#[trigger] grown[a], next) by {
        if a < merged.len() {
            assert(grown[a] == merged[a]);
            lemma_separated_transitive(merged[a], cur, x);
        }
    }
    assert forall|a: int| 0 <= a < grown.len() implies (#[trigger] grown[a]).start <= grown[a].end by {
        if a < merged.len() {
            assert(grown[a] == merged[a]);
        }
    }
    assert forall|j: int, p: int|
        0 <= j < grown.len() && grown[j].start <= p <= grown[j].end implies #[trigger] covers(
            s,
            name_key(grown[j]),
            p,
        ) by {
        if j < merged.len() {
            assert(grown[j] == merged[j]);
        }
    }
    assert forall|j: int, p: int|
        0 <= j < grown.len() && grown[j].start <= p < grown[j].end implies #[trigger] links(
            s,
            name_key(grown[j]),
            p,
        ) by {
        if j < merged.len() {
            assert(grown[j] == merged[j]);
        }
    }
    assert forall|p: int| next.start <= p <= next.end implies #[trigger] covers(s, name_key(next), p) by {
        assert(covers_one(s[i], name_key(next), p));
    }
    assert forall|p: int| next.start <= p < next.end implies #[trigger] links(s, name_key(next), p) by {
        assert(links_one(s[i], name_key(next), p));
    }
    assert forall|m: int| 0 <= m < i + 1 implies contains_one(next, #[trigger] s[m]) || exists|j: int|
        0 <= j < grown.len() && contains_one(#[trigger] grown[j], s[m]) by {
        if m < i {
            if contains_one(cur, s[m]) {
                assert(grown[merged.len() as int] == cur);
            } else {
                let j = choose|j: int| 0 <= j < merged.len() && contains_one(#[trigger] merged[j], s[m]);
                assert(grown[j] == merged[j]);
            }
        }
    }
    assert forall|j: int| 0 <= j < grown.len() implies exists|m: int|
        0 <= m < s.len() && (#[trigger] grown[j]).name@ == (#[trigger] s[m]).name@ by {
        if j < merged.len() {
            assert(grown[j] == merged[j]);
        } else {
            assert(grown[j].name@ == s[g].name@);
        }
    }
}

#[verifier::rlimit(30)]
proof fn lemma_sweep_finish(s: Seq<LCR>, merged: Seq<LCR>, cur: LCR, g: int)
    requires
        sweep_state(s, merged, cur, s.len() as int, g),
    ensures
        swept(s, merged.push(cur)),
{
    reveal(sweep_state);
    let out = merged.push(cur);
    assert forall|a: int, b: int| 0 <= a < b < out.len() implies separated(
        #[trigger] out[a],
        #[trigger] out[b],
    ) by {
        assert(out[a] == merged[a]);
        if b < merged.len() {
            assert(out[b] == merged[b]);
        }
    }
    assert forall|a: int| 0 <= a < out.len() implies (#[trigger] out[a]).start <= out[a].end by {
        if a < merged.len() {
            assert(out[a] == merged[a]);
        }
    }
    assert forall|j: int, p: int|
        0 <= j < out.len() && out[j].start <= p <= out[j].end implies #[trigger] covers(
            s,
            name_key(out[j]),
            p,
        ) by {
        if j < merged.len() {
            assert(out[j] == merged[j]);
        }
    }
    assert forall|j: int, p: int|
        0 <= j < out.len() && out[j].start <= p < out[j].end implies #[trigger] links(
            s,
            name_key(out[j]),
            p,
        ) by {
        if j < merged.len() {
            assert(out[j] == merged[j]);
        }
    }
    assert forall|m: int| 0 <= m < s.len() implies exists|j: int|
        0 <= j < out.len() && contains_one(#[trigger] out[j], #[trigger] s[m]) by {
        if contains_one(cur, s[m]) {
            assert(out[merged.len() as int] == cur);
        } else {
            let j = choose|j: int| 0 <= j < merged.len() && contains_one(#[trigger] merged[j], s[m]);
            assert(out[j] == merged[j]);
        }
    }
    assert forall|j: int| 0 <= j < out.len() implies exists|m: int|
        0 <= m < s.len() && (#[trigger] out[j]).name@ == (#[trigger] s[m]).name@ by {
        if j < merged.len() {
            assert(out[j] == merged[j]);
        } else {
            assert(out[j].name@ == s[g].name@);
        }
    }
}

/// One sweep over sorted intervals, coalescing each interval that starts
/// inside the interval built so far.
fn sweep(s: &Vec<LCR>) -> (out: Vec<LCR>)
    requires
        s@.len() >= 1,
        all_valid(s@),
        sorted_by_key(s@),
    ensures
        swept(s@, out@),
{
    let n = s.len();
    let mut merged: Vec<LCR> = Vec::new();
    let mut cur = copy_lcr(&s[0]);
    let ghost mut g: int = 0;
    let mut i: usize = 1;
    proof {
        lemma_sweep_start(s@, cur);
        assert(merged@ == Seq::<LCR>::empty());
    }
    while i < n
        invariant
            n == s@.len(),
            i <= n,
            sweep_state(s@, merged@, cur, i as int, g),
        decreases n - i,
    {
        let same = match compare_bytes(name_bytes(&s[i]), name_bytes(&cur)) {
            Ordering::Equal => true,
            _ => false,
        };
        if same && s[i].start <= cur.end {
            let ghost old_cur = cur;
            if s[i].end > cur.end {
                cur.end = s[i].end;
            }
            proof {
                lemma_sweep_extend(s@, merged@, old_cur, cur, i as int, g);
            }
        } else {
            let next = copy_lcr(&s[i]);
            proof {
                lemma_sweep_close(s@, merged@, cur, next, i as int, g);
            }
            merged.push(cur);
            cur = next;
            proof {
                g = i as int;
            }
        }
        i += 1;
    }
    proof {
        lemma_sweep_finish(s@, merged@, cur, g);
    }
    merged.push(cur);
    merged
}


/// What the sweep promises on `a` holds on `b` when both hold the same intervals.
proof fn lemma_swept_permuted(a: Seq<LCR>, b: Seq<LCR>, out: Seq<LCR>)
    requires
        swept(a, out),
        a.to_multiset() == b.to_multiset(),
    ensures
        merged_from(out, b),
{
    broadcast use vstd::seq_lib::group_to_multiset_ensures;

    assert forall|x: LCR| a.contains(x) <==> b.contains(x) by {
        vstd::seq_lib::to_multiset_contains(a, x);
        vstd::seq_lib::to_multiset_contains(b, x);
    }
    assert forall|nm: Seq<u8>, p: int| covers(out, nm, p) <==> covers(b, nm, p) by {
        if covers(out, nm, p) {
            let j = choose|j: int| 0 <= j < out.len() && covers_one(#[trigger] out[j], nm, p);
            assert(covers(a, name_key(out[j]), p));
            let i = choose|i: int| 0 <= i < a.len() && covers_one(#[trigger] a[i], nm, p);
            assert(a.contains(a[i]));
            let k = choose|k: int| 0 <= k < b.len() && b[k] == a[i];
            assert(covers_one(b[k], nm, p));
        }
        if covers(b, nm, p) {
            let i = choose|i: int| 0 <= i < b.len() && covers_one(#[trigger] b[i], nm, p);
            assert(b.contains(b[i]));
            let k = choose|k: int| 0 <= k < a.len() && a[k] == b[i];
            let j = choose|j: int| 0 <= j < out.len() && contains_one(#[trigger] out[j], #[trigger] a[k]);
            assert(covers_one(out[j], nm, p));
        }
    }
    assert forall|i: int| 0 <= i < b.len() implies #[trigger] contained_in(out, b[i]) by {
        assert(b.contains(b[i]));
        let k = choose|k: int| 0 <= k < a.len() && a[k] == b[i];
        let j = choose|j: int| 0 <= j < out.len() && contains_one(#[trigger] out[j], #[trigger] a[k]);
        assert(contains_one(out[j], b[i]));
    }
    assert forall|j: int, p: int| 0 <= j < out.len() && out[j].start <= p < out[j].end implies #[trigger] links(
        b,
        name_key(out[j]),
        p,
    ) by {
        assert(links(a, name_key(out[j]), p));
        let i = choose|i: int| 0 <= i < a.len() && links_one(#[trigger] a[i], name_key(out[j]), p);
        assert(a.contains(a[i]));
        let k = choose|k: int| 0 <= k < b.len() && b[k] == a[i];
        assert(links_one(b[k], name_key(out[j]), p));
    }
    assert forall|j: int| 0 <= j < out.len() implies #[trigger] named_in(b, out[j]) by {
        let m = choose|m: int| 0 <= m < a.len() && (#[trigger] out[j]).name@ == (#[trigger] a[m]).name@;
        assert(a.contains(a[m]));
        let k = choose|k: int| 0 <= k < b.len() && b[k] == a[m];
        assert(out[j].name@ == b[k].name@);
    }
}

/// A merged list is its own merge.
proof fn lemma_merged_from_itself(v: Seq<LCR>)
    requires
        is_merged(v),
    ensures
        merged_from(v, v),
        same_intervals(v, v),
{
    assert forall|i: int| 0 <= i < v.len() implies #[trigger] contained_in(v, v[i]) by {
        assert(contains_one(v[i], v[i]));
    }
    assert forall|j: int, p: int| 0 <= j < v.len() && v[j].start <= p < v[j].end implies #[trigger] links(
        v,
        name_key(v[j]),
        p,
    ) by {
        assert(links_one(v[j], name_key(v[j]), p));
    }
    assert forall|j: int| 0 <= j < v.len() implies #[trigger] named_in(v, v[j]) by {
        assert(v[j].name@ == v[j].name@);
    }
}

/// Merges the intervals of each name: sorted by name, start and end, each
/// interval that starts at or before the end of the one being built is
/// coalesced into it. A list that is already merged comes back unchanged.
pub fn merge_intervals(intervals: Vec<LCR>) -> (merged: Vec<LCR>)
    requires
        all_valid(intervals@),
    ensures
        merge_result(intervals@, merged@),
{
    if intervals.len() == 0 {
        proof {
            assert(is_merged(intervals@));
            lemma_merged_from_itself(intervals@);
        }
        return Vec::new();
    }
    if check_merged(&intervals) {
        proof {
            lemma_merged_from_itself(intervals@);
        }
        return intervals;
    }
    let ghost input = intervals@;
    let mut sorted = intervals;
    sort_lcrs(&mut sorted);
    proof {
        broadcast use vstd::seq_lib::group_to_multiset_ensures;

        assert forall|i: int| 0 <= i < sorted@.len() implies (#[trigger] sorted@[i]).start <= sorted@[i].end by {
            assert(sorted@.contains(sorted@[i]));
            assert(sorted@.to_multiset().count(sorted@[i]) > 0);
            assert(input.contains(sorted@[i]));
        }
    }
    proof {
        broadcast use vstd::seq_lib::group_to_multiset_ensures;

        assert(sorted@.to_multiset().len() == input.to_multiset().len());
    }
    let out = sweep(&sorted);
    proof {
        lemma_swept_permuted(sorted@, input, out@);
    }
    out
}

/// Merging a merged list gives the same intervals back.
pub proof fn lemma_merge_idempotent(input: Seq<LCR>, once: Seq<LCR>, twice: Seq<LCR>)
    requires
        merge_result(input, once),
        merge_result(once, twice),
    ensures
        same_intervals(twice, once),
{
}


/// Same name bytes and bounds.
pub open spec fn same_span(a: LCR, b: LCR) -> bool {
    name_key(a) == name_key(b) && a.start == b.start && a.end == b.end
}

/// Some interval of `v` has the span of `x`.
pub open spec fn has_span(v: Seq<LCR>, x: LCR) -> bool {
    exists|j: int| 0 <= j < v.len() && same_span(x, #[trigger] v[j])
}

/// Every interval of `a` has one of the same span in `b`, and back.
pub open spec fn same_spans(a: Seq<LCR>, b: Seq<LCR>) -> bool {
    &&& forall|i: int| 0 <= i < a.len() ==> #[trigger] has_span(b, a[i])
    &&& forall|j: int| 0 <= j < b.len() ==> #[trigger] has_span(a, b[j])
}

proof fn lemma_same_spans_links(a: Seq<LCR>, b: Seq<LCR>, nm: Seq<u8>, p: int)
    requires
        same_spans(a, b),
    ensures
        links(a, nm, p) <==> links(b, nm, p),
        covers(a, nm, p) <==> covers(b, nm, p),
{
    if links(a, nm, p) {
        let i = choose|i: int| 0 <= i < a.len() && links_one(#[trigger] a[i], nm, p);
        assert(has_span(b, a[i]));
        let j = choose|j: int| 0 <= j < b.len() && same_span(a[i], #[trigger] b[j]);
        assert(links_one(b[j], nm, p));
    }
    if links(b, nm, p) {
        let j = choose|j: int| 0 <= j < b.len() && links_one(#[trigger] b[j], nm, p);
        assert(has_span(a, b[j]));
        let i = choose|i: int| 0 <= i < a.len() && same_span(b[j], #[trigger] a[i]);
        assert(links_one(a[i], nm, p));
    }
    if covers(a, nm, p) {
        let i = choose|i: int| 0 <= i < a.len() && covers_one(#[trigger] a[i], nm, p);
        assert(has_span(b, a[i]));
        let j = choose|j: int| 0 <= j < b.len() && same_span(a[i], #[trigger] b[j]);
        assert(covers_one(b[j], nm, p));
    }
    if covers(b, nm, p) {
        let j = choose|j: int| 0 <= j < b.len() && covers_one(#[trigger] b[j], nm, p);
        assert(has_span(a, b[j]));
        let i = choose|i: int| 0 <= i < a.len() && same_span(b[j], #[trigger] a[i]);
        assert(covers_one(a[i], nm, p));
    }
}

proof fn lemma_separated_same_key(a: LCR, b: LCR)
    requires
        separated(a, b),
        name_key(a) == name_key(b),
    ensures
        a.end < b.start,
{
    lemma_bytes_lt_irreflexive(name_key(a));
}

proof fn lemma_separated_asymmetric(a: LCR, b: LCR)
    requires
        separated(a, b),
        a.start <= a.end,
        b.start <= b.end,
    ensures
        !separated(b, a),
{
    lemma_bytes_lt_irreflexive(name_key(a));
    if bytes_lt(name_key(a), name_key(b)) && bytes_lt(name_key(b), name_key(a)) {
        lemma_bytes_lt_transitive(name_key(a), name_key(b), name_key(a));
    }
}

/// Two intervals of a merged list that share a position and a name are one.
proof fn lemma_merged_disjoint(o: Seq<LCR>, i: int, j: int, p: int)
    requires
        is_merged(o),
        0 <= i < o.len(),
        0 <= j < o.len(),
        name_key(o[i]) == name_key(o[j]),
        o[i].start <= p <= o[i].end,
        o[j].start <= p <= o[j].end,
    ensures
        i == j,
{
    if i < j {
        lemma_separated_same_key(o[i], o[j]);
    } else if j < i {
        lemma_separated_same_key(o[j], o[i]);
    }
}

/// A merged interval ends where no input interval links on, and starts
/// where none links into it.
proof fn lemma_merged_bounds(o: Seq<LCR>, input: Seq<LCR>, j: int)
    requires
        merged_from(o, input),
        0 <= j < o.len(),
    ensures
        !links(input, name_key(o[j]), o[j].end as int),
        !links(input, name_key(o[j]), o[j].start - 1),
        covers(input, name_key(o[j]), o[j].start as int),
{
    let nm = name_key(o[j]);
    assert(o[j].start <= o[j].end);
    assert(covers_one(o[j], nm, o[j].start as int));
    assert(covers(o, nm, o[j].start as int));
    if links(input, nm, o[j].end as int) {
        let i = choose|i: int| 0 <= i < input.len() && links_one(#[trigger] input[i], nm, o[j].end as int);
        assert(contained_in(o, input[i]));
        let m = choose|m: int| 0 <= m < o.len() && contains_one(#[trigger] o[m], input[i]);
        lemma_merged_disjoint(o, m, j, o[j].end as int);
    }
    if links(input, nm, o[j].start - 1) {
        let i = choose|i: int| 0 <= i < input.len() && links_one(#[trigger] input[i], nm, o[j].start - 1);
        assert(contained_in(o, input[i]));
        let m = choose|m: int| 0 <= m < o.len() && contains_one(#[trigger] o[m], input[i]);
        lemma_merged_disjoint(o, m, j, o[j].start as int);
    }
}

/// Each interval of one merge of the input has its span in any other.
proof fn lemma_merged_span_found(o1: Seq<LCR>, in1: Seq<LCR>, o2: Seq<LCR>, in2: Seq<LCR>, j: int)
    requires
        merged_from(o1, in1),
        merged_from(o2, in2),
        same_spans(in1, in2),
        0 <= j < o1.len(),
    ensures
        has_span(o2, o1[j]),
{
    let nm = name_key(o1[j]);
    let s = o1[j].start as int;
    let e = o1[j].end as int;
    lemma_merged_bounds(o1, in1, j);
    lemma_same_spans_links(in1, in2, nm, s);
    assert(covers(o2, nm, s));
    let m = choose|m: int| 0 <= m < o2.len() && covers_one(#[trigger] o2[m], nm, s);
    if o2[m].start < s {
        assert(links(in2, nm, s - 1));
        lemma_same_spans_links(in1, in2, nm, s - 1);
    }
    lemma_merged_bounds(o2, in2, m);
    if o2[m].end < e {
        assert(links(in1, nm, o2[m].end as int));
        lemma_same_spans_links(in1, in2, nm, o2[m].end as int);
    }
    if o2[m].end > e {
        assert(links(in2, nm, e));
        lemma_same_spans_links(in1, in2, nm, e);
    }
    assert(same_span(o1[j], o2[m]));
}

/// Merges of inputs with the same spans hold the same spans, in the same order.
pub proof fn lemma_merge_unique(o1: Seq<LCR>, in1: Seq<LCR>, o2: Seq<LCR>, in2: Seq<LCR>)
    requires
        merged_from(o1, in1),
        merged_from(o2, in2),
        same_spans(in1, in2),
    ensures
        o1.len() == o2.len(),
        forall|j: int| 0 <= j < o1.len() ==> same_span(#[trigger] o1[j], o2[j]),
{
    assert(same_spans(in2, in1));
    assert forall|j: int| 0 <= j < o1.len() implies #[trigger] has_span(o2, o1[j]) by {
        lemma_merged_span_found(o1, in1, o2, in2, j);
    }
    assert forall|m: int| 0 <= m < o2.len() implies #[trigger] has_span(o1, o2[m]) by {
        lemma_merged_span_found(o2, in2, o1, in1, m);
    }
    lemma_sorted_same_spans(o1, o2);
}

/// Two merged lists holding the same spans are the same list of spans.
proof fn lemma_sorted_same_spans(o1: Seq<LCR>, o2: Seq<LCR>)
    requires
        is_merged(o1),
        is_merged(o2),
        same_spans(o1, o2),
    ensures
        o1.len() == o2.len(),
        forall|j: int| 0 <= j < o1.len() ==> same_span(#[trigger] o1[j], o2[j]),
    decreases o1.len() + o2.len(),
{
    let n1 = o1.len() as int;
    let n2 = o2.len() as int;
    if n1 == 0 || n2 == 0 {
        if n1 > 0 {
            assert(has_span(o2, o1[0]));
        }
        if n2 > 0 {
            assert(has_span(o1, o2[0]));
        }
        return;
    }
    // The last elements match: each is the largest of its list.
    let a = o1[n1 - 1];
    let b = o2[n2 - 1];
    assert(has_span(o2, a));
    assert(has_span(o1, b));
    let m = choose|m: int| 0 <= m < o2.len() && same_span(a, #[trigger] o2[m]);
    let j = choose|j: int| 0 <= j < o1.len() && same_span(b, #[trigger] o1[j]);
    if m < n2 - 1 {
        // o2[m] before b: then o1's match of b lies after a, which is last.
        assert(separated(o2[m], b));
        if j < n1 - 1 {
            assert(separated(o1[j], a));
            assert(separated(b, o2[m]));
            lemma_separated_asymmetric(o2[m], b);
        }
        assert(same_span(a, b));
        assert(separated(b, b));
        lemma_separated_same_key(b, b);
    }
    assert(same_span(a, b));
    let p1 = o1.drop_last();
    let p2 = o2.drop_last();
    assert forall|x: int| 0 <= x < p1.len() implies #[trigger] has_span(p2, p1[x]) by {
        assert(has_span(o2, o1[x]));
        let y = choose|y: int| 0 <= y < o2.len() && same_span(o1[x], #[trigger] o2[y]);
        assert(separated(o1[x], a));
        if y == n2 - 1 {
            lemma_separated_same_key(o1[x], a);
        }
        assert(p2[y] == o2[y]);
    }
    assert forall|y: int| 0 <= y < p2.len() implies #[trigger] has_span(p1, p2[y]) by {
        assert(has_span(o1, o2[y]));
        let x = choose|x: int| 0 <= x < o1.len() && same_span(o2[y], #[trigger] o1[x]);
        assert(separated(o2[y], b));
        if x == n1 - 1 {
            lemma_separated_same_key(o2[y], b);
        }
        assert(p1[x] == o1[x]);
    }
    assert forall|x: int, y: int| 0 <= x < y < p1.len() implies separated(#[trigger] p1[x], #[trigger] p1[y]) by {
        assert(separated(o1[x], o1[y]));
    }
    assert forall|x: int, y: int| 0 <= x < y < p2.len() implies separated(#[trigger] p2[x], #[trigger] p2[y]) by {
        assert(separated(o2[x], o2[y]));
    }
    assert forall|x: int| 0 <= x < p1.len() implies (#[trigger] p1[x]).start <= p1[x].end by {
        assert(o1[x].start <= o1[x].end);
    }
    assert forall|x: int| 0 <= x < p2.len() implies (#[trigger] p2[x]).start <= p2[x].end by {
        assert(o2[x].start <= o2[x].end);
    }
    lemma_sorted_same_spans(p1, p2);
    assert forall|x: int| 0 <= x < o1.len() implies same_span(#[trigger] o1[x], o2[x]) by {
        if x < n1 - 1 {
            assert(p1[x] == o1[x]);
            assert(p2[x] == o2[x]);
        }
    }
}

} // verus!
