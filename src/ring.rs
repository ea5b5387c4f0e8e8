//! Facts about the circular lists that thread the members of each set.
use vstd::prelude::*;
use vstd::set_lib::{lemma_int_range, lemma_len_subset, set_int_range};

use crate::metadata::Metadata;

verus! {

/// The member that follows position `m` of the circular list `r`.
pub open spec fn next_in(r: Seq<int>, m: int) -> int {
    if m + 1 < r.len() {
        r[m + 1]
    } else {
        r[0]
    }
}

/// Every member of `r` links to the member after it, the last one back to the first.
pub open spec fn ring_links(meta: Seq<Metadata>, r: Seq<int>) -> bool {
    forall|m: int| 0 <= m < r.len() ==> #[trigger] meta[r[m]].link == next_in(r, m)
}

/// Every member of `r` is an index below `n`.
pub open spec fn within(r: Seq<int>, n: int) -> bool {
    forall|m: int| 0 <= m < r.len() ==> 0 <= #[trigger] r[m] < n
}

/// The same circular list, read from position `p` on.
pub open spec fn rotate(r: Seq<int>, p: int) -> Seq<int> {
    r.subrange(p, r.len() as int) + r.subrange(0, p)
}

/// A list without repeats, all of whose members lie below `n`, has at most `n` members.
pub proof fn lemma_distinct_below(r: Seq<int>, n: int)
    requires
        r.no_duplicates(),
        within(r, n),
        0 <= n,
    ensures
        r.len() <= n,
{
    r.unique_seq_to_set();
    lemma_int_range(0, n);
    assert(r.to_set().subset_of(set_int_range(0, n))) by {
        assert forall|x: int| r.to_set().contains(x) implies set_int_range(0, n).contains(x) by {
            let m = choose|m: int| 0 <= m < r.len() && r[m] == x;
        }
    }
    lemma_len_subset(r.to_set(), set_int_range(0, n));
}

/// Reading a circular list from another start keeps its members and its links.
pub proof fn lemma_rotate(meta: Seq<Metadata>, r: Seq<int>, p: int)
    requires
        0 <= p < r.len(),
        r.no_duplicates(),
        ring_links(meta, r),
    ensures
        rotate(r, p).len() == r.len(),
        rotate(r, p)[0] == r[p],
        rotate(r, p).no_duplicates(),
        ring_links(meta, rotate(r, p)),
        forall|x: int| rotate(r, p).contains(x) <==> r.contains(x),
        forall|m: int|
            0 <= m < r.len() ==> #[trigger] rotate(r, p)[m] == (if p + m < r.len() {
                r[p + m]
            } else {
                r[p + m - r.len()]
            }),
{
    let s = rotate(r, p);
    let len = r.len() as int;
    assert forall|m: int| 0 <= m < len implies #[trigger] s[m] == (if p + m < len {
        r[p + m]
    } else {
        r[p + m - len]
    }) by {}
    assert forall|a: int, b: int| 0 <= a < len && 0 <= b < len && a != b implies s[a] != s[b] by {
        let ia = if p + a < len { p + a } else { p + a - len };
        let ib = if p + b < len { p + b } else { p + b - len };
        assert(s[a] == r[ia]);
        assert(s[b] == r[ib]);
    }
    assert forall|m: int| 0 <= m < len implies #[trigger] meta[s[m]].link == next_in(s, m) by {
        let im = if p + m < len { p + m } else { p + m - len };
        assert(s[m] == r[im]);
        assert(meta[r[im]].link == next_in(r, im));
        if m + 1 < len {
            assert(s[m + 1] == r[if p + m + 1 < len { p + m + 1 } else { p + m + 1 - len }]);
        } else {
            assert(s[0] == r[p]);
        }
    }
    assert forall|x: int| s.contains(x) <==> r.contains(x) by {
        if s.contains(x) {
            let m = choose|m: int| 0 <= m < len && s[m] == x;
            let im = if p + m < len { p + m } else { p + m - len };
            assert(r[im] == x);
        }
        if r.contains(x) {
            let k = choose|k: int| 0 <= k < len && r[k] == x;
            let m = if k >= p { k - p } else { k + len - p };
            assert(s[m] == x);
        }
    }
}

/// The list of the union of two sets: the lists `a` and `b` cut open after their first members
/// and joined, which is what exchanging the links of those two first members does.
pub open spec fn splice(a: Seq<int>, b: Seq<int>) -> Seq<int> {
    seq![b[0]] + a.skip(1) + seq![a[0]] + b.skip(1)
}

/// Exchanging the links of the first members of two disjoint circular lists joins them into
/// the circular list `splice(a, b)`.
pub proof fn lemma_splice(before: Seq<Metadata>, after: Seq<Metadata>, a: Seq<int>, b: Seq<int>)
    requires
        a.len() >= 1,
        b.len() >= 1,
        (a + b).no_duplicates(),
        ring_links(before, a),
        ring_links(before, b),
        after[a[0]].link == before[b[0]].link,
        after[b[0]].link == before[a[0]].link,
        forall|m: int| 1 <= m < a.len() ==> after[#[trigger] a[m]].link == before[a[m]].link,
        forall|m: int| 1 <= m < b.len() ==> after[#[trigger] b[m]].link == before[b[m]].link,
    ensures
        splice(a, b).len() == a.len() + b.len(),
        splice(a, b)[0] == b[0],
        splice(a, b).no_duplicates(),
        ring_links(after, splice(a, b)),
        forall|x: int| splice(a, b).contains(x) <==> (a.contains(x) || b.contains(x)),
{
    let s = splice(a, b);
    let la = a.len() as int;
    let lb = b.len() as int;
    let ab = a + b;
    // Where each position of the joined list comes from.
    let src = |k: int| if k == 0 { la } else if k < la { k } else if k == la { 0 } else { k };
    assert forall|k: int| 0 <= k < la + lb implies #[trigger] s[k] == ab[src(k)] by {}
    assert forall|k1: int, k2: int| 0 <= k1 < la + lb && 0 <= k2 < la + lb && k1 != k2 implies s[k1]
        != s[k2] by {
        assert(s[k1] == ab[src(k1)]);
        assert(s[k2] == ab[src(k2)]);
    }
    assert forall|k: int| 0 <= k < la + lb implies #[trigger] after[s[k]].link == next_in(s, k) by {
        if k == 0 {
            assert(before[a[0]].link == next_in(a, 0));
        } else if k < la {
            assert(s[k] == a[k]);
            assert(before[a[k]].link == next_in(a, k));
        } else if k == la {
            assert(before[b[0]].link == next_in(b, 0));
        } else {
            assert(s[k] == b[k - la]);
            assert(before[b[k - la]].link == next_in(b, k - la));
        }
    }
    assert forall|x: int| s.contains(x) <==> (a.contains(x) || b.contains(x)) by {
        if s.contains(x) {
            let k = choose|k: int| 0 <= k < la + lb && s[k] == x;
            assert(s[k] == ab[src(k)]);
            if src(k) < la {
                assert(a[src(k)] == x);
            } else {
                assert(b[src(k) - la] == x);
            }
        }
        if a.contains(x) {
            let k = choose|k: int| 0 <= k < la && a[k] == x;
            if k == 0 {
                assert(s[la] == x);
            } else {
                assert(s[k] == x);
            }
        }
        if b.contains(x) {
            let k = choose|k: int| 0 <= k < lb && b[k] == x;
            if k == 0 {
                assert(s[0] == x);
            } else {
                assert(s[la + k] == x);
            }
        }
    }
}

/// If every index below `bound` links below `bound`, a circular list with one member below
/// `bound` lies below `bound` entirely.
pub proof fn lemma_closed_below(meta: Seq<Metadata>, r: Seq<int>, bound: int, m: int)
    requires
        ring_links(meta, r),
        0 <= m < r.len(),
        0 <= r[m] < bound,
        forall|x: int| 0 <= x < bound ==> 0 <= #[trigger] meta[x].link < bound,
    ensures
        forall|k: int| 0 <= k < r.len() ==> 0 <= #[trigger] r[k] < bound,
{
    let len = r.len() as int;
    let at = |t: int| if m + t < len { m + t } else { m + t - len };
    assert forall|t: int| 0 <= t < len implies 0 <= #[trigger] r[at(t)] < bound by {
        lemma_closed_step(meta, r, bound, m, t);
    }
    assert forall|k: int| 0 <= k < len implies 0 <= #[trigger] r[k] < bound by {
        let t = if k >= m { k - m } else { k + len - m };
        assert(at(t) == k);
        assert(0 <= r[at(t)] < bound);
    }
}

proof fn lemma_closed_step(meta: Seq<Metadata>, r: Seq<int>, bound: int, m: int, t: int)
    requires
        ring_links(meta, r),
        0 <= m < r.len(),
        0 <= r[m] < bound,
        forall|x: int| 0 <= x < bound ==> 0 <= #[trigger] meta[x].link < bound,
        0 <= t < r.len(),
    ensures
        0 <= r[if m + t < r.len() { m + t } else { m + t - r.len() }] < bound,
    decreases t,
{
    if t > 0 {
        lemma_closed_step(meta, r, bound, m, t - 1);
        let len = r.len() as int;
        let prev = if m + t - 1 < len { m + t - 1 } else { m + t - 1 - len };
        assert(meta[r[prev]].link == next_in(r, prev));
    }
}

/// A list without repeats that avoids `gone` keeps that property under a map `f` that `g`
/// undoes everywhere but at `gone`.
pub proof fn lemma_map_distinct(r: Seq<int>, f: spec_fn(int) -> int, g: spec_fn(int) -> int, gone: int)
    requires
        r.no_duplicates(),
        forall|m: int| 0 <= m < r.len() ==> #[trigger] r[m] != gone && g(f(r[m])) == r[m],
    ensures
        r.map_values(f).no_duplicates(),
{
    let ml = r.map_values(f);
    assert forall|m1: int, m2: int| 0 <= m1 < ml.len() && 0 <= m2 < ml.len() && m1 != m2 implies ml[m1]
        != ml[m2] by {
        assert(r[m1] != gone && r[m2] != gone);
    }
}

} // verus!
