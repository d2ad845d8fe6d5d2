//! Closed integer intervals of IPv4 addresses, used to merge subnet blocks.
//!
//! Normalization converts blocks to intervals, sorts them, and merges
//! overlapping or touching intervals into a gapped list: sorted, disjoint,
//! with at least one uncovered address between consecutive intervals.  A
//! gapped list is uniquely determined by the set of addresses it covers,
//! which is what makes normalization canonical.

use vstd::prelude::*;
use vstd::relations::{sorted_by, total_ordering};
use vstd::seq_lib::lemma_sorted_unique;

verus! {

/// A closed interval of addresses, `lo..=hi`.
#[derive(Clone, Copy, PartialEq, Eq, Structural, Debug)]
pub struct Ival {
    pub lo: u64,
    pub hi: u64,
}

impl Ival {
    /// Non-empty and within the IPv4 address space.
    pub open spec fn wf(self) -> bool {
        self.lo <= self.hi <= 0xFFFF_FFFFu64
    }

    /// Whether address `a` lies inside the interval.
    pub open spec fn covers(self, a: int) -> bool {
        self.lo <= a <= self.hi
    }
}

pub open spec fn all_wf(s: Seq<Ival>) -> bool {
    forall|k: int| 0 <= k < s.len() ==> (#[trigger] s[k]).wf()
}

/// Whether some interval of `s` covers address `a`.
pub open spec fn covered(s: Seq<Ival>, a: int) -> bool {
    exists|k: int| 0 <= k < s.len() && (#[trigger] s[k]).covers(a)
}

/// Whether some interval of `s` at index `i` or later covers address `a`.
pub open spec fn covered_from(s: Seq<Ival>, i: int, a: int) -> bool {
    exists|k: int| i <= k < s.len() && (#[trigger] s[k]).covers(a)
}

/// Interval order: by lower bound, ties by upper bound.
pub open spec fn ile(a: Ival, b: Ival) -> bool {
    a.lo < b.lo || (a.lo == b.lo && a.hi <= b.hi)
}

/// The interval order as a first-class relation.
pub open spec fn ile_leq() -> spec_fn(Ival, Ival) -> bool {
    |a: Ival, b: Ival| ile(a, b)
}

pub proof fn lemma_ile_total()
    ensures
        total_ordering(ile_leq()),
{
    let leq = ile_leq();
    assert forall|a: Ival, b: Ival| #[trigger] leq(a, b) && #[trigger] leq(b, a) implies a == b by {
    }
}

/// Sorted, pairwise disjoint, and separated by at least one uncovered address.
pub open spec fn gapped(s: Seq<Ival>) -> bool {
    &&& all_wf(s)
    &&& forall|i: int| #![trigger s[i]] 0 <= i && i + 1 < s.len() ==> s[i].hi + 1 < s[i + 1].lo
}

pub proof fn lemma_gapped_mono(s: Seq<Ival>, i: int, j: int)
    requires
        gapped(s),
        0 <= i < j < s.len(),
    ensures
        s[i].hi + 1 < s[j].lo,
    decreases j - i,
{
    if j > i + 1 {
        lemma_gapped_mono(s, i, j - 1);
    }
}

pub proof fn lemma_gapped_drop_first(s: Seq<Ival>)
    requires
        gapped(s),
        s.len() >= 1,
    ensures
        gapped(s.drop_first()),
    decreases s.len(),
{
    let t = s.drop_first();
    assert forall|k: int| 0 <= k < t.len() implies (#[trigger] t[k]).wf() by {
        assert(t[k] == s[k + 1]);
    }
    assert forall|i: int| #![trigger t[i]] 0 <= i && i + 1 < t.len() implies t[i].hi + 1 < t[i
        + 1].lo by {
        assert(t[i] == s[i + 1]);
        assert(t[i + 1] == s[i + 2]);
    }
}

/// A gapped interval list is determined by the addresses it covers.
pub proof fn lemma_gapped_unique(x: Seq<Ival>, y: Seq<Ival>)
    requires
        gapped(x),
        gapped(y),
        forall|a: int| covered(x, a) <==> covered(y, a),
    ensures
        x == y,
    decreases x.len(),
{
    if x.len() == 0 {
        if y.len() > 0 {
            assert(y[0].covers(y[0].lo as int));
            assert(covered(y, y[0].lo as int));
            assert(false);
        }
        assert(x =~= y);
    } else {
        assert(x[0].covers(x[0].lo as int));
        assert(covered(x, x[0].lo as int));
        if y.len() == 0 {
            assert(false);
        }
        // The first lower bounds agree: each is the minimum covered address.
        assert forall|a: int| covered(x, a) implies a >= x[0].lo by {
            let k = choose|k: int| 0 <= k < x.len() && (#[trigger] x[k]).covers(a);
            if k > 0 {
                lemma_gapped_mono(x, 0, k);
            }
        }
        assert forall|a: int| covered(y, a) implies a >= y[0].lo by {
            let k = choose|k: int| 0 <= k < y.len() && (#[trigger] y[k]).covers(a);
            if k > 0 {
                lemma_gapped_mono(y, 0, k);
            }
        }
        assert(y[0].covers(y[0].lo as int));
        assert(covered(y, y[0].lo as int));
        assert(x[0].lo == y[0].lo);
        // The first upper bounds agree: one past either is uncovered.
        assert(x[0].hi == y[0].hi) by {
            if x[0].hi < y[0].hi {
                let a = x[0].hi + 1;
                assert(y[0].covers(a));
                assert(covered(y, a));
                let k = choose|k: int| 0 <= k < x.len() && (#[trigger] x[k]).covers(a);
                if k > 0 {
                    lemma_gapped_mono(x, 0, k);
                }
                assert(false);
            }
            if y[0].hi < x[0].hi {
                let a = y[0].hi + 1;
                assert(x[0].covers(a));
                assert(covered(x, a));
                let k = choose|k: int| 0 <= k < y.len() && (#[trigger] y[k]).covers(a);
                if k > 0 {
                    lemma_gapped_mono(y, 0, k);
                }
                assert(false);
            }
        }
        assert(x[0] == y[0]);
        let xt = x.drop_first();
        let yt = y.drop_first();
        lemma_gapped_drop_first(x);
        lemma_gapped_drop_first(y);
        assert forall|a: int| covered(xt, a) <==> covered(x, a) && a > x[0].hi by {
            lemma_covered_tail(x, a);
        }
        assert forall|a: int| covered(yt, a) <==> covered(y, a) && a > y[0].hi by {
            lemma_covered_tail(y, a);
        }
        assert forall|a: int| covered(xt, a) <==> covered(yt, a) by {
            lemma_covered_tail(x, a);
            lemma_covered_tail(y, a);
        }
        lemma_gapped_unique(xt, yt);
        assert(x =~= y) by {
            assert(x.len() == xt.len() + 1 == yt.len() + 1 == y.len());
            assert forall|i: int| 0 <= i < x.len() implies x[i] == y[i] by {
                if i > 0 {
                    assert(x[i] == xt[i - 1]);
                    assert(y[i] == yt[i - 1]);
                }
            }
        }
    }
}

/// In a gapped list, the tail covers exactly what lies beyond the head.
pub proof fn lemma_covered_tail(s: Seq<Ival>, a: int)
    requires
        gapped(s),
        s.len() >= 1,
    ensures
        covered(s.drop_first(), a) <==> (covered(s, a) && a > s[0].hi),
{
    let t = s.drop_first();
    if covered(t, a) {
        let k = choose|k: int| 0 <= k < t.len() && (#[trigger] t[k]).covers(a);
        assert(t[k] == s[k + 1]);
        assert(covered(s, a));
        lemma_gapped_mono(s, 0, k + 1);
    }
    if covered(s, a) && a > s[0].hi {
        let k = choose|k: int| 0 <= k < s.len() && (#[trigger] s[k]).covers(a);
        assert(k > 0);
        assert(t[k - 1] == s[k]);
        assert(covered(t, a));
    }
}

proof fn lemma_covered_from_unfold(s: Seq<Ival>, i: int, a: int)
    requires
        0 <= i < s.len(),
    ensures
        covered_from(s, i, a) <==> (s[i].covers(a) || covered_from(s, i + 1, a)),
{
    if s[i].covers(a) {
        assert(covered_from(s, i, a));
    }
    if covered_from(s, i + 1, a) {
        let k = choose|k: int| i + 1 <= k < s.len() && (#[trigger] s[k]).covers(a);
        assert(covered_from(s, i, a));
    }
    if covered_from(s, i, a) && !s[i].covers(a) {
        let k = choose|k: int| i <= k < s.len() && (#[trigger] s[k]).covers(a);
        assert(k != i);
        assert(covered_from(s, i + 1, a));
    }
}

proof fn lemma_covered_cons(cur: Ival, tail: Seq<Ival>, a: int)
    ensures
        covered(seq![cur] + tail, a) <==> (cur.covers(a) || covered(tail, a)),
{
    let m = seq![cur] + tail;
    assert(m[0] == cur);
    if cur.covers(a) {
        assert(covered(m, a));
    }
    if covered(tail, a) {
        let k = choose|k: int| 0 <= k < tail.len() && (#[trigger] tail[k]).covers(a);
        assert(m[k + 1] == tail[k]);
        assert(covered(m, a));
    }
    if covered(m, a) && !cur.covers(a) {
        let k = choose|k: int| 0 <= k < m.len() && (#[trigger] m[k]).covers(a);
        assert(k > 0);
        assert(tail[k - 1] == m[k]);
        assert(covered(tail, a));
    }
}

proof fn lemma_gapped_cons(cur: Ival, tail: Seq<Ival>)
    requires
        cur.wf(),
        gapped(tail),
        tail.len() >= 1 ==> cur.hi + 1 < tail[0].lo,
    ensures
        gapped(seq![cur] + tail),
{
    let m = seq![cur] + tail;
    assert forall|k: int| 0 <= k < m.len() implies (#[trigger] m[k]).wf() by {
        if k > 0 {
            assert(m[k] == tail[k - 1]);
        }
    }
    assert forall|i: int| #![trigger m[i]] 0 <= i && i + 1 < m.len() implies m[i].hi + 1 < m[i
        + 1].lo by {
        if i == 0 {
            assert(m[1] == tail[0]);
        } else {
            assert(m[i] == tail[i - 1]);
            assert(m[i + 1] == tail[i]);
        }
    }
}

/// Merge a sorted interval list from index `i` on, with `cur` as the interval
/// being grown; every merged or touching interval is absorbed into `cur`.
pub open spec fn merge_rec(s: Seq<Ival>, i: int, cur: Ival) -> Seq<Ival>
    decreases s.len() - i,
{
    if i < 0 || i >= s.len() {
        seq![cur]
    } else if s[i].lo <= cur.hi + 1 {
        merge_rec(
            s,
            i + 1,
            Ival { lo: cur.lo, hi: if s[i].hi >= cur.hi { s[i].hi } else { cur.hi } },
        )
    } else {
        seq![cur] + merge_rec(s, i + 1, s[i])
    }
}

/// Merge a sorted interval list into its gapped form.
pub open spec fn merge_ivals(s: Seq<Ival>) -> Seq<Ival> {
    if s.len() == 0 {
        Seq::empty()
    } else {
        merge_rec(s, 1, s[0])
    }
}

pub proof fn lemma_merge_rec_props(s: Seq<Ival>, i: int, cur: Ival)
    requires
        all_wf(s),
        sorted_by(s, ile_leq()),
        cur.wf(),
        0 <= i <= s.len(),
        forall|j: int| i <= j < s.len() ==> cur.lo <= (#[trigger] s[j]).lo,
    ensures
        gapped(merge_rec(s, i, cur)),
        merge_rec(s, i, cur).len() >= 1,
        merge_rec(s, i, cur)[0].lo == cur.lo,
        forall|a: int|
            covered(merge_rec(s, i, cur), a) <==> (cur.covers(a) || covered_from(s, i, a)),
    decreases s.len() - i,
{
    let m = merge_rec(s, i, cur);
    if i >= s.len() {
        assert(m == seq![cur]);
        assert forall|a: int| covered(m, a) <==> (cur.covers(a) || covered_from(s, i, a)) by {
            if cur.covers(a) {
                assert(m[0].covers(a));
                assert(covered(m, a));
            }
            if covered(m, a) {
                let k = choose|k: int| 0 <= k < m.len() && (#[trigger] m[k]).covers(a);
                assert(k == 0);
            }
        }
        assert(gapped(m)) by {
            assert forall|k: int| 0 <= k < m.len() implies (#[trigger] m[k]).wf() by {
                assert(m[k] == cur);
            }
        }
    } else if s[i].lo <= cur.hi + 1 {
        let grown = Ival { lo: cur.lo, hi: if s[i].hi >= cur.hi { s[i].hi } else { cur.hi } };
        assert(s[i].wf());
        assert(ile_leq()(s[i], s[i]) || true);
        assert forall|j: int| i + 1 <= j < s.len() implies grown.lo <= (#[trigger] s[j]).lo by {
            assert(cur.lo <= s[j].lo);
        }
        lemma_merge_rec_props(s, i + 1, grown);
        assert forall|a: int| covered(m, a) <==> (cur.covers(a) || covered_from(s, i, a)) by {
            lemma_covered_from_unfold(s, i, a);
            assert(grown.covers(a) <==> (cur.covers(a) || s[i].covers(a))) by {
                assert(cur.lo <= s[i].lo);
            }
        }
    } else {
        let tail = merge_rec(s, i + 1, s[i]);
        assert(s[i].wf());
        assert forall|j: int| i + 1 <= j < s.len() implies s[i].lo <= (#[trigger] s[j]).lo by {
            assert(sorted_by(s, ile_leq()));
            assert(ile_leq()(s[i], s[j]));
        }
        lemma_merge_rec_props(s, i + 1, s[i]);
        lemma_gapped_cons(cur, tail);
        assert(m == seq![cur] + tail);
        assert forall|a: int| covered(m, a) <==> (cur.covers(a) || covered_from(s, i, a)) by {
            lemma_covered_cons(cur, tail, a);
            lemma_covered_from_unfold(s, i, a);
        }
    }
}

/// What `merge_ivals` guarantees: a gapped list covering the same addresses.
pub proof fn lemma_merge_ivals_props(s: Seq<Ival>)
    requires
        all_wf(s),
        sorted_by(s, ile_leq()),
    ensures
        gapped(merge_ivals(s)),
        forall|a: int| covered(merge_ivals(s), a) <==> covered(s, a),
{
    let m = merge_ivals(s);
    if s.len() == 0 {
        assert forall|a: int| covered(m, a) <==> covered(s, a) by {}
    } else {
        assert forall|j: int| 1 <= j < s.len() implies s[0].lo <= (#[trigger] s[j]).lo by {
            assert(ile_leq()(s[0], s[j]));
        }
        lemma_merge_rec_props(s, 1, s[0]);
        assert forall|a: int| covered(m, a) <==> covered(s, a) by {
            lemma_covered_from_unfold(s, 0, a);
            assert(covered(s, a) <==> covered_from(s, 0, a)) by {
                if covered(s, a) {
                    let k = choose|k: int| 0 <= k < s.len() && (#[trigger] s[k]).covers(a);
                    assert(covered_from(s, 0, a));
                }
                if covered_from(s, 0, a) {
                    let k = choose|k: int| 0 <= k < s.len() && (#[trigger] s[k]).covers(a);
                    assert(covered(s, a));
                }
            }
        }
    }
}

/// Two lists with the same multiset of intervals cover the same addresses.
pub proof fn lemma_covered_multiset(s: Seq<Ival>, t: Seq<Ival>)
    requires
        s.to_multiset() == t.to_multiset(),
    ensures
        forall|a: int| covered(s, a) <==> covered(t, a),
{
    broadcast use vstd::seq_lib::to_multiset_contains;

    assert forall|a: int| covered(s, a) <==> covered(t, a) by {
        if covered(s, a) {
            let k = choose|k: int| 0 <= k < s.len() && (#[trigger] s[k]).covers(a);
            assert(s.contains(s[k]));
            assert(s.to_multiset().count(s[k]) > 0);
            assert(t.to_multiset().count(s[k]) > 0);
            assert(t.contains(s[k]));
            let j = choose|j: int| 0 <= j < t.len() && t[j] == s[k];
            assert(t[j].covers(a));
            assert(covered(t, a));
        }
        if covered(t, a) {
            let k = choose|k: int| 0 <= k < t.len() && (#[trigger] t[k]).covers(a);
            assert(t.contains(t[k]));
            assert(t.to_multiset().count(t[k]) > 0);
            assert(s.to_multiset().count(t[k]) > 0);
            assert(s.contains(t[k]));
            let j = choose|j: int| 0 <= j < s.len() && s[j] == t[k];
            assert(s[j].covers(a));
            assert(covered(s, a));
        }
    }
}

/// Interval order, executable.
fn ile_exec(a: &Ival, b: &Ival) -> (r: bool)
    ensures
        r == ile(*a, *b),
{
    a.lo < b.lo || (a.lo == b.lo && a.hi <= b.hi)
}

/// Insertion sort by the interval order.
pub fn sort_ivals(v: &Vec<Ival>) -> (r: Vec<Ival>)
    ensures
        r@ == v@.sort_by(ile_leq()),
{
    let mut r: Vec<Ival> = Vec::new();
    let mut idx: usize = 0;
    proof {
        assert(v@.take(0) =~= r@);
    }
    while idx < v.len()
        invariant
            idx <= v.len(),
            sorted_by(r@, ile_leq()),
            r@.to_multiset() == v@.take(idx as int).to_multiset(),
        decreases v.len() - idx,
    {
        let x = v[idx];
        let mut j: usize = r.len();
        while j > 0 && !ile_exec(&r[j - 1], &x)
            invariant
                j <= r.len(),
                sorted_by(r@, ile_leq()),
                forall|k: int| j <= k < r.len() ==> !ile(#[trigger] r@[k], x),
            decreases j,
        {
            j = j - 1;
        }
        let ghost old_r = r@;
        r.insert(j, x);
        proof {
            assert(r@ == old_r.insert(j as int, x));
            assert forall|p: int, q: int| 0 <= p < q < r@.len() implies ile_leq()(
                r@[p],
                r@[q],
            ) by {
                let jj = j as int;
                if p < jj && q == jj {
                    if jj >= 1 {
                        assert(ile(old_r[jj - 1], x));
                        if p < jj - 1 {
                            assert(ile_leq()(old_r[p], old_r[jj - 1]));
                        }
                    }
                } else if p == jj {
                    assert(r@[q] == old_r[q - 1]);
                    assert(!ile(old_r[q - 1], x));
                } else if p < jj && q > jj {
                    assert(r@[p] == old_r[p]);
                    assert(r@[q] == old_r[q - 1]);
                    if jj >= 1 {
                        assert(ile(old_r[jj - 1], x));
                    }
                    assert(!ile(old_r[q - 1], x));
                } else if p > jj {
                    assert(r@[p] == old_r[p - 1]);
                    assert(r@[q] == old_r[q - 1]);
                    assert(ile_leq()(old_r[p - 1], old_r[q - 1]));
                } else {
                    assert(r@[p] == old_r[p]);
                    assert(r@[q] == old_r[q]);
                    assert(ile_leq()(old_r[p], old_r[q]));
                }
            }
            vstd::seq_lib::to_multiset_insert(old_r, j as int, x);
            vstd::seq_lib::to_multiset_build(v@.take(idx as int), x);
            assert(v@.take(idx as int + 1) =~= v@.take(idx as int).push(x));
            assert(r@.to_multiset() == v@.take(idx as int + 1).to_multiset());
        }
        idx = idx + 1;
    }
    proof {
        assert(v@.take(v@.len() as int) =~= v@);
        lemma_ile_total();
        v@.lemma_sort_by_ensures(ile_leq());
        lemma_sorted_unique(r@, v@.sort_by(ile_leq()), ile_leq());
        assert(r@ =~= v@.sort_by(ile_leq()));
    }
    r
}

/// Merge a sorted interval list: absorb overlapping or touching neighbours.
pub fn merge_sorted(v: &Vec<Ival>) -> (r: Vec<Ival>)
    requires
        all_wf(v@),
        sorted_by(v@, ile_leq()),
    ensures
        r@ == merge_ivals(v@),
{
    let mut out: Vec<Ival> = Vec::new();
    if v.len() == 0 {
        proof {
            assert(out@ =~= merge_ivals(v@));
        }
        return out;
    }
    let mut cur = v[0];
    let mut i: usize = 1;
    while i < v.len()
        invariant
            1 <= i <= v.len(),
            all_wf(v@),
            cur.wf(),
            merge_ivals(v@) == out@ + merge_rec(v@, i as int, cur),
        decreases v.len() - i,
    {
        if v[i].lo <= cur.hi + 1 {
            let grown = Ival { lo: cur.lo, hi: if v[i].hi >= cur.hi { v[i].hi } else { cur.hi } };
            proof {
                assert(merge_rec(v@, i as int, cur) == merge_rec(v@, i as int + 1, grown));
            }
            cur = grown;
        } else {
            proof {
                assert(merge_rec(v@, i as int, cur) == seq![cur] + merge_rec(
                    v@,
                    i as int + 1,
                    v@[i as int],
                ));
                assert(out@ + (seq![cur] + merge_rec(v@, i as int + 1, v@[i as int])) =~= (out@
                    + seq![cur]) + merge_rec(v@, i as int + 1, v@[i as int]));
                assert((out@ + seq![cur]) =~= out@.push(cur));
            }
            out.push(cur);
            cur = v[i];
        }
        i = i + 1;
    }
    proof {
        assert(merge_rec(v@, i as int, cur) == seq![cur]);
        assert(out@ + seq![cur] =~= out@.push(cur));
    }
    out.push(cur);
    out
}

} // verus!
