//! Normalization of a subnet list into its minimal disjoint covering set.
//!
//! Blocks become address intervals, the intervals are sorted and merged into
//! a gapped list, and each merged interval is decomposed greedily into the
//! largest aligned blocks that fit.  The result covers exactly the same
//! addresses as the input, and depends only on that covered set, which makes
//! normalization idempotent and its output canonical.

use crate::cidr::{lemma_host_count_pos, lemma_p2_pos, lemma_wf_last, p2, pow2_u64, Cidr};
use crate::ivals::{
    all_wf, covered, gapped, ile_leq, lemma_covered_multiset, lemma_gapped_unique,
    lemma_merge_ivals_props, merge_ivals, merge_sorted, sort_ivals, Ival,
};
use vstd::prelude::*;

verus! {

/// Whether every block in the list is well formed.
pub open spec fn all_bwf(bs: Seq<Cidr>) -> bool {
    forall|k: int| 0 <= k < bs.len() ==> (#[trigger] bs[k]).wf()
}

/// Whether some block of `bs` covers address `a`.
pub open spec fn bcovered(bs: Seq<Cidr>, a: int) -> bool {
    exists|k: int| 0 <= k < bs.len() && (#[trigger] bs[k]).covers(a)
}

/// Total number of usable host addresses over the blocks.
pub open spec fn sum_hosts(bs: Seq<Cidr>) -> nat
    decreases bs.len(),
{
    if bs.len() == 0 {
        0
    } else {
        bs[0].host_count() + sum_hosts(bs.drop_first())
    }
}

/// The blocks tile the address range `lo..end` contiguously and in order.
pub open spec fn chain(bs: Seq<Cidr>, lo: int, end: int) -> bool
    decreases bs.len(),
{
    if bs.len() == 0 {
        lo == end
    } else {
        &&& bs[0].wf()
        &&& bs[0].net == lo
        &&& chain(bs.drop_first(), lo + bs[0].size(), end)
    }
}

/// The interval of addresses a well-formed block spans.
pub open spec fn ival_of(c: Cidr) -> Ival {
    Ival { lo: c.net as u64, hi: (c.net + c.size() - 1) as u64 }
}

pub open spec fn to_ivals(bs: Seq<Cidr>) -> Seq<Ival> {
    bs.map_values(|c: Cidr| ival_of(c))
}

/// Largest exponent `k` such that a block of `p2(k)` addresses at `lo` is
/// aligned and still fits below `hi`, grown by doubling from a valid start.
pub open spec fn grow_k(lo: int, hi: int, k: nat) -> nat
    decreases 32 - k,
{
    if k < 32 && lo % (p2((k + 1) as nat) as int) == 0 && lo + p2((k + 1) as nat) - 1 <= hi {
        grow_k(lo, hi, (k + 1) as nat)
    } else {
        k
    }
}

pub proof fn lemma_grow_k_props(lo: int, hi: int, k: nat)
    requires
        k <= 32,
        lo % (p2(k) as int) == 0,
        lo + p2(k) - 1 <= hi,
    ensures
        k <= grow_k(lo, hi, k) <= 32,
        lo % (p2(grow_k(lo, hi, k)) as int) == 0,
        lo + p2(grow_k(lo, hi, k)) - 1 <= hi,
        !(grow_k(lo, hi, k) < 32 && lo % (p2((grow_k(lo, hi, k) + 1) as nat) as int) == 0 && lo
            + p2((grow_k(lo, hi, k) + 1) as nat) - 1 <= hi),
    decreases 32 - k,
{
    if k < 32 && lo % (p2((k + 1) as nat) as int) == 0 && lo + p2((k + 1) as nat) - 1 <= hi {
        lemma_grow_k_props(lo, hi, (k + 1) as nat);
    }
}

/// Greedy decomposition of the address range `lo..=hi` into maximal blocks.
pub open spec fn decomp_ival(lo: int, hi: int) -> Seq<Cidr>
    decreases hi + 1 - lo,
    via decomp_ival_dec
{
    if lo > hi || lo < 0 || hi >= 0x1_0000_0000 {
        Seq::empty()
    } else {
        let k = grow_k(lo, hi, 0);
        seq![Cidr { net: lo as u32, prefix: (32 - k) as u8 }] + decomp_ival(lo + p2(k), hi)
    }
}

#[via_fn]
proof fn decomp_ival_dec(lo: int, hi: int) {
    if !(lo > hi || lo < 0 || hi >= 0x1_0000_0000) {
        lemma_p2_zero();
        lemma_grow_k_props(lo, hi, 0);
        lemma_p2_pos(grow_k(lo, hi, 0));
    }
}

proof fn lemma_p2_zero()
    ensures
        p2(0) == 1,
{
    reveal_with_fuel(p2, 1);
}

/// Greedy decomposition of each interval in turn.
pub open spec fn decomp_list(m: Seq<Ival>) -> Seq<Cidr>
    decreases m.len(),
{
    if m.len() == 0 {
        Seq::empty()
    } else {
        decomp_ival(m[0].lo as int, m[0].hi as int) + decomp_list(m.drop_first())
    }
}

/// The canonical form of a subnet list.
pub open spec fn spec_normalize(bs: Seq<Cidr>) -> Seq<Cidr> {
    decomp_list(merge_ivals(to_ivals(bs).sort_by(ile_leq())))
}

proof fn lemma_bcovered_cons(c: Cidr, tail: Seq<Cidr>, a: int)
    ensures
        bcovered(seq![c] + tail, a) <==> (c.covers(a) || bcovered(tail, a)),
{
    let m = seq![c] + tail;
    assert(m[0] == c);
    if c.covers(a) {
        lemma_witness_bcovered(m, 0, a);
    }
    if bcovered(tail, a) {
        let k = choose|k: int| 0 <= k < tail.len() && (#[trigger] tail[k]).covers(a);
        assert(m[k + 1] == tail[k]);
        lemma_witness_bcovered(m, k + 1, a);
    }
    if bcovered(m, a) && !c.covers(a) {
        let k = choose|k: int| 0 <= k < m.len() && (#[trigger] m[k]).covers(a);
        assert(k > 0);
        assert(tail[k - 1] == m[k]);
        lemma_witness_bcovered(tail, k - 1, a);
    }
}

/// Helper to exhibit a witness for block coverage.
spec fn covered_witness_blocks(bs: Seq<Cidr>, k: int, a: int) -> bool {
    0 <= k < bs.len() && bs[k].covers(a)
}

proof fn lemma_witness_bcovered(bs: Seq<Cidr>, k: int, a: int)
    requires
        covered_witness_blocks(bs, k, a),
    ensures
        bcovered(bs, a),
{
    assert(0 <= k < bs.len() && (bs[k]).covers(a));
}

proof fn lemma_bcovered_concat(x: Seq<Cidr>, y: Seq<Cidr>, a: int)
    ensures
        bcovered(x + y, a) <==> (bcovered(x, a) || bcovered(y, a)),
{
    let m = x + y;
    if bcovered(x, a) {
        let k = choose|k: int| 0 <= k < x.len() && (#[trigger] x[k]).covers(a);
        assert(m[k] == x[k]);
        lemma_witness_bcovered(m, k, a);
    }
    if bcovered(y, a) {
        let k = choose|k: int| 0 <= k < y.len() && (#[trigger] y[k]).covers(a);
        assert(m[x.len() + k] == y[k]);
        lemma_witness_bcovered(m, x.len() + k, a);
    }
    if bcovered(m, a) {
        let k = choose|k: int| 0 <= k < m.len() && (#[trigger] m[k]).covers(a);
        if k < x.len() {
            assert(x[k] == m[k]);
            lemma_witness_bcovered(x, k, a);
        } else {
            assert(y[k - x.len()] == m[k]);
            lemma_witness_bcovered(y, k - x.len(), a);
        }
    }
}

pub proof fn lemma_sum_hosts_concat(x: Seq<Cidr>, y: Seq<Cidr>)
    ensures
        sum_hosts(x + y) == sum_hosts(x) + sum_hosts(y),
    decreases x.len(),
{
    if x.len() == 0 {
        assert(x + y =~= y);
    } else {
        assert((x + y).drop_first() =~= x.drop_first() + y);
        lemma_sum_hosts_concat(x.drop_first(), y);
    }
}

/// What greedy decomposition of one interval guarantees.
proof fn lemma_decomp_ival_props(lo: int, hi: int)
    requires
        0 <= lo <= hi + 1,
        hi < 0x1_0000_0000,
    ensures
        chain(decomp_ival(lo, hi), lo, hi + 1),
        all_bwf(decomp_ival(lo, hi)),
        forall|a: int| bcovered(decomp_ival(lo, hi), a) <==> lo <= a <= hi,
    decreases hi + 1 - lo,
{
    let d = decomp_ival(lo, hi);
    if lo > hi {
        assert(d =~= Seq::<Cidr>::empty());
        assert forall|a: int| bcovered(d, a) <==> lo <= a <= hi by {}
    } else {
        lemma_p2_zero();
        lemma_grow_k_props(lo, hi, 0);
        let k = grow_k(lo, hi, 0);
        lemma_p2_pos(k);
        let c = Cidr { net: lo as u32, prefix: (32 - k) as u8 };
        assert(c.size() == p2(k));
        assert(c.wf());
        let rest = decomp_ival(lo + p2(k), hi);
        lemma_decomp_ival_props(lo + p2(k), hi);
        assert(d == seq![c] + rest);
        assert(all_bwf(d)) by {
            assert forall|j: int| 0 <= j < d.len() implies (#[trigger] d[j]).wf() by {
                if j == 0 {
                    assert(d[j] == c);
                } else {
                    assert(d[j] == rest[j - 1]);
                }
            }
        }
        assert(chain(d, lo, hi + 1)) by {
            assert(d[0] == c);
            assert(d.drop_first() =~= rest);
            assert(chain(rest, lo + c.size(), hi + 1));
        }
        assert forall|a: int| bcovered(d, a) <==> lo <= a <= hi by {
            lemma_bcovered_cons(c, rest, a);
            assert(c.covers(a) <==> lo <= a <= lo + p2(k) - 1);
        }
    }
}

proof fn lemma_chain_sum(bs: Seq<Cidr>, lo: int, end: int)
    requires
        chain(bs, lo, end),
    ensures
        sum_hosts(bs) <= end - lo,
        lo <= end,
    decreases bs.len(),
{
    if bs.len() > 0 {
        lemma_host_count_pos(bs[0]);
        lemma_chain_sum(bs.drop_first(), lo + bs[0].size(), end);
    }
}

/// What decomposition of a gapped interval list guarantees.
proof fn lemma_decomp_list_props(m: Seq<Ival>)
    requires
        gapped(m),
    ensures
        all_bwf(decomp_list(m)),
        forall|a: int| bcovered(decomp_list(m), a) <==> covered(m, a),
        sum_hosts(decomp_list(m)) <= 0x1_0000_0000,
{
    lemma_decomp_list_wf(m);
    lemma_decomp_list_cov(m);
    if m.len() >= 1 {
        lemma_sum_lo(m);
    }
}

proof fn lemma_decomp_list_wf(m: Seq<Ival>)
    requires
        gapped(m),
    ensures
        all_bwf(decomp_list(m)),
    decreases m.len(),
{
    let d = decomp_list(m);
    if m.len() > 0 {
        let head = decomp_ival(m[0].lo as int, m[0].hi as int);
        let tail = decomp_list(m.drop_first());
        assert(m[0].wf());
        lemma_decomp_ival_props(m[0].lo as int, m[0].hi as int);
        crate::ivals::lemma_gapped_drop_first(m);
        lemma_decomp_list_wf(m.drop_first());
        assert(d == head + tail);
        assert forall|j: int| 0 <= j < d.len() implies (#[trigger] d[j]).wf() by {
            if j < head.len() {
                assert(d[j] == head[j]);
            } else {
                assert(d[j] == tail[j - head.len()]);
            }
        }
    }
}

#[verifier::rlimit(100)]
proof fn lemma_decomp_list_cov(m: Seq<Ival>)
    requires
        gapped(m),
    ensures
        forall|a: int| bcovered(decomp_list(m), a) <==> covered(m, a),
    decreases m.len(),
{
    let d = decomp_list(m);
    if m.len() == 0 {
        assert forall|a: int| bcovered(d, a) <==> covered(m, a) by {}
    } else {
        let head = decomp_ival(m[0].lo as int, m[0].hi as int);
        let tail = decomp_list(m.drop_first());
        assert(m[0].wf());
        lemma_decomp_ival_props(m[0].lo as int, m[0].hi as int);
        crate::ivals::lemma_gapped_drop_first(m);
        lemma_decomp_list_cov(m.drop_first());
        assert(d == head + tail);
        assert forall|a: int| bcovered(d, a) <==> covered(m, a) by {
            lemma_bcovered_concat(head, tail, a);
            crate::ivals::lemma_covered_tail(m, a);
            assert(bcovered(tail, a) <==> covered(m.drop_first(), a));
            assert(m[0].covers(a) <==> m[0].lo <= a <= m[0].hi);
            if bcovered(d, a) {
                if bcovered(head, a) {
                    assert(m[0].covers(a));
                    assert(covered(m, a));
                } else {
                    assert(covered(m.drop_first(), a));
                }
            }
            if covered(m, a) {
                let k = choose|k: int| 0 <= k < m.len() && (#[trigger] m[k]).covers(a);
                if k == 0 {
                    assert(bcovered(head, a));
                } else {
                    assert(m.drop_first()[k - 1] == m[k]);
                    assert(covered(m.drop_first(), a));
                }
            }
        }
    }
}

/// Generalized packing bound: the decomposition of a gapped list holds at
/// most as many hosts as addresses from its first lower bound to the top.
proof fn lemma_sum_lo(m: Seq<Ival>)
    requires
        gapped(m),
        m.len() >= 1,
    ensures
        sum_hosts(decomp_list(m)) <= 0x1_0000_0000 - m[0].lo,
    decreases m.len(),
{
    let head = decomp_ival(m[0].lo as int, m[0].hi as int);
    let tail = decomp_list(m.drop_first());
    assert(m[0].wf());
    lemma_decomp_ival_props(m[0].lo as int, m[0].hi as int);
    lemma_chain_sum(head, m[0].lo as int, m[0].hi + 1);
    lemma_sum_hosts_concat(head, tail);
    crate::ivals::lemma_gapped_drop_first(m);
    if m.len() == 1 {
        assert(m.drop_first().len() == 0);
        assert(sum_hosts(tail) == 0);
    } else {
        assert(m.drop_first()[0] == m[1]);
        lemma_sum_lo(m.drop_first());
        assert(m[0].hi + 1 < m[1].lo);
    }
}

/// Normalization preserves coverage, yields well-formed blocks, and fits in
/// the address space.
pub proof fn lemma_normalize_props(bs: Seq<Cidr>)
    requires
        all_bwf(bs),
    ensures
        all_bwf(spec_normalize(bs)),
        forall|a: int| bcovered(spec_normalize(bs), a) <==> bcovered(bs, a),
        sum_hosts(spec_normalize(bs)) <= 0x1_0000_0000,
{
    let iv = to_ivals(bs);
    let srt = iv.sort_by(ile_leq());
    let mrg = merge_ivals(srt);
    lemma_to_ivals_props(bs);
    crate::ivals::lemma_ile_total();
    iv.lemma_sort_by_ensures(ile_leq());
    lemma_all_wf_multiset(iv, srt);
    lemma_covered_multiset(iv, srt);
    lemma_merge_ivals_props(srt);
    lemma_decomp_list_props(mrg);
}

/// Normalization depends only on the covered address set.
pub proof fn lemma_normalize_cov_determined(x: Seq<Cidr>, y: Seq<Cidr>)
    requires
        all_bwf(x),
        all_bwf(y),
        forall|a: int| bcovered(x, a) <==> bcovered(y, a),
    ensures
        spec_normalize(x) == spec_normalize(y),
{
    let mx = merge_ivals(to_ivals(x).sort_by(ile_leq()));
    let my = merge_ivals(to_ivals(y).sort_by(ile_leq()));
    lemma_to_ivals_props(x);
    lemma_to_ivals_props(y);
    crate::ivals::lemma_ile_total();
    to_ivals(x).lemma_sort_by_ensures(ile_leq());
    to_ivals(y).lemma_sort_by_ensures(ile_leq());
    lemma_all_wf_multiset(to_ivals(x), to_ivals(x).sort_by(ile_leq()));
    lemma_all_wf_multiset(to_ivals(y), to_ivals(y).sort_by(ile_leq()));
    lemma_covered_multiset(to_ivals(x), to_ivals(x).sort_by(ile_leq()));
    lemma_covered_multiset(to_ivals(y), to_ivals(y).sort_by(ile_leq()));
    lemma_merge_ivals_props(to_ivals(x).sort_by(ile_leq()));
    lemma_merge_ivals_props(to_ivals(y).sort_by(ile_leq()));
    let sx = to_ivals(x).sort_by(ile_leq());
    let sy = to_ivals(y).sort_by(ile_leq());
    assert forall|a: int| covered(mx, a) <==> covered(my, a) by {
        assert(covered(mx, a) <==> covered(sx, a));
        assert(covered(sx, a) <==> covered(to_ivals(x), a));
        assert(covered(to_ivals(x), a) <==> bcovered(x, a));
        assert(bcovered(x, a) <==> bcovered(y, a));
        assert(covered(my, a) <==> covered(sy, a));
        assert(covered(sy, a) <==> covered(to_ivals(y), a));
        assert(covered(to_ivals(y), a) <==> bcovered(y, a));
    }
    lemma_gapped_unique(mx, my);
}

/// Normalizing twice gives the same result as normalizing once.
pub proof fn lemma_normalize_idempotent(bs: Seq<Cidr>)
    requires
        all_bwf(bs),
    ensures
        spec_normalize(spec_normalize(bs)) == spec_normalize(bs),
{
    lemma_normalize_props(bs);
    lemma_normalize_cov_determined(spec_normalize(bs), bs);
}

/// Blocks in ascending address order and pairwise disjoint: each block ends
/// strictly before the next begins.
pub open spec fn blocks_ordered(bs: Seq<Cidr>) -> bool {
    forall|i: int|
        #![trigger bs[i]]
        0 <= i && i + 1 < bs.len() ==> bs[i].last() < bs[i + 1].first()
}

/// A chained tiling is ordered and stays inside its range.
proof fn lemma_chain_ordered(bs: Seq<Cidr>, lo: int, end: int)
    requires
        chain(bs, lo, end),
    ensures
        blocks_ordered(bs),
        forall|i: int| 0 <= i < bs.len() ==> lo <= (#[trigger] bs[i]).first() && bs[i].last() < end,
    decreases bs.len(),
{
    if bs.len() > 0 {
        let tail = bs.drop_first();
        lemma_chain_ordered(tail, lo + bs[0].size(), end);
        lemma_chain_sum(tail, lo + bs[0].size(), end);
        lemma_p2_pos((32 - bs[0].prefix) as nat);
        assert forall|i: int|
            0 <= i < bs.len() implies lo <= (#[trigger] bs[i]).first() && bs[i].last() < end by {
            if i > 0 {
                assert(bs[i] == tail[i - 1]);
            }
        }
        assert forall|i: int|
            #![trigger bs[i]]
            0 <= i && i + 1 < bs.len() implies bs[i].last() < bs[i + 1].first() by {
            if i == 0 {
                assert(bs[1] == tail[0]);
            } else {
                assert(bs[i] == tail[i - 1]);
                assert(bs[i + 1] == tail[i]);
            }
        }
    }
}

/// Decomposing a gapped interval list gives ordered, disjoint blocks inside
/// the list's overall range.
proof fn lemma_decomp_list_ordered(m: Seq<Ival>)
    requires
        gapped(m),
    ensures
        blocks_ordered(decomp_list(m)),
        m.len() >= 1 ==> forall|i: int|
            0 <= i < decomp_list(m).len() ==> m[0].lo <= (#[trigger] decomp_list(m)[i]).first()
                && decomp_list(m)[i].last() <= m.last().hi,
    decreases m.len(),
{
    let d = decomp_list(m);
    if m.len() > 0 {
        let head = decomp_ival(m[0].lo as int, m[0].hi as int);
        let tail = decomp_list(m.drop_first());
        assert(m[0].wf());
        lemma_decomp_ival_props(m[0].lo as int, m[0].hi as int);
        lemma_chain_ordered(head, m[0].lo as int, m[0].hi + 1);
        crate::ivals::lemma_gapped_drop_first(m);
        lemma_decomp_list_ordered(m.drop_first());
        assert(d == head + tail);
        if m.len() >= 2 {
            assert(m.drop_first()[0] == m[1]);
            assert(m.drop_first().last() == m.last());
            crate::ivals::lemma_gapped_mono(m, 0, m.len() - 1);
        }
        assert forall|i: int|
            0 <= i < d.len() implies m[0].lo <= (#[trigger] d[i]).first() && d[i].last()
            <= m.last().hi by {
            if i < head.len() {
                assert(d[i] == head[i]);
                if m.len() >= 2 {
                    crate::ivals::lemma_gapped_mono(m, 0, m.len() - 1);
                }
            } else {
                assert(d[i] == tail[i - head.len()]);
                assert(m.len() >= 2);
            }
        }
        assert forall|i: int|
            #![trigger d[i]]
            0 <= i && i + 1 < d.len() implies d[i].last() < d[i + 1].first() by {
            if i + 1 < head.len() {
                assert(d[i] == head[i]);
                assert(d[i + 1] == head[i + 1]);
            } else if i + 1 == head.len() {
                assert(d[i] == head[i]);
                assert(d[i + 1] == tail[0]);
                assert(m.len() >= 2);
                assert(d[i].last() <= m[0].hi);
                assert(m[1].lo <= d[i + 1].first());
            } else {
                assert(d[i] == tail[i - head.len()]);
                assert(d[i + 1] == tail[i + 1 - head.len()]);
            }
        }
    }
}

/// Whether two adjacent blocks could coalesce into one bigger block: equal
/// size, contiguous, and the pair aligned as the two halves of its parent.
pub open spec fn mergeable(b1: Cidr, b2: Cidr) -> bool {
    &&& b1.prefix == b2.prefix
    &&& b1.net + b1.size() == b2.net
    &&& b1.net as int % (2 * b1.size() as int) == 0
}

/// No two adjacent blocks can coalesce: the covering set is minimal.
pub open spec fn no_mergeable_pair(bs: Seq<Cidr>) -> bool {
    forall|i: int|
        #![trigger bs[i]]
        0 <= i && i + 1 < bs.len() ==> !mergeable(bs[i], bs[i + 1])
}

/// Greedy decomposition never emits two halves of a block it could have
/// emitted whole.
proof fn lemma_decomp_ival_minimal(lo: int, hi: int)
    requires
        0 <= lo <= hi + 1,
        hi < 0x1_0000_0000,
    ensures
        no_mergeable_pair(decomp_ival(lo, hi)),
    decreases hi + 1 - lo,
{
    let d = decomp_ival(lo, hi);
    if lo <= hi {
        lemma_p2_zero();
        lemma_grow_k_props(lo, hi, 0);
        let k = grow_k(lo, hi, 0);
        lemma_p2_pos(k);
        let sz = p2(k) as int;
        let c = Cidr { net: lo as u32, prefix: (32 - k) as u8 };
        let rest = decomp_ival(lo + sz, hi);
        lemma_decomp_ival_minimal(lo + sz, hi);
        lemma_decomp_ival_props(lo + sz, hi);
        lemma_chain_ordered(rest, lo + sz, hi + 1);
        assert(d == seq![c] + rest);
        assert forall|i: int|
            #![trigger d[i]]
            0 <= i && i + 1 < d.len() implies !mergeable(d[i], d[i + 1]) by {
            if i == 0 {
                assert(d[0] == c);
                assert(d[1] == rest[0]);
                assert(rest.len() >= 1);
                assert(lo + sz <= hi);
                assert(rest[0].net == lo + sz);
                if mergeable(c, rest[0]) {
                    // Equal prefixes mean the neighbour has the same size,
                    // so a doubled block would still have fit below `hi`...
                    assert(rest[0].last() < hi + 1);
                    assert(rest[0].size() == p2(k));
                    assert(lo + 2 * sz - 1 <= hi);
                    // ...and the alignment for doubling held as well.
                    assert(k < 32) by {
                        if k >= 32 {
                            lemma_p2_mono_pub(32, k);
                            crate::cidr::lemma_p2_32();
                        }
                    }
                    assert(p2((k + 1) as nat) == 2 * p2(k));
                    assert(lo % (p2((k + 1) as nat) as int) == 0);
                    // That contradicts the greedy choice having stopped at `k`.
                    assert(false);
                }
            } else {
                assert(d[i] == rest[i - 1]);
                assert(d[i + 1] == rest[i]);
            }
        }
    }
}

/// Restatement of monotonicity for use at a higher exponent.
proof fn lemma_p2_mono_pub(a: nat, b: nat)
    requires
        a <= b,
    ensures
        p2(a) <= p2(b),
{
    crate::cidr::lemma_p2_mono(a, b);
}

/// Decomposing a gapped interval list leaves no coalescable pair: across
/// intervals the blocks are not even contiguous.
proof fn lemma_decomp_list_minimal(m: Seq<Ival>)
    requires
        gapped(m),
    ensures
        no_mergeable_pair(decomp_list(m)),
    decreases m.len(),
{
    let d = decomp_list(m);
    if m.len() > 0 {
        let head = decomp_ival(m[0].lo as int, m[0].hi as int);
        let tail = decomp_list(m.drop_first());
        assert(m[0].wf());
        lemma_decomp_ival_minimal(m[0].lo as int, m[0].hi as int);
        lemma_decomp_ival_props(m[0].lo as int, m[0].hi as int);
        lemma_chain_ordered(head, m[0].lo as int, m[0].hi + 1);
        crate::ivals::lemma_gapped_drop_first(m);
        lemma_decomp_list_minimal(m.drop_first());
        lemma_decomp_list_ordered(m.drop_first());
        assert(d == head + tail);
        assert forall|i: int|
            #![trigger d[i]]
            0 <= i && i + 1 < d.len() implies !mergeable(d[i], d[i + 1]) by {
            if i + 1 < head.len() {
                assert(d[i] == head[i]);
                assert(d[i + 1] == head[i + 1]);
            } else if i + 1 == head.len() {
                // The junction pair spans the gap between two intervals and
                // is therefore not contiguous.
                assert(d[i] == head[i]);
                assert(d[i + 1] == tail[0]);
                assert(m.len() >= 2);
                assert(m.drop_first()[0] == m[1]);
                assert(d[i].last() <= m[0].hi);
                assert(m[1].lo <= d[i + 1].first());
                assert(m[0].hi + 1 < m[1].lo);
                lemma_p2_pos((32 - d[i].prefix) as nat);
            } else {
                assert(d[i] == tail[i - head.len()]);
                assert(d[i + 1] == tail[i + 1 - head.len()]);
            }
        }
    }
}

/// Normalization is minimal: no two adjacent blocks of the result can be
/// replaced by one bigger block.
pub proof fn lemma_normalize_minimal(bs: Seq<Cidr>)
    requires
        all_bwf(bs),
    ensures
        no_mergeable_pair(spec_normalize(bs)),
{
    let iv = to_ivals(bs);
    let srt = iv.sort_by(ile_leq());
    lemma_to_ivals_props(bs);
    crate::ivals::lemma_ile_total();
    iv.lemma_sort_by_ensures(ile_leq());
    lemma_all_wf_multiset(iv, srt);
    lemma_merge_ivals_props(srt);
    lemma_decomp_list_minimal(merge_ivals(srt));
}

/// Normalization yields blocks in ascending order, pairwise disjoint.
pub proof fn lemma_normalize_ordered(bs: Seq<Cidr>)
    requires
        all_bwf(bs),
    ensures
        blocks_ordered(spec_normalize(bs)),
{
    let iv = to_ivals(bs);
    let srt = iv.sort_by(ile_leq());
    lemma_to_ivals_props(bs);
    crate::ivals::lemma_ile_total();
    iv.lemma_sort_by_ensures(ile_leq());
    lemma_all_wf_multiset(iv, srt);
    lemma_merge_ivals_props(srt);
    lemma_decomp_list_ordered(merge_ivals(srt));
}

/// Normalizing an empty list yields an empty list.
pub proof fn lemma_normalize_empty()
    ensures
        spec_normalize(Seq::<Cidr>::empty()) == Seq::<Cidr>::empty(),
{
    let iv = to_ivals(Seq::<Cidr>::empty());
    assert(iv =~= Seq::<Ival>::empty());
    crate::ivals::lemma_ile_total();
    iv.lemma_sort_by_ensures(ile_leq());
    vstd::seq_lib::to_multiset_len(iv);
    vstd::seq_lib::to_multiset_len(iv.sort_by(ile_leq()));
    assert(iv.sort_by(ile_leq()) =~= Seq::<Ival>::empty());
    assert(spec_normalize(Seq::<Cidr>::empty()) =~= Seq::<Cidr>::empty());
}

/// Well-formed blocks convert to well-formed intervals covering the same
/// addresses.
proof fn lemma_to_ivals_props(bs: Seq<Cidr>)
    requires
        all_bwf(bs),
    ensures
        all_wf(to_ivals(bs)),
        forall|a: int| covered(to_ivals(bs), a) <==> bcovered(bs, a),
{
    let iv = to_ivals(bs);
    assert(iv.len() == bs.len());
    assert forall|k: int| 0 <= k < iv.len() implies (#[trigger] iv[k]).wf() && (forall|a: int|
        iv[k].covers(a) <==> bs[k].covers(a)) by {
        assert(iv[k] == ival_of(bs[k]));
        lemma_wf_last(bs[k]);
        lemma_p2_pos((32 - bs[k].prefix) as nat);
    }
    assert forall|a: int| covered(iv, a) <==> bcovered(bs, a) by {
        if covered(iv, a) {
            let k = choose|k: int| 0 <= k < iv.len() && (#[trigger] iv[k]).covers(a);
            lemma_witness_bcovered(bs, k, a);
        }
        if bcovered(bs, a) {
            let k = choose|k: int| 0 <= k < bs.len() && (#[trigger] bs[k]).covers(a);
            assert(iv[k].covers(a));
            assert(covered(iv, a));
        }
    }
}

/// Well-formedness of intervals transfers across a permutation.
proof fn lemma_all_wf_multiset(s: Seq<Ival>, t: Seq<Ival>)
    requires
        all_wf(s),
        s.to_multiset() == t.to_multiset(),
    ensures
        all_wf(t),
{
    broadcast use vstd::seq_lib::to_multiset_contains;

    assert forall|k: int| 0 <= k < t.len() implies (#[trigger] t[k]).wf() by {
        assert(t.contains(t[k]));
        assert(t.to_multiset().count(t[k]) > 0);
        assert(s.to_multiset().count(t[k]) > 0);
        assert(s.contains(t[k]));
        let j = choose|j: int| 0 <= j < s.len() && s[j] == t[k];
        assert(s[j].wf());
    }
}

/// Convert well-formed blocks into intervals, executable.
fn to_ivals_exec(v: &Vec<Cidr>) -> (r: Vec<Ival>)
    requires
        all_bwf(v@),
    ensures
        r@ == to_ivals(v@),
{
    let mut r: Vec<Ival> = Vec::new();
    let mut i: usize = 0;
    while i < v.len()
        invariant
            i <= v.len(),
            all_bwf(v@),
            r@ =~= to_ivals(v@).take(i as int),
        decreases v.len() - i,
    {
        let c = v[i];
        proof {
            lemma_wf_last(c);
            lemma_p2_pos((32 - c.prefix) as nat);
        }
        let size = pow2_u64(32 - c.prefix);
        let iv = Ival { lo: c.net as u64, hi: (c.net as u64) + size - 1 };
        proof {
            assert(iv == ival_of(c));
            assert(to_ivals(v@).take(i as int).push(iv) =~= to_ivals(v@).take(i as int + 1));
        }
        r.push(iv);
        i = i + 1;
    }
    proof {
        assert(to_ivals(v@).take(v@.len() as int) =~= to_ivals(v@));
    }
    r
}

/// Decompose a gapped interval list into blocks, executable.
fn decomp_exec(m: &Vec<Ival>) -> (r: Vec<Cidr>)
    requires
        all_wf(m@),
    ensures
        r@ == decomp_list(m@),
{
    let mut out: Vec<Cidr> = Vec::new();
    let mut i: usize = 0;
    proof {
        assert(m@.skip(0) =~= m@);
    }
    while i < m.len()
        invariant
            i <= m.len(),
            all_wf(m@),
            decomp_list(m@) == out@ + decomp_list(m@.skip(i as int)),
        decreases m.len() - i,
    {
        let hi = m[i].hi;
        let mut lo = m[i].lo;
        proof {
            assert(m@.skip(i as int)[0] == m@[i as int]);
            assert(m@.skip(i as int).drop_first() =~= m@.skip(i as int + 1));
            assert(decomp_list(m@.skip(i as int)) == decomp_ival(lo as int, hi as int)
                + decomp_list(m@.skip(i as int + 1)));
        }
        while lo <= hi
            invariant
                m@[i as int].lo <= lo <= hi + 1,
                hi == m@[i as int].hi,
                0 <= i < m@.len(),
                all_wf(m@),
                hi <= 0xFFFF_FFFFu64,
                decomp_list(m@) == out@ + decomp_ival(lo as int, hi as int) + decomp_list(
                    m@.skip(i as int + 1),
                ),
            decreases hi + 1 - lo,
        {
            let ghost lo0 = lo as int;
            let ghost hi0 = hi as int;
            let mut k: u8 = 0;
            let mut size: u64 = 1;
            proof {
                lemma_p2_zero();
            }
            while k < 32 && lo % (size * 2) == 0 && lo + (size * 2) - 1 <= hi
                invariant
                    k <= 32,
                    size == p2(k as nat),
                    1 <= size <= 0x1_0000_0000u64,
                    lo0 == lo,
                    hi0 == hi,
                    lo as int % (size as int) == 0,
                    lo + size - 1 <= hi,
                    hi <= 0xFFFF_FFFFu64,
                    grow_k(lo as int, hi as int, k as nat) == grow_k(lo as int, hi as int, 0),
                decreases 32 - k,
            {
                proof {
                    crate::cidr::lemma_p2_mono((k + 1) as nat, 32);
                    crate::cidr::lemma_p2_32();
                    assert(p2((k + 1) as nat) == 2 * p2(k as nat));
                    assert(grow_k(lo as int, hi as int, (k + 1) as nat) == grow_k(
                        lo as int,
                        hi as int,
                        k as nat,
                    ));
                }
                size = size * 2;
                k = k + 1;
            }
            proof {
                assert(p2((k as nat + 1) as nat) == 2 * p2(k as nat));
                assert(grow_k(lo as int, hi as int, k as nat) == k as nat);
                assert(k as nat == grow_k(lo as int, hi as int, 0));
                crate::cidr::lemma_p2_mono(k as nat, 32);
                crate::cidr::lemma_p2_32();
            }
            let c = Cidr { net: lo as u32, prefix: 32 - k };
            proof {
                assert(decomp_ival(lo as int, hi as int) == seq![c] + decomp_ival(
                    lo as int + p2(k as nat),
                    hi as int,
                ));
                assert(out@ + (seq![c] + decomp_ival(lo as int + p2(k as nat), hi as int))
                    =~= out@.push(c) + decomp_ival(lo as int + p2(k as nat), hi as int));
                assert((out@ + decomp_ival(lo as int, hi as int)) + decomp_list(
                    m@.skip(i as int + 1),
                ) =~= (out@.push(c) + decomp_ival(lo as int + p2(k as nat), hi as int))
                    + decomp_list(m@.skip(i as int + 1)));
            }
            out.push(c);
            lo = lo + size;
        }
        proof {
            assert(decomp_ival(lo as int, hi as int) =~= Seq::<Cidr>::empty());
            assert((out@ + decomp_ival(lo as int, hi as int)) =~= out@);
        }
        i = i + 1;
    }
    proof {
        assert(m@.skip(m@.len() as int) =~= Seq::<Ival>::empty());
        assert(decomp_list(m@.skip(m@.len() as int)) =~= Seq::<Cidr>::empty());
        assert(out@ + decomp_list(m@.skip(m@.len() as int)) =~= out@);
    }
    out
}

/// Normalize a subnet list: merge overlaps, coalesce touching blocks, and
/// return the canonical minimal disjoint covering set.
pub fn normalize(v: &Vec<Cidr>) -> (r: Vec<Cidr>)
    requires
        all_bwf(v@),
    ensures
        r@ == spec_normalize(v@),
        all_bwf(r@),
        blocks_ordered(r@),
        no_mergeable_pair(r@),
        forall|a: int| bcovered(r@, a) <==> bcovered(v@, a),
        sum_hosts(r@) <= 0x1_0000_0000,
{
    proof {
        lemma_normalize_props(v@);
        lemma_normalize_ordered(v@);
        lemma_normalize_minimal(v@);
    }
    let ivs = to_ivals_exec(v);
    let srt = sort_ivals(&ivs);
    proof {
        lemma_to_ivals_props(v@);
        crate::ivals::lemma_ile_total();
        ivs@.lemma_sort_by_ensures(ile_leq());
        lemma_all_wf_multiset(ivs@, srt@);
    }
    let mrg = merge_sorted(&srt);
    proof {
        lemma_merge_ivals_props(srt@);
        assert(gapped(mrg@));
    }
    decomp_exec(&mrg)
}

} // verus!
