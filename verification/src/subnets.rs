//! Normalized subnet sets and the address sequence they define.
//!
//! A `SubnetSet` holds the canonical form of a subnet list: normalizing its
//! blocks again changes nothing.  The usable host addresses of its blocks,
//! in block order and ascending within each block, form the address
//! sequence; record `i` of a result file belongs to address `i` of that
//! sequence, so the sequence must be the same on every run.

use crate::cidr::{host_count_u64, lemma_host_count_pos, lemma_wf_last, Cidr};
use crate::cidr_text::{cidr_text, mask_spec, parse_cidr_raw};
use crate::normalize::{
    all_bwf, bcovered, blocks_ordered, lemma_normalize_idempotent, lemma_normalize_props,
    normalize, spec_normalize, sum_hosts,
};
use crate::SweepError;
use vstd::prelude::*;

verus! {

/// Whether `t` is the spelling of some block, host bits allowed.
pub open spec fn is_cidr_token(t: Seq<u8>, sep: u8) -> bool {
    exists|a: u32, p: u8| p <= 32 && t == cidr_text(a, p, sep)
}

/// The block a valid token denotes, host bits masked away.
pub open spec fn token_block(t: Seq<u8>, sep: u8) -> Cidr {
    let (a, p) = choose|a: u32, p: u8| p <= 32 && t == cidr_text(a, p, sep);
    mask_spec(a, p)
}

/// The blocks a token list denotes.
pub open spec fn tokens_blocks(ts: Seq<Seq<u8>>, sep: u8) -> Seq<Cidr> {
    ts.map_values(|t: Seq<u8>| token_block(t, sep))
}

/// An ordered set of subnets in canonical form.
#[derive(Debug)]
pub struct SubnetSet {
    pub blocks: Vec<Cidr>,
}

impl SubnetSet {
    /// Canonical: every block is well formed and normalization is a no-op.
    pub open spec fn wf(self) -> bool {
        &&& all_bwf(self.blocks@)
        &&& spec_normalize(self.blocks@) == self.blocks@
    }

    /// Total number of usable host addresses, as a spec value.
    pub open spec fn spec_total(self) -> nat {
        sum_hosts(self.blocks@)
    }

    /// Normalize a list of well-formed blocks into a canonical set.
    pub fn from_blocks(v: &Vec<Cidr>) -> (r: SubnetSet)
        requires
            all_bwf(v@),
        ensures
            r.wf(),
            r.blocks@ == spec_normalize(v@),
            blocks_ordered(r.blocks@),
            forall|a: int| bcovered(r.blocks@, a) <==> bcovered(v@, a),
    {
        proof {
            lemma_normalize_idempotent(v@);
        }
        let blocks = normalize(v);
        SubnetSet { blocks }
    }

    /// Parse a list of `address/prefix` strings and normalize the result.
    /// Fails with `InvalidSubnet` exactly when some string is not canonical
    /// IPv4 CIDR with a prefix of at most 32.
    pub fn parse(list: &Vec<Vec<u8>>) -> (r: Result<SubnetSet, SweepError>)
        ensures
            r matches Ok(ss) ==> {
                &&& ss.wf()
                &&& forall|i: int|
                    0 <= i < list@.len() ==> is_cidr_token(#[trigger] list@[i]@, 47)
                &&& ss.blocks@ == spec_normalize(
                    tokens_blocks(list@.map_values(|t: Vec<u8>| t@), 47),
                )
            },
            r matches Err(e) ==> {
                &&& e == SweepError::InvalidSubnet
                &&& exists|i: int|
                    0 <= i < list@.len() && !is_cidr_token(#[trigger] list@[i]@, 47)
            },
    {
        let ghost views = list@.map_values(|t: Vec<u8>| t@);
        let mut parsed: Vec<Cidr> = Vec::new();
        let mut i: usize = 0;
        while i < list.len()
            invariant
                i <= list.len(),
                views == list@.map_values(|t: Vec<u8>| t@),
                parsed@.len() == i,
                all_bwf(parsed@),
                forall|j: int| 0 <= j < i ==> is_cidr_token(#[trigger] views[j], 47),
                forall|j: int|
                    0 <= j < i ==> parsed@[j] == token_block(#[trigger] views[j], 47),
            decreases list.len() - i,
        {
            let tok = parse_cidr_raw(&list[i], 47);
            match tok {
                Some((a, p)) => {
                    let c = crate::cidr_text::mask_block(a, p);
                    proof {
                        assert(views[i as int] == cidr_text(a, p, 47));
                        assert(is_cidr_token(views[i as int], 47));
                        let (a2, p2a) = choose|a2: u32, p2a: u8|
                            p2a <= 32 && views[i as int] == cidr_text(a2, p2a, 47);
                        assert(c == mask_spec(a2, p2a));
                    }
                    parsed.push(c);
                },
                None => {
                    proof {
                        assert(!is_cidr_token(views[i as int], 47)) by {
                            if is_cidr_token(views[i as int], 47) {
                                let (a2, p2a) = choose|a2: u32, p2a: u8|
                                    p2a <= 32 && views[i as int] == cidr_text(a2, p2a, 47);
                                assert(tok == Some((a2, p2a)));
                            }
                        }
                        assert(views[i as int] == list@[i as int]@);
                        assert(!is_cidr_token(list@[i as int]@, 47));
                    }
                    return Err(SweepError::InvalidSubnet);
                },
            }
            i = i + 1;
        }
        proof {
            assert(parsed@ =~= tokens_blocks(views, 47));
            assert forall|j: int| 0 <= j < list@.len() implies is_cidr_token(
                #[trigger] list@[j]@,
                47,
            ) by {
                assert(views[j] == list@[j]@);
            }
        }
        Ok(Self::from_blocks(&parsed))
    }

    /// Total number of usable host addresses across the set.
    pub fn total_hosts(&self) -> (r: u64)
        requires
            self.wf(),
        ensures
            r == self.spec_total(),
            r <= 0x1_0000_0000u64,
    {
        proof {
            lemma_normalize_props(self.blocks@);
        }
        let mut sum: u64 = 0;
        let mut i: usize = 0;
        proof {
            assert(self.blocks@.take(0) =~= Seq::<Cidr>::empty());
        }
        while i < self.blocks.len()
            invariant
                i <= self.blocks.len(),
                self.wf(),
                sum == sum_hosts(self.blocks@.take(i as int)),
                sum_hosts(self.blocks@) <= 0x1_0000_0000,
            decreases self.blocks.len() - i,
        {
            let c = self.blocks[i];
            proof {
                lemma_sum_hosts_take(self.blocks@, i as int);
            }
            let hc = host_count_u64(c.net, c.prefix);
            sum = sum + hc;
            i = i + 1;
        }
        proof {
            assert(self.blocks@.take(self.blocks@.len() as int) =~= self.blocks@);
        }
        sum
    }

    /// The `i`-th address of the sequence, counted across blocks.
    pub fn addr_at(&self, i: u64) -> (r: u32)
        requires
            self.wf(),
            i < self.spec_total(),
        ensures
            r == nth_host(self.blocks@, i as int),
    {
        let mut j: usize = 0;
        let mut rem: u64 = i;
        proof {
            assert(self.blocks@.skip(0) =~= self.blocks@);
        }
        while j < self.blocks.len()
            invariant
                0 <= j <= self.blocks.len(),
                self.wf(),
                rem <= i,
                rem < sum_hosts(self.blocks@.skip(j as int)),
                nth_host(self.blocks@, i as int) == nth_host(self.blocks@.skip(j as int), rem as int),
            decreases self.blocks.len() - j,
        {
            proof {
                assert(self.blocks@.skip(j as int)[0] == self.blocks@[j as int]);
                assert(self.blocks@.skip(j as int).drop_first() =~= self.blocks@.skip(j as int + 1));
                lemma_host_count_pos(self.blocks@[j as int]);
                lemma_wf_last(self.blocks@[j as int]);
            }
            let c = self.blocks[j];
            let hc = host_count_u64(c.net, c.prefix);
            if rem < hc {
                let first: u64 = if c.prefix <= 30 {
                    c.net as u64 + 1
                } else {
                    c.net as u64
                };
                proof {
                    assert(c.host_at(rem as int) == first + rem);
                    assert(c.covers(c.host_at(rem as int)));
                    assert(c.last() < 0x1_0000_0000);
                }
                return (first + rem) as u32;
            }
            rem = rem - hc;
            j = j + 1;
        }
        proof {
            assert(self.blocks@.skip(j as int) =~= Seq::<Cidr>::empty());
        }
        vstd::pervasive::unreached()
    }
}

/// The `i`-th usable host address over a block list.
pub open spec fn nth_host(bs: Seq<Cidr>, i: int) -> int
    decreases bs.len(),
{
    if bs.len() == 0 {
        0
    } else if i < bs[0].host_count() {
        bs[0].host_at(i)
    } else {
        nth_host(bs.drop_first(), i - bs[0].host_count())
    }
}

/// The address sequence is strictly ascending: later positions hold larger
/// addresses, so each address appears at exactly one file offset.
pub proof fn lemma_sequence_ascending(bs: Seq<Cidr>, i: int)
    requires
        all_bwf(bs),
        blocks_ordered(bs),
        0 <= i,
        i + 1 < sum_hosts(bs),
    ensures
        nth_host(bs, i) < nth_host(bs, i + 1),
    decreases bs.len(),
{
    let hc0 = bs[0].host_count() as int;
    lemma_host_count_pos(bs[0]);
    if i + 1 < hc0 {
        assert(nth_host(bs, i) == bs[0].host_at(i));
        assert(nth_host(bs, i + 1) == bs[0].host_at(i + 1));
    } else {
        let tail = bs.drop_first();
        assert(sum_hosts(bs) == hc0 + sum_hosts(tail));
        assert(tail.len() >= 1) by {
            if tail.len() == 0 {
                assert(sum_hosts(tail) == 0);
            }
        }
        assert(tail[0] == bs[1]);
        lemma_host_count_pos(tail[0]);
        assert forall|k: int| 0 <= k < tail.len() implies (#[trigger] tail[k]).wf() by {
            assert(tail[k] == bs[k + 1]);
        }
        assert forall|k: int|
            #![trigger tail[k]]
            0 <= k && k + 1 < tail.len() implies tail[k].last() < tail[k + 1].first() by {
            assert(tail[k] == bs[k + 1]);
            assert(tail[k + 1] == bs[k + 2]);
        }
        if i + 1 == hc0 {
            // The junction: the last host of one block comes before the
            // first host of the next.
            assert(nth_host(bs, i) == bs[0].host_at(i));
            assert(bs[0].covers(bs[0].host_at(i)));
            assert(nth_host(bs, i + 1) == nth_host(tail, 0));
            assert(nth_host(tail, 0) == tail[0].host_at(0));
            assert(bs[0].last() < bs[1].first());
        } else {
            lemma_sequence_ascending(tail, i - hc0);
        }
    }
}

/// Taking one more block adds its host count.
proof fn lemma_sum_hosts_take(bs: Seq<Cidr>, i: int)
    requires
        0 <= i < bs.len(),
    ensures
        sum_hosts(bs.take(i + 1)) == sum_hosts(bs.take(i)) + bs[i].host_count(),
        sum_hosts(bs.take(i + 1)) <= sum_hosts(bs),
{
    crate::normalize::lemma_sum_hosts_concat(bs.take(i), seq![bs[i]]);
    assert(bs.take(i) + seq![bs[i]] =~= bs.take(i + 1));
    assert(sum_hosts(seq![bs[i]]) == bs[i].host_count()) by {
        assert(seq![bs[i]][0] == bs[i]);
        assert(seq![bs[i]].drop_first() =~= Seq::<Cidr>::empty());
        assert(sum_hosts(Seq::<Cidr>::empty()) == 0);
    }
    crate::normalize::lemma_sum_hosts_concat(bs.take(i + 1), bs.skip(i + 1));
    assert(bs.take(i + 1) + bs.skip(i + 1) =~= bs);
}

} // verus!
