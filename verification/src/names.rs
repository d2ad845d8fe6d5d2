//! Result-file names: the canonical encoding of a subnet set.
//!
//! A name is each block spelt `network-prefix`, blocks joined by `_`, with
//! the fixed extension `.ping`.  The name is the contract between writer and
//! reader: decoding a canonical name recovers the subnet set and with it the
//! address sequence, so the file's records can be mapped back to addresses
//! with nothing but the file itself.

use crate::cidr::{pow2_u64, Cidr};
use crate::cidr_text::{
    cidr_text, lemma_cidr_text_split, lemma_cidr_text_underscore_free, lemma_ipv4_text_split,
    lemma_octets, parse_cidr_raw, render_cidr,
};
use crate::normalize::{all_bwf, lemma_normalize_empty, spec_normalize};
use crate::subnets::SubnetSet;
use crate::text::{
    join_with, lemma_join_split, lemma_render_parse_dec, lemma_split_join, render_dec, sep_free,
    split_bytes, split_spec,
};
use vstd::prelude::*;

verus! {

/// The fixed result-file extension, `.ping`.
pub open spec fn ext_text() -> Seq<u8> {
    seq![46u8, 112u8, 105u8, 110u8, 103u8]
}

/// The block spellings that make up a name.
pub open spec fn block_texts(bs: Seq<Cidr>) -> Seq<Seq<u8>> {
    bs.map_values(|c: Cidr| cidr_text(c.net, c.prefix, 45))
}

/// The canonical file name of a subnet list.
pub open spec fn name_text(bs: Seq<Cidr>) -> Seq<u8> {
    join_with(block_texts(bs), 95) + ext_text()
}

/// Appending one more part to a join.
proof fn lemma_join_push(parts: Seq<Seq<u8>>, t: Seq<u8>, sep: u8)
    ensures
        join_with(parts.push(t), sep) == if parts.len() == 0 {
            t
        } else {
            join_with(parts, sep) + seq![sep] + t
        },
    decreases parts.len(),
{
    let m = parts.push(t);
    if parts.len() == 0 {
        assert(m.len() == 1);
        assert(m[0] == t);
    } else if parts.len() == 1 {
        assert(m.len() == 2);
        assert(m[0] == parts[0]);
        assert(m.drop_first() =~= seq![t]);
        assert(join_with(seq![t], sep) == t);
    } else {
        assert(m[0] == parts[0]);
        assert(m.drop_first() =~= parts.drop_first().push(t));
        lemma_join_push(parts.drop_first(), t, sep);
        assert(parts[0] + seq![sep] + (join_with(parts.drop_first(), sep) + seq![sep] + t) =~= (
        parts[0] + seq![sep] + join_with(parts.drop_first(), sep)) + seq![sep] + t);
    }
}

/// A name's stem is non-empty when the list is, and splits back into the
/// block spellings.
proof fn lemma_name_parts(bs: Seq<Cidr>)
    requires
        all_bwf(bs),
        bs.len() >= 1,
    ensures
        join_with(block_texts(bs), 95).len() >= 1,
        split_spec(join_with(block_texts(bs), 95), 95) == block_texts(bs),
{
    let texts = block_texts(bs);
    assert forall|i: int| 0 <= i < texts.len() implies sep_free(#[trigger] texts[i], 95)
        && texts[i].len() >= 1 by {
        assert(texts[i] == cidr_text(bs[i].net, bs[i].prefix, 45));
        lemma_cidr_text_underscore_free(bs[i].net, bs[i].prefix);
    }
    lemma_split_join(texts, 95);
    if texts.len() == 1 {
        assert(join_with(texts, 95) == texts[0]);
    } else {
        assert(join_with(texts, 95) == texts[0] + seq![95u8] + join_with(texts.drop_first(), 95));
    }
}

/// Render the canonical file name of a subnet set.
pub fn encode_name(ss: &SubnetSet) -> (r: Vec<u8>)
    ensures
        r@ == name_text(ss.blocks@),
{
    let ghost texts = block_texts(ss.blocks@);
    let mut out: Vec<u8> = Vec::new();
    let mut i: usize = 0;
    proof {
        assert(texts.take(0) =~= Seq::<Seq<u8>>::empty());
    }
    while i < ss.blocks.len()
        invariant
            i <= ss.blocks.len(),
            texts == block_texts(ss.blocks@),
            out@ == join_with(texts.take(i as int), 95),
        decreases ss.blocks.len() - i,
    {
        if i > 0 {
            out.push(95);
        }
        let mut t = render_cidr(&ss.blocks[i], 45);
        out.append(&mut t);
        proof {
            lemma_join_push(texts.take(i as int), texts[i as int], 95);
            assert(texts.take(i as int).push(texts[i as int]) =~= texts.take(i as int + 1));
            if i == 0 {
                assert(out@ =~= texts[0]);
            } else {
                assert(out@ =~= join_with(texts.take(i as int), 95) + seq![95u8] + texts[
                    i as int]);
            }
        }
        i = i + 1;
    }
    proof {
        assert(texts.take(texts.len() as int) =~= texts);
    }
    out.push(46);
    out.push(112);
    out.push(105);
    out.push(110);
    out.push(103);
    proof {
        assert(out@ =~= name_text(ss.blocks@));
    }
    out
}

/// Decode a canonical file name back into its subnet set.  Exactly the
/// canonical names are accepted: aligned networks, canonical decimals, the
/// `.ping` extension; the decoded set is normalized, so a name produced by
/// `encode_name` on a canonical set decodes to that very set.
#[verifier::rlimit(100)]
pub fn decode_name(bytes: &Vec<u8>) -> (r: Option<SubnetSet>)
    ensures
        r matches Some(ss) ==> {
            &&& ss.wf()
            &&& exists|bs: Seq<Cidr>|
                all_bwf(bs) && bytes@ == name_text(bs) && ss.blocks@ == spec_normalize(bs)
        },
        forall|bs: Seq<Cidr>|
            all_bwf(bs) && bytes@ == #[trigger] name_text(bs) ==> (r is Some
                && r->Some_0.blocks@ == spec_normalize(bs)),
{
    if bytes.len() < 5 {
        proof {
            assert forall|bs: Seq<Cidr>|
                all_bwf(bs) && bytes@ == #[trigger] name_text(bs) implies false by {}
        }
        return None;
    }
    let n = bytes.len() - 5;
    if !(bytes[n] == 46 && bytes[n + 1] == 112 && bytes[n + 2] == 105 && bytes[n + 3] == 110
        && bytes[n + 4] == 103) {
        proof {
            assert forall|bs: Seq<Cidr>|
                all_bwf(bs) && bytes@ == #[trigger] name_text(bs) implies false by {
                assert(bytes@[bytes@.len() - 5] == 46);
                assert(bytes@[bytes@.len() - 4] == 112);
                assert(bytes@[bytes@.len() - 3] == 105);
                assert(bytes@[bytes@.len() - 2] == 110);
                assert(bytes@[bytes@.len() - 1] == 103);
            }
        }
        return None;
    }
    let mut stem: Vec<u8> = Vec::new();
    let mut j: usize = 0;
    while j < n
        invariant
            j <= n,
            n + 5 == bytes@.len(),
            stem@ == bytes@.take(j as int),
        decreases n - j,
    {
        let b = bytes[j];
        proof {
            assert(bytes@.take(j as int).push(b) =~= bytes@.take(j as int + 1));
        }
        stem.push(b);
        j = j + 1;
    }
    proof {
        assert(bytes@ =~= stem@ + ext_text());
    }
    if stem.len() == 0 {
        let ss = SubnetSet { blocks: Vec::new() };
        proof {
            lemma_normalize_empty();
            assert(ss.blocks@ =~= Seq::<Cidr>::empty());
            assert(ss.wf());
            let ghost bse = Seq::<Cidr>::empty();
            assert(block_texts(bse) =~= Seq::<Seq<u8>>::empty());
            assert(name_text(bse) =~= bytes@);
            assert(all_bwf(bse) && bytes@ == name_text(bse) && ss.blocks@ == spec_normalize(bse));
            assert forall|bs: Seq<Cidr>|
                all_bwf(bs) && bytes@ == #[trigger] name_text(bs) implies bs
                =~= Seq::<Cidr>::empty() by {
                if bs.len() >= 1 {
                    lemma_name_parts(bs);
                }
            }
        }
        return Some(ss);
    }
    let parts = split_bytes(&stem, 95);
    let ghost views = parts@.map_values(|x: Vec<u8>| x@);
    let mut blocks: Vec<Cidr> = Vec::new();
    let mut i: usize = 0;
    while i < parts.len()
        invariant
            i <= parts.len(),
            views == parts@.map_values(|x: Vec<u8>| x@),
            views == split_spec(stem@, 95),
            bytes@ == stem@ + ext_text(),
            stem@.len() >= 1,
            blocks@.len() == i,
            all_bwf(blocks@),
            forall|k: int|
                0 <= k < i ==> #[trigger] views[k] == cidr_text(
                    blocks@[k].net,
                    blocks@[k].prefix,
                    45,
                ),
        decreases parts.len() - i,
    {
        let tok = parse_cidr_raw(&parts[i], 45);
        match tok {
            Some((a, p)) => {
                let size = pow2_u64(32 - p);
                proof {
                    crate::cidr::lemma_p2_pos((32 - p) as nat);
                }
                if (a as u64) % size != 0 {
                    proof {
                        lemma_decode_token_mismatch(bytes@, stem@, views, i as int, tok);
                    }
                    return None;
                }
                let c = Cidr { net: a, prefix: p };
                blocks.push(c);
            },
            None => {
                proof {
                    lemma_decode_token_mismatch(bytes@, stem@, views, i as int, tok);
                }
                return None;
            },
        }
        i = i + 1;
    }
    let ss = SubnetSet::from_blocks(&blocks);
    proof {
        lemma_join_split(stem@, 95);
        assert(views =~= block_texts(blocks@)) by {
            assert forall|k: int| 0 <= k < views.len() implies views[k] == block_texts(blocks@)[
                k] by {}
        }
        assert(bytes@ == name_text(blocks@)) by {
            assert(join_with(views, 95) == stem@);
            assert(bytes@ =~= join_with(block_texts(blocks@), 95) + ext_text());
        }
        assert forall|bs: Seq<Cidr>|
            all_bwf(bs) && bytes@ == #[trigger] name_text(bs) implies ss.blocks@
            == spec_normalize(bs) by {
            lemma_names_same_blocks(blocks@, bs, bytes@);
        }
    }
    Some(ss)
}

/// If a candidate list's name matches the bytes, then at token `i` the
/// parser cannot have failed nor found an unaligned network.
proof fn lemma_decode_token_mismatch(
    name: Seq<u8>,
    stem: Seq<u8>,
    views: Seq<Seq<u8>>,
    i: int,
    tok: Option<(u32, u8)>,
)
    requires
        name == stem + ext_text(),
        views == split_spec(stem, 95),
        0 <= i < views.len(),
        stem.len() >= 1,
        forall|a: u32, p: u8| p <= 32 && views[i] == cidr_text(a, p, 45) ==> tok == Some((a, p)),
        tok matches Some(ap) ==> !((ap.0 as int) % (crate::cidr::p2((32 - ap.1) as nat) as int)
            == 0),
    ensures
        forall|bs: Seq<Cidr>| all_bwf(bs) && name == #[trigger] name_text(bs) ==> false,
{
    assert forall|bs: Seq<Cidr>| all_bwf(bs) && name == #[trigger] name_text(bs) implies false by {
        lemma_stem_determines(stem, bs, name);
        assert(views[i] == block_texts(bs)[i]);
        assert(views[i] == cidr_text(bs[i].net, bs[i].prefix, 45));
        assert(bs[i].wf());
        assert(tok == Some((bs[i].net, bs[i].prefix)));
    }
}

/// A name's bytes pin down the stem split: it equals the block spellings.
proof fn lemma_stem_determines(stem: Seq<u8>, bs: Seq<Cidr>, name: Seq<u8>)
    requires
        name == stem + ext_text(),
        stem.len() >= 1,
        all_bwf(bs),
        name == name_text(bs),
    ensures
        bs.len() >= 1,
        split_spec(stem, 95) == block_texts(bs),
{
    if bs.len() == 0 {
        assert(block_texts(bs) =~= Seq::<Seq<u8>>::empty());
        assert(name_text(bs) =~= ext_text());
        assert(name.len() == stem.len() + 5);
        assert(false);
    }
    lemma_name_parts(bs);
    let jn = join_with(block_texts(bs), 95);
    assert(stem =~= jn) by {
        assert(stem.len() + 5 == name.len() == jn.len() + 5);
        assert forall|k: int| 0 <= k < stem.len() implies stem[k] == jn[k] by {
            assert(name[k] == stem[k]);
            assert(name[k] == jn[k]);
        }
    }
}

/// Two well-formed lists with the same name have the same blocks.
proof fn lemma_names_same_blocks(x: Seq<Cidr>, y: Seq<Cidr>, name: Seq<u8>)
    requires
        all_bwf(x),
        all_bwf(y),
        x.len() >= 1,
        name == name_text(x),
        name == name_text(y),
    ensures
        x == y,
{
    lemma_name_parts(x);
    let jx = join_with(block_texts(x), 95);
    assert(name =~= jx + ext_text());
    lemma_stem_determines(jx, y, name);
    assert(block_texts(x) == block_texts(y));
    assert(x =~= y) by {
        assert forall|k: int| 0 <= k < x.len() implies x[k] == y[k] by {
            assert(block_texts(x)[k] == cidr_text(x[k].net, x[k].prefix, 45));
            assert(block_texts(y)[k] == cidr_text(y[k].net, y[k].prefix, 45));
            lemma_cidr_text_injective(x[k].net, x[k].prefix, y[k].net, y[k].prefix);
        }
    }
}

/// The spelling of a block determines the block.
proof fn lemma_cidr_text_injective(a: u32, p: u8, a2: u32, p2a: u8)
    requires
        p <= 32,
        p2a <= 32,
        cidr_text(a, p, 45) == cidr_text(a2, p2a, 45),
    ensures
        a == a2,
        p == p2a,
{
    lemma_cidr_text_split(a, p, 45);
    lemma_cidr_text_split(a2, p2a, 45);
    assert(crate::cidr_text::ipv4_text(a) == crate::cidr_text::ipv4_text(a2));
    assert(render_dec(p as int) == render_dec(p2a as int));
    lemma_render_parse_dec(p as int);
    lemma_render_parse_dec(p2a as int);
    lemma_ipv4_text_split(a);
    lemma_ipv4_text_split(a2);
    lemma_render_parse_dec(crate::cidr_text::oct3(a));
    lemma_render_parse_dec(crate::cidr_text::oct2(a));
    lemma_render_parse_dec(crate::cidr_text::oct1(a));
    lemma_render_parse_dec(crate::cidr_text::oct0(a));
    lemma_render_parse_dec(crate::cidr_text::oct3(a2));
    lemma_render_parse_dec(crate::cidr_text::oct2(a2));
    lemma_render_parse_dec(crate::cidr_text::oct1(a2));
    lemma_render_parse_dec(crate::cidr_text::oct0(a2));
    lemma_octets(a);
    lemma_octets(a2);
}

/// The canonical file name determines the subnet set: two well-formed lists
/// with the same name are the same list, so the encoding is reciprocal and
/// the address sequence can be recovered from the name alone.
pub proof fn lemma_name_injective(x: Seq<Cidr>, y: Seq<Cidr>)
    requires
        all_bwf(x),
        all_bwf(y),
        name_text(x) == name_text(y),
    ensures
        x == y,
{
    if x.len() == 0 && y.len() == 0 {
        assert(x =~= y);
    } else if x.len() == 0 {
        lemma_name_parts(y);
        assert(block_texts(x) =~= Seq::<Seq<u8>>::empty());
        assert(name_text(x).len() == 5);
        assert(false);
    } else {
        if y.len() == 0 {
            lemma_name_parts(x);
            assert(block_texts(y) =~= Seq::<Seq<u8>>::empty());
            assert(name_text(y).len() == 5);
            assert(false);
        }
        lemma_name_parts(x);
        lemma_names_same_blocks(x, y, name_text(x));
    }
}

} // verus!
