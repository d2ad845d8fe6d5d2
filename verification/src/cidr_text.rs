//! The textual grammar of IPv4 CIDR blocks.
//!
//! A block is spelt as four canonical decimal octets joined by dots, a
//! separator (`/` on the command line, `-` inside file names), and a
//! canonical decimal prefix length.  Parsing and rendering are proved to be
//! exact inverses, which is what lets a result file name double as the
//! definition of the address sequence inside the file.

use crate::cidr::{p2, pow2_u64, Cidr};
use crate::text::{
    join_with, lemma_join_split, lemma_parse_dec_sound, lemma_render_parse_dec, lemma_split_join,
    parse_dec, parse_dec_exec, render_dec, render_dec_exec, sep_free, split_bytes, split_spec,
};
use vstd::arithmetic::div_mod::{
    lemma_div_denominator, lemma_fundamental_div_mod, lemma_fundamental_div_mod_converse,
    lemma_mod_division_less_than_divisor,
};
use vstd::prelude::*;

verus! {

/// The four decimal octets of an address, most significant first.
pub open spec fn oct3(a: u32) -> int {
    a as int / 0x100_0000
}

pub open spec fn oct2(a: u32) -> int {
    (a as int / 0x1_0000) % 256
}

pub open spec fn oct1(a: u32) -> int {
    (a as int / 256) % 256
}

pub open spec fn oct0(a: u32) -> int {
    a as int % 256
}

/// Dotted-quad spelling of an address, each octet canonical decimal.
pub open spec fn ipv4_text(a: u32) -> Seq<u8> {
    render_dec(oct3(a)) + seq![46u8] + render_dec(oct2(a)) + seq![46u8] + render_dec(oct1(a))
        + seq![46u8] + render_dec(oct0(a))
}

/// Spelling of a block: address, separator, prefix length.
pub open spec fn cidr_text(a: u32, p: u8, sep: u8) -> Seq<u8> {
    ipv4_text(a) + seq![sep] + render_dec(p as int)
}

/// The block obtained by masking the host bits of `a` away.
pub open spec fn mask_spec(a: u32, p: u8) -> Cidr {
    Cidr { net: (a - (a as int % (p2((32 - p) as nat) as int))) as u32, prefix: p }
}

/// Octet decomposition: ranges and the recombination identity.
pub proof fn lemma_octets(a: u32)
    ensures
        0 <= oct3(a) <= 255,
        0 <= oct2(a) <= 255,
        0 <= oct1(a) <= 255,
        0 <= oct0(a) <= 255,
        a == oct3(a) * 0x100_0000 + oct2(a) * 0x1_0000 + oct1(a) * 256 + oct0(a),
{
    let x = a as int;
    lemma_fundamental_div_mod(x, 256);
    lemma_mod_division_less_than_divisor(x, 256);
    let x1 = x / 256;
    lemma_fundamental_div_mod(x1, 256);
    lemma_mod_division_less_than_divisor(x1, 256);
    let x2 = x1 / 256;
    lemma_fundamental_div_mod(x2, 256);
    lemma_mod_division_less_than_divisor(x2, 256);
    let x3 = x2 / 256;
    lemma_div_denominator(x, 256, 256);
    assert(x2 == x / 0x1_0000);
    lemma_div_denominator(x, 0x1_0000, 256);
    assert(x3 == x / 0x100_0000);
    assert(x == 256 * x1 + oct0(a));
    assert(x1 == 256 * x2 + oct1(a));
    assert(x2 == 256 * x3 + oct2(a));
    assert(x3 >= 0) by {
        vstd::arithmetic::div_mod::lemma_div_pos_is_pos(x2, 256);
        vstd::arithmetic::div_mod::lemma_div_pos_is_pos(x1, 256);
        vstd::arithmetic::div_mod::lemma_div_pos_is_pos(x, 256);
    }
    assert(x3 <= 255) by {
        if x3 >= 256 {
            assert(x == 0x100_0000 * x3 + oct2(a) * 0x1_0000 + oct1(a) * 256 + oct0(a));
        }
    }
}

/// Recombining four octet values gives back each octet.
pub proof fn lemma_octets_rev(o3: int, o2: int, o1: int, o0: int)
    ensures
        0 <= o3 <= 255 && 0 <= o2 <= 255 && 0 <= o1 <= 255 && 0 <= o0 <= 255 ==> {
            let x = o3 * 0x100_0000 + o2 * 0x1_0000 + o1 * 256 + o0;
            &&& 0 <= x < 0x1_0000_0000
            &&& x / 0x100_0000 == o3
            &&& (x / 0x1_0000) % 256 == o2
            &&& (x / 256) % 256 == o1
            &&& x % 256 == o0
        },
{
    if 0 <= o3 <= 255 && 0 <= o2 <= 255 && 0 <= o1 <= 255 && 0 <= o0 <= 255 {
        let x = o3 * 0x100_0000 + o2 * 0x1_0000 + o1 * 256 + o0;
        let q1 = o3 * 0x1_0000 + o2 * 256 + o1;
        let q2 = o3 * 256 + o2;
        lemma_fundamental_div_mod_converse(x, 256, q1, o0);
        lemma_fundamental_div_mod_converse(q1, 256, q2, o1);
        lemma_fundamental_div_mod_converse(q2, 256, o3, o2);
        lemma_div_denominator(x, 256, 256);
        lemma_div_denominator(x, 0x1_0000, 256);
    }
}

/// How the dotted-quad spelling of an address splits and parses.
pub proof fn lemma_ipv4_text_split(a: u32)
    ensures
        split_spec(ipv4_text(a), 46) == seq![
            render_dec(oct3(a)),
            render_dec(oct2(a)),
            render_dec(oct1(a)),
            render_dec(oct0(a)),
        ],
        parse_dec(render_dec(oct3(a))) == Some(oct3(a) as u8),
        parse_dec(render_dec(oct2(a))) == Some(oct2(a) as u8),
        parse_dec(render_dec(oct1(a))) == Some(oct1(a) as u8),
        parse_dec(render_dec(oct0(a))) == Some(oct0(a) as u8),
        sep_free(ipv4_text(a), 45),
        sep_free(ipv4_text(a), 47),
        sep_free(ipv4_text(a), 95),
{
    lemma_octets(a);
    lemma_render_parse_dec(oct3(a));
    lemma_render_parse_dec(oct2(a));
    lemma_render_parse_dec(oct1(a));
    lemma_render_parse_dec(oct0(a));
    let parts = seq![
        render_dec(oct3(a)),
        render_dec(oct2(a)),
        render_dec(oct1(a)),
        render_dec(oct0(a)),
    ];
    assert forall|i: int| 0 <= i < parts.len() implies sep_free(#[trigger] parts[i], 46) by {
        lemma_render_digits_sep_free(parts[i]);
    }
    lemma_split_join(parts, 46);
    assert(join_with(parts, 46) =~= ipv4_text(a)) by {
        reveal_with_fuel(join_with, 5);
        assert(parts.drop_first() =~= seq![
            render_dec(oct2(a)),
            render_dec(oct1(a)),
            render_dec(oct0(a)),
        ]);
        assert(parts.drop_first().drop_first() =~= seq![
            render_dec(oct1(a)),
            render_dec(oct0(a)),
        ]);
        assert(parts.drop_first().drop_first().drop_first() =~= seq![render_dec(oct0(a))]);
    }
    assert forall|i: int| 0 <= i < ipv4_text(a).len() implies ipv4_text(a)[i] != 45
        && ipv4_text(a)[i] != 47 && ipv4_text(a)[i] != 95 by {
        lemma_ipv4_chars(a, i);
    }
}

/// Every byte of a dotted quad is a digit or a dot.
proof fn lemma_ipv4_chars(a: u32, i: int)
    requires
        0 <= i < ipv4_text(a).len(),
    ensures
        (48 <= ipv4_text(a)[i] <= 57) || ipv4_text(a)[i] == 46,
{
    lemma_octets(a);
    lemma_render_parse_dec(oct3(a));
    lemma_render_parse_dec(oct2(a));
    lemma_render_parse_dec(oct1(a));
    lemma_render_parse_dec(oct0(a));
}

/// A sequence of digits contains no dot and no separator.
proof fn lemma_render_digits_sep_free(t: Seq<u8>)
    requires
        forall|i: int| 0 <= i < t.len() ==> 48 <= #[trigger] t[i] <= 57,
    ensures
        sep_free(t, 46),
        sep_free(t, 45),
        sep_free(t, 47),
        sep_free(t, 95),
{
}

/// Render an address as a dotted quad.
pub fn render_ipv4(a: u32) -> (r: Vec<u8>)
    ensures
        r@ == ipv4_text(a),
{
    proof {
        lemma_octets(a);
    }
    let mut r = render_dec_exec((a / 0x100_0000) as u8);
    r.push(46);
    let mut t = render_dec_exec(((a / 0x1_0000) % 256) as u8);
    r.append(&mut t);
    r.push(46);
    let mut t = render_dec_exec(((a / 256) % 256) as u8);
    r.append(&mut t);
    r.push(46);
    let mut t = render_dec_exec((a % 256) as u8);
    r.append(&mut t);
    proof {
        assert(r@ =~= ipv4_text(a));
    }
    r
}

/// Parse a dotted quad; exactly the canonical spellings are accepted.
#[verifier::rlimit(100)]
pub fn parse_ipv4(t: &Vec<u8>) -> (r: Option<u32>)
    ensures
        r matches Some(a) ==> t@ == ipv4_text(a),
        forall|a: u32| t@ == ipv4_text(a) ==> r == Some(a),
{
    let parts = split_bytes(t, 46);
    let ghost views = parts@.map_values(|x: Vec<u8>| x@);
    if parts.len() != 4 {
        proof {
            assert forall|a: u32| t@ == ipv4_text(a) implies false by {
                lemma_ipv4_text_split(a);
                assert(views == split_spec(ipv4_text(a), 46));
                assert(views.len() == 4);
                assert(parts@.len() == views.len());
            }
        }
        return None;
    }
    let d3 = parse_dec_exec(&parts[0]);
    let d2 = parse_dec_exec(&parts[1]);
    let d1 = parse_dec_exec(&parts[2]);
    let d0 = parse_dec_exec(&parts[3]);
    if d3.is_none() || d2.is_none() || d1.is_none() || d0.is_none() {
        proof {
            assert forall|a: u32| t@ == ipv4_text(a) implies false by {
                lemma_ipv4_text_split(a);
                assert(views[0] == render_dec(oct3(a)));
                assert(views[1] == render_dec(oct2(a)));
                assert(views[2] == render_dec(oct1(a)));
                assert(views[3] == render_dec(oct0(a)));
            }
        }
        return None;
    }
    let o3 = d3.unwrap();
    let o2 = d2.unwrap();
    let o1 = d1.unwrap();
    let o0 = d0.unwrap();
    let a = (o3 as u32) * 0x100_0000 + (o2 as u32) * 0x1_0000 + (o1 as u32) * 256 + (o0 as u32);
    proof {
        lemma_octets_rev(o3 as int, o2 as int, o1 as int, o0 as int);
        // Soundness: the accepted bytes are the canonical spelling of `a`.
        lemma_parse_dec_sound(views[0]);
        lemma_parse_dec_sound(views[1]);
        lemma_parse_dec_sound(views[2]);
        lemma_parse_dec_sound(views[3]);
        lemma_join_split(t@, 46);
        assert(join_with(views, 46) == t@);
        assert(join_with(views, 46) =~= ipv4_text(a)) by {
            reveal_with_fuel(join_with, 5);
            assert(views[0] == render_dec(oct3(a)));
            assert(views[1] == render_dec(oct2(a)));
            assert(views[2] == render_dec(oct1(a)));
            assert(views[3] == render_dec(oct0(a)));
            assert(views.drop_first() =~= seq![views[1], views[2], views[3]]);
            assert(views.drop_first().drop_first() =~= seq![views[2], views[3]]);
            assert(views.drop_first().drop_first().drop_first() =~= seq![views[3]]);
        }
        // Completeness: any address whose spelling is these bytes is `a`.
        assert forall|a2: u32| t@ == ipv4_text(a2) implies a2 == a by {
            lemma_ipv4_text_split(a2);
            assert(views[0] == render_dec(oct3(a2)));
            assert(views[1] == render_dec(oct2(a2)));
            assert(views[2] == render_dec(oct1(a2)));
            assert(views[3] == render_dec(oct0(a2)));
            lemma_octets(a2);
        }
    }
    Some(a)
}

/// Mask the host bits of an address away, yielding a well-formed block.
pub fn mask_block(a: u32, p: u8) -> (c: Cidr)
    requires
        p <= 32,
    ensures
        c == mask_spec(a, p),
        c.wf(),
        c.prefix == p,
{
    let size = pow2_u64(32 - p);
    let a64 = a as u64;
    proof {
        let s = p2((32 - p) as nat) as int;
        crate::cidr::lemma_p2_pos((32 - p) as nat);
        crate::cidr::lemma_p2_mono((32 - p) as nat, 32);
        crate::cidr::lemma_p2_32();
        lemma_fundamental_div_mod(a as int, s);
        lemma_mod_division_less_than_divisor(a as int, s);
        vstd::arithmetic::div_mod::lemma_div_pos_is_pos(a as int, s);
    }
    let net64 = a64 - a64 % size;
    let c = Cidr { net: net64 as u32, prefix: p };
    proof {
        let s = p2((32 - p) as nat) as int;
        let q = a as int / s;
        assert(net64 == a - a as int % s);
        assert(net64 == s * q);
        vstd::arithmetic::div_mod::lemma_mod_multiples_basic(q, s);
        assert((q * s) % s == 0);
        assert(q * s == s * q) by (nonlinear_arith);
        assert(net64 as int % s == 0);
        assert(net64 <= a64);
        assert(c.net as int == net64 as int);
        assert(c.size() as int == s);
        assert(c.wf());
    }
    c
}

/// Render a block as `address<sep>prefix`.
pub fn render_cidr(c: &Cidr, sep: u8) -> (r: Vec<u8>)
    ensures
        r@ == cidr_text(c.net, c.prefix, sep),
{
    let mut r = render_ipv4(c.net);
    r.push(sep);
    let mut t = render_dec_exec(c.prefix);
    r.append(&mut t);
    proof {
        assert(r@ =~= cidr_text(c.net, c.prefix, sep));
    }
    r
}

/// Parse `address<sep>prefix` into the raw address and prefix length.
/// Exactly the canonical spellings with a prefix of at most 32 are accepted.
pub fn parse_cidr_raw(t: &Vec<u8>, sep: u8) -> (r: Option<(u32, u8)>)
    requires
        sep == 45 || sep == 47,
    ensures
        r matches Some(ap) ==> ap.1 <= 32 && t@ == cidr_text(ap.0, ap.1, sep),
        forall|a: u32, p: u8| p <= 32 && t@ == cidr_text(a, p, sep) ==> r == Some((a, p)),
{
    let parts = split_bytes(t, sep);
    let ghost views = parts@.map_values(|x: Vec<u8>| x@);
    if parts.len() != 2 {
        proof {
            assert forall|a: u32, p: u8| p <= 32 && t@ == cidr_text(a, p, sep) implies false by {
                lemma_cidr_text_split(a, p, sep);
                assert(views == split_spec(cidr_text(a, p, sep), sep));
                assert(views.len() == 2);
                assert(parts@.len() == views.len());
            }
        }
        return None;
    }
    let addr = parse_ipv4(&parts[0]);
    let pd = parse_dec_exec(&parts[1]);
    if addr.is_none() || pd.is_none() || pd.unwrap() > 32 {
        proof {
            assert forall|a: u32, p: u8| p <= 32 && t@ == cidr_text(a, p, sep) implies false by {
                lemma_cidr_text_split(a, p, sep);
                assert(views[0] == ipv4_text(a));
                assert(views[1] == render_dec(p as int));
                lemma_render_parse_dec(p as int);
            }
        }
        return None;
    }
    let a = addr.unwrap();
    let p = pd.unwrap();
    proof {
        lemma_parse_dec_sound(views[1]);
        lemma_join_split(t@, sep);
        assert(join_with(views, sep) == t@);
        assert(join_with(views, sep) =~= cidr_text(a, p, sep)) by {
            reveal_with_fuel(join_with, 3);
            assert(views[0] == ipv4_text(a));
            assert(views[1] == render_dec(p as int));
            assert(views.drop_first() =~= seq![views[1]]);
        }
        assert forall|a2: u32, p2a: u8| p2a <= 32 && t@ == cidr_text(a2, p2a, sep) implies a2 == a
            && p2a == p by {
            lemma_cidr_text_split(a2, p2a, sep);
            assert(views[0] == ipv4_text(a2));
            assert(views[1] == render_dec(p2a as int));
            lemma_render_parse_dec(p2a as int);
        }
    }
    Some((a, p))
}

/// How the spelling of a block splits at its separator.
pub proof fn lemma_cidr_text_split(a: u32, p: u8, sep: u8)
    requires
        p <= 32,
        sep == 45 || sep == 47 || sep == 95,
    ensures
        split_spec(cidr_text(a, p, sep), sep) == seq![ipv4_text(a), render_dec(p as int)],
{
    let parts = seq![ipv4_text(a), render_dec(p as int)];
    lemma_ipv4_text_split(a);
    lemma_render_parse_dec(p as int);
    assert forall|i: int| 0 <= i < parts.len() implies sep_free(#[trigger] parts[i], sep) by {
        if i == 1 {
            lemma_render_digits_sep_free(render_dec(p as int));
        }
    }
    lemma_split_join(parts, sep);
    assert(join_with(parts, sep) =~= cidr_text(a, p, sep)) by {
        reveal_with_fuel(join_with, 3);
        assert(parts.drop_first() =~= seq![render_dec(p as int)]);
    }
}

/// The spelling of a block never contains an underscore.
pub proof fn lemma_cidr_text_underscore_free(a: u32, p: u8)
    requires
        p <= 32,
    ensures
        sep_free(cidr_text(a, p, 45), 95),
        cidr_text(a, p, 45).len() >= 1,
{
    lemma_render_parse_dec(p as int);
    let t = cidr_text(a, p, 45);
    assert forall|i: int| 0 <= i < t.len() implies t[i] != 95 by {
        let ip = ipv4_text(a);
        if i < ip.len() {
            lemma_ipv4_chars(a, i);
        } else if i == ip.len() {
            assert(t[i] == 45);
        } else {
            assert(t[i] == render_dec(p as int)[i - ip.len() - 1]);
        }
    }
}

} // verus!
