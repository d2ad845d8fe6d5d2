//! Byte-level text: separator splitting and canonical decimal tokens.
//!
//! Subnet lists travel as text twice: as command-line strings like
//! `10.0.0.0/24` and inside result file names like `10.0.0.0-24_10.1.0.0-16`.
//! Both are grammars over bytes; splitting and joining are exact inverses
//! for separator-free parts, and a decimal token below 256 has exactly one
//! canonical spelling, which makes the encodings round-trip.

use vstd::prelude::*;

verus! {

/// Split `s` at every occurrence of `sep`, accumulating the current part.
pub open spec fn split_rec(s: Seq<u8>, sep: u8, cur: Seq<u8>) -> Seq<Seq<u8>>
    decreases s.len(),
{
    if s.len() == 0 {
        seq![cur]
    } else if s[0] == sep {
        seq![cur] + split_rec(s.drop_first(), sep, Seq::empty())
    } else {
        split_rec(s.drop_first(), sep, cur.push(s[0]))
    }
}

/// Split `s` at every occurrence of `sep`; always at least one part.
pub open spec fn split_spec(s: Seq<u8>, sep: u8) -> Seq<Seq<u8>> {
    split_rec(s, sep, Seq::empty())
}

/// Join parts with `sep` between consecutive parts.
pub open spec fn join_with(parts: Seq<Seq<u8>>, sep: u8) -> Seq<u8>
    decreases parts.len(),
{
    if parts.len() == 0 {
        Seq::empty()
    } else if parts.len() == 1 {
        parts[0]
    } else {
        parts[0] + seq![sep] + join_with(parts.drop_first(), sep)
    }
}

/// Whether `sep` occurs nowhere in `t`.
pub open spec fn sep_free(t: Seq<u8>, sep: u8) -> bool {
    forall|i: int| 0 <= i < t.len() ==> t[i] != sep
}

/// Splitting after a separator-free prefix just extends the current part.
proof fn lemma_split_prefix(p: Seq<u8>, rest: Seq<u8>, sep: u8, cur: Seq<u8>)
    requires
        sep_free(p, sep),
    ensures
        split_rec(p + rest, sep, cur) == split_rec(rest, sep, cur + p),
    decreases p.len(),
{
    if p.len() == 0 {
        assert(p + rest =~= rest);
        assert(cur + p =~= cur);
    } else {
        let s = p + rest;
        assert(s[0] == p[0]);
        assert(s.drop_first() =~= p.drop_first() + rest);
        lemma_split_prefix(p.drop_first(), rest, sep, cur.push(p[0]));
        assert(cur.push(p[0]) + p.drop_first() =~= cur + p);
    }
}

/// Splitting a join of separator-free parts recovers exactly the parts.
pub proof fn lemma_split_join(parts: Seq<Seq<u8>>, sep: u8)
    requires
        parts.len() >= 1,
        forall|i: int| 0 <= i < parts.len() ==> sep_free(#[trigger] parts[i], sep),
    ensures
        split_spec(join_with(parts, sep), sep) == parts,
    decreases parts.len(),
{
    if parts.len() == 1 {
        lemma_split_prefix(parts[0], Seq::empty(), sep, Seq::empty());
        assert(parts[0] + Seq::<u8>::empty() =~= parts[0]);
        assert(Seq::<u8>::empty() + parts[0] =~= parts[0]);
        assert(split_spec(join_with(parts, sep), sep) =~= parts);
    } else {
        let rest = parts.drop_first();
        let jr = join_with(rest, sep);
        assert(join_with(parts, sep) == parts[0] + seq![sep] + jr);
        assert(parts[0] + seq![sep] + jr =~= parts[0] + (seq![sep] + jr));
        lemma_split_prefix(parts[0], seq![sep] + jr, sep, Seq::empty());
        assert(Seq::<u8>::empty() + parts[0] =~= parts[0]);
        let t = seq![sep] + jr;
        assert(t[0] == sep);
        assert(t.drop_first() =~= jr);
        assert(split_rec(t, sep, parts[0]) == seq![parts[0]] + split_rec(jr, sep, Seq::empty()));
        assert forall|i: int| 0 <= i < rest.len() implies sep_free(#[trigger] rest[i], sep) by {
            assert(rest[i] == parts[i + 1]);
        }
        lemma_split_join(rest, sep);
        assert(seq![parts[0]] + rest =~= parts);
    }
}

/// Joining the parts of a split recovers the original bytes.
pub proof fn lemma_join_split(s: Seq<u8>, sep: u8)
    ensures
        join_with(split_spec(s, sep), sep) == s,
{
    lemma_join_split_rec(s, sep, Seq::empty());
    assert(Seq::<u8>::empty() + s =~= s);
}

proof fn lemma_join_split_rec(s: Seq<u8>, sep: u8, cur: Seq<u8>)
    ensures
        join_with(split_rec(s, sep, cur), sep) == cur + s,
    decreases s.len(),
{
    if s.len() == 0 {
        assert(cur + s =~= cur);
    } else if s[0] == sep {
        let tail = split_rec(s.drop_first(), sep, Seq::empty());
        lemma_join_split_rec(s.drop_first(), sep, Seq::empty());
        assert(tail.len() >= 1) by {
            lemma_split_len(s.drop_first(), sep, Seq::empty());
        }
        let m = seq![cur] + tail;
        assert(m.len() >= 2);
        assert(m[0] == cur);
        assert(m.drop_first() =~= tail);
        assert(join_with(m, sep) == cur + seq![sep] + join_with(tail, sep));
        assert(Seq::<u8>::empty() + s.drop_first() =~= s.drop_first());
        assert(cur + seq![sep] + s.drop_first() =~= cur + s);
    } else {
        lemma_join_split_rec(s.drop_first(), sep, cur.push(s[0]));
        assert(cur.push(s[0]) + s.drop_first() =~= cur + s);
    }
}

proof fn lemma_split_len(s: Seq<u8>, sep: u8, cur: Seq<u8>)
    ensures
        split_rec(s, sep, cur).len() >= 1,
    decreases s.len(),
{
    if s.len() > 0 && s[0] != sep {
        lemma_split_len(s.drop_first(), sep, cur.push(s[0]));
    }
}

/// Split a byte string at a separator, executable.
pub fn split_bytes(s: &Vec<u8>, sep: u8) -> (r: Vec<Vec<u8>>)
    ensures
        r@.map_values(|t: Vec<u8>| t@) == split_spec(s@, sep),
        r@.len() >= 1,
{
    let mut out: Vec<Vec<u8>> = Vec::new();
    let mut cur: Vec<u8> = Vec::new();
    let mut i: usize = 0;
    proof {
        assert(s@.skip(0) =~= s@);
    }
    while i < s.len()
        invariant
            i <= s.len(),
            split_spec(s@, sep) == out@.map_values(|t: Vec<u8>| t@) + split_rec(
                s@.skip(i as int),
                sep,
                cur@,
            ),
        decreases s.len() - i,
    {
        let ghost pre = out@.map_values(|t: Vec<u8>| t@);
        proof {
            assert(s@.skip(i as int)[0] == s@[i as int]);
            assert(s@.skip(i as int).drop_first() =~= s@.skip(i as int + 1));
        }
        if s[i] == sep {
            proof {
                assert(split_rec(s@.skip(i as int), sep, cur@) == seq![cur@] + split_rec(
                    s@.skip(i as int + 1),
                    sep,
                    Seq::empty(),
                ));
                assert(pre + (seq![cur@] + split_rec(s@.skip(i as int + 1), sep, Seq::empty()))
                    =~= pre.push(cur@) + split_rec(s@.skip(i as int + 1), sep, Seq::empty()));
                assert(out@.push(cur).map_values(|t: Vec<u8>| t@) =~= pre.push(cur@));
            }
            out.push(cur);
            cur = Vec::new();
        } else {
            let b = s[i];
            proof {
                assert(split_rec(s@.skip(i as int), sep, cur@) == split_rec(
                    s@.skip(i as int + 1),
                    sep,
                    cur@.push(b),
                ));
            }
            cur.push(b);
        }
        i = i + 1;
    }
    proof {
        assert(s@.skip(s@.len() as int) =~= Seq::<u8>::empty());
        assert(split_rec(s@.skip(s@.len() as int), sep, cur@) == seq![cur@]);
        assert(out@.map_values(|t: Vec<u8>| t@) + seq![cur@] =~= out@.push(cur).map_values(
            |t: Vec<u8>| t@,
        ));
    }
    out.push(cur);
    out
}

/// ASCII digit for a value below ten.
pub open spec fn dch(d: int) -> u8 {
    (48 + d) as u8
}

pub open spec fn is_digit(b: u8) -> bool {
    48 <= b <= 57
}

pub open spec fn dval(b: u8) -> int {
    b - 48
}

/// Canonical decimal spelling of `n`, for `0 <= n <= 255`.
pub open spec fn render_dec(n: int) -> Seq<u8> {
    if n >= 100 {
        seq![dch(n / 100), dch((n / 10) % 10), dch(n % 10)]
    } else if n >= 10 {
        seq![dch(n / 10), dch(n % 10)]
    } else {
        seq![dch(n)]
    }
}

/// Parse a canonical decimal token below 256: no leading zeros, 1-3 digits.
pub open spec fn parse_dec(t: Seq<u8>) -> Option<u8> {
    if t.len() == 1 && is_digit(t[0]) {
        Some(dval(t[0]) as u8)
    } else if t.len() == 2 && is_digit(t[0]) && is_digit(t[1]) && dval(t[0]) >= 1 {
        Some((10 * dval(t[0]) + dval(t[1])) as u8)
    } else if t.len() == 3 && is_digit(t[0]) && is_digit(t[1]) && is_digit(t[2]) && dval(t[0]) >= 1
        && 100 * dval(t[0]) + 10 * dval(t[1]) + dval(t[2]) <= 255 {
        Some((100 * dval(t[0]) + 10 * dval(t[1]) + dval(t[2])) as u8)
    } else {
        None
    }
}

/// Rendering then parsing a value below 256 gives the value back, and the
/// spelling consists of digits only.
pub proof fn lemma_render_parse_dec(n: int)
    requires
        0 <= n <= 255,
    ensures
        parse_dec(render_dec(n)) == Some(n as u8),
        forall|i: int|
            0 <= i < render_dec(n).len() ==> is_digit(#[trigger] render_dec(n)[i]),
        1 <= render_dec(n).len() <= 3,
{
}

/// A parsed token is the canonical spelling of its value.
pub proof fn lemma_parse_dec_sound(t: Seq<u8>)
    requires
        parse_dec(t) is Some,
    ensures
        t == render_dec(parse_dec(t)->Some_0 as int),
{
    let n = parse_dec(t)->Some_0 as int;
    if t.len() == 1 {
        assert(t =~= render_dec(n));
    } else if t.len() == 2 {
        assert(n == 10 * dval(t[0]) + dval(t[1]));
        assert(n / 10 == dval(t[0]) && n % 10 == dval(t[1])) by (nonlinear_arith)
            requires
                n == 10 * dval(t[0]) + dval(t[1]),
                0 <= dval(t[1]) < 10,
                1 <= dval(t[0]) <= 9,
        ;
        assert(t =~= render_dec(n));
    } else {
        assert(n == 100 * dval(t[0]) + 10 * dval(t[1]) + dval(t[2]));
        assert(n / 100 == dval(t[0]) && (n / 10) % 10 == dval(t[1]) && n % 10 == dval(t[2]))
            by (nonlinear_arith)
            requires
                n == 100 * dval(t[0]) + 10 * dval(t[1]) + dval(t[2]),
                0 <= dval(t[2]) < 10,
                0 <= dval(t[1]) < 10,
                1 <= dval(t[0]) <= 9,
        ;
        assert(t =~= render_dec(n));
    }
}

/// Canonical decimal spelling, executable.
pub fn render_dec_exec(n: u8) -> (r: Vec<u8>)
    ensures
        r@ == render_dec(n as int),
{
    let mut r: Vec<u8> = Vec::new();
    if n >= 100 {
        r.push(48 + n / 100);
        r.push(48 + (n / 10) % 10);
        r.push(48 + n % 10);
    } else if n >= 10 {
        r.push(48 + n / 10);
        r.push(48 + n % 10);
    } else {
        r.push(48 + n);
    }
    proof {
        assert(r@ =~= render_dec(n as int));
    }
    r
}

/// Parse a canonical decimal token, executable.
pub fn parse_dec_exec(t: &Vec<u8>) -> (r: Option<u8>)
    ensures
        r == parse_dec(t@),
{
    if t.len() == 1 && 48 <= t[0] && t[0] <= 57 {
        Some(t[0] - 48)
    } else if t.len() == 2 && 48 <= t[0] && t[0] <= 57 && 48 <= t[1] && t[1] <= 57 && t[0] >= 49 {
        Some(10 * (t[0] - 48) + (t[1] - 48))
    } else if t.len() == 3 && 48 <= t[0] && t[0] <= 57 && 48 <= t[1] && t[1] <= 57 && 48 <= t[2]
        && t[2] <= 57 && t[0] >= 49 && 100 * ((t[0] - 48) as u32) + 10 * ((t[1] - 48) as u32) + ((
    t[2] - 48) as u32) <= 255 {
        Some((100 * ((t[0] - 48) as u32) + 10 * ((t[1] - 48) as u32) + ((t[2] - 48) as u32)) as u8)
    } else {
        None
    }
}

} // verus!
