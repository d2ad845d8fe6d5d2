//! IPv4 CIDR blocks as plain values: a network address and a prefix length.
//!
//! A block is well formed when its prefix length is at most 32 and its
//! network address is aligned to the block size.  Host enumeration follows
//! the usual convention: the network and broadcast addresses are excluded
//! for prefixes up to 30, while /31 and /32 blocks use every address.

use vstd::prelude::*;

verus! {

/// 2 to the power `n`.
pub open spec fn p2(n: nat) -> nat
    decreases n,
{
    if n == 0 {
        1
    } else {
        2 * p2((n - 1) as nat)
    }
}

pub proof fn lemma_p2_pos(n: nat)
    ensures
        p2(n) >= 1,
    decreases n,
{
    if n > 0 {
        lemma_p2_pos((n - 1) as nat);
    }
}

pub proof fn lemma_p2_mono(a: nat, b: nat)
    requires
        a <= b,
    ensures
        p2(a) <= p2(b),
    decreases b,
{
    if a < b {
        lemma_p2_mono(a, (b - 1) as nat);
        lemma_p2_pos((b - 1) as nat);
    }
}

pub proof fn lemma_p2_adds(a: nat, b: nat)
    ensures
        p2(a) * p2(b) == p2(a + b),
    decreases a,
{
    if a == 0 {
        assert(p2(0) == 1) by {
            reveal_with_fuel(p2, 1);
        }
    } else {
        lemma_p2_adds((a - 1) as nat, b);
        assert(p2(a) * p2(b) == 2 * (p2((a - 1) as nat) * p2(b))) by (nonlinear_arith)
            requires
                p2(a) == 2 * p2((a - 1) as nat),
        ;
    }
}

pub proof fn lemma_p2_32()
    ensures
        p2(32) == 0x1_0000_0000,
{
    assert(p2(32) == 0x1_0000_0000) by {
        reveal_with_fuel(p2, 33);
    }
}

/// 2 to the power `n`, executable.
pub fn pow2_u64(n: u8) -> (r: u64)
    requires
        n <= 32,
    ensures
        r == p2(n as nat),
{
    let mut r: u64 = 1;
    let mut i: u8 = 0;
    while i < n
        invariant
            i <= n,
            n <= 32,
            r == p2(i as nat),
        decreases n - i,
    {
        proof {
            lemma_p2_mono(i as nat, 31);
            assert(p2(31) <= 0x8000_0000) by {
                reveal_with_fuel(p2, 32);
            }
        }
        r = r * 2;
        i = i + 1;
    }
    r
}

/// One IPv4 CIDR block: network address and prefix length.
#[derive(Clone, Copy, PartialEq, Eq, Structural, Debug)]
pub struct Cidr {
    pub net: u32,
    pub prefix: u8,
}

impl Cidr {
    /// Number of addresses the block spans.
    pub open spec fn size(self) -> nat {
        p2((32 - self.prefix) as nat)
    }

    /// The prefix length is valid and the network address is aligned.
    pub open spec fn wf(self) -> bool {
        &&& self.prefix <= 32
        &&& self.net as int % (self.size() as int) == 0
    }

    /// First address of the block.
    pub open spec fn first(self) -> int {
        self.net as int
    }

    /// Last address of the block (the broadcast address).
    pub open spec fn last(self) -> int {
        self.net + self.size() - 1
    }

    /// Whether address `a` lies inside the block.
    pub open spec fn covers(self, a: int) -> bool {
        self.first() <= a <= self.last()
    }

    /// Number of usable host addresses.
    pub open spec fn host_count(self) -> nat {
        if self.prefix <= 30 {
            (self.size() - 2) as nat
        } else if self.prefix == 31 {
            2
        } else {
            1
        }
    }

    /// First usable host address.
    pub open spec fn first_host(self) -> int {
        if self.prefix <= 30 {
            self.net + 1
        } else {
            self.net as int
        }
    }

    /// The `k`-th usable host address, for `k < host_count()`.
    pub open spec fn host_at(self, k: int) -> int {
        self.first_host() + k
    }
}

/// A well-formed block ends before the address space does.
pub proof fn lemma_wf_last(c: Cidr)
    requires
        c.wf(),
    ensures
        c.last() < 0x1_0000_0000,
        c.size() <= 0x1_0000_0000,
{
    let s = c.size() as int;
    let p = p2(c.prefix as nat) as int;
    lemma_p2_pos((32 - c.prefix) as nat);
    lemma_p2_pos(c.prefix as nat);
    lemma_p2_adds((32 - c.prefix) as nat, c.prefix as nat);
    lemma_p2_32();
    assert(s * p == 0x1_0000_0000);
    let q = c.net as int / s;
    vstd::arithmetic::div_mod::lemma_fundamental_div_mod(c.net as int, s);
    assert(q * s == c.net);
    assert(q < p) by (nonlinear_arith)
        requires
            s >= 1,
            q * s < s * p,
    ;
    assert(q * s + s <= p * s) by (nonlinear_arith)
        requires
            s >= 1,
            q + 1 <= p,
    ;
    assert(p * s == 0x1_0000_0000);
}

/// A well-formed block has at least one usable host.
pub proof fn lemma_host_count_pos(c: Cidr)
    requires
        c.wf(),
    ensures
        c.host_count() >= 1,
        c.host_count() <= c.size(),
        forall|k: int|
            0 <= k < c.host_count() ==> c.covers(#[trigger] c.host_at(k)),
{
    assert(p2(0) == 1 && p2(1) == 2 && p2(2) == 4) by {
        reveal_with_fuel(p2, 3);
    }
    if c.prefix <= 30 {
        lemma_p2_mono(2, (32 - c.prefix) as nat);
    }
}

/// Usable host count of a block, executable.
pub fn host_count_u64(net: u32, prefix: u8) -> (r: u64)
    requires
        prefix <= 32,
    ensures
        r == (Cidr { net, prefix }).host_count(),
{
    let c = Cidr { net, prefix };
    if prefix <= 30 {
        proof {
            lemma_p2_mono(2, (32 - prefix) as nat);
            assert(p2(2) == 4) by {
                reveal_with_fuel(p2, 3);
            }
        }
        pow2_u64(32 - prefix) - 2
    } else if prefix == 31 {
        2
    } else {
        1
    }
}

} // verus!
