//! The fixed-width result record: one probe outcome as four bytes.
//!
//! A record holds the bit pattern of an IEEE-754 single-precision value,
//! big-endian on disk.  A reply stores the round-trip time in seconds, whose
//! bits have the sign bit clear; a timeout stores the sentinel `-1.0`.  The
//! boolean reachability of an address is therefore recoverable from its
//! record: reply exactly when the sign bit is clear.

use crate::cidr_text::{lemma_octets, lemma_octets_rev, oct0, oct1, oct2, oct3};
use vstd::prelude::*;

verus! {

/// Bit pattern of the timeout sentinel, `-1.0f32`.
pub const TIMEOUT_BITS: u32 = 0xBF80_0000;

/// Bit patterns with the sign bit clear encode non-negative values.
pub open spec fn is_reply_bits(bits: u32) -> bool {
    bits < 0x8000_0000
}

/// The record bits of a probe outcome: the reply's own bits, or the sentinel.
pub open spec fn encode_spec(o: Option<u32>) -> u32 {
    match o {
        Some(b) => b,
        None => TIMEOUT_BITS,
    }
}

/// Encode a probe outcome into record bits.
pub fn encode_outcome(o: Option<u32>) -> (r: u32)
    requires
        o matches Some(b) ==> is_reply_bits(b),
    ensures
        r == encode_spec(o),
{
    match o {
        Some(b) => b,
        None => TIMEOUT_BITS,
    }
}

/// Whether record bits denote a reply rather than a timeout.
pub fn is_reply(bits: u32) -> (r: bool)
    ensures
        r == is_reply_bits(bits),
{
    bits < 0x8000_0000
}

/// Encoding keeps reachability: a record reads back as a reply exactly when
/// the outcome was a reply.
pub proof fn lemma_outcome_round_trip(o: Option<u32>)
    requires
        o matches Some(b) ==> is_reply_bits(b),
    ensures
        is_reply_bits(encode_spec(o)) <==> o is Some,
{
}

/// Big-endian bytes of record bits.
pub open spec fn be_bytes(x: u32) -> Seq<u8> {
    seq![oct3(x) as u8, oct2(x) as u8, oct1(x) as u8, oct0(x) as u8]
}

/// Record bits read from four big-endian bytes.
pub open spec fn from_be(b: Seq<u8>) -> u32 {
    (b[0] * 0x100_0000 + b[1] * 0x1_0000 + b[2] * 256 + b[3]) as u32
}

/// Byte round trip: reading the written bytes gives the written bits.
pub proof fn lemma_be_round_trip(x: u32)
    ensures
        from_be(be_bytes(x)) == x,
        be_bytes(x).len() == 4,
{
    lemma_octets(x);
}

/// Write record bits as four big-endian bytes.
pub fn record_to_bytes(x: u32) -> (r: Vec<u8>)
    ensures
        r@ == be_bytes(x),
{
    proof {
        lemma_octets(x);
    }
    let mut r: Vec<u8> = Vec::new();
    r.push((x / 0x100_0000) as u8);
    r.push(((x / 0x1_0000) % 256) as u8);
    r.push(((x / 256) % 256) as u8);
    r.push((x % 256) as u8);
    proof {
        assert(r@ =~= be_bytes(x));
    }
    r
}

/// Read record bits from four big-endian bytes.
pub fn record_from_bytes(b0: u8, b1: u8, b2: u8, b3: u8) -> (r: u32)
    ensures
        r == from_be(seq![b0, b1, b2, b3]),
{
    proof {
        lemma_octets_rev(b0 as int, b1 as int, b2 as int, b3 as int);
    }
    (b0 as u32) * 0x100_0000 + (b1 as u32) * 0x1_0000 + (b2 as u32) * 256 + (b3 as u32)
}

} // verus!
