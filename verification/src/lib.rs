//! Core of an ICMP echo ("ping") sweep engine.
//!
//! The library expands a set of IPv4 subnets into a canonical, order-stable
//! sequence of host addresses, schedules probes under an admission cap while
//! preserving submission order, and models an append-only fixed-record result
//! file that resumes at the first incomplete record.  Network and file I/O
//! live outside the library; everything here is pure logic over plain values.

use vstd::prelude::*;

pub mod cidr;
pub mod cidr_text;
pub mod ivals;
pub mod names;
pub mod normalize;
pub mod progress;
pub mod record;
pub mod store;
pub mod subnets;
pub mod sweep;
pub mod text;

verus! {

/// Width in bytes of one result record in the file.
pub const RECORD_SIZE: u64 = 4;

/// Fatal configuration errors, reported before any probing begins.
#[derive(Clone, Copy, PartialEq, Eq, Structural, Debug)]
pub enum SweepError {
    /// A subnet string could not be parsed as IPv4 CIDR.
    InvalidSubnet,
    /// The concurrency cap was zero; at least one in-flight probe is required.
    ZeroConcurrency,
}

} // verus!
