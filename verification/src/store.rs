//! The resumable append-only result store, modelled on plain values.
//!
//! The file holds one four-byte record per address, record `i` for address
//! `i` of the address sequence.  On open, the number of complete records is
//! the file length divided by the record size, rounding down: a torn trailing
//! record does not count and is overwritten.  Appends happen strictly in
//! sequence order; the store buffers encoded bytes until the caller drains
//! them towards the file.  The caller performs the actual file I/O and must
//! treat any I/O failure as fatal to the run.

use crate::record::{
    be_bytes, encode_outcome, encode_spec, from_be, is_reply_bits, lemma_be_round_trip,
};
use vstd::arithmetic::div_mod::{lemma_fundamental_div_mod, lemma_mod_division_less_than_divisor};
use vstd::prelude::*;

verus! {

/// The records encoded in a byte string, four bytes each, big-endian.
pub open spec fn records_of_bytes(b: Seq<u8>) -> Seq<u32>
    decreases b.len(),
{
    if b.len() < 4 {
        Seq::empty()
    } else {
        seq![from_be(b.take(4))] + records_of_bytes(b.skip(4))
    }
}

/// Number of complete records in a file of the given byte length; a torn
/// trailing record is not counted.
pub open spec fn complete_records(file_len: u64) -> int {
    file_len as int / 4
}

/// Byte offset of the first incomplete record: the resume point.
pub open spec fn resume_seek(file_len: u64) -> int {
    complete_records(file_len) * 4
}

/// Resume arithmetic: the seek point is the last record boundary at or below
/// the file length, so at most three trailing torn bytes are discarded and
/// every complete record before the boundary is kept.
pub proof fn lemma_resume(file_len: u64)
    ensures
        0 <= resume_seek(file_len) <= file_len,
        file_len - resume_seek(file_len) < 4,
        resume_seek(file_len) % 4 == 0,
        complete_records(file_len) == resume_seek(file_len) / 4,
{
    lemma_fundamental_div_mod(file_len as int, 4);
    lemma_mod_division_less_than_divisor(file_len as int, 4);
    vstd::arithmetic::div_mod::lemma_div_pos_is_pos(file_len as int, 4);
    let q = file_len as int / 4;
    vstd::arithmetic::div_mod::lemma_mod_multiples_basic(q, 4);
    vstd::arithmetic::div_mod::lemma_fundamental_div_mod_converse(q * 4, 4, q, 0);
}

/// Writing a whole number of records then reopening finds exactly those
/// records complete, with nothing to discard.
pub proof fn lemma_resume_exact(n: u64)
    requires
        n <= 0x3FFF_FFFF_FFFF_FFFFu64,
    ensures
        complete_records((n * 4) as u64) == n,
        resume_seek((n * 4) as u64) == n * 4,
{
    vstd::arithmetic::div_mod::lemma_fundamental_div_mod_converse((n as int) * 4, 4, n as int, 0);
}

/// A torn write of fewer than four extra bytes changes nothing: the resume
/// count stays at the last full record and the tail is overwritten.
pub proof fn lemma_resume_torn(n: u64, extra: u64)
    requires
        n <= 0x3FFF_FFFF_FFFF_FFFEu64,
        extra < 4,
    ensures
        complete_records((n * 4 + extra) as u64) == n,
        resume_seek((n * 4 + extra) as u64) == n * 4,
{
    vstd::arithmetic::div_mod::lemma_fundamental_div_mod_converse(
        (n as int) * 4 + extra,
        4,
        n as int,
        extra as int,
    );
}

/// The in-order writer of the result file: the resume base plus the encoded
/// records not yet handed to the file.
pub struct ResultStore {
    /// Records already complete in the file when the store was opened, plus
    /// records whose bytes have been drained towards the file since.
    pub base: u64,
    /// Encoded records appended but not yet drained.
    pub pending: Vec<u8>,
}

impl ResultStore {
    /// The buffer holds whole records and the total count stays countable.
    pub open spec fn wf(self) -> bool {
        &&& self.pending@.len() % 4 == 0
        &&& self.base + self.pending@.len() / 4 <= u64::MAX
    }

    /// Sequence position of the next record to append.
    pub open spec fn next_index(self) -> int {
        self.base + self.pending@.len() / 4
    }

    /// The records sitting in the buffer.
    pub open spec fn pending_records(self) -> Seq<u32> {
        records_of_bytes(self.pending@)
    }

    /// Open a store against a file of the given byte length.  The caller
    /// must seek the file to `resume_seek(file_len)` before writing.
    pub fn open(file_len: u64) -> (r: (ResultStore, u64))
        ensures
            r.0.wf(),
            r.0.base == complete_records(file_len),
            r.0.pending@.len() == 0,
            r.0.next_index() == complete_records(file_len),
            r.1 == resume_seek(file_len),
            r.1 <= file_len,
            file_len - r.1 < 4,
    {
        proof {
            lemma_resume(file_len);
        }
        let base = file_len / 4;
        let seek = base * 4;
        (ResultStore { base, pending: Vec::new() }, seek)
    }

    /// Number of records already complete when the store was opened plus
    /// records drained since: the resume offset for the caller.
    pub fn resume_offset(&self) -> (r: u64)
        ensures
            r == self.base,
    {
        self.base
    }

    /// Append the record for the next address in sequence order.
    pub fn append(&mut self, o: Option<u32>)
        requires
            old(self).wf(),
            old(self).next_index() < u64::MAX,
            o matches Some(b) ==> is_reply_bits(b),
        ensures
            final(self).wf(),
            final(self).base == old(self).base,
            final(self).pending_records() == old(self).pending_records().push(encode_spec(o)),
            final(self).next_index() == old(self).next_index() + 1,
    {
        let bits = encode_outcome(o);
        let mut bytes = crate::record::record_to_bytes(bits);
        proof {
            lemma_records_push(self.pending@, bits);
        }
        self.pending.append(&mut bytes);
    }

    /// Drain the buffered bytes for the caller to write to the file, in
    /// order; the drained records count as complete once written.
    pub fn take_pending(&mut self) -> (r: Vec<u8>)
        requires
            old(self).wf(),
        ensures
            final(self).wf(),
            r@ == old(self).pending@,
            records_of_bytes(r@) == old(self).pending_records(),
            final(self).pending@.len() == 0,
            final(self).base == old(self).next_index(),
            final(self).next_index() == old(self).next_index(),
    {
        let count = self.pending.len() / 4;
        let mut out: Vec<u8> = Vec::new();
        core::mem::swap(&mut out, &mut self.pending);
        self.base = self.base + count as u64;
        out
    }
}

/// Appending one encoded record extends the record sequence by that record.
proof fn lemma_records_push(b: Seq<u8>, x: u32)
    requires
        b.len() % 4 == 0,
    ensures
        records_of_bytes(b + be_bytes(x)) == records_of_bytes(b).push(x),
    decreases b.len(),
{
    let m = b + be_bytes(x);
    lemma_be_round_trip(x);
    if b.len() == 0 {
        assert(m =~= be_bytes(x));
        assert(m.take(4) =~= be_bytes(x));
        assert(m.skip(4) =~= Seq::<u8>::empty());
        assert(records_of_bytes(Seq::<u8>::empty()) =~= Seq::<u32>::empty());
        assert(records_of_bytes(m) == seq![from_be(be_bytes(x))] + Seq::<u32>::empty());
        assert(records_of_bytes(b) =~= Seq::<u32>::empty());
        assert(seq![x] + Seq::<u32>::empty() =~= Seq::<u32>::empty().push(x));
    } else {
        assert(b.len() >= 4);
        assert(m.take(4) =~= b.take(4));
        assert(m.skip(4) =~= b.skip(4) + be_bytes(x));
        assert(b.skip(4).len() % 4 == 0) by {
            assert(b.skip(4).len() == b.len() - 4);
        }
        lemma_records_push(b.skip(4), x);
        assert(seq![from_be(b.take(4))] + records_of_bytes(b.skip(4)).push(x) =~= (seq![
            from_be(b.take(4)),
        ] + records_of_bytes(b.skip(4))).push(x));
    }
}

} // verus!
