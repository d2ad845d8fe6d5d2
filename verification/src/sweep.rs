//! The admission-controlled scheduler and the ordered-completion pipeline.
//!
//! The scheduler submits one probe per address, in sequence order, and never
//! lets more than the configured cap be in flight: a probe is submitted only
//! while the in-flight count is below the cap, so the count never exceeds
//! it.  Probes finish in arbitrary order; the pipeline puts every result
//! back at its submission index before the writer appends it, so the record
//! at offset `i` always belongs to address `i` no matter which probe
//! finished first.  The caller runs the probes and the file I/O; every
//! decision is taken here.

use crate::record::{encode_spec, is_reply_bits};
use crate::store::ResultStore;
use crate::SweepError;
use vstd::prelude::*;

verus! {

/// Immutable configuration of one run.
#[derive(Clone, Copy, Debug)]
pub struct SweepConfig {
    /// Maximum number of concurrently in-flight probes; at least one.
    pub cap: u64,
    /// Per-probe timeout in seconds.
    pub timeout_secs: u64,
    /// Progress report interval in seconds.
    pub interval_secs: u64,
}

impl SweepConfig {
    pub open spec fn wf(self) -> bool {
        self.cap >= 1
    }

    /// Validate the configuration; a cap of zero probes is an error.
    pub fn new(cap: u64, timeout_secs: u64, interval_secs: u64) -> (r: Result<
        SweepConfig,
        SweepError,
    >)
        ensures
            cap >= 1 ==> (r matches Ok(c) && c == (SweepConfig { cap, timeout_secs, interval_secs })),
            cap == 0 ==> (r matches Err(e) && e == SweepError::ZeroConcurrency),
    {
        if cap == 0 {
            Err(SweepError::ZeroConcurrency)
        } else {
            Ok(SweepConfig { cap, timeout_secs, interval_secs })
        }
    }
}

/// The counters of a running sweep.  `submitted - completed` probes are in
/// flight; `completed` includes the records already in the file at resume.
pub struct SweepState {
    pub total: u64,
    pub cap: u64,
    pub submitted: u64,
    pub completed: u64,
}

/// One scheduling step.
pub enum SweepEvent {
    Submit,
    Complete,
}

impl SweepState {
    /// Number of probes currently in flight.
    pub open spec fn running(self) -> int {
        self.submitted - self.completed
    }

    /// The sweep invariant; in particular the in-flight count never exceeds
    /// the cap.
    pub open spec fn inv(self) -> bool {
        &&& self.cap >= 1
        &&& self.completed <= self.submitted <= self.total
        &&& self.total <= 0x1_0000_0000
        &&& self.running() <= self.cap
    }

    /// Start a sweep of `total` addresses, `done` of them already in the
    /// file from an earlier run.
    pub fn start(total: u64, done: u64, cap: u64) -> (r: SweepState)
        requires
            cap >= 1,
            done <= total,
            total <= 0x1_0000_0000,
        ensures
            r.inv(),
            r == (SweepState { total, cap, submitted: done, completed: done }),
    {
        SweepState { total, cap, submitted: done, completed: done }
    }

    /// Whether the scheduler may submit the next probe now: below the cap
    /// and addresses remain.
    pub fn can_submit(&self) -> (r: bool)
        requires
            self.inv(),
        ensures
            r == step_allowed(*self, SweepEvent::Submit),
    {
        self.submitted < self.total && self.submitted - self.completed < self.cap
    }

    /// Whether every address has been submitted.
    pub fn all_submitted(&self) -> (r: bool)
        requires
            self.inv(),
        ensures
            r == (self.submitted == self.total),
    {
        self.submitted == self.total
    }

    /// Whether the sweep is complete.
    pub fn is_finished(&self) -> (r: bool)
        requires
            self.inv(),
        ensures
            r == (self.completed == self.total),
    {
        self.completed == self.total
    }

    /// Record the submission of one probe.  Only allowed below the cap, so
    /// the in-flight count stays at or below it.
    pub fn on_submit(&mut self)
        requires
            old(self).inv(),
            step_allowed(*old(self), SweepEvent::Submit),
        ensures
            final(self).inv(),
            *final(self) == step(*old(self), SweepEvent::Submit),
            final(self).running() == old(self).running() + 1,
            final(self).running() <= final(self).cap,
    {
        self.submitted = self.submitted + 1;
    }

    /// Record the completion of one probe.
    pub fn on_complete(&mut self)
        requires
            old(self).inv(),
            step_allowed(*old(self), SweepEvent::Complete),
        ensures
            final(self).inv(),
            *final(self) == step(*old(self), SweepEvent::Complete),
            final(self).running() == old(self).running() - 1,
    {
        self.completed = self.completed + 1;
    }
}

/// Whether a scheduling step is allowed in a state.
pub open spec fn step_allowed(s: SweepState, e: SweepEvent) -> bool {
    match e {
        SweepEvent::Submit => s.submitted < s.total && s.running() < s.cap,
        SweepEvent::Complete => s.completed < s.submitted,
    }
}

/// The state after a scheduling step.
pub open spec fn step(s: SweepState, e: SweepEvent) -> SweepState {
    match e {
        SweepEvent::Submit => SweepState { submitted: (s.submitted + 1) as u64, ..s },
        SweepEvent::Complete => SweepState { completed: (s.completed + 1) as u64, ..s },
    }
}

/// The state after a sequence of allowed steps, or nothing if some step was
/// not allowed.
pub open spec fn run_trace(s: SweepState, es: Seq<SweepEvent>) -> Option<SweepState>
    decreases es.len(),
{
    if es.len() == 0 {
        Some(s)
    } else if step_allowed(s, es[0]) {
        run_trace(step(s, es[0]), es.drop_first())
    } else {
        None
    }
}

/// Admission cap, as a law over whole schedules: from a valid state, any
/// sequence of allowed submissions and completions keeps the in-flight
/// count at or below the cap.
pub proof fn lemma_admission_cap(s0: SweepState, es: Seq<SweepEvent>)
    requires
        s0.inv(),
    ensures
        run_trace(s0, es) matches Some(s) ==> s.inv() && s.running() <= s.cap,
    decreases es.len(),
{
    if es.len() > 0 && step_allowed(s0, es[0]) {
        lemma_admission_cap(step(s0, es[0]), es.drop_first());
    }
}

/// Whether some tagged result carries submission index `k`.
pub open spec fn index_present(ps: Seq<(usize, Option<u32>)>, k: int) -> bool {
    exists|j: int| 0 <= j < ps.len() && (#[trigger] ps[j]).0 == k
}

/// Whether the tagged results are exactly one result per submission index
/// below `n`: every index in range, no index twice, every index present.
pub open spec fn is_perm(ps: Seq<(usize, Option<u32>)>, n: int) -> bool {
    &&& ps.len() == n
    &&& forall|j: int| 0 <= j < ps.len() ==> (#[trigger] ps[j]).0 < n
    &&& forall|j1: int, j2: int|
        0 <= j1 < j2 < ps.len() ==> (#[trigger] ps[j1]).0 != (#[trigger] ps[j2]).0
    &&& forall|k: int| 0 <= k < n ==> #[trigger] index_present(ps, k)
}

/// The ordered-completion pipeline: probe results arrive tagged with their
/// submission index, in arbitrary completion order; the pipeline hands them
/// back in submission order.  Returns nothing unless the input holds exactly
/// one result per index, and the result at position `k` is always the result
/// that was submitted as probe `k`, whatever order the probes finished in.
pub fn reorder_results(pairs: &Vec<(usize, Option<u32>)>, n: usize) -> (r: Option<
    Vec<Option<u32>>,
>)
    ensures
        r matches Some(v) ==> {
            &&& is_perm(pairs@, n as int)
            &&& v@.len() == n
            &&& forall|j: int|
                0 <= j < pairs@.len() ==> v@[(#[trigger] pairs@[j]).0 as int] == pairs@[j].1
        },
        r is None ==> !is_perm(pairs@, n as int),
{
    if pairs.len() != n {
        return None;
    }
    let mut slots: Vec<Option<Option<u32>>> = Vec::new();
    let mut k: usize = 0;
    while k < n
        invariant
            k <= n,
            slots@.len() == k,
            forall|i: int| 0 <= i < k ==> slots@[i] is None,
        decreases n - k,
    {
        slots.push(None);
        k = k + 1;
    }
    let mut j: usize = 0;
    while j < pairs.len()
        invariant
            j <= pairs.len(),
            pairs@.len() == n,
            slots@.len() == n,
            forall|j2: int| 0 <= j2 < j ==> (#[trigger] pairs@[j2]).0 < n,
            forall|j1: int, j2: int|
                0 <= j1 < j2 < j ==> (#[trigger] pairs@[j1]).0 != (#[trigger] pairs@[j2]).0,
            forall|i: int|
                0 <= i < n ==> ((#[trigger] slots@[i]) is Some <==> exists|j2: int|
                    0 <= j2 < j && (#[trigger] pairs@[j2]).0 == i),
            forall|j2: int|
                0 <= j2 < j ==> slots@[(#[trigger] pairs@[j2]).0 as int] == Some(pairs@[j2].1),
        decreases pairs.len() - j,
    {
        let (idx, val) = pairs[j];
        if idx >= n {
            proof {
                assert(pairs@[j as int].0 >= n);
                assert(!is_perm(pairs@, n as int));
            }
            return None;
        }
        let taken = slots[idx].is_some();
        if taken {
            proof {
                let j2 = choose|j2: int| 0 <= j2 < j && (#[trigger] pairs@[j2]).0 == idx;
                assert(pairs@[j2].0 == pairs@[j as int].0);
                assert(!is_perm(pairs@, n as int));
            }
            return None;
        }
        slots.set(idx, Some(val));
        proof {
            assert forall|i: int|
                0 <= i < n implies ((#[trigger] slots@[i]) is Some <==> exists|j2: int|
                    0 <= j2 < j + 1 && (#[trigger] pairs@[j2]).0 == i) by {
                if i == idx {
                    assert(pairs@[j as int].0 == i);
                } else {
                    if slots@[i] is Some {
                        let j2 = choose|j2: int| 0 <= j2 < j && (#[trigger] pairs@[j2]).0 == i;
                        assert(0 <= j2 < j + 1 && pairs@[j2].0 == i);
                    }
                    if exists|j2: int| 0 <= j2 < j + 1 && (#[trigger] pairs@[j2]).0 == i {
                        let j2 = choose|j2: int|
                            0 <= j2 < j + 1 && (#[trigger] pairs@[j2]).0 == i;
                        assert(j2 < j);
                    }
                }
            }
        }
        j = j + 1;
    }
    let mut out: Vec<Option<u32>> = Vec::new();
    let mut k2: usize = 0;
    while k2 < n
        invariant
            k2 <= n,
            out@.len() == k2,
            pairs@.len() == n,
            slots@.len() == n,
            forall|j2: int| 0 <= j2 < n ==> (#[trigger] pairs@[j2]).0 < n,
            forall|j1: int, j2: int|
                0 <= j1 < j2 < n ==> (#[trigger] pairs@[j1]).0 != (#[trigger] pairs@[j2]).0,
            forall|i: int|
                0 <= i < n ==> ((#[trigger] slots@[i]) is Some <==> exists|j2: int|
                    0 <= j2 < n && (#[trigger] pairs@[j2]).0 == i),
            forall|j2: int|
                0 <= j2 < n ==> slots@[(#[trigger] pairs@[j2]).0 as int] == Some(pairs@[j2].1),
            forall|i: int| 0 <= i < k2 ==> Some(#[trigger] out@[i]) == slots@[i],
        decreases n - k2,
    {
        match slots[k2] {
            Some(v) => {
                out.push(v);
            },
            None => {
                proof {
                    assert(!(exists|j2: int| 0 <= j2 < n && (#[trigger] pairs@[j2]).0 == k2));
                    assert(!index_present(pairs@, k2 as int));
                    assert(!is_perm(pairs@, n as int));
                }
                return None;
            },
        }
        k2 = k2 + 1;
    }
    proof {
        assert(is_perm(pairs@, n as int)) by {
            assert forall|i: int| 0 <= i < n implies #[trigger] index_present(pairs@, i) by {
                assert(Some(out@[i]) == slots@[i]);
                assert(slots@[i] is Some);
            }
        }
        assert forall|j2: int|
            0 <= j2 < pairs@.len() implies out@[(#[trigger] pairs@[j2]).0 as int] == pairs@[j2
            ].1 by {
            let i = pairs@[j2].0 as int;
            assert(Some(out@[i]) == slots@[i]);
            assert(slots@[i] == Some(pairs@[j2].1));
        }
    }
    Some(out)
}

/// Append one batch of probe outcomes in submission order: outcome `k` goes
/// to record `next_index + k`, so file offsets keep encoding the address
/// sequence.
pub fn write_outcomes(store: &mut ResultStore, outcomes: &Vec<Option<u32>>)
    requires
        old(store).wf(),
        old(store).next_index() + outcomes@.len() <= u64::MAX,
        forall|k: int|
            0 <= k < outcomes@.len() ==> ((#[trigger] outcomes@[k]) matches Some(b)
                ==> is_reply_bits(b)),
    ensures
        final(store).wf(),
        final(store).base == old(store).base,
        final(store).pending_records() == old(store).pending_records() + outcomes@.map_values(
            |o: Option<u32>| encode_spec(o),
        ),
        final(store).next_index() == old(store).next_index() + outcomes@.len(),
{
    let ghost mapped = outcomes@.map_values(|o: Option<u32>| encode_spec(o));
    let ghost base_records = store.pending_records();
    let mut k: usize = 0;
    proof {
        assert(base_records + mapped.take(0) =~= base_records);
    }
    while k < outcomes.len()
        invariant
            k <= outcomes@.len(),
            mapped == outcomes@.map_values(|o: Option<u32>| encode_spec(o)),
            store.wf(),
            store.base == old(store).base,
            base_records == old(store).pending_records(),
            store.pending_records() == base_records + mapped.take(k as int),
            store.next_index() == old(store).next_index() + k,
            old(store).next_index() + outcomes@.len() <= u64::MAX,
            forall|k2: int|
                0 <= k2 < outcomes@.len() ==> ((#[trigger] outcomes@[k2]) matches Some(b)
                    ==> is_reply_bits(b)),
        decreases outcomes@.len() - k,
    {
        let o = outcomes[k];
        store.append(o);
        proof {
            assert((base_records + mapped.take(k as int)).push(encode_spec(o)) =~= base_records
                + mapped.take(k as int + 1));
        }
        k = k + 1;
    }
    proof {
        assert(mapped.take(outcomes@.len() as int) =~= mapped);
    }
}

/// Drive one batch of tagged completions through the pipeline and the
/// writer: succeeds exactly when the batch holds one result per submission
/// index, and then the record for submission `k` of the batch lands at
/// file position `next_index + k`, whatever order the results arrived in.
pub fn drain_pipeline(store: &mut ResultStore, pairs: &Vec<(usize, Option<u32>)>, n: usize) -> (ok:
    bool)
    requires
        old(store).wf(),
        old(store).next_index() + n <= u64::MAX,
        forall|j: int|
            0 <= j < pairs@.len() ==> ((#[trigger] pairs@[j]).1 matches Some(b) ==> is_reply_bits(
                b,
            )),
    ensures
        ok <==> is_perm(pairs@, n as int),
        final(store).wf(),
        final(store).base == old(store).base,
        !ok ==> *final(store) == *old(store),
        ok ==> {
            &&& final(store).pending_records().len() == old(store).pending_records().len() + n
            &&& forall|i: int|
                0 <= i < old(store).pending_records().len()
                    ==> final(store).pending_records()[i] == old(store).pending_records()[i]
            &&& forall|j: int|
                0 <= j < pairs@.len() ==> final(store).pending_records()[old(
                    store,
                ).pending_records().len() + (#[trigger] pairs@[j]).0] == encode_spec(pairs@[j].1)
        },
{
    let r = reorder_results(pairs, n);
    match r {
        Some(ordered) => {
            proof {
                assert forall|k: int|
                    0 <= k < ordered@.len() implies ((#[trigger] ordered@[k]) matches Some(b)
                    ==> is_reply_bits(b)) by {
                    assert(index_present(pairs@, k));
                    let j = choose|j: int| 0 <= j < pairs@.len() && (#[trigger] pairs@[j]).0 == k;
                    assert(ordered@[pairs@[j].0 as int] == pairs@[j].1);
                }
            }
            write_outcomes(store, &ordered);
            proof {
                let olds = old(store).pending_records();
                let mapped = ordered@.map_values(|o: Option<u32>| encode_spec(o));
                assert forall|j: int|
                    0 <= j < pairs@.len() implies store.pending_records()[olds.len() + (
                #[trigger] pairs@[j]).0] == encode_spec(pairs@[j].1) by {
                    let i = pairs@[j].0 as int;
                    assert(ordered@[i] == pairs@[j].1);
                    assert(mapped[i] == encode_spec(ordered@[i]));
                    assert(store.pending_records()[olds.len() + i] == mapped[i]);
                }
            }
            true
        },
        None => false,
    }
}

} // verus!
