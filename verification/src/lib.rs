//! Scheduling core for an interrupt-driven thread pool.
//!
//! Given a set of runnable thread identifiers, a scheduler decides which
//! thread executes next and for how long. Three interchangeable policies are
//! provided: round-robin with priority weighting ([`rr::RRScheduler`]),
//! strict multi-level priority tiers ([`pt::PTScheduler`]), and
//! proportional-share stride scheduling ([`stride::StrideScheduler`]).
//!
//! Every operation is synchronous and bounded; the scheduler never initiates
//! work itself. Callers serialize access to an instance externally (for a
//! bare-metal kernel, typically behind a spin lock built around these types).

use vstd::prelude::*;

pub mod pt;
pub mod rr;
pub mod stride;

verus! {

/// The scheduler contract shared by every policy.
///
/// The abstract model is given by the spec functions: `is_ready` is the set
/// of threads currently enqueued and not yet dispatched, `slice_of` is the
/// remaining quantum of a thread, and `ticks_of`/`counting` describe the
/// accounting window opened by `start` and closed by `end`.
pub trait Scheduler: Sized {
    /// Structural well-formedness of the scheduler state.
    spec fn wf(&self) -> bool;

    /// True iff `tid` is enqueued and not yet dispatched.
    spec fn is_ready(&self, tid: usize) -> bool;

    /// Remaining ticks in `tid`'s current quantum.
    spec fn slice_of(&self, tid: usize) -> nat;

    /// Ticks accumulated in `tid`'s current accounting window.
    spec fn ticks_of(&self, tid: usize) -> u8;

    /// True iff an accounting window is open for `tid`.
    spec fn counting(&self, tid: usize) -> bool;

    /// The priority stored for `tid`.
    spec fn priority_of(&self, tid: usize) -> u8;

    /// What `set_priority` stores for a supplied priority value: the value
    /// itself, or its policy-specific normal form.
    spec fn stored_priority(&self, priority: u8) -> u8;

    /// The slice `tid` holds right after a push: its remaining quantum, or
    /// the policy's refill if that quantum was exhausted.
    spec fn push_quantum(&self, tid: usize) -> nat;

    /// Policy-specific precondition of `push`.
    spec fn can_push(&self, tid: usize) -> bool;

    /// Policy-specific precondition of `tick`.
    spec fn can_tick(&self, tid: usize) -> bool;

    /// Policy-specific precondition of `remove`.
    spec fn can_remove(&self, tid: usize) -> bool;

    /// Policy-specific precondition of `set_priority`.
    spec fn can_set_priority(&self, tid: usize, priority: u8) -> bool;

    /// Policy-specific precondition of `start`, `get_tick` and `end`.
    spec fn can_track(&self, tid: usize) -> bool;

    /// What `cal_priority` returns.
    spec fn norm_priority(&self, priority: u8) -> u8;

    /// Mark `tid` runnable and insert it into the ready structure. If the
    /// thread's remaining slice is zero it is refilled to the policy's
    /// quantum first. `tid` must not already be present; a double push is a
    /// caller bug.
    fn push(&mut self, tid: usize)
        requires
            old(self).wf(),
            old(self).can_push(tid),
        ensures
            final(self).wf(),
            final(self).is_ready(tid),
            forall|u: usize| u != tid ==> final(self).is_ready(u) == old(self).is_ready(u),
            final(self).slice_of(tid) == old(self).push_quantum(tid),
            forall|u: usize| u != tid ==> final(self).slice_of(u) == old(self).slice_of(u),
    ;

    /// Select the next thread to run and remove it from the ready structure.
    /// Returns `None` iff no thread is ready. `cpu_id` is advisory.
    fn pop(&mut self, cpu_id: usize) -> (r: Option<usize>)
        requires
            old(self).wf(),
        ensures
            final(self).wf(),
            (r is None) <==> (forall|u: usize| !old(self).is_ready(u)),
            r matches Some(t) ==> old(self).is_ready(t) && !final(self).is_ready(t) && (
                forall|u: usize| u != t ==> final(self).is_ready(u) == old(self).is_ready(u)),
            forall|u: usize| final(self).slice_of(u) == old(self).slice_of(u),
    ;

    /// Account one timer tick to the currently executing thread and decrement
    /// its remaining slice. Returns `true` iff the slice is now exhausted and
    /// the caller must reschedule. The slice never goes below zero.
    fn tick(&mut self, current_tid: usize) -> (r: bool)
        requires
            old(self).wf(),
            old(self).can_tick(current_tid),
        ensures
            final(self).wf(),
            r == (final(self).slice_of(current_tid) == 0),
            final(self).slice_of(current_tid) == if old(self).slice_of(current_tid) > 0 {
                (old(self).slice_of(current_tid) - 1) as nat
            } else {
                0nat
            },
            final(self).ticks_of(current_tid) == if old(self).counting(current_tid) {
                (old(self).ticks_of(current_tid) + 1) as u8
            } else {
                old(self).ticks_of(current_tid)
            },
            forall|u: usize| final(self).is_ready(u) == old(self).is_ready(u),
            forall|u: usize| u != current_tid ==> final(self).slice_of(u) == old(self).slice_of(u),
    ;

    /// Store the policy-normalized form of `priority` for `tid`.
    fn set_priority(&mut self, tid: usize, priority: u8)
        requires
            old(self).wf(),
            old(self).can_set_priority(tid, priority),
        ensures
            final(self).wf(),
            final(self).priority_of(tid) == old(self).stored_priority(priority),
            forall|u: usize| u != tid ==> final(self).priority_of(u) == old(self).priority_of(u),
            forall|u: usize| final(self).is_ready(u) == old(self).is_ready(u),
            forall|u: usize| final(self).slice_of(u) == old(self).slice_of(u),
    ;

    /// Normalize an externally supplied priority value. Pure.
    fn cal_priority(&self, priority: u8) -> (r: u8)
        ensures
            r == self.norm_priority(priority),
    ;

    /// Cancel a queued-but-undispatched thread.
    fn remove(&mut self, tid: usize)
        requires
            old(self).wf(),
            old(self).can_remove(tid),
        ensures
            final(self).wf(),
            !final(self).is_ready(tid),
            forall|u: usize| u != tid ==> final(self).is_ready(u) == old(self).is_ready(u),
    ;

    /// Open an accounting window for `tid`: subsequent ticks are counted.
    fn start(&mut self, tid: usize)
        requires
            old(self).wf(),
            old(self).can_track(tid),
        ensures
            final(self).wf(),
            final(self).counting(tid),
            final(self).ticks_of(tid) == 0,
            forall|u: usize| final(self).is_ready(u) == old(self).is_ready(u),
            forall|u: usize| final(self).slice_of(u) == old(self).slice_of(u),
    ;

    /// Read the tick count accumulated in `tid`'s accounting window.
    fn get_tick(&mut self, tid: usize) -> (r: u8)
        requires
            old(self).wf(),
            old(self).can_track(tid),
        ensures
            final(self).wf(),
            r == old(self).ticks_of(tid),
            forall|u: usize| final(self).is_ready(u) == old(self).is_ready(u),
            forall|u: usize| final(self).slice_of(u) == old(self).slice_of(u),
            forall|u: usize| final(self).ticks_of(u) == old(self).ticks_of(u),
            forall|u: usize| final(self).counting(u) == old(self).counting(u),
    ;

    /// Close `tid`'s accounting window and reset its tick count.
    fn end(&mut self, tid: usize)
        requires
            old(self).wf(),
            old(self).can_track(tid),
        ensures
            final(self).wf(),
            !final(self).counting(tid),
            final(self).ticks_of(tid) == 0,
            forall|u: usize| final(self).is_ready(u) == old(self).is_ready(u),
            forall|u: usize| final(self).slice_of(u) == old(self).slice_of(u),
    ;
}

/// Grow `v` so that index `id` is a valid position, filling any newly
/// exposed slots with `fill`. The table never shrinks.
pub fn expand<T: Copy>(v: &mut Vec<T>, id: usize, fill: T)
    requires
        id < usize::MAX,
    ensures
        final(v)@.len() == if old(v)@.len() >= id + 1 {
            old(v)@.len()
        } else {
            (id + 1) as nat
        },
        forall|i: int| 0 <= i < old(v)@.len() ==> final(v)@[i] == old(v)@[i],
        forall|i: int| old(v)@.len() <= i < final(v)@.len() ==> final(v)@[i] == fill,
{
    while v.len() < id + 1
        invariant
            id < usize::MAX,
            v@.len() >= old(v)@.len(),
            v@.len() <= id + 1 || v@.len() == old(v)@.len(),
            forall|i: int| 0 <= i < old(v)@.len() ==> v@[i] == old(v)@[i],
            forall|i: int| old(v)@.len() <= i < v@.len() ==> v@[i] == fill,
        decreases id + 1 - v@.len(),
    {
        v.push(fill);
    }
}

} // verus!
