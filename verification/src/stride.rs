//! Proportional-share (stride) scheduling.
//!
//! Each thread carries a monotonically advancing 32-bit stride counter; the
//! thread whose counter is least (under a wraparound-aware order) runs next.
//! Every dispatch advances the counter by `BIG_STRIDE / priority`, so a
//! thread with twice the priority advances half as fast and is dispatched
//! twice as often. Removal is lazy: `remove` only clears the presence flag,
//! and `pop` discards stale queue entries as it meets them.

use vstd::prelude::*;

verus! {

use crate::Scheduler;
use crate::expand;
use vstd::wrapping::u32_specs;

/// Half of the 32-bit stride space: the wraparound threshold of the stride
/// comparator, and the pass of a priority-0 thread.
pub const BIG_STRIDE: u32 = 0x7FFF_FFFF;

/// Per-thread record of the stride policy.
#[derive(Clone, Copy, Debug)]
pub struct StrideProcInfo {
    /// Enqueued and not yet dispatched.
    pub present: bool,
    /// Remaining ticks in the current quantum.
    pub rest_slice: usize,
    /// Proportional-share counter, compared with wraparound-aware ordering.
    pub stride: u32,
    /// Share divisor: a higher priority means a smaller pass.
    pub priority: u8,
    /// Ticks accumulated in the current accounting window.
    pub tick_num: u8,
    /// An accounting window is open.
    pub start_flag: bool,
}

impl StrideProcInfo {
    /// The zero-initialized record of a thread the scheduler has not seen.
    pub open spec fn default_rec() -> Self {
        StrideProcInfo {
            present: false,
            rest_slice: 0,
            stride: 0,
            priority: 0,
            tick_num: 0,
            start_flag: false,
        }
    }

    /// The pass a dispatch adds to the stride counter: `BIG_STRIDE` divided
    /// by the priority, or the full undivided `BIG_STRIDE` for priority 0
    /// (the fastest possible advance, hence the smallest share).
    pub open spec fn pass_of(priority: u8) -> u32 {
        if priority == 0 {
            BIG_STRIDE
        } else {
            BIG_STRIDE / priority as u32
        }
    }

    /// Advance the stride counter by the pass, wrapping on 32-bit overflow.
    pub fn pass(&mut self)
        ensures
            final(self).stride == u32_specs::wrapping_add(
                old(self).stride,
                Self::pass_of(old(self).priority),
            ),
            final(self).present == old(self).present,
            final(self).rest_slice == old(self).rest_slice,
            final(self).priority == old(self).priority,
            final(self).tick_num == old(self).tick_num,
            final(self).start_flag == old(self).start_flag,
    {
        let pass: u32 = if self.priority == 0 {
            BIG_STRIDE
        } else {
            BIG_STRIDE / (self.priority as u32)
        };
        self.stride = self.stride.wrapping_add(pass);
    }
}

impl Default for StrideProcInfo {
    fn default() -> (r: Self)
        ensures
            r == Self::default_rec(),
    {
        StrideProcInfo {
            present: false,
            rest_slice: 0,
            stride: 0,
            priority: 0,
            tick_num: 0,
            start_flag: false,
        }
    }
}

/// Wraparound-aware strict order on stride counters: `a` comes before `b`
/// iff they differ and `b` is ahead of `a` by at most `BIG_STRIDE` steps on
/// the circular 32-bit number line.
pub open spec fn stride_lt(a: u32, b: u32) -> bool {
    a != b && u32_specs::wrapping_sub(b, a) <= BIG_STRIDE
}

/// Executable form of [`stride_lt`].
pub fn stride_before(a: u32, b: u32) -> (r: bool)
    ensures
        r == stride_lt(a, b),
{
    if a == b {
        false
    } else {
        b.wrapping_sub(a) <= BIG_STRIDE
    }
}

/// Strict order on queue entries `(stride, tid)`: by stride first, ties
/// broken by the smaller thread id.
pub open spec fn entry_lt(a: (u32, usize), b: (u32, usize)) -> bool {
    stride_lt(a.0, b.0) || (a.0 == b.0 && a.1 < b.1)
}

/// Reflexive closure of [`entry_lt`].
pub open spec fn entry_le(a: (u32, usize), b: (u32, usize)) -> bool {
    a == b || entry_lt(a, b)
}

/// Executable form of [`entry_lt`].
pub fn entry_before(a: (u32, usize), b: (u32, usize)) -> (r: bool)
    ensures
        r == entry_lt(a, b),
{
    if a.0 == b.0 {
        a.1 < b.1
    } else {
        stride_before(a.0, b.0)
    }
}

/// All strides of `q` lie within `BIG_STRIDE` steps ahead of `base`.
pub open spec fn in_window(q: Seq<(u32, usize)>, base: u32) -> bool {
    forall|i: int|
        0 <= i < q.len() ==> u32_specs::wrapping_sub((#[trigger] q[i]).0, base) <= BIG_STRIDE
}

/// The strides of `q` fit in a half-circle of the 32-bit stride space; on
/// such a window the wraparound comparator is a total order.
pub open spec fn entries_within_window(q: Seq<(u32, usize)>) -> bool {
    exists|base: u32| in_window(q, base)
}

/// Within a window around `base`, [`stride_lt`] agrees with the plain
/// integer order of the offsets from `base`.
pub proof fn lemma_stride_key(a: u32, b: u32, base: u32)
    requires
        u32_specs::wrapping_sub(a, base) <= BIG_STRIDE,
        u32_specs::wrapping_sub(b, base) <= BIG_STRIDE,
    ensures
        stride_lt(a, b) <==> u32_specs::wrapping_sub(a, base) < u32_specs::wrapping_sub(b, base),
        (a == b) <==> u32_specs::wrapping_sub(a, base) == u32_specs::wrapping_sub(b, base),
{
    let da = u32_specs::wrapping_sub(a, base);
    let db = u32_specs::wrapping_sub(b, base);
    assert(da == if a - base < 0 { a - base + 0x1_0000_0000 } else { a - base });
    assert(db == if b - base < 0 { b - base + 0x1_0000_0000 } else { b - base });
    if da < db {
        assert(u32_specs::wrapping_sub(b, a) == db - da);
    } else if da > db {
        assert(u32_specs::wrapping_sub(b, a) == db - da + 0x1_0000_0000);
    } else {
        assert(a == b);
    }
}

/// Within a window around `base`, [`entry_lt`] agrees with the plain
/// lexicographic order of (offset from `base`, thread id).
pub proof fn lemma_entry_key(a: (u32, usize), b: (u32, usize), base: u32)
    requires
        u32_specs::wrapping_sub(a.0, base) <= BIG_STRIDE,
        u32_specs::wrapping_sub(b.0, base) <= BIG_STRIDE,
    ensures
        entry_lt(a, b) <==> (u32_specs::wrapping_sub(a.0, base) < u32_specs::wrapping_sub(b.0, base)
            || (u32_specs::wrapping_sub(a.0, base) == u32_specs::wrapping_sub(b.0, base)
                && a.1 < b.1)),
        entry_le(a, b) || entry_le(b, a),
        entry_le(a, b) && entry_le(b, a) ==> a == b,
{
    lemma_stride_key(a.0, b.0, base);
}

/// The stride comparator is antisymmetric: no counter is ordered before
/// itself, two counters are never each ordered before the other, and of two
/// distinct counters not exactly half the circle apart, exactly one is
/// ordered before the other.
pub proof fn lemma_stride_antisymmetric(a: u32, b: u32)
    ensures
        !stride_lt(a, a),
        !(stride_lt(a, b) && stride_lt(b, a)),
        a != b && u32_specs::wrapping_sub(b, a) != 0x8000_0000 ==> (stride_lt(a, b) <==> !stride_lt(
            b,
            a,
        )),
{
    if a != b {
        assert(u32_specs::wrapping_sub(b, a) + u32_specs::wrapping_sub(a, b) == 0x1_0000_0000);
    }
}

/// The stride policy. A binary-heap-like bag of `(stride, tid)` entries
/// holds the ready threads; removal is lazy, so the bag may also hold stale
/// entries whose thread has been removed or dispatched already.
pub struct StrideSchedulerInner {
    /// Quantum refilled into an exhausted thread on push.
    pub max_time_slice: usize,
    /// Dense per-thread table, indexed by thread id, grown on demand.
    pub infos: Vec<StrideProcInfo>,
    /// Ready bag: `(stride, tid)` entries, possibly stale.
    pub queue: Vec<(u32, usize)>,
}

impl StrideSchedulerInner {
    /// The record of thread `i`, or the zero record if the table has not
    /// grown to `i` yet.
    pub open spec fn rec_or_default(self, i: int) -> StrideProcInfo {
        if 0 <= i < self.infos@.len() {
            self.infos@[i]
        } else {
            StrideProcInfo::default_rec()
        }
    }

    /// True iff `tid` is enqueued and not yet dispatched.
    pub open spec fn is_ready(self, tid: usize) -> bool {
        tid < self.infos@.len() && self.infos@[tid as int].present
    }

    /// Some thread is ready.
    pub open spec fn has_ready(self) -> bool {
        exists|t: usize| self.is_ready(t)
    }

    /// Well-formedness: every queue entry's thread id is within the table,
    /// and every present thread has its live `(stride, tid)` entry queued.
    pub open spec fn wf(self) -> bool {
        &&& forall|i: int|
            0 <= i < self.queue@.len() ==> (#[trigger] self.queue@[i]).1 < self.infos@.len()
        &&& forall|t: int|
            0 <= t < self.infos@.len() && (#[trigger] self.infos@[t]).present
                ==> self.queue@.contains((self.infos@[t].stride, t as usize))
    }

    /// How `push` changes the state: the table grows to hold `tid`, the
    /// record becomes present with its quantum refilled if exhausted, and
    /// the live entry joins the queue.
    pub open spec fn push_step(pre: Self, post: Self, tid: usize) -> bool {
        let n = if pre.infos@.len() >= tid + 1 {
            pre.infos@.len()
        } else {
            (tid + 1) as nat
        };
        let r0 = pre.rec_or_default(tid as int);
        let r1 = StrideProcInfo {
            present: true,
            rest_slice: if r0.rest_slice == 0 {
                pre.max_time_slice
            } else {
                r0.rest_slice
            },
            ..r0
        };
        &&& post.max_time_slice == pre.max_time_slice
        &&& post.infos@.len() == n
        &&& forall|i: int| 0 <= i < n && i != tid ==> post.infos@[i] == pre.rec_or_default(i)
        &&& post.infos@[tid as int] == r1
        &&& post.queue@ == pre.queue@.push((r1.stride, tid))
    }

    /// How a bookkeeping call on `tid` changes the state: the table grows
    /// to hold `tid`, `tid`'s record becomes `r1`, and nothing else moves.
    pub open spec fn touch_step(pre: Self, post: Self, tid: usize, r1: StrideProcInfo) -> bool {
        let n = if pre.infos@.len() >= tid + 1 {
            pre.infos@.len()
        } else {
            (tid + 1) as nat
        };
        &&& post.max_time_slice == pre.max_time_slice
        &&& post.queue@ == pre.queue@
        &&& post.infos@.len() == n
        &&& forall|i: int| 0 <= i < n && i != tid ==> post.infos@[i] == pre.rec_or_default(i)
        &&& post.infos@[tid as int] == r1
    }

    /// A bookkeeping call that leaves the presence flag and the stride of
    /// `tid` alone preserves well-formedness.
    proof fn lemma_wf_touch(pre: Self, post: Self, tid: usize, r1: StrideProcInfo)
        requires
            pre.wf(),
            pre.infos@.len() <= usize::MAX,
            tid < usize::MAX,
            Self::touch_step(pre, post, tid, r1),
            r1.present == pre.rec_or_default(tid as int).present,
            r1.stride == pre.rec_or_default(tid as int).stride,
        ensures
            post.wf(),
    {
        assert forall|t: int|
            0 <= t < post.infos@.len() && (#[trigger] post.infos@[t]).present implies post
            .queue@.contains((post.infos@[t].stride, t as usize)) by {
            if t == tid {
                assert(post.infos@[t] == r1);
                assert(r1.present == pre.rec_or_default(t).present);
                assert(r1.stride == pre.rec_or_default(t).stride);
            } else {
                assert(post.infos@[t] == pre.rec_or_default(t));
            }
            assert(t < pre.infos@.len());
            assert(post.infos@[t].present == pre.infos@[t].present);
            assert(post.infos@[t].stride == pre.infos@[t].stride);
            assert(pre.queue@.contains((pre.infos@[t].stride, t as usize)));
        }
    }

    /// A bookkeeping call on `tid` leaves every other record, and the
    /// readiness of every other thread, as it was.
    pub proof fn lemma_touch_preserves(pre: Self, post: Self, tid: usize, r1: StrideProcInfo)
        requires
            Self::touch_step(pre, post, tid, r1),
        ensures
            forall|u: usize|
                u != tid ==> post.rec_or_default(u as int) == pre.rec_or_default(u as int),
            forall|u: usize| u != tid ==> post.is_ready(u) == pre.is_ready(u),
            post.rec_or_default(tid as int) == r1,
            r1.present == pre.rec_or_default(tid as int).present ==> post.is_ready(tid)
                == pre.is_ready(tid),
    {
        assert forall|u: usize| u != tid implies post.rec_or_default(u as int)
            == pre.rec_or_default(u as int) && post.is_ready(u) == pre.is_ready(u) by {
            if (u as int) < post.infos@.len() {
                assert(post.infos@[u as int] == pre.rec_or_default(u as int));
            }
        }
    }

    /// `push` leaves the readiness of every other thread as it was.
    pub proof fn lemma_push_preserves(pre: Self, post: Self, tid: usize)
        requires
            Self::push_step(pre, post, tid),
        ensures
            forall|u: usize|
                u != tid ==> post.rec_or_default(u as int) == pre.rec_or_default(u as int),
            forall|u: usize| u != tid ==> post.is_ready(u) == pre.is_ready(u),
            post.is_ready(tid),
    {
        assert forall|u: usize| u != tid implies post.rec_or_default(u as int)
            == pre.rec_or_default(u as int) && post.is_ready(u) == pre.is_ready(u) by {
            if (u as int) < post.infos@.len() {
                assert(post.infos@[u as int] == pre.rec_or_default(u as int));
            }
        }
    }

    /// `pop` leaves the readiness of every thread other than the dispatched
    /// one as it was.
    pub proof fn lemma_pop_preserves(pre: Self, post: Self, r: Option<usize>)
        requires
            Self::pop_step(pre, post, r),
        ensures
            r matches Some(t) ==> pre.is_ready(t) && !post.is_ready(t) && (forall|u: usize|
                u != t ==> post.is_ready(u) == pre.is_ready(u)),
            r is None ==> forall|u: usize| post.is_ready(u) == pre.is_ready(u),
            (r is None) <==> (forall|u: usize| !pre.is_ready(u)),
    {
        match r {
            Option::Some(t) => {
                assert(pre.is_ready(t));
            },
            Option::None => {
                assert forall|u: usize| !pre.is_ready(u) by {
                    if pre.is_ready(u) {
                        assert(pre.has_ready());
                    }
                }
            },
        }
    }

    /// The ticked form of a record: one tick accounted if a window is open,
    /// the remaining slice decremented but never below zero.
    pub open spec fn ticked(r: StrideProcInfo) -> StrideProcInfo {
        StrideProcInfo {
            tick_num: if r.start_flag {
                (r.tick_num + 1) as u8
            } else {
                r.tick_num
            },
            rest_slice: if r.rest_slice > 0 {
                (r.rest_slice - 1) as usize
            } else {
                0
            },
            ..r
        }
    }

    /// Account one timer tick to `current`, which must be executing (hence
    /// not present). Returns `true` iff the slice is now exhausted.
    pub fn tick(&mut self, current: usize) -> (r: bool)
        requires
            old(self).wf(),
            current < usize::MAX,
            !old(self).is_ready(current),
            old(self).rec_or_default(current as int).start_flag ==> old(self).rec_or_default(
                current as int,
            ).tick_num < 255,
        ensures
            final(self).wf(),
            Self::touch_step(
                *old(self),
                *final(self),
                current,
                Self::ticked(old(self).rec_or_default(current as int)),
            ),
            r == (Self::ticked(old(self).rec_or_default(current as int)).rest_slice == 0),
    {
        let ilen = self.infos.len();
        proof {
            assert(self.infos@.len() == ilen);
        }
        expand(&mut self.infos, current, StrideProcInfo::default());
        let mut rec = self.infos[current];
        if rec.start_flag {
            rec.tick_num = rec.tick_num + 1;
        }
        if rec.rest_slice > 0 {
            rec.rest_slice = rec.rest_slice - 1;
        }
        self.infos.set(current, rec);
        proof {
            Self::lemma_wf_touch(
                *old(self),
                *self,
                current,
                Self::ticked(old(self).rec_or_default(current as int)),
            );
        }
        rec.rest_slice == 0
    }

    /// Store `priority` for `tid`, growing the table if `tid` is new.
    pub fn set_priority(&mut self, tid: usize, priority: u8)
        requires
            old(self).wf(),
            tid < usize::MAX,
        ensures
            final(self).wf(),
            Self::touch_step(
                *old(self),
                *final(self),
                tid,
                (StrideProcInfo { priority, ..old(self).rec_or_default(tid as int) }),
            ),
    {
        let ilen = self.infos.len();
        proof {
            assert(self.infos@.len() == ilen);
        }
        expand(&mut self.infos, tid, StrideProcInfo::default());
        let mut rec = self.infos[tid];
        rec.priority = priority;
        self.infos.set(tid, rec);
        proof {
            Self::lemma_wf_touch(
                *old(self),
                *self,
                tid,
                (StrideProcInfo { priority, ..old(self).rec_or_default(tid as int) }),
            );
        }
    }

    /// Normalize a priority: the stride policy passes it through unchanged.
    pub fn cal_priority(&self, priority: u8) -> (r: u8)
        ensures
            r == priority,
    {
        priority
    }

    /// Cancel a queued thread by clearing its presence flag. The queue
    /// entry stays behind as a stale entry for `pop` to discard; an absent
    /// or unseen `tid` is tolerated as a no-op.
    pub fn remove(&mut self, tid: usize)
        requires
            old(self).wf(),
        ensures
            final(self).wf(),
            !final(self).is_ready(tid),
            final(self).max_time_slice == old(self).max_time_slice,
            final(self).queue@ == old(self).queue@,
            final(self).infos@.len() == old(self).infos@.len(),
            forall|i: int|
                0 <= i < old(self).infos@.len() && i != tid ==> final(self).infos@[i] == old(
                    self,
                ).infos@[i],
            tid < old(self).infos@.len() ==> final(self).infos@[tid as int] == (StrideProcInfo {
                present: false,
                ..old(self).infos@[tid as int]
            }),
    {
        if tid < self.infos.len() {
            let mut rec = self.infos[tid];
            rec.present = false;
            self.infos.set(tid, rec);
        }
    }

    /// Open an accounting window for `tid`: count ticks from zero.
    pub fn start(&mut self, tid: usize)
        requires
            old(self).wf(),
            tid < usize::MAX,
        ensures
            final(self).wf(),
            Self::touch_step(
                *old(self),
                *final(self),
                tid,
                (StrideProcInfo {
                    start_flag: true,
                    tick_num: 0,
                    ..old(self).rec_or_default(tid as int)
                }),
            ),
    {
        let ilen = self.infos.len();
        proof {
            assert(self.infos@.len() == ilen);
        }
        expand(&mut self.infos, tid, StrideProcInfo::default());
        let mut rec = self.infos[tid];
        rec.start_flag = true;
        rec.tick_num = 0;
        self.infos.set(tid, rec);
        proof {
            Self::lemma_wf_touch(
                *old(self),
                *self,
                tid,
                (StrideProcInfo {
                    start_flag: true,
                    tick_num: 0,
                    ..old(self).rec_or_default(tid as int)
                }),
            );
        }
    }

    /// Read the tick count of `tid`'s accounting window.
    pub fn get_tick(&mut self, tid: usize) -> (r: u8)
        requires
            old(self).wf(),
            tid < usize::MAX,
        ensures
            final(self).wf(),
            Self::touch_step(
                *old(self),
                *final(self),
                tid,
                old(self).rec_or_default(tid as int),
            ),
            r == old(self).rec_or_default(tid as int).tick_num,
    {
        let ilen = self.infos.len();
        proof {
            assert(self.infos@.len() == ilen);
        }
        expand(&mut self.infos, tid, StrideProcInfo::default());
        let rec = self.infos[tid];
        proof {
            Self::lemma_wf_touch(*old(self), *self, tid, old(self).rec_or_default(tid as int));
        }
        rec.tick_num
    }

    /// Close `tid`'s accounting window and reset its tick count.
    pub fn end(&mut self, tid: usize)
        requires
            old(self).wf(),
            tid < usize::MAX,
        ensures
            final(self).wf(),
            Self::touch_step(
                *old(self),
                *final(self),
                tid,
                (StrideProcInfo {
                    start_flag: false,
                    tick_num: 0,
                    ..old(self).rec_or_default(tid as int)
                }),
            ),
    {
        let ilen = self.infos.len();
        proof {
            assert(self.infos@.len() == ilen);
        }
        expand(&mut self.infos, tid, StrideProcInfo::default());
        let mut rec = self.infos[tid];
        rec.start_flag = false;
        rec.tick_num = 0;
        self.infos.set(tid, rec);
        proof {
            Self::lemma_wf_touch(
                *old(self),
                *self,
                tid,
                (StrideProcInfo {
                    start_flag: false,
                    tick_num: 0,
                    ..old(self).rec_or_default(tid as int)
                }),
            );
        }
    }

    /// The dispatched form of a record: stride advanced by the pass, no
    /// longer present.
    pub open spec fn dispatched(r: StrideProcInfo) -> StrideProcInfo {
        StrideProcInfo {
            present: false,
            stride: u32_specs::wrapping_add(r.stride, StrideProcInfo::pass_of(r.priority)),
            ..r
        }
    }

    /// Under a window, the dispatched thread owned a queue entry that is no
    /// later than every entry of a ready thread.
    pub open spec fn minimal_popped(pre: Self, t: usize) -> bool {
        exists|j: int|
            0 <= j < pre.queue@.len() && (#[trigger] pre.queue@[j]).1 == t && (forall|k: int|
                0 <= k < pre.queue@.len() && pre.is_ready((#[trigger] pre.queue@[k]).1)
                    ==> entry_le(pre.queue@[j], pre.queue@[k]))
    }

    /// How `pop` changes the state: `None` is returned exactly when no
    /// thread is ready, and then every (necessarily stale) entry has been
    /// discarded. Otherwise some ready thread is dispatched: its record is
    /// advanced by [`Self::dispatched`], the queue only loses entries, and
    /// whenever the queue's strides fit one half-circle window the
    /// dispatched thread's entry was least among the ready entries.
    pub open spec fn pop_step(pre: Self, post: Self, r: Option<usize>) -> bool {
        &&& post.max_time_slice == pre.max_time_slice
        &&& ((r is None) <==> !pre.has_ready())
        &&& (r is None ==> post.infos@ == pre.infos@ && post.queue@.len() == 0)
        &&& (r matches Some(t) ==> {
            &&& t < pre.infos@.len()
            &&& pre.infos@[t as int].present
            &&& post.infos@ == pre.infos@.update(t as int, Self::dispatched(pre.infos@[t as int]))
        })
        &&& forall|i: int|
            0 <= i < post.queue@.len() ==> pre.queue@.contains(#[trigger] post.queue@[i])
        &&& (r matches Some(t) ==> (entries_within_window(pre.queue@) ==> Self::minimal_popped(
            pre,
            t,
        )))
    }

    /// Dispatch the ready thread with the least `(stride, tid)` entry,
    /// discarding stale entries of removed or already-dispatched threads as
    /// they surface. The discard loop is iterative, so an adversarial run of
    /// stale entries costs no stack.
    pub fn pop(&mut self) -> (r: Option<usize>)
        requires
            old(self).wf(),
        ensures
            final(self).wf(),
            Self::pop_step(*old(self), *final(self), r),
    {
        loop
            invariant
                self.wf(),
                self.max_time_slice == old(self).max_time_slice,
                self.infos@ == old(self).infos@,
                forall|i: int|
                    0 <= i < self.queue@.len() ==> old(self).queue@.contains(
                        #[trigger] self.queue@[i],
                    ),
                forall|j: int|
                    0 <= j < old(self).queue@.len() && old(self).is_ready(
                        (#[trigger] old(self).queue@[j]).1,
                    ) ==> self.queue@.contains(old(self).queue@[j]),
            decreases self.queue@.len(),
        {
            if self.queue.len() == 0 {
                proof {
                    assert forall|u: usize| !old(self).is_ready(u) by {
                        if old(self).is_ready(u) {
                            assert(self.queue@.contains(
                                (self.infos@[u as int].stride, u as usize),
                            ));
                        }
                    }
                }
                return None;
            }
            let ghost q0 = self.queue@;
            let mut best: usize = 0;
            let mut k: usize = 1;
            while k < self.queue.len()
                invariant
                    self.queue@ == q0,
                    1 <= k <= q0.len(),
                    (best as int) < k,
                    forall|base: u32|
                        #[trigger] in_window(q0, base) ==> (forall|j: int|
                            0 <= j < k ==> entry_le(q0[best as int], #[trigger] q0[j])),
                decreases q0.len() - k,
            {
                let cond = entry_before(self.queue[k], self.queue[best]);
                proof {
                    let nb: int = if cond {
                        k as int
                    } else {
                        best as int
                    };
                    assert forall|base: u32| #[trigger] in_window(q0, base) implies (forall|j: int|
                        0 <= j < k + 1 ==> entry_le(q0[nb], #[trigger] q0[j])) by {
                        assert forall|j: int| 0 <= j < k + 1 implies entry_le(
                            q0[nb],
                            #[trigger] q0[j],
                        ) by {
                            lemma_entry_key(q0[k as int], q0[best as int], base);
                            lemma_entry_key(q0[best as int], q0[j], base);
                            lemma_entry_key(q0[k as int], q0[j], base);
                        }
                    }
                }
                if cond {
                    best = k;
                }
                k += 1;
            }
            let ghost qit = self.queue@;
            let e = self.queue.swap_remove(best);
            let t = e.1;
            let ilen = self.infos.len();
            proof {
                assert(self.infos@.len() == ilen);
                assert(qit[best as int] == e);
                assert(t < self.infos@.len());
                // every surviving entry stood in the queue before the removal
                assert forall|i: int| 0 <= i < self.queue@.len() implies qit.contains(
                    #[trigger] self.queue@[i],
                ) by {
                    if i == best {
                        assert(self.queue@[i] == qit[qit.len() - 1]);
                    } else {
                        assert(self.queue@[i] == qit[i]);
                    }
                }
            }
            if self.infos[t].present {
                let mut rec = self.infos[t];
                rec.pass();
                rec.present = false;
                self.infos.set(t, rec);
                proof {
                    let pre = *old(self);
                    // entries of other present threads survive the removal
                    assert forall|u: int|
                        0 <= u < self.infos@.len() && (#[trigger] self.infos@[u]).present implies self
                        .queue@.contains((self.infos@[u].stride, u as usize)) by {
                        let x = (pre.infos@[u].stride, u as usize);
                        assert(qit.contains(x));
                        let j = choose|j: int| 0 <= j < qit.len() && qit[j] == x;
                        assert(x.1 != t);
                        if j == qit.len() - 1 {
                            if best < qit.len() - 1 {
                                assert(self.queue@[best as int] == x);
                            } else {
                                assert(qit[best as int] == x);
                            }
                        } else {
                            assert(self.queue@[j] == x);
                        }
                    }
                    // the scan picked a least entry whenever a window exists
                    if entries_within_window(pre.queue@) {
                        let base = choose|base: u32| in_window(pre.queue@, base);
                        assert(in_window(qit, base)) by {
                            assert forall|i: int|
                                0 <= i < qit.len() implies u32_specs::wrapping_sub(
                                (#[trigger] qit[i]).0,
                                base,
                            ) <= BIG_STRIDE by {
                                assert(pre.queue@.contains(qit[i]));
                                let w = choose|w: int|
                                    0 <= w < pre.queue@.len() && pre.queue@[w] == qit[i];
                                assert(u32_specs::wrapping_sub(pre.queue@[w].0, base)
                                    <= BIG_STRIDE);
                            }
                        }
                        assert(pre.queue@.contains(e));
                        let j = choose|j: int| 0 <= j < pre.queue@.len() && pre.queue@[j] == e;
                        assert forall|m: int|
                            0 <= m < pre.queue@.len() && pre.is_ready(
                                (#[trigger] pre.queue@[m]).1,
                            ) implies entry_le(pre.queue@[j], pre.queue@[m]) by {
                            let x = pre.queue@[m];
                            assert(qit.contains(x));
                            let w = choose|w: int| 0 <= w < qit.len() && qit[w] == x;
                            assert(entry_le(qit[best as int], qit[w]));
                        }
                        assert(Self::minimal_popped(pre, t));
                    }
                    assert(self.infos@ == pre.infos@.update(
                        t as int,
                        Self::dispatched(pre.infos@[t as int]),
                    ));
                    assert(self.max_time_slice == pre.max_time_slice);
                    assert(t < pre.infos@.len() && pre.infos@[t as int].present);
                    assert(pre.is_ready(t));
                    assert(pre.has_ready());
                    assert forall|i: int| 0 <= i < self.queue@.len() implies pre.queue@.contains(
                        #[trigger] self.queue@[i],
                    ) by {
                        assert(qit.contains(self.queue@[i]));
                        let w = choose|w: int| 0 <= w < qit.len() && qit[w] == self.queue@[i];
                        assert(pre.queue@.contains(qit[w]));
                    }
                    assert(Self::pop_step(pre, *self, Some(t)));
                }
                return Some(t);
            }
            proof {
                // the removed entry was stale; live entries all survive
                assert forall|u: int|
                    0 <= u < self.infos@.len() && (#[trigger] self.infos@[u]).present implies self
                    .queue@.contains((self.infos@[u].stride, u as usize)) by {
                    let x = (self.infos@[u].stride, u as usize);
                    assert(qit.contains(x));
                    let j = choose|j: int| 0 <= j < qit.len() && qit[j] == x;
                    assert(x.1 != t);
                    if j == qit.len() - 1 {
                        if best < qit.len() - 1 {
                            assert(self.queue@[best as int] == x);
                        } else {
                            assert(qit[best as int] == x);
                        }
                    } else {
                        assert(self.queue@[j] == x);
                    }
                }
                assert forall|j: int|
                    0 <= j < old(self).queue@.len() && old(self).is_ready(
                        (#[trigger] old(self).queue@[j]).1,
                    ) implies self.queue@.contains(old(self).queue@[j]) by {
                    let x = old(self).queue@[j];
                    assert(qit.contains(x));
                    let w = choose|w: int| 0 <= w < qit.len() && qit[w] == x;
                    assert(x.1 != t);
                    if w == qit.len() - 1 {
                        if best < qit.len() - 1 {
                            assert(self.queue@[best as int] == x);
                        } else {
                            assert(qit[best as int] == x);
                        }
                    } else {
                        assert(self.queue@[w] == x);
                    }
                }
            }
        }
    }

    /// Mark `tid` runnable: refill its quantum if exhausted and enqueue its
    /// live stride entry.
    pub fn push(&mut self, tid: usize)
        requires
            old(self).wf(),
            tid < usize::MAX,
            !old(self).is_ready(tid),
        ensures
            final(self).wf(),
            Self::push_step(*old(self), *final(self), tid),
    {
        expand(&mut self.infos, tid, StrideProcInfo::default());
        let mut rec = self.infos[tid];
        rec.present = true;
        if rec.rest_slice == 0 {
            rec.rest_slice = self.max_time_slice;
        }
        self.infos.set(tid, rec);
        self.queue.push((rec.stride, tid));
        proof {
            let pre = *old(self);
            let post = *self;
            assert forall|t: int|
                0 <= t < post.infos@.len() && (#[trigger] post.infos@[t]).present implies post
                .queue@.contains((post.infos@[t].stride, t as usize)) by {
                if t == tid {
                    assert(post.queue@[post.queue@.len() - 1] == (rec.stride, tid));
                } else if t < pre.infos@.len() && pre.infos@[t].present {
                    let e = (pre.infos@[t].stride, t as usize);
                    let j = choose|j: int| 0 <= j < pre.queue@.len() && pre.queue@[j] == e;
                    assert(post.queue@[j] == e);
                }
            }
        }
    }
}

/// Law: a push onto a stride scheduler with no ready thread, immediately
/// followed by a pop, returns exactly the pushed thread.
pub proof fn lemma_stride_push_then_pop(
    s0: StrideSchedulerInner,
    s1: StrideSchedulerInner,
    s2: StrideSchedulerInner,
    tid: usize,
    r: Option<usize>,
)
    requires
        s0.wf(),
        !s0.has_ready(),
        tid < usize::MAX,
        StrideSchedulerInner::push_step(s0, s1, tid),
        StrideSchedulerInner::pop_step(s1, s2, r),
    ensures
        r == Some(tid),
{
    assert(s1.is_ready(tid));
    assert(s1.has_ready());
    match r {
        Option::Some(t) => {
            if t != tid {
                assert(s1.infos@[t as int] == s0.rec_or_default(t as int));
                assert(s0.is_ready(t));
            }
        },
        Option::None => {},
    }
}

/// Law: once a thread is not ready (for instance right after `remove`), a
/// pop neither returns it nor makes it ready again; only a new push can.
pub proof fn lemma_stride_unready_not_popped(
    s1: StrideSchedulerInner,
    s2: StrideSchedulerInner,
    tid: usize,
    r: Option<usize>,
)
    requires
        s1.wf(),
        !s1.is_ready(tid),
        StrideSchedulerInner::pop_step(s1, s2, r),
    ensures
        r != Some(tid),
        !s2.is_ready(tid),
{
    match r {
        Option::Some(t) => {
            assert(s1.is_ready(t));
            assert(s2.infos@.len() == s1.infos@.len());
            if t != tid && (tid as int) < s1.infos@.len() {
                assert(s2.infos@[tid as int] == s1.infos@[tid as int]);
            }
        },
        Option::None => {},
    }
}

/// The stride policy behind the common [`Scheduler`] interface. Callers
/// serialize access to an instance externally.
pub struct StrideScheduler {
    /// The policy state; exposed so that its exact contracts are usable.
    pub inner: StrideSchedulerInner,
}

impl StrideScheduler {
    /// A stride scheduler whose exhausted threads are refilled with
    /// `max_time_slice` ticks on push.
    pub fn new(max_time_slice: usize) -> (r: Self)
        ensures
            r.wf(),
            r.inner.max_time_slice == max_time_slice,
            r.inner.infos@.len() == 0,
            r.inner.queue@.len() == 0,
            forall|u: usize| !r.is_ready(u),
    {
        StrideScheduler {
            inner: StrideSchedulerInner {
                max_time_slice,
                infos: Vec::new(),
                queue: Vec::new(),
            },
        }
    }
}

impl Scheduler for StrideScheduler {
    open spec fn wf(&self) -> bool {
        self.inner.wf()
    }

    open spec fn is_ready(&self, tid: usize) -> bool {
        self.inner.is_ready(tid)
    }

    open spec fn slice_of(&self, tid: usize) -> nat {
        self.inner.rec_or_default(tid as int).rest_slice as nat
    }

    open spec fn ticks_of(&self, tid: usize) -> u8 {
        self.inner.rec_or_default(tid as int).tick_num
    }

    open spec fn counting(&self, tid: usize) -> bool {
        self.inner.rec_or_default(tid as int).start_flag
    }

    open spec fn priority_of(&self, tid: usize) -> u8 {
        self.inner.rec_or_default(tid as int).priority
    }

    open spec fn stored_priority(&self, priority: u8) -> u8 {
        priority
    }

    open spec fn push_quantum(&self, tid: usize) -> nat {
        let r = self.inner.rec_or_default(tid as int);
        if r.rest_slice == 0 {
            self.inner.max_time_slice as nat
        } else {
            r.rest_slice as nat
        }
    }

    open spec fn can_push(&self, tid: usize) -> bool {
        tid < usize::MAX && !self.inner.is_ready(tid)
    }

    open spec fn can_tick(&self, tid: usize) -> bool {
        &&& tid < usize::MAX
        &&& !self.inner.is_ready(tid)
        &&& self.inner.rec_or_default(tid as int).start_flag ==> self.inner.rec_or_default(
            tid as int,
        ).tick_num < 255
    }

    open spec fn can_remove(&self, tid: usize) -> bool {
        true
    }

    open spec fn can_set_priority(&self, tid: usize, priority: u8) -> bool {
        tid < usize::MAX
    }

    open spec fn can_track(&self, tid: usize) -> bool {
        tid < usize::MAX
    }

    open spec fn norm_priority(&self, priority: u8) -> u8 {
        priority
    }

    fn push(&mut self, tid: usize) {
        self.inner.push(tid);
        proof {
            StrideSchedulerInner::lemma_push_preserves(old(self).inner, self.inner, tid);
        }
    }

    fn pop(&mut self, _cpu_id: usize) -> (r: Option<usize>) {
        let r = self.inner.pop();
        proof {
            StrideSchedulerInner::lemma_pop_preserves(old(self).inner, self.inner, r);
            match r {
                Option::Some(t) => {
                    assert(old(self).is_ready(t));
                },
                Option::None => {
                    assert forall|u: usize| !old(self).is_ready(u) by {
                        assert(!old(self).inner.is_ready(u));
                    }
                },
            }
        }
        r
    }

    fn tick(&mut self, current_tid: usize) -> (r: bool) {
        let r = self.inner.tick(current_tid);
        proof {
            StrideSchedulerInner::lemma_touch_preserves(
                old(self).inner,
                self.inner,
                current_tid,
                StrideSchedulerInner::ticked(old(self).inner.rec_or_default(current_tid as int)),
            );
        }
        r
    }

    fn set_priority(&mut self, tid: usize, priority: u8) {
        self.inner.set_priority(tid, priority);
        proof {
            StrideSchedulerInner::lemma_touch_preserves(
                old(self).inner,
                self.inner,
                tid,
                (StrideProcInfo { priority, ..old(self).inner.rec_or_default(tid as int) }),
            );
        }
    }

    fn cal_priority(&self, priority: u8) -> (r: u8) {
        self.inner.cal_priority(priority)
    }

    fn remove(&mut self, tid: usize) {
        self.inner.remove(tid);
        proof {
            assert forall|u: usize| u != tid implies self.is_ready(u) == old(self).is_ready(
                u,
            ) by {
                if (u as int) < self.inner.infos@.len() {
                    assert(self.inner.infos@[u as int] == old(self).inner.infos@[u as int]);
                }
            }
        }
    }

    fn start(&mut self, tid: usize) {
        self.inner.start(tid);
        proof {
            StrideSchedulerInner::lemma_touch_preserves(
                old(self).inner,
                self.inner,
                tid,
                (StrideProcInfo {
                    start_flag: true,
                    tick_num: 0,
                    ..old(self).inner.rec_or_default(tid as int)
                }),
            );
        }
    }

    fn get_tick(&mut self, tid: usize) -> (r: u8) {
        let r = self.inner.get_tick(tid);
        proof {
            StrideSchedulerInner::lemma_touch_preserves(
                old(self).inner,
                self.inner,
                tid,
                old(self).inner.rec_or_default(tid as int),
            );
        }
        r
    }

    fn end(&mut self, tid: usize) {
        self.inner.end(tid);
        proof {
            StrideSchedulerInner::lemma_touch_preserves(
                old(self).inner,
                self.inner,
                tid,
                (StrideProcInfo {
                    start_flag: false,
                    tick_num: 0,
                    ..old(self).inner.rec_or_default(tid as int)
                }),
            );
        }
    }
}

} // verus!
