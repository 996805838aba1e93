//! Strict multi-level priority scheduling with five tiers.
//!
//! Ready threads wait in one FIFO queue per priority tier 0-4 (4 highest).
//! `pop` serves the head of the highest non-empty tier, so a non-empty
//! higher tier always wins; starvation of lower tiers under sustained
//! high-tier load is accepted policy behavior. Thread records sit in a dense
//! table at index `tid + 1`, reserving index 0 as the queue-end marker, and
//! the queues store those shifted indices.

use vstd::prelude::*;
use std::collections::VecDeque;

verus! {

use crate::Scheduler;
use crate::expand;

/// Per-thread record of the priority-tier policy.
#[derive(Clone, Copy, Debug)]
pub struct PTProcInfo {
    /// Tier index 0-4 (4 is highest).
    pub priority: u8,
    /// Remaining ticks in the current quantum.
    pub rest_slice: usize,
    /// Ticks accumulated in the current accounting window.
    pub tick_num: u8,
    /// An accounting window is open.
    pub start_flag: bool,
}

impl PTProcInfo {
    /// The zero-initialized record of a thread the scheduler has not seen.
    pub open spec fn default_rec() -> Self {
        PTProcInfo { priority: 0, rest_slice: 0, tick_num: 0, start_flag: false }
    }
}

impl Default for PTProcInfo {
    fn default() -> (r: Self)
        ensures
            r == Self::default_rec(),
    {
        PTProcInfo { priority: 0, rest_slice: 0, tick_num: 0, start_flag: false }
    }
}

/// The priority-tier policy state.
pub struct PTSchedulerInner {
    /// Fixed quantum refilled into an exhausted thread on push.
    pub max_time_slice: usize,
    /// Dense per-thread table, indexed by `tid + 1`, grown on demand.
    pub infos: Vec<PTProcInfo>,
    /// The tier served by the latest `pop`, 0 if it served none.
    pub active_queue: usize,
    /// Five FIFO tier queues of shifted thread indices; index 4 is highest.
    pub queues: Vec<VecDeque<usize>>,
}

impl PTSchedulerInner {
    /// The FIFO queue of tier `k` as a sequence of shifted indices.
    pub open spec fn tier(self, k: int) -> Seq<usize> {
        self.queues@[k]@
    }

    /// The record at table index `i`, or the zero record if the table has
    /// not grown to `i` yet.
    pub open spec fn rec_or_default(self, i: int) -> PTProcInfo {
        if 0 <= i < self.infos@.len() {
            self.infos@[i]
        } else {
            PTProcInfo::default_rec()
        }
    }

    /// Shifted index `i` waits in some tier queue.
    pub open spec fn in_queues(self, i: usize) -> bool {
        exists|k: int| 0 <= k < 5 && self.tier(k).contains(i)
    }

    /// True iff thread `tid` is enqueued and not yet dispatched.
    pub open spec fn is_ready(self, tid: usize) -> bool {
        tid < usize::MAX && self.in_queues((tid + 1) as usize)
    }

    /// Well-formedness: five tier queues whose entries are valid shifted
    /// indices, each waiting thread a member of exactly one queue position.
    pub open spec fn wf(self) -> bool {
        &&& self.queues@.len() == 5
        &&& forall|k: int, j: int|
            0 <= k < 5 && 0 <= j < self.tier(k).len() ==> 1 <= #[trigger] self.tier(k)[j]
                < self.infos@.len()
        &&& forall|k1: int, j1: int, k2: int, j2: int|
            0 <= k1 < 5 && 0 <= j1 < self.tier(k1).len() && 0 <= k2 < 5 && 0 <= j2 < self.tier(
                k2,
            ).len() && (k1 != k2 || j1 != j2) ==> #[trigger] self.tier(k1)[j1]
                != #[trigger] self.tier(k2)[j2]
        &&& forall|i: int|
            0 <= i < self.infos@.len() ==> (#[trigger] self.infos@[i]).priority < 5
    }

    /// The highest tier with a waiting thread, or -1 if all are empty.
    pub open spec fn top_tier(self) -> int {
        if self.tier(4).len() > 0 {
            4
        } else if self.tier(3).len() > 0 {
            3
        } else if self.tier(2).len() > 0 {
            2
        } else if self.tier(1).len() > 0 {
            1
        } else if self.tier(0).len() > 0 {
            0
        } else {
            -1
        }
    }

    /// How `push` changes the state: the table grows to hold `tid + 1`, the
    /// record's quantum is refilled if exhausted, and the shifted index
    /// joins the tail of the record's tier queue.
    pub open spec fn push_step(pre: Self, post: Self, tid: usize) -> bool {
        let i = tid + 1;
        let n = if pre.infos@.len() >= i + 1 {
            pre.infos@.len()
        } else {
            (i + 1) as nat
        };
        let r0 = pre.rec_or_default(i as int);
        let r1 = PTProcInfo {
            rest_slice: if r0.rest_slice == 0 {
                pre.max_time_slice
            } else {
                r0.rest_slice
            },
            ..r0
        };
        &&& post.max_time_slice == pre.max_time_slice
        &&& post.active_queue == pre.active_queue
        &&& post.infos@.len() == n
        &&& forall|m: int| 0 <= m < n && m != i ==> post.infos@[m] == pre.rec_or_default(m)
        &&& post.infos@[i as int] == r1
        &&& post.queues@.len() == 5
        &&& forall|k: int| 0 <= k < 5 && k != r0.priority ==> post.tier(k) == pre.tier(k)
        &&& post.tier(r0.priority as int) == pre.tier(r0.priority as int).push(i as usize)
    }

    /// Mark `tid` runnable: refill its quantum if exhausted and append it
    /// to the tail of its tier's queue.
    pub fn push(&mut self, tid: usize)
        requires
            old(self).wf(),
            tid + 1 < usize::MAX,
            !old(self).is_ready(tid),
        ensures
            final(self).wf(),
            Self::push_step(*old(self), *final(self), tid),
    {
        let i = tid + 1;
        expand(&mut self.infos, i, PTProcInfo::default());
        let mut rec = self.infos[i];
        if rec.rest_slice == 0 {
            rec.rest_slice = self.max_time_slice;
        }
        self.infos.set(i, rec);
        let p = rec.priority as usize;
        self.queues[p].push_back(i);
        proof {
            let pre = *old(self);
            let post = *self;
            let pi = pre.rec_or_default(i as int).priority as int;
            assert(post.tier(pi) == pre.tier(pi).push(i));
            assert forall|k: int, j: int|
                0 <= k < 5 && 0 <= j < post.tier(k).len() implies 1 <= #[trigger] post.tier(k)[j]
                < post.infos@.len() by {
                if k == pi && j == pre.tier(pi).len() {
                } else {
                    assert(post.tier(k)[j] == pre.tier(k)[j]);
                }
            }
            assert forall|k1: int, j1: int, k2: int, j2: int|
                0 <= k1 < 5 && 0 <= j1 < post.tier(k1).len() && 0 <= k2 < 5 && 0 <= j2 < post.tier(
                    k2,
                ).len() && (k1 != k2 || j1 != j2) implies #[trigger] post.tier(k1)[j1]
                != #[trigger] post.tier(k2)[j2] by {
                let new1 = k1 == pi && j1 == pre.tier(pi).len();
                let new2 = k2 == pi && j2 == pre.tier(pi).len();
                if new1 && !new2 {
                    assert(post.tier(k2)[j2] == pre.tier(k2)[j2]);
                    if pre.tier(k2)[j2] == i {
                        assert(pre.in_queues(i));
                    }
                } else if !new1 && new2 {
                    assert(post.tier(k1)[j1] == pre.tier(k1)[j1]);
                    if pre.tier(k1)[j1] == i {
                        assert(pre.in_queues(i));
                    }
                } else if !new1 && !new2 {
                    assert(post.tier(k1)[j1] == pre.tier(k1)[j1]);
                    assert(post.tier(k2)[j2] == pre.tier(k2)[j2]);
                }
            }
        }
    }

    /// How `pop` changes the state: the head of the highest non-empty tier
    /// is dispatched and `active_queue` records the tier served.
    pub open spec fn pop_step(pre: Self, post: Self, r: Option<usize>) -> bool {
        &&& post.max_time_slice == pre.max_time_slice
    &&& post.infos@ == pre.infos@
        &&& post.queues@.len() == 5
        &&& (pre.top_tier() == -1 ==> r is None && post.active_queue == 0 && (forall|k: int|
            0 <= k < 5 ==> post.tier(k) == pre.tier(k)))
        &&& (pre.top_tier() >= 0 ==> {
            let k = pre.top_tier();
            &&& r == Some((pre.tier(k)[0] - 1) as usize)
            &&& post.active_queue == k
            &&& post.tier(k) == pre.tier(k).drop_first()
            &&& forall|m: int| 0 <= m < 5 && m != k ==> post.tier(m) == pre.tier(m)
        })
    }

    /// Dispatch the head of the highest non-empty tier, scanning tiers from
    /// 4 down to 0. Returns `None` iff every tier is empty.
    pub fn pop(&mut self) -> (r: Option<usize>)
        requires
            old(self).wf(),
        ensures
            final(self).wf(),
            Self::pop_step(*old(self), *final(self), r),
    {
        self.active_queue = 0;
        let mut k: usize = 5;
        if self.queues[4].len() > 0 {
            k = 4;
        } else if self.queues[3].len() > 0 {
            k = 3;
        } else if self.queues[2].len() > 0 {
            k = 2;
        } else if self.queues[1].len() > 0 {
            k = 1;
        } else if self.queues[0].len() > 0 {
            k = 0;
        }
        if k == 5 {
            return None;
        }
        self.active_queue = k;
        let head = self.queues[k].pop_front();
        proof {
            let pre = *old(self);
            let post = *self;
            let kk = pre.top_tier();
            assert(kk == k);
            assert(post.tier(kk) == pre.tier(kk).drop_first());
            assert(1 <= pre.tier(kk)[0]);
            assert forall|k1: int, j1: int|
                0 <= k1 < 5 && 0 <= j1 < post.tier(k1).len() implies 1 <= #[trigger] post.tier(
                k1,
            )[j1] < post.infos@.len() by {
                if k1 == kk {
                    assert(post.tier(k1)[j1] == pre.tier(k1)[j1 + 1]);
                } else {
                    assert(post.tier(k1)[j1] == pre.tier(k1)[j1]);
                }
            }
            assert forall|k1: int, j1: int, k2: int, j2: int|
                0 <= k1 < 5 && 0 <= j1 < post.tier(k1).len() && 0 <= k2 < 5 && 0 <= j2 < post.tier(
                    k2,
                ).len() && (k1 != k2 || j1 != j2) implies #[trigger] post.tier(k1)[j1]
                != #[trigger] post.tier(k2)[j2] by {
                let s1: int = if k1 == kk {
                    j1 + 1
                } else {
                    j1
                };
                let s2: int = if k2 == kk {
                    j2 + 1
                } else {
                    j2
                };
                assert(post.tier(k1)[j1] == pre.tier(k1)[s1]);
                assert(post.tier(k2)[j2] == pre.tier(k2)[s2]);
            }
        }
        match head {
            Some(i) => Some(i - 1),
            None => {
                proof {
                    assert(false);
                }
                None
            },
        }
    }

    /// How a bookkeeping call on shifted index `i` changes the state: the
    /// table grows to hold `i`, `i`'s record becomes `r1`, and nothing else
    /// moves.
    pub open spec fn touch_step(pre: Self, post: Self, i: usize, r1: PTProcInfo) -> bool {
        let n = if pre.infos@.len() >= i + 1 {
            pre.infos@.len()
        } else {
            (i + 1) as nat
        };
        &&& post.max_time_slice == pre.max_time_slice
        &&& post.active_queue == pre.active_queue
        &&& post.queues@ == pre.queues@
        &&& post.infos@.len() == n
        &&& forall|m: int| 0 <= m < n && m != i ==> post.infos@[m] == pre.rec_or_default(m)
        &&& post.infos@[i as int] == r1
    }

    /// A bookkeeping call that keeps the tier bound on the touched record
    /// preserves well-formedness.
    proof fn lemma_wf_touch(pre: Self, post: Self, i: usize, r1: PTProcInfo)
        requires
            pre.wf(),
            Self::touch_step(pre, post, i, r1),
            r1.priority < 5,
        ensures
            post.wf(),
    {
        assert(post.queues@.len() == 5);
        assert(forall|k: int| 0 <= k < 5 ==> post.tier(k) == pre.tier(k));
        assert(pre.infos@.len() <= post.infos@.len());
        assert forall|m: int|
            0 <= m < post.infos@.len() implies (#[trigger] post.infos@[m]).priority < 5 by {
            if m == i {
                assert(post.infos@[m] == r1);
            } else {
                assert(post.infos@[m] == pre.rec_or_default(m));
                if m < pre.infos@.len() {
                    assert(pre.infos@[m].priority < 5);
                }
            }
        }
    }

    /// The ticked form of a record: one tick accounted if a window is open,
    /// the remaining slice decremented but never below zero.
    pub open spec fn ticked(r: PTProcInfo) -> PTProcInfo {
        PTProcInfo {
            tick_num: if r.start_flag {
                (r.tick_num + 1) as u8
            } else {
                r.tick_num
            },
            rest_slice: if r.rest_slice > 0 {
                (r.rest_slice - 1) as usize
            } else {
                0
            },
            ..r
        }
    }

    /// Account one timer tick to `current` and decrement its remaining
    /// slice. Returns `true` iff the slice is now exhausted.
    pub fn tick(&mut self, current: usize) -> (r: bool)
        requires
            old(self).wf(),
            current + 1 < usize::MAX,
            old(self).rec_or_default(current + 1).start_flag ==> old(self).rec_or_default(
                current + 1,
            ).tick_num < 255,
        ensures
            final(self).wf(),
            Self::touch_step(
                *old(self),
                *final(self),
                (current + 1) as usize,
                Self::ticked(old(self).rec_or_default(current + 1)),
            ),
            r == (Self::ticked(old(self).rec_or_default(current + 1)).rest_slice == 0),
    {
        let i = current + 1;
        expand(&mut self.infos, i, PTProcInfo::default());
        let mut rec = self.infos[i];
        if rec.start_flag {
            rec.tick_num = rec.tick_num + 1;
        }
        if rec.rest_slice > 0 {
            rec.rest_slice = rec.rest_slice - 1;
        }
        self.infos.set(i, rec);
        proof {
            Self::lemma_wf_touch(
                *old(self),
                *self,
                i,
                Self::ticked(old(self).rec_or_default(i as int)),
            );
        }
        rec.rest_slice == 0
    }

    /// The tier a caller-supplied priority value 1-5 (or above, clamped)
    /// maps to: `priority - 1`, capped at tier 4.
    pub open spec fn tier_of(priority: u8) -> u8 {
        if priority > 5 {
            4
        } else {
            (priority - 1) as u8
        }
    }

    /// Map the supplied priority into a tier index and store it for `tid`,
    /// growing the table if `tid` is new.
    pub fn set_priority(&mut self, tid: usize, priority: u8)
        requires
            old(self).wf(),
            tid + 1 < usize::MAX,
            priority >= 1,
        ensures
            final(self).wf(),
            Self::touch_step(
                *old(self),
                *final(self),
                (tid + 1) as usize,
                (PTProcInfo {
                    priority: Self::tier_of(priority),
                    ..old(self).rec_or_default(tid + 1)
                }),
            ),
    {
        let i = tid + 1;
        expand(&mut self.infos, i, PTProcInfo::default());
        let mut rec = self.infos[i];
        if priority > 5 {
            rec.priority = 4;
        } else {
            rec.priority = priority - 1;
        }
        self.infos.set(i, rec);
        proof {
            Self::lemma_wf_touch(
                *old(self),
                *self,
                i,
                (PTProcInfo {
                    priority: Self::tier_of(priority),
                    ..old(self).rec_or_default(i as int)
                }),
            );
        }
    }

    /// Normalize a priority: values above 5 clamp to 5, others pass through.
    pub fn cal_priority(&self, priority: u8) -> (r: u8)
        ensures
            r == if priority > 5 {
                5u8
            } else {
                priority
            },
    {
        if priority > 5 {
            5
        } else {
            priority
        }
    }

    /// How `remove` changes the state: the one queue position of `tid + 1`
    /// in its record's tier queue is spliced out; if that queue does not
    /// hold the thread, nothing changes.
    pub open spec fn remove_step(pre: Self, post: Self, tid: usize) -> bool {
        let i = (tid + 1) as usize;
        let p = pre.infos@[i as int].priority as int;
        &&& post.max_time_slice == pre.max_time_slice
        &&& post.infos@ == pre.infos@
        &&& post.active_queue == pre.active_queue
        &&& post.queues@.len() == 5
        &&& forall|k: int| 0 <= k < 5 && k != p ==> post.tier(k) == pre.tier(k)
        &&& (!pre.tier(p).contains(i) ==> post.tier(p) == pre.tier(p))
        &&& (pre.tier(p).contains(i) ==> exists|j: int|
            0 <= j < pre.tier(p).len() && pre.tier(p)[j] == i && post.tier(p) == pre.tier(
                p,
            ).remove(j))
    }

    /// Cancel the queued thread `tid`: splice its entry out of its record's
    /// tier queue, wherever it stands in that queue.
    pub fn remove(&mut self, tid: usize)
        requires
            old(self).wf(),
            tid + 1 < old(self).infos@.len(),
        ensures
            final(self).wf(),
            Self::remove_step(*old(self), *final(self), tid),
    {
        let n = self.infos.len();
        proof {
            assert(tid + 1 < n);
        }
        let i = tid + 1;
        self._list_remove(i);
    }

    /// Splice shifted index `i` out of the tier queue named by its record,
    /// by a linear scan; a miss is a no-op.
    pub fn _list_remove(&mut self, i: usize)
        requires
            old(self).wf(),
            0 < i < old(self).infos@.len(),
        ensures
            final(self).wf(),
            Self::remove_step(*old(self), *final(self), (i - 1) as usize),
    {
        let p = self.infos[i].priority as usize;
        let qn = self.queues[p].len();
        let mut j: usize = 0;
        let mut found: usize = qn;
        while found == qn && j < qn
            invariant
                self == old(self),
                old(self).wf(),
                0 < i < old(self).infos@.len(),
                p as int == old(self).infos@[i as int].priority as int,
                p < 5,
                qn == self.tier(p as int).len(),
                j <= qn,
                found <= qn,
                found == qn ==> forall|m: int| 0 <= m < j ==> self.tier(p as int)[m] != i,
                found < qn ==> found == j && self.tier(p as int)[found as int] == i,
            decreases qn - j + (if found == qn {
                1int
            } else {
                0int
            }),
        {
            if self.queues[p][j] == i {
                found = j;
            } else {
                j += 1;
            }
        }
        if found < qn {
            let removed = self.queues[p].remove(found);
            proof {
                let pre = *old(self);
                let post = *self;
                let pp = p as int;
                assert(removed is Some);
                assert(post.tier(pp) == pre.tier(pp).remove(found as int));
                assert(pre.tier(pp).contains(i)) by {
                    assert(pre.tier(pp)[found as int] == i);
                }
                assert forall|k1: int, j1: int|
                    0 <= k1 < 5 && 0 <= j1 < post.tier(k1).len() implies 1 <= #[trigger] post.tier(
                    k1,
                )[j1] < post.infos@.len() by {
                    if k1 == pp {
                        if j1 < found {
                            assert(post.tier(k1)[j1] == pre.tier(k1)[j1]);
                        } else {
                            assert(post.tier(k1)[j1] == pre.tier(k1)[j1 + 1]);
                        }
                    } else {
                        assert(post.tier(k1)[j1] == pre.tier(k1)[j1]);
                    }
                }
                assert forall|k1: int, j1: int, k2: int, j2: int|
                    0 <= k1 < 5 && 0 <= j1 < post.tier(k1).len() && 0 <= k2 < 5 && 0 <= j2
                    < post.tier(k2).len() && (k1 != k2 || j1 != j2) implies #[trigger] post.tier(
                    k1,
                )[j1] != #[trigger] post.tier(k2)[j2] by {
                    let s1: int = if k1 == pp && j1 >= found {
                        j1 + 1
                    } else {
                        j1
                    };
                    let s2: int = if k2 == pp && j2 >= found {
                        j2 + 1
                    } else {
                        j2
                    };
                    assert(post.tier(k1)[j1] == pre.tier(k1)[s1]);
                    assert(post.tier(k2)[j2] == pre.tier(k2)[s2]);
                }
            }
        } else {
            proof {
                let pre = *old(self);
                if pre.tier(p as int).contains(i) {
                    let w = choose|w: int|
                        0 <= w < pre.tier(p as int).len() && pre.tier(p as int)[w] == i;
                    assert(false);
                }
            }
        }
    }

    /// Open an accounting window for `tid`: count ticks from zero.
    pub fn start(&mut self, tid: usize)
        requires
            old(self).wf(),
            tid + 1 < usize::MAX,
        ensures
            final(self).wf(),
            Self::touch_step(
                *old(self),
                *final(self),
                (tid + 1) as usize,
                (PTProcInfo {
                    start_flag: true,
                    tick_num: 0,
                    ..old(self).rec_or_default(tid + 1)
                }),
            ),
    {
        let i = tid + 1;
        expand(&mut self.infos, i, PTProcInfo::default());
        let mut rec = self.infos[i];
        rec.start_flag = true;
        rec.tick_num = 0;
        self.infos.set(i, rec);
        proof {
            Self::lemma_wf_touch(
                *old(self),
                *self,
                i,
                (PTProcInfo { start_flag: true, tick_num: 0, ..old(self).rec_or_default(i as int) }),
            );
        }
    }

    /// Read the tick count of `tid`'s accounting window.
    pub fn get_tick(&mut self, tid: usize) -> (r: u8)
        requires
            old(self).wf(),
            tid + 1 < usize::MAX,
        ensures
            final(self).wf(),
            Self::touch_step(
                *old(self),
                *final(self),
                (tid + 1) as usize,
                old(self).rec_or_default(tid + 1),
            ),
            r == old(self).rec_or_default(tid + 1).tick_num,
    {
        let i = tid + 1;
        expand(&mut self.infos, i, PTProcInfo::default());
        let rec = self.infos[i];
        proof {
            Self::lemma_wf_touch(*old(self), *self, i, old(self).rec_or_default(i as int));
        }
        rec.tick_num
    }

    /// Close `tid`'s accounting window and reset its tick count.
    pub fn end(&mut self, tid: usize)
        requires
            old(self).wf(),
            tid + 1 < usize::MAX,
        ensures
            final(self).wf(),
            Self::touch_step(
                *old(self),
                *final(self),
                (tid + 1) as usize,
                (PTProcInfo {
                    start_flag: false,
                    tick_num: 0,
                    ..old(self).rec_or_default(tid + 1)
                }),
            ),
    {
        let i = tid + 1;
        expand(&mut self.infos, i, PTProcInfo::default());
        let mut rec = self.infos[i];
        rec.start_flag = false;
        rec.tick_num = 0;
        self.infos.set(i, rec);
        proof {
            Self::lemma_wf_touch(
                *old(self),
                *self,
                i,
                (PTProcInfo {
                    start_flag: false,
                    tick_num: 0,
                    ..old(self).rec_or_default(i as int)
                }),
            );
        }
    }
}


/// Law: a push onto a priority-tier scheduler with all tiers empty,
/// immediately followed by a pop, returns exactly the pushed thread.
pub proof fn lemma_pt_push_then_pop(
    s0: PTSchedulerInner,
    s1: PTSchedulerInner,
    s2: PTSchedulerInner,
    tid: usize,
    r: Option<usize>,
)
    requires
        s0.wf(),
        s0.top_tier() == -1,
        tid + 1 < usize::MAX,
        PTSchedulerInner::push_step(s0, s1, tid),
        PTSchedulerInner::pop_step(s1, s2, r),
    ensures
        r == Some(tid),
{
    let i = (tid + 1) as usize;
    let p = s0.rec_or_default(i as int).priority as int;
    assert(s1.tier(p) == s0.tier(p).push(i));
    assert(s1.tier(p)[0] == i);
    assert(s1.top_tier() == p);
}

/// Law: once a thread is not ready (for instance right after `remove`), a
/// pop neither returns it nor makes it ready again; only a new push can.
pub proof fn lemma_pt_unready_not_popped(
    s1: PTSchedulerInner,
    s2: PTSchedulerInner,
    tid: usize,
    r: Option<usize>,
)
    requires
        s1.wf(),
        !s1.is_ready(tid),
        PTSchedulerInner::pop_step(s1, s2, r),
    ensures
        r != Some(tid),
        !s2.is_ready(tid),
{
    let k = s1.top_tier();
    if k >= 0 {
        let e = s1.tier(k)[0];
        assert(1 <= e);
        let t = (e - 1) as usize;
        assert(r == Some(t));
        assert(s1.tier(k).contains(e)) by {
            assert(s1.tier(k)[0] == e);
        }
        assert(s1.is_ready(t));
        if tid < usize::MAX {
            let x = (tid + 1) as usize;
            assert forall|k2: int, j2: int|
                0 <= k2 < 5 && 0 <= j2 < s2.tier(k2).len() implies #[trigger] s2.tier(k2)[j2]
                != x by {
                let sj: int = if k2 == k {
                    j2 + 1
                } else {
                    j2
                };
                assert(s2.tier(k2)[j2] == s1.tier(k2)[sj]);
                if s1.tier(k2)[sj] == x {
                    assert(s1.in_queues(x));
                }
            }
            if s2.in_queues(x) {
                let kw = choose|kw: int| 0 <= kw < 5 && s2.tier(kw).contains(x);
                let jw = choose|jw: int| 0 <= jw < s2.tier(kw).len() && s2.tier(kw)[jw] == x;
                assert(false);
            }
        }
    }
}

/// Law: whenever tier 4 has a waiting thread, `pop` serves the head of
/// tier 4, regardless of what waits in any lower tier.
pub proof fn lemma_pt_top_tier_served(
    s1: PTSchedulerInner,
    s2: PTSchedulerInner,
    r: Option<usize>,
)
    requires
        s1.wf(),
        s1.tier(4).len() > 0,
        PTSchedulerInner::pop_step(s1, s2, r),
    ensures
        r == Some((s1.tier(4)[0] - 1) as usize),
{
}

/// The priority-tier policy behind the common [`Scheduler`] interface.
/// Callers serialize access to an instance externally.
pub struct PTScheduler {
    /// The policy state; exposed so that its exact contracts are usable.
    pub inner: PTSchedulerInner,
}

impl PTScheduler {
    /// A priority-tier scheduler whose exhausted threads are refilled with
    /// `max_time_slice` ticks on push.
    pub fn new(max_time_slice: usize) -> (r: Self)
        ensures
            r.wf(),
            r.inner.max_time_slice == max_time_slice,
            r.inner.infos@.len() == 0,
            r.inner.active_queue == 0,
            r.inner.top_tier() == -1,
            forall|u: usize| !r.is_ready(u),
    {
        let mut queues: Vec<VecDeque<usize>> = Vec::new();
        queues.push(VecDeque::new());
        queues.push(VecDeque::new());
        queues.push(VecDeque::new());
        queues.push(VecDeque::new());
        queues.push(VecDeque::new());
        let r = PTScheduler {
            inner: PTSchedulerInner { max_time_slice, infos: Vec::new(), active_queue: 0, queues },
        };
        proof {
            assert forall|u: usize| !r.is_ready(u) by {
                if u < usize::MAX && r.inner.in_queues((u + 1) as usize) {
                    let kw = choose|kw: int|
                        0 <= kw < 5 && r.inner.tier(kw).contains((u + 1) as usize);
                    assert(r.inner.tier(kw).len() == 0);
                }
            }
        }
        r
    }
}

impl Scheduler for PTScheduler {
    open spec fn wf(&self) -> bool {
        self.inner.wf()
    }

    open spec fn is_ready(&self, tid: usize) -> bool {
        self.inner.is_ready(tid)
    }

    open spec fn slice_of(&self, tid: usize) -> nat {
        self.inner.rec_or_default(tid as int + 1).rest_slice as nat
    }

    open spec fn ticks_of(&self, tid: usize) -> u8 {
        self.inner.rec_or_default(tid as int + 1).tick_num
    }

    open spec fn counting(&self, tid: usize) -> bool {
        self.inner.rec_or_default(tid as int + 1).start_flag
    }

    open spec fn priority_of(&self, tid: usize) -> u8 {
        self.inner.rec_or_default(tid as int + 1).priority
    }

    open spec fn stored_priority(&self, priority: u8) -> u8 {
        PTSchedulerInner::tier_of(priority)
    }

    open spec fn push_quantum(&self, tid: usize) -> nat {
        let r = self.inner.rec_or_default(tid as int + 1);
        if r.rest_slice == 0 {
            self.inner.max_time_slice as nat
        } else {
            r.rest_slice as nat
        }
    }

    open spec fn can_push(&self, tid: usize) -> bool {
        tid + 1 < usize::MAX && !self.inner.is_ready(tid)
    }

    open spec fn can_tick(&self, tid: usize) -> bool {
        &&& tid + 1 < usize::MAX
        &&& self.inner.rec_or_default(tid as int + 1).start_flag ==> self.inner.rec_or_default(
            tid as int + 1,
        ).tick_num < 255
    }

    open spec fn can_remove(&self, tid: usize) -> bool {
        &&& tid + 1 < self.inner.infos@.len()
        &&& forall|k: int|
            0 <= k < 5 && #[trigger] self.inner.tier(k).contains((tid + 1) as usize) ==> k
                == self.inner.infos@[tid as int + 1].priority as int
    }

    open spec fn can_set_priority(&self, tid: usize, priority: u8) -> bool {
        tid + 1 < usize::MAX && priority >= 1
    }

    open spec fn can_track(&self, tid: usize) -> bool {
        tid + 1 < usize::MAX
    }

    open spec fn norm_priority(&self, priority: u8) -> u8 {
        if priority > 5 {
            5
        } else {
            priority
        }
    }

    fn push(&mut self, tid: usize) {
        self.inner.push(tid);
        proof {
            PTSchedulerInner::lemma_push_preserves(old(self).inner, self.inner, tid);
        }
    }

    fn pop(&mut self, _cpu_id: usize) -> (r: Option<usize>) {
        let r = self.inner.pop();
        proof {
            PTSchedulerInner::lemma_pop_preserves(old(self).inner, self.inner, r);
            match r {
                Option::Some(t) => {
                    assert(old(self).is_ready(t));
                },
                Option::None => {
                    assert forall|u: usize| !old(self).is_ready(u) by {
                        assert(!old(self).inner.is_ready(u));
                    }
                },
            }
        }
        r
    }

    fn tick(&mut self, current_tid: usize) -> (r: bool) {
        let r = self.inner.tick(current_tid);
        proof {
            PTSchedulerInner::lemma_touch_preserves(
                old(self).inner,
                self.inner,
                (current_tid + 1) as usize,
                PTSchedulerInner::ticked(old(self).inner.rec_or_default(current_tid as int + 1)),
            );
        }
        r
    }

    fn set_priority(&mut self, tid: usize, priority: u8) {
        self.inner.set_priority(tid, priority);
        proof {
            PTSchedulerInner::lemma_touch_preserves(
                old(self).inner,
                self.inner,
                (tid + 1) as usize,
                (PTProcInfo {
                    priority: PTSchedulerInner::tier_of(priority),
                    ..old(self).inner.rec_or_default(tid as int + 1)
                }),
            );
        }
    }

    fn cal_priority(&self, priority: u8) -> (r: u8) {
        self.inner.cal_priority(priority)
    }

    fn remove(&mut self, tid: usize) {
        let n = self.inner.infos.len();
        proof {
            assert(tid + 1 < n);
        }
        self.inner.remove(tid);
        proof {
            let pre = old(self).inner;
            let post = self.inner;
            let i = (tid + 1) as usize;
            let p = pre.infos@[i as int].priority as int;
            if pre.tier(p).contains(i) {
                let j = choose|j: int|
                    0 <= j < pre.tier(p).len() && pre.tier(p)[j] == i && post.tier(p) == pre.tier(
                        p,
                    ).remove(j);
                assert forall|k2: int, j2: int|
                    0 <= k2 < 5 && 0 <= j2 < post.tier(k2).len() implies #[trigger] post.tier(
                    k2,
                )[j2] != i by {
                    let sj: int = if k2 == p && j2 >= j {
                        j2 + 1
                    } else {
                        j2
                    };
                    assert(post.tier(k2)[j2] == pre.tier(k2)[sj]);
                }
                if post.in_queues(i) {
                    let kw = choose|kw: int| 0 <= kw < 5 && post.tier(kw).contains(i);
                    let jw = choose|jw: int| 0 <= jw < post.tier(kw).len() && post.tier(kw)[jw] == i;
                    assert(false);
                }
                assert forall|u: usize| u != tid implies self.is_ready(u) == old(self).is_ready(
                    u,
                ) by {
                    if u < usize::MAX {
                        let x = (u + 1) as usize;
                        if pre.in_queues(x) {
                            let kw = choose|kw: int| 0 <= kw < 5 && pre.tier(kw).contains(x);
                            let jw = choose|jw: int|
                                0 <= jw < pre.tier(kw).len() && pre.tier(kw)[jw] == x;
                            if kw == p && jw == j {
                                assert(x == i);
                                assert(false);
                            } else if kw == p && jw > j {
                                assert(post.tier(kw)[jw - 1] == x);
                                assert(post.tier(kw).contains(x));
                            } else {
                                assert(post.tier(kw)[jw] == x);
                                assert(post.tier(kw).contains(x));
                            }
                        }
                        if post.in_queues(x) {
                            let kw = choose|kw: int| 0 <= kw < 5 && post.tier(kw).contains(x);
                            let jw = choose|jw: int|
                                0 <= jw < post.tier(kw).len() && post.tier(kw)[jw] == x;
                            let sj: int = if kw == p && jw >= j {
                                jw + 1
                            } else {
                                jw
                            };
                            assert(pre.tier(kw)[sj] == x);
                            assert(pre.tier(kw).contains(x));
                        }
                    }
                }
            } else {
                assert forall|u: usize| u != tid implies self.is_ready(u) == old(self).is_ready(
                    u,
                ) by {
                    if u < usize::MAX {
                        let x = (u + 1) as usize;
                        if pre.in_queues(x) {
                            let kw = choose|kw: int| 0 <= kw < 5 && pre.tier(kw).contains(x);
                            assert(post.tier(kw).contains(x));
                        }
                        if post.in_queues(x) {
                            let kw = choose|kw: int| 0 <= kw < 5 && post.tier(kw).contains(x);
                            assert(pre.tier(kw).contains(x));
                        }
                    }
                }
                if self.inner.in_queues(i) {
                    let kw = choose|kw: int| 0 <= kw < 5 && post.tier(kw).contains(i);
                    assert(pre.tier(kw).contains(i));
                    assert(kw == p);
                    assert(false);
                }
            }
        }
    }

    fn start(&mut self, tid: usize) {
        self.inner.start(tid);
        proof {
            PTSchedulerInner::lemma_touch_preserves(
                old(self).inner,
                self.inner,
                (tid + 1) as usize,
                (PTProcInfo {
                    start_flag: true,
                    tick_num: 0,
                    ..old(self).inner.rec_or_default(tid as int + 1)
                }),
            );
        }
    }

    fn get_tick(&mut self, tid: usize) -> (r: u8) {
        let r = self.inner.get_tick(tid);
        proof {
            PTSchedulerInner::lemma_touch_preserves(
                old(self).inner,
                self.inner,
                (tid + 1) as usize,
                old(self).inner.rec_or_default(tid as int + 1),
            );
        }
        r
    }

    fn end(&mut self, tid: usize) {
        self.inner.end(tid);
        proof {
            PTSchedulerInner::lemma_touch_preserves(
                old(self).inner,
                self.inner,
                (tid + 1) as usize,
                (PTProcInfo {
                    start_flag: false,
                    tick_num: 0,
                    ..old(self).inner.rec_or_default(tid as int + 1)
                }),
            );
        }
    }
}

impl PTSchedulerInner {
    /// A bookkeeping call on shifted index `i` leaves every other record,
    /// and the readiness of every thread, as it was.
    pub proof fn lemma_touch_preserves(pre: Self, post: Self, i: usize, r1: PTProcInfo)
        requires
            Self::touch_step(pre, post, i, r1),
        ensures
            forall|m: int| m != i ==> post.rec_or_default(m) == pre.rec_or_default(m),
            post.rec_or_default(i as int) == r1,
            forall|x: usize| post.in_queues(x) == pre.in_queues(x),
            forall|u: usize| post.is_ready(u) == pre.is_ready(u),
    {
        assert forall|m: int| m != i implies post.rec_or_default(m) == pre.rec_or_default(m) by {
            if 0 <= m < post.infos@.len() {
                assert(post.infos@[m] == pre.rec_or_default(m));
            }
        }
        assert(forall|k: int| 0 <= k < 5 ==> post.tier(k) == pre.tier(k));
        assert forall|x: usize| post.in_queues(x) == pre.in_queues(x) by {
            if pre.in_queues(x) {
                let kw = choose|kw: int| 0 <= kw < 5 && pre.tier(kw).contains(x);
                assert(post.tier(kw).contains(x));
            }
            if post.in_queues(x) {
                let kw = choose|kw: int| 0 <= kw < 5 && post.tier(kw).contains(x);
                assert(pre.tier(kw).contains(x));
            }
        }
    }

    /// `push` makes `tid` ready and leaves the readiness of every other
    /// thread as it was.
    pub proof fn lemma_push_preserves(pre: Self, post: Self, tid: usize)
        requires
            pre.wf(),
            tid + 1 < usize::MAX,
            Self::push_step(pre, post, tid),
        ensures
            post.is_ready(tid),
            forall|u: usize| u != tid ==> post.is_ready(u) == pre.is_ready(u),
            forall|m: int| m != tid + 1 ==> post.rec_or_default(m) == pre.rec_or_default(m),
    {
        let i = (tid + 1) as usize;
        let p = pre.rec_or_default(i as int).priority as int;
        assert(post.tier(p) == pre.tier(p).push(i));
        assert(post.tier(p)[pre.tier(p).len() as int] == i);
        assert(post.tier(p).contains(i));
        assert(post.is_ready(tid));
        assert forall|u: usize| u != tid implies post.is_ready(u) == pre.is_ready(u) by {
            if u < usize::MAX {
                let x = (u + 1) as usize;
                if pre.in_queues(x) {
                    let kw = choose|kw: int| 0 <= kw < 5 && pre.tier(kw).contains(x);
                    let jw = choose|jw: int| 0 <= jw < pre.tier(kw).len() && pre.tier(kw)[jw] == x;
                    if kw == p {
                        assert(post.tier(kw)[jw] == x);
                    }
                    assert(post.tier(kw).contains(x));
                }
                if post.in_queues(x) {
                    let kw = choose|kw: int| 0 <= kw < 5 && post.tier(kw).contains(x);
                    let jw = choose|jw: int| 0 <= jw < post.tier(kw).len() && post.tier(kw)[jw] == x;
                    if kw == p && jw == pre.tier(p).len() {
                        assert(x == i);
                    } else {
                        assert(pre.tier(kw)[jw] == x);
                        assert(pre.tier(kw).contains(x));
                    }
                }
            }
        }
        assert forall|m: int| m != tid + 1 implies post.rec_or_default(m) == pre.rec_or_default(
            m,
        ) by {
            if 0 <= m < post.infos@.len() {
                assert(post.infos@[m] == pre.rec_or_default(m));
            }
        }
    }

    /// `pop` leaves the records, and the readiness of every thread other
    /// than the dispatched one, as they were.
    pub proof fn lemma_pop_preserves(pre: Self, post: Self, r: Option<usize>)
        requires
            pre.wf(),
            Self::pop_step(pre, post, r),
        ensures
            (r is None) <==> (forall|u: usize| !pre.is_ready(u)),
            r matches Some(t) ==> pre.is_ready(t) && !post.is_ready(t) && (forall|u: usize|
                u != t ==> post.is_ready(u) == pre.is_ready(u)),
            r is None ==> forall|u: usize| post.is_ready(u) == pre.is_ready(u),
    {
        let k = pre.top_tier();
        if k == -1 {
            assert forall|u: usize| !pre.is_ready(u) by {
                if u < usize::MAX && pre.in_queues((u + 1) as usize) {
                    let kw = choose|kw: int|
                        0 <= kw < 5 && pre.tier(kw).contains((u + 1) as usize);
                    assert(pre.tier(kw).len() > 0);
                }
            }
            assert forall|u: usize| post.is_ready(u) == pre.is_ready(u) by {
                if u < usize::MAX {
                    let x = (u + 1) as usize;
                    if pre.in_queues(x) {
                        let kw = choose|kw: int| 0 <= kw < 5 && pre.tier(kw).contains(x);
                        assert(post.tier(kw).contains(x));
                    }
                    if post.in_queues(x) {
                        let kw = choose|kw: int| 0 <= kw < 5 && post.tier(kw).contains(x);
                        assert(pre.tier(kw).contains(x));
                    }
                }
            }
        } else {
            let e = pre.tier(k)[0];
            assert(1 <= e);
            let t = (e - 1) as usize;
            assert(r == Some(t));
            assert(pre.tier(k).contains(e)) by {
                assert(pre.tier(k)[0] == e);
            }
            assert(pre.is_ready(t));
            assert forall|k2: int, j2: int|
                0 <= k2 < 5 && 0 <= j2 < post.tier(k2).len() implies #[trigger] post.tier(k2)[j2]
                != e by {
                let sj: int = if k2 == k {
                    j2 + 1
                } else {
                    j2
                };
                assert(post.tier(k2)[j2] == pre.tier(k2)[sj]);
            }
            if post.in_queues(e) {
                let kw = choose|kw: int| 0 <= kw < 5 && post.tier(kw).contains(e);
                let jw = choose|jw: int| 0 <= jw < post.tier(kw).len() && post.tier(kw)[jw] == e;
                assert(false);
            }
            assert(!post.is_ready(t));
            assert forall|u: usize| u != t implies post.is_ready(u) == pre.is_ready(u) by {
                if u < usize::MAX {
                    let x = (u + 1) as usize;
                    if pre.in_queues(x) {
                        let kw = choose|kw: int| 0 <= kw < 5 && pre.tier(kw).contains(x);
                        let jw = choose|jw: int|
                            0 <= jw < pre.tier(kw).len() && pre.tier(kw)[jw] == x;
                        if kw == k && jw == 0 {
                            assert(x == e);
                            assert(false);
                        } else if kw == k {
                            assert(post.tier(kw)[jw - 1] == x);
                            assert(post.tier(kw).contains(x));
                        } else {
                            assert(post.tier(kw)[jw] == x);
                            assert(post.tier(kw).contains(x));
                        }
                    }
                    if post.in_queues(x) {
                        let kw = choose|kw: int| 0 <= kw < 5 && post.tier(kw).contains(x);
                        let jw = choose|jw: int|
                            0 <= jw < post.tier(kw).len() && post.tier(kw)[jw] == x;
                        let sj: int = if kw == k {
                            jw + 1
                        } else {
                            jw
                        };
                        assert(pre.tier(kw)[sj] == x);
                        assert(pre.tier(kw).contains(x));
                    }
                }
            }
        }
    }
}

} // verus!
