//! Round-robin scheduling with priority weighting.
//!
//! Ready threads form one circular doubly linked list threaded through a
//! dense record table, with index 0 reserved for the list sentinel and
//! thread `tid` stored at index `tid + 1`. `push` appends before the
//! sentinel (the tail), `pop` takes the thread after the sentinel (the
//! head), so dispatch order is strict FIFO. The quantum refilled on push is
//! `max_time_slice * priority`; a priority of 0 deliberately yields a
//! zero-length quantum, so such a thread needs rescheduling on its very
//! first tick.
//!
//! The list order is tracked by the ghost sequence `q` (shifted indices,
//! head first); well-formedness ties every `prev`/`next` link to it.

use vstd::prelude::*;

verus! {

use crate::Scheduler;
use crate::expand;

/// Per-thread record of the round-robin policy. `prev` and `next` are
/// intrusive links of the circular ready list; their index space is shifted
/// by one, reserving index 0 for the list sentinel.
#[derive(Clone, Copy, Debug)]
pub struct RRProcInfo {
    /// Enqueued and not yet dispatched.
    pub present: bool,
    /// Linear quantum multiplier.
    pub priority: u8,
    /// Remaining ticks in the current quantum.
    pub rest_slice: usize,
    /// Intrusive link to the previous list member (sentinel space).
    pub prev: usize,
    /// Intrusive link to the next list member (sentinel space).
    pub next: usize,
    /// Ticks accumulated in the current accounting window.
    pub tick_num: u8,
    /// An accounting window is open.
    pub start_flag: bool,
    /// Caller-set flag: the last quantum completed its intended work.
    pub success: bool,
}

impl RRProcInfo {
    /// The zero-initialized record of a thread the scheduler has not seen.
    pub open spec fn default_rec() -> Self {
        RRProcInfo {
            present: false,
            priority: 0,
            rest_slice: 0,
            prev: 0,
            next: 0,
            tick_num: 0,
            start_flag: false,
            success: false,
        }
    }
}

impl Default for RRProcInfo {
    fn default() -> (r: Self)
        ensures
            r == Self::default_rec(),
    {
        RRProcInfo {
            present: false,
            priority: 0,
            rest_slice: 0,
            prev: 0,
            next: 0,
            tick_num: 0,
            start_flag: false,
            success: false,
        }
    }
}


/// Inserting `i` at position `p` adds exactly one occurrence of `i` and
/// keeps the membership of every other value.
proof fn lemma_insert_membership(a: Seq<usize>, b: Seq<usize>, i: usize, p: int)
    requires
        0 <= p <= a.len(),
        b == a.insert(p, i),
    ensures
        b.len() == a.len() + 1,
        b.contains(i),
        forall|x: usize| x != i ==> b.contains(x) == a.contains(x),
{
    assert(b[p] == i);
    assert forall|x: usize| x != i implies b.contains(x) == a.contains(x) by {
        if a.contains(x) {
            let w = choose|w: int| 0 <= w < a.len() && a[w] == x;
            if w < p {
                assert(b[w] == x);
            } else {
                assert(b[w + 1] == x);
            }
        }
        if b.contains(x) {
            let w = choose|w: int| 0 <= w < b.len() && b[w] == x;
            if w < p {
                assert(a[w] == x);
            } else if w > p {
                assert(a[w - 1] == x);
            }
        }
    }
}

/// Removing position `w` of a duplicate-free sequence removes its value
/// and keeps the membership of every other value.
proof fn lemma_remove_membership(a: Seq<usize>, b: Seq<usize>, w: int)
    requires
        0 <= w < a.len(),
        b == a.remove(w),
        forall|v: int| 0 <= v < a.len() && v != w ==> a[v] != a[w],
    ensures
        b.len() == a.len() - 1,
        !b.contains(a[w]),
        forall|x: usize| x != a[w] ==> b.contains(x) == a.contains(x),
{
    assert(!b.contains(a[w])) by {
        if b.contains(a[w]) {
            let v = choose|v: int| 0 <= v < b.len() && b[v] == a[w];
            let sv: int = if v < w {
                v
            } else {
                v + 1
            };
            assert(a[sv] == a[w]);
        }
    }
    assert forall|x: usize| x != a[w] implies b.contains(x) == a.contains(x) by {
        if a.contains(x) {
            let v = choose|v: int| 0 <= v < a.len() && a[v] == x;
            if v < w {
                assert(b[v] == x);
            } else if v > w {
                assert(b[v - 1] == x);
            }
        }
        if b.contains(x) {
            let v = choose|v: int| 0 <= v < b.len() && b[v] == x;
            if v < w {
                assert(a[v] == x);
            } else {
                assert(a[v + 1] == x);
            }
        }
    }
}

/// The two records agree on everything but the links and presence flag.
pub open spec fn same_but_links_except_present(a: RRProcInfo, b: RRProcInfo) -> bool {
    &&& a.priority == b.priority
    &&& a.rest_slice == b.rest_slice
    &&& a.tick_num == b.tick_num
    &&& a.start_flag == b.start_flag
    &&& a.success == b.success
}

/// The two records agree on everything but the intrusive links.
pub open spec fn same_but_links(a: RRProcInfo, b: RRProcInfo) -> bool {
    &&& a.present == b.present
    &&& a.priority == b.priority
    &&& a.rest_slice == b.rest_slice
    &&& a.tick_num == b.tick_num
    &&& a.start_flag == b.start_flag
    &&& a.success == b.success
}

/// The round-robin policy state.
pub struct RRSchedulerInner {
    /// Base quantum: ticks granted per unit of priority.
    pub max_time_slice: usize,
    /// Dense record table, indexed by `tid + 1`; index 0 is the sentinel.
    pub infos: Vec<RRProcInfo>,
    /// FIFO order of the ready list, head first, as shifted indices.
    pub q: Ghost<Seq<usize>>,
}

impl RRSchedulerInner {
    /// The circular list as a sequence: the sentinel followed by the ready
    /// threads in FIFO order.
    pub open spec fn ring(self) -> Seq<usize> {
        seq![0usize] + self.q@
    }

    /// The record at table index `i`, or the zero record if the table has
    /// not grown to `i` yet.
    pub open spec fn rec_or_default(self, i: int) -> RRProcInfo {
        if 0 <= i < self.infos@.len() {
            self.infos@[i]
        } else {
            RRProcInfo::default_rec()
        }
    }

    /// The circular list is intact: distinct in-range members whose `next`
    /// and `prev` links trace the ring in both directions.
    pub open spec fn ring_ok(self) -> bool {
        let r = self.ring();
        &&& self.infos@.len() >= 1
        &&& forall|j: int| 1 <= j < r.len() ==> 1 <= #[trigger] r[j] < self.infos@.len()
        &&& forall|a: int, b: int| 0 <= a < b < r.len() ==> #[trigger] r[a] != #[trigger] r[b]
        &&& forall|j: int|
            0 <= j < r.len() ==> self.infos@[(#[trigger] r[j]) as int].next == r[if j + 1 == r.len() {
                0int
            } else {
                j + 1
            }]
        &&& forall|j: int|
            0 <= j < r.len() ==> self.infos@[(#[trigger] r[j]) as int].prev == r[if j == 0 {
                r.len() - 1
            } else {
                j - 1
            }]
        &&& !self.infos@[0].present
    }

    /// Every record but `x` has its presence flag equal to list membership,
    /// and carries zeroed links while absent.
    pub open spec fn flags_ok_except(self, x: int) -> bool {
        forall|m: int|
            1 <= m < self.infos@.len() && m != x ==> ((#[trigger] self.infos@[m]).present
                <==> self.q@.contains(m as usize)) && (!self.infos@[m].present
                ==> self.infos@[m].next == 0 && self.infos@[m].prev == 0)
    }

    /// Structural well-formedness of the whole scheduler state.
    pub open spec fn wf(self) -> bool {
        self.ring_ok() && self.flags_ok_except(0)
    }

    /// True iff `tid` is enqueued and not yet dispatched.
    pub open spec fn is_ready(self, tid: usize) -> bool {
        tid < usize::MAX && self.q@.contains((tid + 1) as usize)
    }

    /// The ring position of the element `i` is inserted before: the tail
    /// slot when splicing before the sentinel, else the position of `at`.
    pub open spec fn ins_of(pre: Self, jat: int) -> int {
        if jat == 0 {
            pre.ring().len() as int
        } else {
            jat
        }
    }

    /// The ring position holding the predecessor of position `jat`.
    pub open spec fn jp_of(pre: Self, jat: int) -> int {
        if jat == 0 {
            pre.ring().len() - 1
        } else {
            jat - 1
        }
    }

    /// The record table after splicing `i` in before ring position `jat`,
    /// written as the same chain of element updates the code performs.
    pub open spec fn spliced_in(pre: Self, i: usize, jat: int) -> Seq<RRProcInfo> {
        let r = pre.ring();
        let at = r[jat];
        let pn = r[Self::jp_of(pre, jat)];
        let a1 = pre.infos@.update(
            i as int,
            (RRProcInfo { next: at, prev: pn, ..pre.infos@[i as int] }),
        );
        let a2 = a1.update(pn as int, (RRProcInfo { next: i, ..a1[pn as int] }));
        a2.update(at as int, (RRProcInfo { prev: i, ..a2[at as int] }))
    }

    /// The ghost order after splicing `i` in before ring position `jat`.
    pub open spec fn q_inserted(pre: Self, i: usize, jat: int) -> Seq<usize> {
        if jat == 0 {
            pre.q@.push(i)
        } else {
            pre.q@.insert(jat - 1, i)
        }
    }

    /// The relation between the states before and after a splice-in.
    pub open spec fn splice_in_rel(pre: Self, post: Self, i: usize, jat: int) -> bool {
        &&& pre.ring_ok()
        &&& pre.flags_ok_except(i as int)
        &&& 1 <= i < pre.infos@.len()
        &&& !pre.q@.contains(i)
        &&& 0 <= jat < pre.ring().len()
        &&& post.max_time_slice == pre.max_time_slice
        &&& post.infos@ == Self::spliced_in(pre, i, jat)
        &&& post.q@ == Self::q_inserted(pre, i, jat)
    }

    /// Record-level consequences of a splice-in: which table entries moved
    /// and how the new ring reads.
    #[verifier::rlimit(100)]
    proof fn lemma_splice_in_facts(pre: Self, post: Self, i: usize, jat: int)
        requires
            Self::splice_in_rel(pre, post, i, jat),
        ensures
            post.infos@.len() == pre.infos@.len(),
            post.q@.len() == pre.q@.len() + 1,
            post.ring() == pre.ring().insert(Self::ins_of(pre, jat), i),
            forall|m: int|
                0 <= m < pre.infos@.len() ==> same_but_links(post.infos@[m], pre.infos@[m]),
            i != pre.ring()[jat] && i != pre.ring()[Self::jp_of(pre, jat)],
            forall|m: int|
                0 <= m < pre.infos@.len() && m != i && m != pre.ring()[jat] && m != pre.ring()[
                    Self::jp_of(pre, jat)
                ] ==> post.infos@[m] == pre.infos@[m],
            post.infos@[i as int].next == pre.ring()[jat],
            post.infos@[i as int].prev == pre.ring()[Self::jp_of(pre, jat)],
            pre.ring()[Self::jp_of(pre, jat)] != pre.ring()[jat] ==> {
                let at = pre.ring()[jat];
                let pn = pre.ring()[Self::jp_of(pre, jat)];
                &&& post.infos@[pn as int].next == i
                &&& post.infos@[pn as int].prev == pre.infos@[pn as int].prev
                &&& post.infos@[at as int].prev == i
                &&& post.infos@[at as int].next == pre.infos@[at as int].next
            },
            pre.ring()[Self::jp_of(pre, jat)] == pre.ring()[jat] ==> jat == 0 && pre.q@.len() == 0
                && post.infos@[0].next == i && post.infos@[0].prev == i,
    {
        let r = pre.ring();
        let n = r.len() as int;
        assert forall|j: int| 0 <= j < n implies r[j] != i by {
            if j >= 1 && r[j] == i {
                assert(pre.q@[j - 1] == i);
                assert(pre.q@.contains(i));
            }
        }
        let at = r[jat];
        let jp = Self::jp_of(pre, jat);
        let pn = r[jp];
        if pn == at {
            assert(jp == jat);
            assert(jat == 0 && n == 1);
        }
        assert(post.ring() =~= pre.ring().insert(Self::ins_of(pre, jat), i));
        if jat != 0 {
            assert(1 <= at < pre.infos@.len());
        }
        if jp != 0 {
            assert(1 <= pn < pre.infos@.len());
        } else {
            assert(r[0] == 0);
        }
    }

    /// A splice-in keeps every ring member in range and distinct.
    #[verifier::rlimit(100)]
    proof fn lemma_splice_in_distinct(pre: Self, post: Self, i: usize, jat: int)
        requires
            Self::splice_in_rel(pre, post, i, jat),
        ensures
            forall|j: int|
                1 <= j < post.ring().len() ==> 1 <= #[trigger] post.ring()[j]
                    < post.infos@.len(),
            forall|a: int, b: int|
                0 <= a < b < post.ring().len() ==> #[trigger] post.ring()[a]
                    != #[trigger] post.ring()[b],
    {
        Self::lemma_splice_in_facts(pre, post, i, jat);
        let r = pre.ring();
        let r2 = post.ring();
        let ins = Self::ins_of(pre, jat);
        assert forall|j: int| 0 <= j < r.len() implies r[j] != i by {
            if j >= 1 && r[j] == i {
                assert(pre.q@[j - 1] == i);
                assert(pre.q@.contains(i));
            }
        }
        assert forall|j: int| 1 <= j < r2.len() implies 1 <= #[trigger] r2[j]
            < post.infos@.len() by {
            if j < ins {
                assert(r2[j] == r[j]);
                if j == 0 {
                    assert(false);
                }
            } else if j == ins {
                assert(r2[j] == i);
            } else {
                assert(r2[j] == r[j - 1]);
                if j - 1 == 0 {
                    assert(r[0] == 0);
                    assert(r2[j] == 0);
                    assert(jat == 0 ==> ins == r.len());
                    assert(false);
                }
            }
        }
        assert forall|a: int, b: int| 0 <= a < b < r2.len() implies #[trigger] r2[a]
            != #[trigger] r2[b] by {
            let sa: int = if a < ins {
                a
            } else if a == ins {
                -1
            } else {
                a - 1
            };
            let sb: int = if b < ins {
                b
            } else if b == ins {
                -1
            } else {
                b - 1
            };
            if sa >= 0 && sb >= 0 {
                assert(r2[a] == r[sa] && r2[b] == r[sb]);
            } else if sa == -1 {
                assert(r2[a] == i && r2[b] == r[sb]);
            } else {
                assert(r2[a] == r[sa] && r2[b] == i);
            }
        }
    }

    /// A splice-in reconnects every `next` link along the new ring.
    #[verifier::rlimit(100)]
    proof fn lemma_splice_in_next(pre: Self, post: Self, i: usize, jat: int)
        requires
            Self::splice_in_rel(pre, post, i, jat),
        ensures
            forall|j: int|
                0 <= j < post.ring().len() ==> post.infos@[(#[trigger] post.ring()[j]) as int].next
                    == post.ring()[if j + 1 == post.ring().len() {
                    0int
                } else {
                    j + 1
                }],
    {
        Self::lemma_splice_in_facts(pre, post, i, jat);
        let r = pre.ring();
        let n = r.len() as int;
        let r2 = post.ring();
        let ins = Self::ins_of(pre, jat);
        let at = r[jat];
        let jp = Self::jp_of(pre, jat);
        let pn = r[jp];
        assert forall|j: int|
            0 <= j < r2.len() implies post.infos@[(#[trigger] r2[j]) as int].next == r2[if j + 1
            == r2.len() {
            0int
        } else {
            j + 1
        }] by {
            let node = r2[j];
            if j == ins - 1 {
                assert(node == r[jp]);
                assert(post.infos@[node as int].next == i);
                assert(r2[ins] == i);
            } else if j == ins {
                assert(node == i);
                assert(post.infos@[node as int].next == at);
                if j + 1 == r2.len() {
                    assert(jat == 0);
                    assert(r2[0] == r[0] == 0);
                    assert(at == 0);
                } else {
                    assert(r2[j + 1] == r[j]);
                    assert(r[j] == at || (jat == 0 && false));
                }
            } else if j < ins - 1 {
                assert(node == r[j]);
                assert(node != i && node != pn);
                assert(post.infos@[node as int].next == pre.infos@[node as int].next);
                assert(pre.infos@[node as int].next == r[if j + 1 == n {
                    0int
                } else {
                    j + 1
                }]);
                assert(j + 1 < n);
                assert(r2[j + 1] == r[j + 1]);
            } else {
                assert(node == r[j - 1]);
                assert(node != i);
                assert(node != pn || (j - 1 == jp && false));
                assert(post.infos@[node as int].next == pre.infos@[node as int].next);
                if j + 1 == r2.len() {
                    assert(j - 1 == n - 1);
                    assert(pre.infos@[node as int].next == r[0]);
                    assert(r2[0] == r[0]);
                } else {
                    assert(pre.infos@[node as int].next == r[j]);
                    assert(r2[j + 1] == r[j]);
                }
            }
        }
    }

    /// A splice-in reconnects every `prev` link along the new ring.
    #[verifier::rlimit(100)]
    proof fn lemma_splice_in_prev(pre: Self, post: Self, i: usize, jat: int)
        requires
            Self::splice_in_rel(pre, post, i, jat),
        ensures
            forall|j: int|
                0 <= j < post.ring().len() ==> post.infos@[(#[trigger] post.ring()[j]) as int].prev
                    == post.ring()[if j == 0 {
                    post.ring().len() - 1
                } else {
                    j - 1
                }],
    {
        Self::lemma_splice_in_facts(pre, post, i, jat);
        let r = pre.ring();
        let n = r.len() as int;
        let r2 = post.ring();
        let ins = Self::ins_of(pre, jat);
        let at = r[jat];
        let jp = Self::jp_of(pre, jat);
        let pn = r[jp];
        let atpos: int = if jat == 0 {
            0
        } else {
            ins + 1
        };
        assert forall|j: int|
            0 <= j < r2.len() implies post.infos@[(#[trigger] r2[j]) as int].prev == r2[if j == 0 {
            r2.len() - 1
        } else {
            j - 1
        }] by {
            let node = r2[j];
            let pd: int = if j == 0 {
                r2.len() - 1
            } else {
                j - 1
            };
            if j == atpos {
                if jat == 0 {
                    assert(node == r[0] == 0);
                    assert(at == 0);
                    assert(post.infos@[node as int].prev == i);
                    assert(pd == ins);
                    assert(r2[pd] == i);
                } else {
                    assert(node == r[jat] == at);
                    assert(post.infos@[node as int].prev == i);
                    assert(r2[pd] == i);
                }
            } else if j == ins {
                assert(node == i);
                assert(post.infos@[node as int].prev == pn);
                assert(pd == ins - 1);
                if jat == 0 {
                    assert(r2[pd] == r[n - 1]);
                    assert(pn == r[n - 1]);
                } else {
                    assert(r2[pd] == r[jat - 1]);
                    assert(pn == r[jat - 1]);
                }
            } else if j < ins {
                assert(node == r[j]);
                assert(node != i);
                assert(node != at || (j == jat && false));
                assert(post.infos@[node as int].prev == pre.infos@[node as int].prev);
                assert(pre.infos@[node as int].prev == r[if j == 0 {
                    n - 1
                } else {
                    j - 1
                }]);
                if j == 0 {
                    assert(jat != 0);
                    assert(r2[pd] == r2[r2.len() - 1]);
                    assert(r2.len() - 1 > ins);
                    assert(r2[r2.len() - 1] == r[n - 1]);
                } else {
                    assert(r2[pd] == r[j - 1]);
                }
            } else {
                assert(node == r[j - 1]);
                assert(node != i);
                assert(node != at || (j - 1 == jat && jat != 0 && false));
                assert(post.infos@[node as int].prev == pre.infos@[node as int].prev);
                assert(j >= 1);
                assert(pre.infos@[node as int].prev == r[j - 2]);
                if pd == ins {
                    assert(j - 2 == jp || (jat != 0 && j - 2 == jat - 1));
                    assert(r2[pd] == i);
                    assert(r[j - 2] == pn);
                    assert(node == at || jat == 0);
                    if jat == 0 {
                        assert(j - 1 == n && false);
                    }
                    assert(node == at && j == atpos);
                    assert(false);
                } else {
                    assert(pd > ins);
                    assert(r2[pd] == r[pd - 1]);
                    assert(pd - 1 == j - 2);
                }
            }
        }
    }

    /// A splice-in keeps the flags of every record but `i` tied to the new
    /// list membership.
    #[verifier::rlimit(100)]
    proof fn lemma_splice_in_flags(pre: Self, post: Self, i: usize, jat: int)
        requires
            Self::splice_in_rel(pre, post, i, jat),
        ensures
            post.flags_ok_except(i as int),
            !post.infos@[0].present,
    {
        Self::lemma_splice_in_facts(pre, post, i, jat);
        let r = pre.ring();
        let jp = Self::jp_of(pre, jat);
        let pn = r[jp];
        let at = r[jat];
        let iw: int = if jat == 0 {
            pre.q@.len() as int
        } else {
            jat - 1
        };
        assert(post.q@.len() == pre.q@.len() + 1);
        assert(pre.infos@.len() <= usize::MAX) by {
            assert(vstd::std_specs::vec::spec_vec_len(&pre.infos) == pre.infos@.len());
        }
        assert(post.q@ =~= pre.q@.insert(iw, i));
        lemma_insert_membership(pre.q@, post.q@, i, iw);
        assert forall|m: int|
            1 <= m < post.infos@.len() && m != i implies ((#[trigger] post.infos@[m]).present
            <==> post.q@.contains(m as usize)) && (!post.infos@[m].present
            ==> post.infos@[m].next == 0 && post.infos@[m].prev == 0) by {
            assert(same_but_links(post.infos@[m], pre.infos@[m]));
            assert(m as usize != i);
            assert(post.q@.contains(m as usize) == pre.q@.contains(m as usize));
            if !pre.infos@[m].present {
                if m == pn && m != 0 {
                    assert(jp >= 1);
                    assert(pre.q@[jp - 1] == m as usize);
                    assert(false);
                }
                if m == at && m != 0 {
                    assert(jat >= 1);
                    assert(pre.q@[jat - 1] == m as usize);
                    assert(false);
                }
                assert(post.infos@[m] == pre.infos@[m]);
            }
        }
        assert(same_but_links(post.infos@[0], pre.infos@[0]));
    }

    /// A splice-in yields a well-formed ring again.
    #[verifier::rlimit(100)]
    proof fn lemma_splice_in(pre: Self, post: Self, i: usize, jat: int)
        requires
            Self::splice_in_rel(pre, post, i, jat),
        ensures
            post.ring_ok(),
            post.flags_ok_except(i as int),
            post.infos@.len() == pre.infos@.len(),
            post.q@ == Self::q_inserted(pre, i, jat),
            forall|m: int|
                0 <= m < pre.infos@.len() ==> same_but_links(post.infos@[m], pre.infos@[m]),
    {
        Self::lemma_splice_in_facts(pre, post, i, jat);
        Self::lemma_splice_in_distinct(pre, post, i, jat);
        Self::lemma_splice_in_next(pre, post, i, jat);
        Self::lemma_splice_in_prev(pre, post, i, jat);
        Self::lemma_splice_in_flags(pre, post, i, jat);
    }

    /// Splice record `i` into the ring immediately before `at`: at the tail
    /// when `at` is the sentinel, else directly ahead of member `at`.
    #[verifier::rlimit(100)]
    pub fn _list_add_before(&mut self, i: usize, at: usize)
        requires
            old(self).ring_ok(),
            old(self).flags_ok_except(i as int),
            1 <= i < old(self).infos@.len(),
            !old(self).q@.contains(i),
            old(self).ring().contains(at),
        ensures
            final(self).ring_ok(),
            final(self).flags_ok_except(i as int),
            final(self).max_time_slice == old(self).max_time_slice,
            final(self).infos@.len() == old(self).infos@.len(),
            forall|m: int|
                0 <= m < old(self).infos@.len() ==> same_but_links(
                    final(self).infos@[m],
                    old(self).infos@[m],
                ),
            at == 0 ==> final(self).q@ == old(self).q@.push(i),
            at != 0 ==> exists|j: int|
                1 <= j < old(self).ring().len() && old(self).ring()[j] == at && final(self).q@
                    == old(self).q@.insert(j - 1, i),
    {
        proof {
            let r = old(self).ring();
            let jat = choose|j: int| 0 <= j < r.len() && r[j] == at;
            assert(r[jat] == at);
            if jat != 0 {
                assert(at < self.infos@.len());
            }
            assert(r[0] == 0);
        }
        let prev = self.infos[at].prev;
        proof {
            let r = old(self).ring();
            let jat = choose|j: int| 0 <= j < r.len() && r[j] == at;
            let jp: int = if jat == 0 {
                r.len() - 1
            } else {
                jat - 1
            };
            assert(prev == r[jp]);
            if jp != 0 {
                assert(1 <= r[jp] < self.infos@.len());
            }
        }
        let mut ri = self.infos[i];
        ri.next = at;
        ri.prev = prev;
        self.infos.set(i, ri);
        let mut rp = self.infos[prev];
        rp.next = i;
        self.infos.set(prev, rp);
        let mut ra = self.infos[at];
        ra.prev = i;
        self.infos.set(at, ra);
        proof {
            let pre = *old(self);
            let r = pre.ring();
            let jat = choose|j: int| 0 <= j < r.len() && r[j] == at;
            if at == 0 {
                if jat != 0 {
                    assert(r[0] == 0 && r[jat] == 0);
                    assert(false);
                }
            }
            self.q = Ghost(Self::q_inserted(pre, i, jat));
            assert(self.infos@ =~= Self::spliced_in(pre, i, jat));
            Self::lemma_splice_in(pre, *self, i, jat);
        }
    }

    /// The ring position of the member after position `ji`.
    pub open spec fn js_of(pre: Self, ji: int) -> int {
        if ji + 1 == pre.ring().len() {
            0
        } else {
            ji + 1
        }
    }

    /// The record table after splicing the member at ring position `ji`
    /// out, written as the same chain of element updates the code performs.
    pub open spec fn spliced_out(pre: Self, ji: int) -> Seq<RRProcInfo> {
        let r = pre.ring();
        let i = r[ji];
        let nn = r[Self::js_of(pre, ji)];
        let pn = r[ji - 1];
        let b1 = pre.infos@.update(nn as int, (RRProcInfo { prev: pn, ..pre.infos@[nn as int] }));
        let b2 = b1.update(pn as int, (RRProcInfo { next: nn, ..b1[pn as int] }));
        b2.update(i as int, (RRProcInfo { next: 0, prev: 0, ..b2[i as int] }))
    }

    /// The relation between the states before and after a splice-out.
    pub open spec fn splice_out_rel(pre: Self, post: Self, ji: int) -> bool {
        &&& pre.ring_ok()
        &&& 1 <= ji < pre.ring().len()
        &&& post.max_time_slice == pre.max_time_slice
        &&& post.infos@ == Self::spliced_out(pre, ji)
        &&& post.q@ == pre.q@.remove(ji - 1)
    }

    /// Record-level consequences of a splice-out.
    #[verifier::rlimit(100)]
    proof fn lemma_splice_out_facts(pre: Self, post: Self, ji: int)
        requires
            Self::splice_out_rel(pre, post, ji),
        ensures
            post.infos@.len() == pre.infos@.len(),
            post.q@.len() == pre.q@.len() - 1,
            post.ring() == pre.ring().remove(ji),
            forall|m: int|
                0 <= m < pre.infos@.len() ==> same_but_links(post.infos@[m], pre.infos@[m]),
            pre.ring()[ji] != pre.ring()[Self::js_of(pre, ji)] && pre.ring()[ji] != pre.ring()[ji
                - 1],
            forall|m: int|
                0 <= m < pre.infos@.len() && m != pre.ring()[ji] && m != pre.ring()[
                    Self::js_of(pre, ji)
                ] && m != pre.ring()[ji - 1] ==> post.infos@[m] == pre.infos@[m],
            post.infos@[pre.ring()[ji] as int].next == 0,
            post.infos@[pre.ring()[ji] as int].prev == 0,
            pre.ring()[Self::js_of(pre, ji)] != pre.ring()[ji - 1] ==> {
                let nn = pre.ring()[Self::js_of(pre, ji)];
                let pn = pre.ring()[ji - 1];
                &&& post.infos@[nn as int].prev == pn
                &&& post.infos@[nn as int].next == pre.infos@[nn as int].next
                &&& post.infos@[pn as int].next == nn
                &&& post.infos@[pn as int].prev == pre.infos@[pn as int].prev
            },
            pre.ring()[Self::js_of(pre, ji)] == pre.ring()[ji - 1] ==> {
                let nn = pre.ring()[Self::js_of(pre, ji)];
                &&& post.infos@[nn as int].prev == nn
                &&& post.infos@[nn as int].next == nn
            },
    {
        let r = pre.ring();
        let n = r.len() as int;
        let i = r[ji];
        let js = Self::js_of(pre, ji);
        let nn = r[js];
        let pn = r[ji - 1];
        assert(js != ji && ji - 1 != ji);
        assert(i != nn && i != pn);
        if nn == pn {
            assert(js == ji - 1 || (js < ji - 1 || js > ji - 1));
            if js != ji - 1 {
                assert(r[js] != r[ji - 1]);
            }
        }
        assert(post.ring() =~= pre.ring().remove(ji));
        assert(1 <= i < pre.infos@.len());
        if js != 0 {
            assert(1 <= nn < pre.infos@.len());
        } else {
            assert(r[0] == 0);
        }
        if ji - 1 != 0 {
            assert(1 <= pn < pre.infos@.len());
        }
    }

    /// A splice-out keeps every ring member in range and distinct.
    #[verifier::rlimit(100)]
    proof fn lemma_splice_out_distinct(pre: Self, post: Self, ji: int)
        requires
            Self::splice_out_rel(pre, post, ji),
        ensures
            forall|j: int|
                1 <= j < post.ring().len() ==> 1 <= #[trigger] post.ring()[j]
                    < post.infos@.len(),
            forall|a: int, b: int|
                0 <= a < b < post.ring().len() ==> #[trigger] post.ring()[a]
                    != #[trigger] post.ring()[b],
    {
        Self::lemma_splice_out_facts(pre, post, ji);
        let r = pre.ring();
        let r2 = post.ring();
        assert forall|j: int| 1 <= j < r2.len() implies 1 <= #[trigger] r2[j]
            < post.infos@.len() by {
            if j < ji {
                assert(r2[j] == r[j]);
            } else {
                assert(r2[j] == r[j + 1]);
            }
        }
        assert forall|a: int, b: int| 0 <= a < b < r2.len() implies #[trigger] r2[a]
            != #[trigger] r2[b] by {
            let sa: int = if a < ji {
                a
            } else {
                a + 1
            };
            let sb: int = if b < ji {
                b
            } else {
                b + 1
            };
            assert(r2[a] == r[sa] && r2[b] == r[sb]);
        }
    }

    /// A splice-out reconnects every `next` link along the shrunken ring.
    #[verifier::rlimit(100)]
    proof fn lemma_splice_out_next(pre: Self, post: Self, ji: int)
        requires
            Self::splice_out_rel(pre, post, ji),
        ensures
            forall|j: int|
                0 <= j < post.ring().len() ==> post.infos@[(#[trigger] post.ring()[j]) as int].next
                    == post.ring()[if j + 1 == post.ring().len() {
                    0int
                } else {
                    j + 1
                }],
    {
        Self::lemma_splice_out_facts(pre, post, ji);
        let r = pre.ring();
        let n = r.len() as int;
        let r2 = post.ring();
        let i = r[ji];
        let js = Self::js_of(pre, ji);
        let nn = r[js];
        let pn = r[ji - 1];
        assert forall|j: int|
            0 <= j < r2.len() implies post.infos@[(#[trigger] r2[j]) as int].next == r2[if j + 1
            == r2.len() {
            0int
        } else {
            j + 1
        }] by {
            let sj: int = if j < ji {
                j
            } else {
                j + 1
            };
            let node = r2[j];
            assert(node == r[sj]);
            assert(node != i);
            if node == pn {
                assert(sj == ji - 1 && j == ji - 1);
                assert(post.infos@[node as int].next == nn);
                if j + 1 == r2.len() {
                    assert(sj == n - 2 && ji == n - 1);
                    assert(js == 0);
                    assert(r2[0] == r[0]);
                } else if j + 1 < ji {
                    assert(false);
                } else {
                    assert(r2[j + 1] == r[j + 2]);
                    assert(js == ji + 1 == j + 2);
                }
            } else {
                assert(post.infos@[node as int].next == pre.infos@[node as int].next);
                assert(pre.infos@[node as int].next == r[if sj + 1 == n {
                    0int
                } else {
                    sj + 1
                }]);
                if sj + 1 == ji && sj != ji - 1 {
                    assert(false);
                }
                assert(sj + 1 != ji);
                if j + 1 == r2.len() {
                    assert(sj + 1 == n || (sj + 1 == n - 1 && ji == n - 1));
                    if sj + 1 == n {
                        assert(r2[0] == r[0]);
                    } else {
                        assert(ji == n - 1 && sj == n - 2);
                        assert(sj + 1 == ji);
                        assert(false);
                    }
                } else {
                    assert(r2[j + 1] == r[if j + 1 < ji {
                        j + 1
                    } else {
                        j + 2
                    }]);
                    if j + 1 < ji {
                        assert(sj + 1 == j + 1);
                    } else {
                        assert(sj + 1 == j + 2 || (j < ji && j + 1 >= ji));
                        if j < ji && j + 1 >= ji {
                            assert(j == ji - 1 && node == pn);
                            assert(false);
                        }
                    }
                }
            }
        }
    }

    /// A splice-out reconnects every `prev` link along the shrunken ring.
    #[verifier::rlimit(100)]
    proof fn lemma_splice_out_prev(pre: Self, post: Self, ji: int)
        requires
            Self::splice_out_rel(pre, post, ji),
        ensures
            forall|j: int|
                0 <= j < post.ring().len() ==> post.infos@[(#[trigger] post.ring()[j]) as int].prev
                    == post.ring()[if j == 0 {
                    post.ring().len() - 1
                } else {
                    j - 1
                }],
    {
        Self::lemma_splice_out_facts(pre, post, ji);
        let r = pre.ring();
        let n = r.len() as int;
        let r2 = post.ring();
        let i = r[ji];
        let js = Self::js_of(pre, ji);
        let nn = r[js];
        let pn = r[ji - 1];
        assert forall|j: int|
            0 <= j < r2.len() implies post.infos@[(#[trigger] r2[j]) as int].prev == r2[if j == 0 {
            r2.len() - 1
        } else {
            j - 1
        }] by {
            let sj: int = if j < ji {
                j
            } else {
                j + 1
            };
            let node = r2[j];
            assert(node == r[sj]);
            assert(node != i);
            if node == nn {
                assert(sj == js);
                assert(post.infos@[node as int].prev == pn);
                if j == 0 {
                    assert(sj == 0 && js == 0 && ji == n - 1);
                    assert(r2[r2.len() - 1] == r[n - 2]);
                } else {
                    assert(sj == ji + 1 && j == ji);
                    if j - 1 < ji {
                        assert(r2[j - 1] == r[j - 1]);
                        assert(j - 1 == ji - 1);
                    } else {
                        assert(false);
                    }
                }
            } else {
                assert(post.infos@[node as int].prev == pre.infos@[node as int].prev);
                assert(pre.infos@[node as int].prev == r[if sj == 0 {
                    n - 1
                } else {
                    sj - 1
                }]);
                if sj == 0 {
                    assert(j == 0);
                    if n - 1 == ji {
                        assert(node == r[0] && js == 0);
                        assert(node == nn);
                        assert(false);
                    }
                    assert(r2[r2.len() - 1] == r[n - 1]);
                } else {
                    assert(sj - 1 != ji || node == nn);
                    assert(sj - 1 != ji);
                    if j == 0 {
                        assert(false);
                    }
                    assert(r2[j - 1] == r[if j - 1 < ji {
                        j - 1
                    } else {
                        j
                    }]);
                    if j - 1 < ji {
                        if sj == j {
                            assert(sj - 1 == j - 1);
                        } else {
                            assert(sj == j + 1 && j >= ji);
                            assert(j == ji);
                            assert(sj - 1 == j - 1 + 1);
                            assert(sj - 1 == ji);
                            assert(false);
                        }
                    } else {
                        assert(j - 1 >= ji && j > ji);
                        assert(sj == j + 1);
                        assert(sj - 1 == j);
                    }
                }
            }
        }
    }

    /// A splice-out keeps the flags of every record but the removed member
    /// tied to the new list membership.
    #[verifier::rlimit(100)]
    proof fn lemma_splice_out_flags(pre: Self, post: Self, ji: int)
        requires
            Self::splice_out_rel(pre, post, ji),
            pre.flags_ok_except(pre.ring()[ji] as int),
        ensures
            post.flags_ok_except(pre.ring()[ji] as int),
            !post.infos@[0].present,
            !post.q@.contains(pre.ring()[ji]),
            forall|x: usize| x != pre.ring()[ji] ==> post.q@.contains(x) == pre.q@.contains(x),
    {
        Self::lemma_splice_out_facts(pre, post, ji);
        let r = pre.ring();
        let i = r[ji];
        let js = Self::js_of(pre, ji);
        let nn = r[js];
        let pn = r[ji - 1];
        let w = ji - 1;
        assert(pre.infos@.len() <= usize::MAX) by {
            assert(vstd::std_specs::vec::spec_vec_len(&pre.infos) == pre.infos@.len());
        }
        assert(pre.q@[w] == i);
        assert forall|v: int| 0 <= v < pre.q@.len() && v != w implies pre.q@[v] != pre.q@[w] by {
            assert(r[v + 1] == pre.q@[v] && r[w + 1] == pre.q@[w]);
        }
        lemma_remove_membership(pre.q@, post.q@, w);
        assert forall|m: int|
            1 <= m < post.infos@.len() && m != i implies ((#[trigger] post.infos@[m]).present
            <==> post.q@.contains(m as usize)) && (!post.infos@[m].present
            ==> post.infos@[m].next == 0 && post.infos@[m].prev == 0) by {
            assert(same_but_links(post.infos@[m], pre.infos@[m]));
            assert(post.q@.contains(m as usize) == pre.q@.contains(m as usize));
            if !pre.infos@[m].present {
                if m == pn && m != 0 {
                    assert(pre.q@[ji - 2] == m as usize);
                    assert(pre.q@.contains(m as usize));
                    assert(false);
                }
                if m == nn && m != 0 {
                    assert(js >= 1);
                    assert(pre.q@[js - 1] == m as usize);
                    assert(pre.q@.contains(m as usize));
                    assert(false);
                }
                assert(post.infos@[m] == pre.infos@[m]);
            }
        }
        assert(same_but_links(post.infos@[0], pre.infos@[0]));
    }

    /// A splice-out yields a well-formed ring again.
    #[verifier::rlimit(100)]
    proof fn lemma_splice_out(pre: Self, post: Self, ji: int)
        requires
            Self::splice_out_rel(pre, post, ji),
            pre.flags_ok_except(pre.ring()[ji] as int),
        ensures
            post.ring_ok(),
            post.flags_ok_except(pre.ring()[ji] as int),
            post.infos@.len() == pre.infos@.len(),
            post.q@ == pre.q@.remove(ji - 1),
            forall|m: int|
                0 <= m < pre.infos@.len() ==> same_but_links(post.infos@[m], pre.infos@[m]),
            post.infos@[pre.ring()[ji] as int].next == 0,
            post.infos@[pre.ring()[ji] as int].prev == 0,
            !post.q@.contains(pre.ring()[ji]),
            forall|x: usize| x != pre.ring()[ji] ==> post.q@.contains(x) == pre.q@.contains(x),
    {
        Self::lemma_splice_out_facts(pre, post, ji);
        Self::lemma_splice_out_distinct(pre, post, ji);
        Self::lemma_splice_out_next(pre, post, ji);
        Self::lemma_splice_out_prev(pre, post, ji);
        Self::lemma_splice_out_flags(pre, post, ji);
    }

    /// Splice ring member `i` out of the circular list and zero its links.
    #[verifier::rlimit(100)]
    pub fn _list_remove(&mut self, i: usize)
        requires
            old(self).ring_ok(),
            old(self).flags_ok_except(i as int),
            1 <= i,
            old(self).q@.contains(i),
        ensures
            final(self).ring_ok(),
            final(self).flags_ok_except(i as int),
            final(self).max_time_slice == old(self).max_time_slice,
            final(self).infos@.len() == old(self).infos@.len(),
            forall|m: int|
                0 <= m < old(self).infos@.len() ==> same_but_links(
                    final(self).infos@[m],
                    old(self).infos@[m],
                ),
            final(self).infos@[i as int].next == 0 && final(self).infos@[i as int].prev == 0,
            exists|w: int|
                0 <= w < old(self).q@.len() && old(self).q@[w] == i && final(self).q@ == old(
                    self,
                ).q@.remove(w),
            !final(self).q@.contains(i),
            forall|x: usize| x != i ==> final(self).q@.contains(x) == old(self).q@.contains(x),
    {
        proof {
            let r = old(self).ring();
            let w = choose|w: int| 0 <= w < old(self).q@.len() && old(self).q@[w] == i;
            assert(r[w + 1] == i);
            assert(1 <= r[w + 1] < self.infos@.len());
        }
        let next = self.infos[i].next;
        let prev = self.infos[i].prev;
        proof {
            let pre = *old(self);
            let r = pre.ring();
            let w = choose|w: int| 0 <= w < pre.q@.len() && pre.q@[w] == i;
            let ji = w + 1;
            assert(r[ji] == i);
            let js = Self::js_of(pre, ji);
            assert(next == r[js]);
            assert(prev == r[ji - 1]);
            if js != 0 {
                assert(1 <= r[js] < self.infos@.len());
            }
            if ji - 1 != 0 {
                assert(1 <= r[ji - 1] < self.infos@.len());
            }
        }
        let mut rn = self.infos[next];
        rn.prev = prev;
        self.infos.set(next, rn);
        let mut rp = self.infos[prev];
        rp.next = next;
        self.infos.set(prev, rp);
        let mut ri = self.infos[i];
        ri.next = 0;
        ri.prev = 0;
        self.infos.set(i, ri);
        proof {
            let pre = *old(self);
            let r = pre.ring();
            let w = choose|w: int| 0 <= w < pre.q@.len() && pre.q@[w] == i;
            let ji = w + 1;
            assert(r[ji] == i);
            self.q = Ghost(pre.q@.remove(w));
            assert(self.infos@ =~= Self::spliced_out(pre, ji));
            Self::lemma_splice_out(pre, *self, ji);
        }
    }

    /// The quantum granted to a record on push: the base quantum times the
    /// priority, so priority 0 gets a zero-length quantum on purpose.
    pub open spec fn refill_of(pre: Self, r0: RRProcInfo) -> int {
        if r0.rest_slice == 0 {
            pre.max_time_slice * (r0.priority as int)
        } else {
            r0.rest_slice as int
        }
    }

    /// How `push` changes the state: the table grows to hold `tid + 1`, the
    /// record becomes present with its quantum refilled if exhausted, and
    /// the thread joins the tail of the FIFO order. The intrusive links
    /// follow from well-formedness and the new order.
    pub open spec fn push_step(pre: Self, post: Self, tid: usize) -> bool {
        let i = tid + 1;
        let n = if pre.infos@.len() >= i + 1 {
            pre.infos@.len()
        } else {
            (i + 1) as nat
        };
        let r0 = pre.rec_or_default(i as int);
        &&& post.max_time_slice == pre.max_time_slice
        &&& post.infos@.len() == n
        &&& forall|m: int|
            0 <= m < n && m != i ==> same_but_links(post.infos@[m], pre.rec_or_default(m))
        &&& post.infos@[i as int].present
        &&& post.infos@[i as int].rest_slice == Self::refill_of(pre, r0)
        &&& post.infos@[i as int].priority == r0.priority
        &&& post.infos@[i as int].tick_num == r0.tick_num
        &&& post.infos@[i as int].start_flag == r0.start_flag
        &&& post.infos@[i as int].success == r0.success
        &&& post.q@ == pre.q@.push(i as usize)
    }

    /// Mark `tid` runnable: refill its quantum if exhausted and append it
    /// to the tail of the ready list, just before the sentinel.
    #[verifier::rlimit(100)]
    pub fn push(&mut self, tid: usize)
        requires
            old(self).wf(),
            tid + 1 < usize::MAX,
            !old(self).is_ready(tid),
            old(self).rec_or_default(tid + 1).rest_slice == 0 ==> old(self).max_time_slice * (
            old(self).rec_or_default(tid + 1).priority as int) <= usize::MAX,
        ensures
            final(self).wf(),
            Self::push_step(*old(self), *final(self), tid),
    {
        let i = tid + 1;
        expand(&mut self.infos, i, RRProcInfo::default());
        let mut rec = self.infos[i];
        proof {
            if i < old(self).infos@.len() {
                assert(old(self).infos@[i as int].present ==> old(self).q@.contains(i as usize));
            }
        }
        rec.present = true;
        if rec.rest_slice == 0 {
            rec.rest_slice = self.max_time_slice * (rec.priority as usize);
        }
        self.infos.set(i, rec);
        proof {
            assert(Self::touch_step(
                *old(self),
                *self,
                i,
                (RRProcInfo {
                    present: true,
                    rest_slice: self.infos@[i as int].rest_slice,
                    ..old(self).rec_or_default(i as int)
                }),
            ));
            Self::lemma_touch_ring(
                *old(self),
                *self,
                i,
                (RRProcInfo {
                    present: true,
                    rest_slice: self.infos@[i as int].rest_slice,
                    ..old(self).rec_or_default(i as int)
                }),
            );
            assert(self.ring().contains(0)) by {
                assert(self.ring()[0] == 0);
            }
        }
        let ghost mid = *self;
        self._list_add_before(i, 0);
        proof {
            Self::lemma_push_assemble(*old(self), mid, *self, tid);
        }
    }

    /// A table update that rewrites only the non-link fields of an absent
    /// record keeps the ring intact and the other flags tied to it.
    #[verifier::rlimit(100)]
    proof fn lemma_touch_ring(pre: Self, mid: Self, i: usize, r1: RRProcInfo)
        requires
            pre.wf(),
            1 <= i < usize::MAX,
            !pre.q@.contains(i),
            Self::touch_step(pre, mid, i, r1),
            r1.next == pre.rec_or_default(i as int).next,
            r1.prev == pre.rec_or_default(i as int).prev,
        ensures
            mid.ring_ok(),
            mid.flags_ok_except(i as int),
    {
        let r = pre.ring();
        assert(mid.ring() == pre.ring());
        assert forall|j: int|
            0 <= j < r.len() implies mid.infos@[(#[trigger] r[j]) as int].next == pre.infos@[r[
            j] as int].next && mid.infos@[(r[j]) as int].prev == pre.infos@[r[j] as int].prev by {
            if r[j] == i {
                if j >= 1 {
                    assert(pre.q@[j - 1] == i);
                    assert(false);
                } else {
                    assert(r[0] == 0);
                    assert(false);
                }
            }
            if j >= 1 {
                assert(1 <= r[j] < pre.infos@.len());
                assert(mid.infos@[r[j] as int] == pre.rec_or_default(r[j] as int));
            } else {
                assert(mid.infos@[0] == pre.rec_or_default(0));
            }
        }
        assert(!mid.infos@[0].present) by {
            assert(mid.infos@[0] == pre.rec_or_default(0));
        }
        assert(mid.ring_ok());
        assert forall|m: int|
            1 <= m < mid.infos@.len() && m != i implies ((#[trigger] mid.infos@[m]).present
            <==> mid.q@.contains(m as usize)) && (!mid.infos@[m].present ==> mid.infos@[m].next
            == 0 && mid.infos@[m].prev == 0) by {
            assert(mid.infos@[m] == pre.rec_or_default(m));
            if m >= pre.infos@.len() {
                if mid.q@.contains(m as usize) {
                    let w = choose|w: int| 0 <= w < pre.q@.len() && pre.q@[w] == m as usize;
                    assert(r[w + 1] == m as usize);
                    assert(1 <= r[w + 1] < pre.infos@.len());
                    assert(false);
                }
            }
        }
    }

    /// After the table update and the tail splice, the state is
    /// well-formed and related to the starting state by [`Self::push_step`].
    #[verifier::rlimit(100)]
    proof fn lemma_push_assemble(pre: Self, mid: Self, post: Self, tid: usize)
        requires
            pre.wf(),
            tid + 1 < usize::MAX,
            !pre.is_ready(tid),
            mid.q@ == pre.q@,
            Self::touch_step(
                pre,
                mid,
                (tid + 1) as usize,
                (RRProcInfo {
                    present: true,
                    rest_slice: mid.infos@[tid + 1].rest_slice,
                    ..pre.rec_or_default(tid + 1)
                }),
            ),
            mid.infos@[tid + 1].rest_slice == Self::refill_of(pre, pre.rec_or_default(tid + 1)),
            post.ring_ok(),
            post.flags_ok_except(tid + 1),
            post.max_time_slice == mid.max_time_slice,
            post.infos@.len() == mid.infos@.len(),
            forall|m: int|
                0 <= m < mid.infos@.len() ==> same_but_links(post.infos@[m], mid.infos@[m]),
            post.q@ == mid.q@.push((tid + 1) as usize),
        ensures
            post.wf(),
            Self::push_step(pre, post, tid),
    {
        let i = (tid + 1) as usize;
        assert(post.q@ =~= pre.q@.insert(pre.q@.len() as int, i));
        lemma_insert_membership(pre.q@, post.q@, i, pre.q@.len() as int);
        assert(same_but_links(post.infos@[i as int], mid.infos@[i as int]));
        assert(post.infos@[i as int].present);
        assert(post.q@.contains(i));
        assert forall|m: int|
            1 <= m < post.infos@.len() implies ((#[trigger] post.infos@[m]).present <==> post
            .q@.contains(m as usize)) && (!post.infos@[m].present ==> post.infos@[m].next == 0
            && post.infos@[m].prev == 0) by {}
        assert(post.wf());
        assert forall|m: int|
            0 <= m < post.infos@.len() && m != i implies same_but_links(
            post.infos@[m],
            pre.rec_or_default(m),
        ) by {
            assert(mid.infos@[m] == pre.rec_or_default(m));
        }
    }

    /// How `pop` changes the state: the head of the FIFO order (the thread
    /// after the sentinel) is dispatched and unlinked.
    pub open spec fn pop_step(pre: Self, post: Self, r: Option<usize>) -> bool {
        &&& (pre.q@.len() == 0 ==> r is None && post == pre)
        &&& (pre.q@.len() > 0 ==> {
            let i = pre.q@[0];
            &&& r == Some((i - 1) as usize)
            &&& post.max_time_slice == pre.max_time_slice
            &&& post.infos@.len() == pre.infos@.len()
            &&& post.q@ == pre.q@.drop_first()
            &&& forall|m: int|
                0 <= m < pre.infos@.len() && m != i ==> post.infos@[m] == pre.infos@[m] || (
                same_but_links(post.infos@[m], pre.infos@[m]))
            &&& !post.infos@[i as int].present
            &&& post.infos@[i as int].next == 0
            &&& post.infos@[i as int].prev == 0
            &&& same_but_links_except_present(post.infos@[i as int], pre.infos@[i as int])
        })
    }

    /// Dispatch the head of the ready list, or `None` if the list is empty.
    #[verifier::rlimit(100)]
    pub fn pop(&mut self) -> (r: Option<usize>)
        requires
            old(self).wf(),
        ensures
            final(self).wf(),
            Self::pop_step(*old(self), *final(self), r),
    {
        let head = self.infos[0].next;
        proof {
            let pre = *old(self);
            let rr = pre.ring();
            assert(rr[0] == 0);
            assert(head == rr[if 1 == rr.len() {
                0int
            } else {
                1int
            }]);
            if pre.q@.len() == 0 {
                assert(head == 0);
            } else {
                assert(head == rr[1] == pre.q@[0]);
                assert(1 <= head < pre.infos@.len());
            }
        }
        if head == 0 {
            proof {
                if old(self).q@.len() > 0 {
                    assert(old(self).ring()[1] == 0 && old(self).ring()[0] == 0);
                    assert(false);
                }
            }
            return None;
        }
        let mut rec = self.infos[head];
        rec.present = false;
        self.infos.set(head, rec);
        proof {
            Self::lemma_unmark_ring(*old(self), *self, head);
            assert(self.q@.contains(head)) by {
                assert(self.q@[0] == head);
            }
        }
        let ghost mid = *self;
        self._list_remove(head);
        proof {
            Self::lemma_pop_assemble(*old(self), mid, *self, head);
        }
        Some(head - 1)
    }

    /// Clearing the presence flag of a listed member keeps the ring intact
    /// and the other flags tied to it.
    #[verifier::rlimit(100)]
    proof fn lemma_unmark_ring(pre: Self, mid: Self, i: usize)
        requires
            pre.wf(),
            pre.q@.contains(i),
            mid.q@ == pre.q@,
            mid.max_time_slice == pre.max_time_slice,
            (i as int) < pre.infos@.len(),
            mid.infos@ == pre.infos@.update(
                i as int,
                (RRProcInfo { present: false, ..pre.infos@[i as int] }),
            ),
        ensures
            mid.ring_ok(),
            mid.flags_ok_except(i as int),
    {
        let r = pre.ring();
        assert(mid.ring() == pre.ring());
        assert forall|j: int|
            0 <= j < r.len() implies mid.infos@[(#[trigger] r[j]) as int].next == pre.infos@[r[
            j] as int].next && mid.infos@[(r[j]) as int].prev == pre.infos@[r[j] as int].prev by {}
        assert(!mid.infos@[0].present) by {
            let w = choose|w: int| 0 <= w < pre.q@.len() && pre.q@[w] == i;
            assert(r[w + 1] == i);
            assert(1 <= r[w + 1]);
        }
        assert(mid.ring_ok());
    }

    /// After the head is unmarked and spliced out, the state is well-formed
    /// and related to the starting state by [`Self::pop_step`].
    #[verifier::rlimit(100)]
    proof fn lemma_pop_assemble(pre: Self, mid: Self, post: Self, i: usize)
        requires
            pre.wf(),
            pre.q@.len() > 0,
            i == pre.q@[0],
            mid.q@ == pre.q@,
            mid.max_time_slice == pre.max_time_slice,
            (i as int) < pre.infos@.len(),
            1 <= i,
            mid.infos@ == pre.infos@.update(
                i as int,
                (RRProcInfo { present: false, ..pre.infos@[i as int] }),
            ),
            post.ring_ok(),
            post.flags_ok_except(i as int),
            post.max_time_slice == mid.max_time_slice,
            post.infos@.len() == mid.infos@.len(),
            forall|m: int|
                0 <= m < mid.infos@.len() ==> same_but_links(post.infos@[m], mid.infos@[m]),
            post.infos@[i as int].next == 0 && post.infos@[i as int].prev == 0,
            exists|w: int|
                0 <= w < mid.q@.len() && mid.q@[w] == i && post.q@ == mid.q@.remove(w),
            !post.q@.contains(i),
            forall|x: usize| x != i ==> post.q@.contains(x) == mid.q@.contains(x),
        ensures
            post.wf(),
            Self::pop_step(pre, post, Some((i - 1) as usize)),
    {
        let w = choose|w: int| 0 <= w < mid.q@.len() && mid.q@[w] == i && post.q@ == mid.q@.remove(
            w,
        );
        if w != 0 {
            assert(pre.ring()[w + 1] == i && pre.ring()[1] == i);
            assert(false);
        }
        assert(post.q@ =~= pre.q@.drop_first());
        assert(same_but_links(post.infos@[i as int], mid.infos@[i as int]));
        assert(!post.infos@[i as int].present);
        assert forall|m: int|
            1 <= m < post.infos@.len() implies ((#[trigger] post.infos@[m]).present <==> post
            .q@.contains(m as usize)) && (!post.infos@[m].present ==> post.infos@[m].next == 0
            && post.infos@[m].prev == 0) by {}
        assert(post.wf());
        assert forall|m: int|
            0 <= m < pre.infos@.len() && m != i implies post.infos@[m] == pre.infos@[m] || (
        same_but_links(post.infos@[m], pre.infos@[m])) by {
            assert(mid.infos@[m] == pre.infos@[m]);
        }
    }

    /// How a bookkeeping call on shifted index `i` changes the state: the
    /// table grows to hold `i`, `i`'s record becomes `r1`, and nothing else
    /// moves.
    pub open spec fn touch_step(pre: Self, post: Self, i: usize, r1: RRProcInfo) -> bool {
        let n = if pre.infos@.len() >= i + 1 {
            pre.infos@.len()
        } else {
            (i + 1) as nat
        };
        &&& post.max_time_slice == pre.max_time_slice
        &&& post.q@ == pre.q@
        &&& post.infos@.len() == n
        &&& forall|m: int| 0 <= m < n && m != i ==> post.infos@[m] == pre.rec_or_default(m)
        &&& post.infos@[i as int] == r1
    }

    /// A bookkeeping call that leaves the presence flag and both links of
    /// `i` alone preserves well-formedness.
    #[verifier::rlimit(100)]
    proof fn lemma_wf_touch(pre: Self, post: Self, i: usize, r1: RRProcInfo)
        requires
            pre.wf(),
            1 <= i < usize::MAX,
            pre.infos@.len() <= usize::MAX,
            Self::touch_step(pre, post, i, r1),
            r1.present == pre.rec_or_default(i as int).present,
            r1.next == pre.rec_or_default(i as int).next,
            r1.prev == pre.rec_or_default(i as int).prev,
        ensures
            post.wf(),
    {
        let r = pre.ring();
        assert(post.ring() == pre.ring());
        assert(pre.infos@.len() >= 1);
        assert forall|j: int|
            0 <= j < r.len() implies post.infos@[(#[trigger] r[j]) as int] == pre.infos@[r[
            j] as int] || (post.infos@[r[j] as int].next == pre.infos@[r[j] as int].next
            && post.infos@[r[j] as int].prev == pre.infos@[r[j] as int].prev) by {
            if r[j] == i {
                assert(post.infos@[i as int] == r1);
                assert(pre.rec_or_default(i as int) == pre.infos@[i as int]) by {
                    if j == 0 {
                        assert(r[0] == 0 && i >= 1);
                        assert(false);
                    }
                    assert(1 <= r[j] < pre.infos@.len());
                }
            } else {
                assert(post.infos@[r[j] as int] == pre.rec_or_default(r[j] as int));
                if j >= 1 {
                    assert(1 <= r[j] < pre.infos@.len());
                } else {
                    assert(r[0] == 0);
                }
            }
        }
        assert(!post.infos@[0].present) by {
            if i as int == 0 {
                assert(false);
            }
            assert(post.infos@[0] == pre.rec_or_default(0));
        }
        assert forall|m: int|
            1 <= m < post.infos@.len() implies ((#[trigger] post.infos@[m]).present <==> post
            .q@.contains(m as usize)) && (!post.infos@[m].present ==> post.infos@[m].next == 0
            && post.infos@[m].prev == 0) by {
            if m == i {
                if (i as int) < pre.infos@.len() {
                    assert(pre.rec_or_default(i as int) == pre.infos@[i as int]);
                } else {
                    assert(pre.rec_or_default(i as int) == RRProcInfo::default_rec());
                    if post.q@.contains(m as usize) {
                        let w = choose|w: int| 0 <= w < pre.q@.len() && pre.q@[w] == m as usize;
                        assert(r[w + 1] == m as usize);
                        assert(1 <= r[w + 1] < pre.infos@.len());
                        assert(false);
                    }
                }
            } else {
                assert(post.infos@[m] == pre.rec_or_default(m));
                if m >= pre.infos@.len() {
                    if post.q@.contains(m as usize) {
                        let w = choose|w: int| 0 <= w < pre.q@.len() && pre.q@[w] == m as usize;
                        assert(r[w + 1] == m as usize);
                        assert(1 <= r[w + 1] < pre.infos@.len());
                        assert(false);
                    }
                }
            }
        }
    }

    /// The ticked form of a record: one tick accounted if a window is open,
    /// the remaining slice decremented but never below zero.
    pub open spec fn ticked(r: RRProcInfo) -> RRProcInfo {
        RRProcInfo {
            tick_num: if r.start_flag {
                (r.tick_num + 1) as u8
            } else {
                r.tick_num
            },
            rest_slice: if r.rest_slice > 0 {
                (r.rest_slice - 1) as usize
            } else {
                0
            },
            ..r
        }
    }

    /// Account one timer tick to `current`, which must be executing (hence
    /// not present). Returns `true` iff the slice is now exhausted.
    pub fn tick(&mut self, current: usize) -> (r: bool)
        requires
            old(self).wf(),
            current + 1 < usize::MAX,
            !old(self).is_ready(current),
            old(self).rec_or_default(current + 1).start_flag ==> old(self).rec_or_default(
                current + 1,
            ).tick_num < 255,
        ensures
            final(self).wf(),
            Self::touch_step(
                *old(self),
                *final(self),
                (current + 1) as usize,
                Self::ticked(old(self).rec_or_default(current + 1)),
            ),
            r == (Self::ticked(old(self).rec_or_default(current + 1)).rest_slice == 0),
    {
        let i = current + 1;
        let ilen = self.infos.len();
        proof {
            assert(self.infos@.len() == ilen);
            if (i as int) < old(self).infos@.len() && old(self).infos@[i as int].present {
                assert(old(self).q@.contains(i as usize));
            }
        }
        expand(&mut self.infos, i, RRProcInfo::default());
        let mut rec = self.infos[i];
        if rec.start_flag {
            rec.tick_num = rec.tick_num + 1;
        }
        if rec.rest_slice > 0 {
            rec.rest_slice = rec.rest_slice - 1;
        }
        self.infos.set(i, rec);
        proof {
            Self::lemma_wf_touch(
                *old(self),
                *self,
                i,
                Self::ticked(old(self).rec_or_default(i as int)),
            );
        }
        rec.rest_slice == 0
    }

    /// Store `priority` for `tid`; round-robin passes the value through.
    pub fn set_priority(&mut self, tid: usize, priority: u8)
        requires
            old(self).wf(),
            tid + 1 < usize::MAX,
        ensures
            final(self).wf(),
            Self::touch_step(
                *old(self),
                *final(self),
                (tid + 1) as usize,
                (RRProcInfo { priority, ..old(self).rec_or_default(tid + 1) }),
            ),
    {
        let i = tid + 1;
        let ilen = self.infos.len();
        proof {
            assert(self.infos@.len() == ilen);
        }
        expand(&mut self.infos, i, RRProcInfo::default());
        let mut rec = self.infos[i];
        rec.priority = priority;
        self.infos.set(i, rec);
        proof {
            Self::lemma_wf_touch(
                *old(self),
                *self,
                i,
                (RRProcInfo { priority, ..old(self).rec_or_default(i as int) }),
            );
        }
    }

    /// Normalize a priority: round-robin passes it through unchanged.
    pub fn cal_priority(&self, priority: u8) -> (r: u8)
        ensures
            r == priority,
    {
        priority
    }

    /// How `remove` changes the state: the present thread `tid` is spliced
    /// out of the ready list wherever it stands, in constant time.
    pub open spec fn remove_step(pre: Self, post: Self, tid: usize) -> bool {
        let i = tid + 1;
        &&& post.max_time_slice == pre.max_time_slice
        &&& post.infos@.len() == pre.infos@.len()
        &&& exists|w: int|
            0 <= w < pre.q@.len() && pre.q@[w] == i as usize && post.q@ == pre.q@.remove(w)
        &&& forall|m: int|
            0 <= m < pre.infos@.len() && m != i ==> same_but_links(post.infos@[m], pre.infos@[m])
        &&& !post.infos@[i as int].present
        &&& post.infos@[i as int].next == 0
        &&& post.infos@[i as int].prev == 0
        &&& same_but_links_except_present(post.infos@[i as int], pre.infos@[i as int])
    }

    /// Cancel the queued thread `tid`: splice it out of the ready list
    /// using its stored links and clear its presence flag.
    #[verifier::rlimit(100)]
    pub fn remove(&mut self, tid: usize)
        requires
            old(self).wf(),
            old(self).is_ready(tid),
        ensures
            final(self).wf(),
            Self::remove_step(*old(self), *final(self), tid),
    {
        let i = tid + 1;
        proof {
            let w = choose|w: int| 0 <= w < old(self).q@.len() && old(self).q@[w] == i as usize;
            assert(old(self).ring()[w + 1] == i as usize);
            assert(1 <= old(self).ring()[w + 1] < old(self).infos@.len());
        }
        self._list_remove(i);
        let ghost mid = *self;
        let mut rec = self.infos[i];
        rec.present = false;
        self.infos.set(i, rec);
        proof {
            Self::lemma_remove_assemble(*old(self), mid, *self, tid);
        }
    }

    /// After the splice-out and the flag clear, the state is well-formed
    /// and related to the starting state by [`Self::remove_step`].
    #[verifier::rlimit(100)]
    proof fn lemma_remove_assemble(pre: Self, mid: Self, post: Self, tid: usize)
        requires
            pre.wf(),
            pre.is_ready(tid),
            mid.ring_ok(),
            mid.flags_ok_except(tid + 1),
            mid.max_time_slice == pre.max_time_slice,
            mid.infos@.len() == pre.infos@.len(),
            forall|m: int|
                0 <= m < pre.infos@.len() ==> same_but_links(mid.infos@[m], pre.infos@[m]),
            mid.infos@[tid + 1].next == 0 && mid.infos@[tid + 1].prev == 0,
            exists|w: int|
                0 <= w < pre.q@.len() && pre.q@[w] == (tid + 1) as usize && mid.q@ == pre.q@.remove(
                    w,
                ),
            !mid.q@.contains((tid + 1) as usize),
            forall|x: usize| x != (tid + 1) as usize ==> mid.q@.contains(x) == pre.q@.contains(x),
            (tid + 1) < pre.infos@.len(),
            post.max_time_slice == mid.max_time_slice,
            post.q@ == mid.q@,
            post.infos@ == mid.infos@.update(
                tid + 1,
                (RRProcInfo { present: false, ..mid.infos@[tid + 1] }),
            ),
        ensures
            post.wf(),
            Self::remove_step(pre, post, tid),
    {
        let i = (tid + 1) as usize;
        assert(post.ring() == mid.ring());
        assert forall|j: int|
            0 <= j < mid.ring().len() implies post.infos@[(#[trigger] mid.ring()[j]) as int].next
            == mid.infos@[mid.ring()[j] as int].next && post.infos@[(mid.ring()[j]) as int].prev
            == mid.infos@[mid.ring()[j] as int].prev by {
            if mid.ring()[j] == i {
                if j >= 1 {
                    assert(mid.q@[j - 1] == i);
                    assert(mid.q@.contains(i));
                    assert(false);
                }
            }
        }
        assert(!post.infos@[0].present) by {
            assert(same_but_links(mid.infos@[0], pre.infos@[0]));
        }
        assert(post.ring_ok());
        assert forall|m: int|
            1 <= m < post.infos@.len() implies ((#[trigger] post.infos@[m]).present <==> post
            .q@.contains(m as usize)) && (!post.infos@[m].present ==> post.infos@[m].next == 0
            && post.infos@[m].prev == 0) by {
            if m != i {
                assert(post.infos@[m] == mid.infos@[m]);
            }
        }
        assert(post.wf());
        assert forall|m: int|
            0 <= m < pre.infos@.len() && m != i implies same_but_links(
            post.infos@[m],
            pre.infos@[m],
        ) by {
            assert(post.infos@[m] == mid.infos@[m]);
        }
    }

    /// Open an accounting window for `tid`: count ticks from zero and clear
    /// the success flag.
    pub fn start(&mut self, tid: usize)
        requires
            old(self).wf(),
            tid + 1 < usize::MAX,
        ensures
            final(self).wf(),
            Self::touch_step(
                *old(self),
                *final(self),
                (tid + 1) as usize,
                (RRProcInfo {
                    start_flag: true,
                    tick_num: 0,
                    success: false,
                    ..old(self).rec_or_default(tid + 1)
                }),
            ),
    {
        let i = tid + 1;
        let ilen = self.infos.len();
        proof {
            assert(self.infos@.len() == ilen);
        }
        expand(&mut self.infos, i, RRProcInfo::default());
        let mut rec = self.infos[i];
        rec.start_flag = true;
        rec.tick_num = 0;
        rec.success = false;
        self.infos.set(i, rec);
        proof {
            Self::lemma_wf_touch(
                *old(self),
                *self,
                i,
                (RRProcInfo {
                    start_flag: true,
                    tick_num: 0,
                    success: false,
                    ..old(self).rec_or_default(i as int)
                }),
            );
        }
    }

    /// Read the tick count of `tid`'s accounting window.
    pub fn get_tick(&mut self, tid: usize) -> (r: u8)
        requires
            old(self).wf(),
            tid + 1 < usize::MAX,
        ensures
            final(self).wf(),
            Self::touch_step(
                *old(self),
                *final(self),
                (tid + 1) as usize,
                old(self).rec_or_default(tid + 1),
            ),
            r == old(self).rec_or_default(tid + 1).tick_num,
    {
        let i = tid + 1;
        let ilen = self.infos.len();
        proof {
            assert(self.infos@.len() == ilen);
        }
        expand(&mut self.infos, i, RRProcInfo::default());
        let rec = self.infos[i];
        proof {
            Self::lemma_wf_touch(*old(self), *self, i, old(self).rec_or_default(i as int));
        }
        rec.tick_num
    }

    /// Close `tid`'s accounting window and reset its tick count.
    pub fn end(&mut self, tid: usize)
        requires
            old(self).wf(),
            tid + 1 < usize::MAX,
        ensures
            final(self).wf(),
            Self::touch_step(
                *old(self),
                *final(self),
                (tid + 1) as usize,
                (RRProcInfo {
                    start_flag: false,
                    tick_num: 0,
                    ..old(self).rec_or_default(tid + 1)
                }),
            ),
    {
        let i = tid + 1;
        let ilen = self.infos.len();
        proof {
            assert(self.infos@.len() == ilen);
        }
        expand(&mut self.infos, i, RRProcInfo::default());
        let mut rec = self.infos[i];
        rec.start_flag = false;
        rec.tick_num = 0;
        self.infos.set(i, rec);
        proof {
            Self::lemma_wf_touch(
                *old(self),
                *self,
                i,
                (RRProcInfo {
                    start_flag: false,
                    tick_num: 0,
                    ..old(self).rec_or_default(i as int)
                }),
            );
        }
    }

    /// Record whether `tid`'s last quantum completed its intended work.
    pub fn set_success(&mut self, tid: usize, value: bool)
        requires
            old(self).wf(),
            tid + 1 < usize::MAX,
        ensures
            final(self).wf(),
            Self::touch_step(
                *old(self),
                *final(self),
                (tid + 1) as usize,
                (RRProcInfo { success: value, ..old(self).rec_or_default(tid + 1) }),
            ),
    {
        let i = tid + 1;
        let ilen = self.infos.len();
        proof {
            assert(self.infos@.len() == ilen);
        }
        expand(&mut self.infos, i, RRProcInfo::default());
        let mut rec = self.infos[i];
        rec.success = value;
        self.infos.set(i, rec);
        proof {
            Self::lemma_wf_touch(
                *old(self),
                *self,
                i,
                (RRProcInfo { success: value, ..old(self).rec_or_default(i as int) }),
            );
        }
    }

    /// Read back the caller-set success flag of `tid`.
    pub fn get_success(&mut self, tid: usize) -> (r: bool)
        requires
            old(self).wf(),
            tid + 1 < usize::MAX,
        ensures
            final(self).wf(),
            Self::touch_step(
                *old(self),
                *final(self),
                (tid + 1) as usize,
                old(self).rec_or_default(tid + 1),
            ),
            r == old(self).rec_or_default(tid + 1).success,
    {
        let i = tid + 1;
        let ilen = self.infos.len();
        proof {
            assert(self.infos@.len() == ilen);
        }
        expand(&mut self.infos, i, RRProcInfo::default());
        let rec = self.infos[i];
        proof {
            Self::lemma_wf_touch(*old(self), *self, i, old(self).rec_or_default(i as int));
        }
        rec.success
    }

    /// Zero `tid`'s remaining slice so that its next push grants a fresh
    /// quantum.
    pub fn reset_slice(&mut self, tid: usize)
        requires
            old(self).wf(),
            tid + 1 < usize::MAX,
        ensures
            final(self).wf(),
            Self::touch_step(
                *old(self),
                *final(self),
                (tid + 1) as usize,
                (RRProcInfo { rest_slice: 0, ..old(self).rec_or_default(tid + 1) }),
            ),
    {
        let i = tid + 1;
        let ilen = self.infos.len();
        proof {
            assert(self.infos@.len() == ilen);
        }
        expand(&mut self.infos, i, RRProcInfo::default());
        let mut rec = self.infos[i];
        rec.rest_slice = 0;
        self.infos.set(i, rec);
        proof {
            Self::lemma_wf_touch(
                *old(self),
                *self,
                i,
                (RRProcInfo { rest_slice: 0, ..old(self).rec_or_default(i as int) }),
            );
        }
    }

    /// Splice record `i` into the ring immediately after `at`.
    #[verifier::rlimit(100)]
    pub fn _list_add_after(&mut self, i: usize, at: usize)
        requires
            old(self).ring_ok(),
            old(self).flags_ok_except(i as int),
            1 <= i < old(self).infos@.len(),
            !old(self).q@.contains(i),
            old(self).ring().contains(at),
        ensures
            final(self).ring_ok(),
            final(self).flags_ok_except(i as int),
            final(self).max_time_slice == old(self).max_time_slice,
            final(self).infos@.len() == old(self).infos@.len(),
            forall|m: int|
                0 <= m < old(self).infos@.len() ==> same_but_links(
                    final(self).infos@[m],
                    old(self).infos@[m],
                ),
            final(self).q@.len() == old(self).q@.len() + 1,
            final(self).q@.contains(i),
            forall|x: usize| x != i ==> final(self).q@.contains(x) == old(self).q@.contains(x),
    {
        proof {
            let r = old(self).ring();
            let jat = choose|j: int| 0 <= j < r.len() && r[j] == at;
            if jat != 0 {
                assert(1 <= r[jat] < self.infos@.len());
            } else {
                assert(r[0] == 0);
            }
        }
        let next = self.infos[at].next;
        proof {
            let r = old(self).ring();
            let jat = choose|j: int| 0 <= j < r.len() && r[j] == at;
            let js: int = if jat + 1 == r.len() {
                0
            } else {
                jat + 1
            };
            assert(next == r[js]);
            assert(r.contains(next)) by {
                assert(r[js] == next);
            }
        }
        self._list_add_before(i, next);
        proof {
            let pre = *old(self);
            if next == 0 {
                assert(self.q@ =~= pre.q@.insert(pre.q@.len() as int, i));
                lemma_insert_membership(pre.q@, self.q@, i, pre.q@.len() as int);
            } else {
                let j = choose|j: int|
                    1 <= j < pre.ring().len() && pre.ring()[j] == next && self.q@ == pre.q@.insert(
                        j - 1,
                        i,
                    );
                lemma_insert_membership(pre.q@, self.q@, i, j - 1);
            }
        }
    }
}


/// Law: a push onto a round-robin scheduler with an empty ready list,
/// immediately followed by a pop, returns exactly the pushed thread.
pub proof fn lemma_rr_push_then_pop(
    s0: RRSchedulerInner,
    s1: RRSchedulerInner,
    s2: RRSchedulerInner,
    tid: usize,
    r: Option<usize>,
)
    requires
        s0.wf(),
        s0.q@.len() == 0,
        tid + 1 < usize::MAX,
        RRSchedulerInner::push_step(s0, s1, tid),
        RRSchedulerInner::pop_step(s1, s2, r),
    ensures
        r == Some(tid),
{
    assert(s1.q@[0] == (tid + 1) as usize);
}

/// Law: once a thread is not ready (for instance right after `remove`), a
/// pop neither returns it nor makes it ready again; only a new push can.
pub proof fn lemma_rr_unready_not_popped(
    s1: RRSchedulerInner,
    s2: RRSchedulerInner,
    tid: usize,
    r: Option<usize>,
)
    requires
        s1.wf(),
        !s1.is_ready(tid),
        RRSchedulerInner::pop_step(s1, s2, r),
    ensures
        r != Some(tid),
        !s2.is_ready(tid),
{
    if s1.q@.len() > 0 {
        let i = s1.q@[0];
        assert(s1.ring()[1] == i);
        assert(1 <= i);
        let t = (i - 1) as usize;
        assert(s1.q@.contains(i)) by {
            assert(s1.q@[0] == i);
        }
        assert(s1.is_ready(t));
        if tid < usize::MAX && s2.q@.contains((tid + 1) as usize) {
            let w = choose|w: int| 0 <= w < s2.q@.len() && s2.q@[w] == (tid + 1) as usize;
            assert(s1.q@[w + 1] == (tid + 1) as usize);
            assert(s1.q@.contains((tid + 1) as usize));
            assert(false);
        }
    }
}

/// Law: pops drain the ready list in exactly the order pushes appended it;
/// the head is served and the remainder keeps its order, so threads pushed
/// `t1, t2, ..., tn` with no intervening pops are popped in that order.
pub proof fn lemma_rr_fifo(
    s1: RRSchedulerInner,
    s2: RRSchedulerInner,
    r: Option<usize>,
)
    requires
        s1.wf(),
        s1.q@.len() > 0,
        RRSchedulerInner::pop_step(s1, s2, r),
    ensures
        r == Some((s1.q@[0] - 1) as usize),
        s2.q@ == s1.q@.drop_first(),
{
}


/// Law: a run of pushes with no intervening pops appends exactly those
/// threads, in order, to the ready list.
pub proof fn lemma_rr_pushes_append(states: Seq<RRSchedulerInner>, tids: Seq<usize>)
    requires
        states.len() == tids.len() + 1,
        forall|k: int|
            0 <= k < tids.len() ==> RRSchedulerInner::push_step(
                states[k],
                states[k + 1],
                tids[k],
            ),
    ensures
        states.last().q@ == states[0].q@ + tids.map_values(|t: usize| (t + 1) as usize),
    decreases tids.len(),
{
    let shifted = tids.map_values(|t: usize| (t + 1) as usize);
    if tids.len() == 0 {
        assert(states.last() == states[0]);
        assert(states[0].q@ =~= states[0].q@ + shifted);
    } else {
        let n = tids.len() as int;
        lemma_rr_pushes_append(states.drop_last(), tids.drop_last());
        assert(states.drop_last().last() == states[n - 1]);
        assert(states.drop_last()[0] == states[0]);
        assert(RRSchedulerInner::push_step(states[n - 1], states[n], tids[n - 1]));
        assert(states[n].q@ == states[n - 1].q@.push((tids[n - 1] + 1) as usize));
        assert(tids.drop_last().map_values(|t: usize| (t + 1) as usize) =~= shifted.drop_last());
        assert(states[n].q@ =~= states[0].q@ + shifted);
        assert(states.last() == states[n]);
    }
}

/// Law: successive pops return the ready list front to back; with the list
/// built by pushes of `t1, t2, ..., tn`, the pops return exactly that
/// order.
pub proof fn lemma_rr_pops_drain(states: Seq<RRSchedulerInner>, rs: Seq<Option<usize>>)
    requires
        states.len() == rs.len() + 1,
        rs.len() <= states[0].q@.len(),
        forall|k: int|
            0 <= k < rs.len() ==> RRSchedulerInner::pop_step(states[k], states[k + 1], rs[k]),
    ensures
        forall|k: int| 0 <= k < rs.len() ==> rs[k] == Some((states[0].q@[k] - 1) as usize),
    decreases rs.len(),
{
    if rs.len() > 0 {
        let n = rs.len() as int;
        assert(RRSchedulerInner::pop_step(states[0], states[1], rs[0]));
        assert(states[0].q@.len() > 0);
        assert(rs[0] == Some((states[0].q@[0] - 1) as usize));
        assert(states[1].q@ == states[0].q@.drop_first());
        lemma_rr_pops_drain(states.drop_first(), rs.drop_first());
        assert forall|k: int| 0 <= k < n implies rs[k] == Some(
            (states[0].q@[k] - 1) as usize,
        ) by {
            if k > 0 {
                assert(rs.drop_first()[k - 1] == Some(
                    (states.drop_first()[0].q@[k - 1] - 1) as usize,
                ));
                assert(states.drop_first()[0].q@[k - 1] == states[0].q@[k]);
            }
        }
    }
}

/// Law: a thread pushed fresh with priority 0 receives a zero-length
/// quantum, so its very first tick after dispatch reports that a
/// reschedule is due.
pub proof fn lemma_rr_priority_zero_first_tick(
    s0: RRSchedulerInner,
    s1: RRSchedulerInner,
    s2: RRSchedulerInner,
    s3: RRSchedulerInner,
    tid: usize,
    r: bool,
)
    requires
        s0.wf(),
        tid + 1 < usize::MAX,
        s0.rec_or_default(tid + 1).priority == 0,
        s0.rec_or_default(tid + 1).rest_slice == 0,
        RRSchedulerInner::push_step(s0, s1, tid),
        s1.wf(),
        RRSchedulerInner::pop_step(s1, s2, Some(tid)),
        RRSchedulerInner::touch_step(
            s2,
            s3,
            (tid + 1) as usize,
            RRSchedulerInner::ticked(s2.rec_or_default(tid + 1)),
        ),
        r == (RRSchedulerInner::ticked(s2.rec_or_default(tid + 1)).rest_slice == 0),
    ensures
        r,
{
    let i = (tid + 1) as usize;
    assert(s1.infos@[i as int].rest_slice == s0.max_time_slice * 0);
    assert(s1.q@.len() > 0);
    assert(s1.q@[0] == i) by {
        assert(Some((s1.q@[0] - 1) as usize) == Some(tid));
        assert(1 <= s1.q@[0]) by {
            assert(s1.ring()[1] == s1.q@[0]);
        }
    }
    assert(same_but_links_except_present(s2.infos@[i as int], s1.infos@[i as int]));
    assert(s2.rec_or_default(i as int).rest_slice == 0);
}

/// The round-robin policy behind the common [`Scheduler`] interface.
/// Callers serialize access to an instance externally.
pub struct RRScheduler {
    /// The policy state; exposed so that its exact contracts are usable.
    pub inner: RRSchedulerInner,
}

impl RRScheduler {
    /// A round-robin scheduler that grants `max_time_slice` ticks per unit
    /// of priority when it refills an exhausted thread on push.
    pub fn new(max_time_slice: usize) -> (r: Self)
        ensures
            r.wf(),
            r.inner.max_time_slice == max_time_slice,
            r.inner.q@.len() == 0,
            r.inner.infos@.len() == 1,
            r.inner.infos@[0] == RRProcInfo::default_rec(),
            forall|u: usize| !r.is_ready(u),
    {
        let mut infos: Vec<RRProcInfo> = Vec::new();
        infos.push(RRProcInfo::default());
        let r = RRScheduler {
            inner: RRSchedulerInner { max_time_slice, infos, q: Ghost(Seq::empty()) },
        };
        proof {
            assert(r.inner.ring() =~= seq![0usize]);
            assert(r.inner.infos@[0] == RRProcInfo::default_rec());
            assert(r.inner.wf());
        }
        r
    }

    /// Record whether `tid`'s last quantum completed its intended work.
    pub fn set_success(&mut self, tid: usize, value: bool)
        requires
            old(self).wf(),
            tid + 1 < usize::MAX,
        ensures
            final(self).wf(),
            final(self).inner.rec_or_default(tid + 1).success == value,
            forall|u: usize| final(self).is_ready(u) == old(self).is_ready(u),
            forall|m: int|
                m != tid + 1 ==> final(self).inner.rec_or_default(m) == old(
                    self,
                ).inner.rec_or_default(m),
            same_but_links(
                (RRProcInfo { success: value, ..old(self).inner.rec_or_default(tid + 1) }),
                final(self).inner.rec_or_default(tid + 1),
            ),
    {
        self.inner.set_success(tid, value);
        proof {
            RRSchedulerInner::lemma_touch_preserves(
                old(self).inner,
                self.inner,
                (tid + 1) as usize,
                (RRProcInfo { success: value, ..old(self).inner.rec_or_default(tid + 1) }),
            );
        }
    }

    /// Read back the caller-set success flag of `tid`.
    pub fn get_success(&mut self, tid: usize) -> (r: bool)
        requires
            old(self).wf(),
            tid + 1 < usize::MAX,
        ensures
            final(self).wf(),
            r == old(self).inner.rec_or_default(tid + 1).success,
            forall|u: usize| final(self).is_ready(u) == old(self).is_ready(u),
            forall|m: int|
                m != tid + 1 ==> final(self).inner.rec_or_default(m) == old(
                    self,
                ).inner.rec_or_default(m),
    {
        let r = self.inner.get_success(tid);
        proof {
            RRSchedulerInner::lemma_touch_preserves(
                old(self).inner,
                self.inner,
                (tid + 1) as usize,
                old(self).inner.rec_or_default(tid + 1),
            );
        }
        r
    }

    /// Zero `tid`'s remaining slice so that its next push grants a fresh
    /// quantum.
    pub fn reset_slice(&mut self, tid: usize)
        requires
            old(self).wf(),
            tid + 1 < usize::MAX,
        ensures
            final(self).wf(),
            final(self).inner.rec_or_default(tid + 1).rest_slice == 0,
            forall|u: usize| final(self).is_ready(u) == old(self).is_ready(u),
            forall|m: int|
                m != tid + 1 ==> final(self).inner.rec_or_default(m) == old(
                    self,
                ).inner.rec_or_default(m),
    {
        self.inner.reset_slice(tid);
        proof {
            RRSchedulerInner::lemma_touch_preserves(
                old(self).inner,
                self.inner,
                (tid + 1) as usize,
                (RRProcInfo { rest_slice: 0, ..old(self).inner.rec_or_default(tid + 1) }),
            );
        }
    }
}

impl RRSchedulerInner {
    /// A bookkeeping call on shifted index `i` leaves every other record,
    /// and the readiness of every thread, as it was.
    pub proof fn lemma_touch_preserves(pre: Self, post: Self, i: usize, r1: RRProcInfo)
        requires
            Self::touch_step(pre, post, i, r1),
        ensures
            forall|m: int| m != i ==> post.rec_or_default(m) == pre.rec_or_default(m),
            post.rec_or_default(i as int) == r1,
            forall|u: usize| post.is_ready(u) == pre.is_ready(u),
    {
        assert forall|m: int| m != i implies post.rec_or_default(m) == pre.rec_or_default(m) by {
            if 0 <= m < post.infos@.len() {
                assert(post.infos@[m] == pre.rec_or_default(m));
            }
        }
    }

    /// `push` makes `tid` ready and leaves the readiness of every other
    /// thread as it was.
    pub proof fn lemma_push_preserves(pre: Self, post: Self, tid: usize)
        requires
            pre.wf(),
            tid + 1 < usize::MAX,
            Self::push_step(pre, post, tid),
        ensures
            post.is_ready(tid),
            forall|u: usize| u != tid ==> post.is_ready(u) == pre.is_ready(u),
            forall|m: int|
                m != tid + 1 ==> same_but_links(post.rec_or_default(m), pre.rec_or_default(m)),
    {
        let i = (tid + 1) as usize;
        assert(post.q@ =~= pre.q@.insert(pre.q@.len() as int, i));
        lemma_insert_membership(pre.q@, post.q@, i, pre.q@.len() as int);
        assert forall|u: usize| u != tid implies post.is_ready(u) == pre.is_ready(u) by {
            if u < usize::MAX {
                assert((u + 1) as usize != i);
            }
        }
        assert forall|m: int| m != tid + 1 implies same_but_links(
            post.rec_or_default(m),
            pre.rec_or_default(m),
        ) by {
            if 0 <= m < post.infos@.len() {
                assert(same_but_links(post.infos@[m], pre.rec_or_default(m)));
            }
        }
    }

    /// `pop` leaves the readiness of every thread other than the dispatched
    /// one as it was, and returns `None` exactly when none is ready.
    pub proof fn lemma_pop_preserves(pre: Self, post: Self, r: Option<usize>)
        requires
            pre.wf(),
            Self::pop_step(pre, post, r),
        ensures
            (r is None) <==> (forall|u: usize| !pre.is_ready(u)),
            r matches Some(t) ==> pre.is_ready(t) && !post.is_ready(t) && (forall|u: usize|
                u != t ==> post.is_ready(u) == pre.is_ready(u)),
            r is None ==> forall|u: usize| post.is_ready(u) == pre.is_ready(u),
    {
        if pre.q@.len() == 0 {
            assert forall|u: usize| !pre.is_ready(u) by {
                if pre.q@.contains((u + 1) as usize) {
                    let w = choose|w: int| 0 <= w < pre.q@.len() && pre.q@[w] == (u + 1) as usize;
                    assert(false);
                }
            }
        } else {
            let i = pre.q@[0];
            assert(pre.ring()[1] == i);
            assert(1 <= i < pre.infos@.len());
            let t = (i - 1) as usize;
            assert(r == Some(t));
            assert(pre.q@.contains(i)) by {
                assert(pre.q@[0] == i);
            }
            assert(pre.is_ready(t));
            assert(post.q@ == pre.q@.remove(0)) by {
                assert(pre.q@.remove(0) =~= pre.q@.drop_first());
            }
            assert forall|v: int| 0 <= v < pre.q@.len() && v != 0 implies #[trigger] pre.q@[v] != pre.q@[0] by {
                assert(pre.ring()[v + 1] == pre.q@[v] && pre.ring()[1] == pre.q@[0]);
            }
            lemma_remove_membership(pre.q@, post.q@, 0);
            assert(!post.is_ready(t));
            assert forall|u: usize| u != t implies post.is_ready(u) == pre.is_ready(u) by {
                if u < usize::MAX {
                    assert((u + 1) as usize != i);
                }
            }
        }
    }

    /// `remove` takes `tid` out of the ready set and leaves every other
    /// thread's readiness as it was.
    pub proof fn lemma_remove_preserves(pre: Self, post: Self, tid: usize)
        requires
            pre.wf(),
            pre.is_ready(tid),
            Self::remove_step(pre, post, tid),
        ensures
            !post.is_ready(tid),
            forall|u: usize| u != tid ==> post.is_ready(u) == pre.is_ready(u),
    {
        let i = (tid + 1) as usize;
        let w = choose|w: int|
            0 <= w < pre.q@.len() && pre.q@[w] == i && post.q@ == pre.q@.remove(w);
        assert forall|v: int| 0 <= v < pre.q@.len() && v != w implies pre.q@[v] != pre.q@[w] by {
            assert(pre.ring()[v + 1] == pre.q@[v] && pre.ring()[w + 1] == pre.q@[w]);
        }
        lemma_remove_membership(pre.q@, post.q@, w);
        assert(!post.q@.contains(i));
        assert forall|u: usize| u != tid implies post.is_ready(u) == pre.is_ready(u) by {
            if u < usize::MAX {
                assert((u + 1) as usize != i);
            }
        }
    }
}

impl Scheduler for RRScheduler {
    open spec fn wf(&self) -> bool {
        self.inner.wf()
    }

    open spec fn is_ready(&self, tid: usize) -> bool {
        self.inner.is_ready(tid)
    }

    open spec fn slice_of(&self, tid: usize) -> nat {
        self.inner.rec_or_default(tid as int + 1).rest_slice as nat
    }

    open spec fn ticks_of(&self, tid: usize) -> u8 {
        self.inner.rec_or_default(tid as int + 1).tick_num
    }

    open spec fn counting(&self, tid: usize) -> bool {
        self.inner.rec_or_default(tid as int + 1).start_flag
    }

    open spec fn priority_of(&self, tid: usize) -> u8 {
        self.inner.rec_or_default(tid as int + 1).priority
    }

    open spec fn stored_priority(&self, priority: u8) -> u8 {
        priority
    }

    open spec fn push_quantum(&self, tid: usize) -> nat {
        let r = self.inner.rec_or_default(tid as int + 1);
        if r.rest_slice == 0 {
            (self.inner.max_time_slice * (r.priority as int)) as nat
        } else {
            r.rest_slice as nat
        }
    }

    open spec fn can_push(&self, tid: usize) -> bool {
        &&& tid + 1 < usize::MAX
        &&& !self.inner.is_ready(tid)
        &&& self.inner.rec_or_default(tid as int + 1).rest_slice == 0
            ==> self.inner.max_time_slice * (self.inner.rec_or_default(
            tid as int + 1,
        ).priority as int) <= usize::MAX
    }

    open spec fn can_tick(&self, tid: usize) -> bool {
        &&& tid + 1 < usize::MAX
        &&& !self.inner.is_ready(tid)
        &&& self.inner.rec_or_default(tid as int + 1).start_flag ==> self.inner.rec_or_default(
            tid as int + 1,
        ).tick_num < 255
    }

    open spec fn can_remove(&self, tid: usize) -> bool {
        self.inner.is_ready(tid)
    }

    open spec fn can_set_priority(&self, tid: usize, priority: u8) -> bool {
        tid + 1 < usize::MAX
    }

    open spec fn can_track(&self, tid: usize) -> bool {
        tid + 1 < usize::MAX
    }

    open spec fn norm_priority(&self, priority: u8) -> u8 {
        priority
    }

    fn push(&mut self, tid: usize) {
        self.inner.push(tid);
        proof {
            RRSchedulerInner::lemma_push_preserves(old(self).inner, self.inner, tid);
        }
    }

    fn pop(&mut self, _cpu_id: usize) -> (r: Option<usize>) {
        let r = self.inner.pop();
        proof {
            RRSchedulerInner::lemma_pop_preserves(old(self).inner, self.inner, r);
            match r {
                Option::Some(t) => {
                    assert(old(self).is_ready(t));
                },
                Option::None => {
                    assert forall|u: usize| !old(self).is_ready(u) by {
                        assert(!old(self).inner.is_ready(u));
                    }
                },
            }
        }
        r
    }

    fn tick(&mut self, current_tid: usize) -> (r: bool) {
        let r = self.inner.tick(current_tid);
        proof {
            RRSchedulerInner::lemma_touch_preserves(
                old(self).inner,
                self.inner,
                (current_tid + 1) as usize,
                RRSchedulerInner::ticked(old(self).inner.rec_or_default(current_tid as int + 1)),
            );
        }
        r
    }

    fn set_priority(&mut self, tid: usize, priority: u8) {
        self.inner.set_priority(tid, priority);
        proof {
            RRSchedulerInner::lemma_touch_preserves(
                old(self).inner,
                self.inner,
                (tid + 1) as usize,
                (RRProcInfo { priority, ..old(self).inner.rec_or_default(tid as int + 1) }),
            );
        }
    }

    fn cal_priority(&self, priority: u8) -> (r: u8) {
        self.inner.cal_priority(priority)
    }

    fn remove(&mut self, tid: usize) {
        self.inner.remove(tid);
        proof {
            RRSchedulerInner::lemma_remove_preserves(old(self).inner, self.inner, tid);
        }
    }

    fn start(&mut self, tid: usize)
        ensures
            final(self).inner.rec_or_default(tid as int + 1).success == false,
    {
        self.inner.start(tid);
        proof {
            RRSchedulerInner::lemma_touch_preserves(
                old(self).inner,
                self.inner,
                (tid + 1) as usize,
                (RRProcInfo {
                    start_flag: true,
                    tick_num: 0,
                    success: false,
                    ..old(self).inner.rec_or_default(tid as int + 1)
                }),
            );
        }
    }

    fn get_tick(&mut self, tid: usize) -> (r: u8) {
        let r = self.inner.get_tick(tid);
        proof {
            RRSchedulerInner::lemma_touch_preserves(
                old(self).inner,
                self.inner,
                (tid + 1) as usize,
                old(self).inner.rec_or_default(tid as int + 1),
            );
        }
        r
    }

    fn end(&mut self, tid: usize) {
        self.inner.end(tid);
        proof {
            RRSchedulerInner::lemma_touch_preserves(
                old(self).inner,
                self.inner,
                (tid + 1) as usize,
                (RRProcInfo {
                    start_flag: false,
                    tick_num: 0,
                    ..old(self).inner.rec_or_default(tid as int + 1)
                }),
            );
        }
    }
}

} // verus!
