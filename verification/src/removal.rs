//! Removing nodes from a sealed scheduler before iteration starts.
//!
//! Removing a node abandons it together with, transitively, everything it
//! depends on: those requirements may now be unreachable.  Dependents that
//! are not themselves removed lose the removed occurrences from their
//! pending counts and become ready when nothing is left.  Removal is only
//! allowed while no `get_ready` call has happened, so no handed-out work
//! can race with disappearing dependencies.

use vstd::prelude::*;

use crate::errors::SorterError;
use crate::prepared::count_state;
use crate::prepared::lemma_pending_same_sat;
use crate::prepared::pending_count;
use crate::prepared::satisfied;
use crate::prepared::NodeInfo;
use crate::prepared::NodeState;
use crate::prepared::PreparedState;
use crate::prepared::SchedModel;
use crate::topology::count_occ;
use crate::topology::lemma_count_occ_pos;
use crate::topology::GraphModel;

verus! {

/// `p` follows dependency edges: each entry depends on the next.
pub open spec fn dep_path(g: GraphModel, p: Seq<usize>) -> bool {
    &&& p.len() >= 1
    &&& forall|k: int| 0 <= k < p.len() ==> (#[trigger] p[k]) < g.n()
    &&& forall|k: int|
        0 <= k < p.len() - 1 ==> count_occ(g.deps[(#[trigger] p[k]) as int], p[k + 1] as int) >= 1
}

/// Node `i` is one of `srcs`, or something a node of `srcs` transitively
/// depends on.
pub open spec fn reaches(g: GraphModel, srcs: Seq<usize>, i: int) -> bool {
    exists|p: Seq<usize>|
        dep_path(g, p) && srcs.contains(p[0]) && p[p.len() - 1] == i as usize
}

/// The entries of `q` whose record is not removed, in order.
pub open spec fn live_filter(q: Seq<usize>, info: Seq<NodeInfo>) -> Seq<usize>
    decreases q.len(),
{
    if q.len() == 0 {
        Seq::empty()
    } else {
        live_filter(q.drop_last(), info) + if info[q.last() as int].state != NodeState::Removed {
            seq![q.last()]
        } else {
            Seq::empty()
        }
    }
}

/// The ids below `upto` that removal turned from active to ready, in
/// ascending order.
pub open spec fn new_ready_asc(info_old: Seq<NodeInfo>, info_new: Seq<NodeInfo>, upto: int) -> Seq<
    usize,
>
    decreases upto,
{
    if upto <= 0 {
        Seq::empty()
    } else {
        new_ready_asc(info_old, info_new, upto - 1) + if info_old[upto - 1].state
            == NodeState::Active && info_new[upto - 1].state == NodeState::Ready {
            seq![(upto - 1) as usize]
        } else {
            Seq::empty()
        }
    }
}

/// Every listed id names a node that is still part of the graph.
pub open spec fn ids_valid(m: SchedModel, ids: Seq<usize>) -> bool {
    forall|k: int|
        0 <= k < ids.len() ==> (#[trigger] ids[k]) < m.n() && m.info[ids[k] as int].state
            != NodeState::Removed
}

/// What a successful removal did: exactly the reachable nodes are gone,
/// every survivor is re-derived (active nodes whose pending count reached
/// zero became ready), and the queue is the old one without the removed
/// entries, followed by the newly readied ids in ascending order.
pub open spec fn remove_ok(m: SchedModel, ids: Seq<usize>, m2: SchedModel) -> bool {
    &&& forall|i: int|
        0 <= i < m.n() ==> ((#[trigger] m2.info[i]).state == NodeState::Removed <==> (
        m.info[i].state == NodeState::Removed || reaches(m.graph, ids, i)))
    &&& forall|i: int|
        0 <= i < m.n() && (#[trigger] m2.info[i]).state != NodeState::Removed ==> m2.info[i].state
            == (if m.info[i].state == NodeState::Active && m2.info[i].npredecessors == 0 {
            NodeState::Ready
        } else {
            m.info[i].state
        })
    &&& m2.queue == live_filter(m.queue, m2.info) + new_ready_asc(m.info, m2.info, m.n())
}

/// How many entries are true.
spec fn count_trues(s: Seq<bool>) -> nat
    decreases s.len(),
{
    if s.len() == 0 {
        0nat
    } else {
        count_trues(s.drop_last()) + if s.last() {
            1nat
        } else {
            0nat
        }
    }
}

proof fn lemma_count_trues_zero(s: Seq<bool>)
    requires
        forall|i: int| 0 <= i < s.len() ==> !(#[trigger] s[i]),
    ensures
        count_trues(s) == 0,
    decreases s.len(),
{
    if s.len() > 0 {
        lemma_count_trues_zero(s.drop_last());
    }
}

proof fn lemma_count_trues_le(s: Seq<bool>)
    ensures
        count_trues(s) <= s.len(),
    decreases s.len(),
{
    if s.len() > 0 {
        lemma_count_trues_le(s.drop_last());
    }
}

proof fn lemma_count_trues_set(s: Seq<bool>, i: int)
    requires
        0 <= i < s.len(),
        !s[i],
    ensures
        count_trues(s.update(i, true)) == count_trues(s) + 1,
    decreases s.len(),
{
    if i == s.len() - 1 {
        assert(s.update(i, true).drop_last() =~= s.drop_last());
    } else {
        assert(s.update(i, true).drop_last() =~= s.drop_last().update(i, true));
        lemma_count_trues_set(s.drop_last(), i);
    }
}

/// A one-step extension of a dependency path stays a dependency path.
proof fn lemma_path_extend(g: GraphModel, p: Seq<usize>, d: usize)
    requires
        dep_path(g, p),
        (d as int) < g.n(),
        count_occ(g.deps[p[p.len() - 1] as int], d as int) >= 1,
    ensures
        dep_path(g, p.push(d)),
        p.push(d)[p.push(d).len() - 1] == d,
        p.push(d)[0] == p[0],
{
    let p2 = p.push(d);
    assert forall|k: int| 0 <= k < p2.len() - 1 implies count_occ(
        g.deps[(#[trigger] p2[k]) as int],
        p2[k + 1] as int,
    ) >= 1 by {
        if k < p.len() - 1 {
            assert(p2[k] == p[k]);
            assert(p2[k + 1] == p[k + 1]);
        } else {
            assert(p2[k] == p[p.len() - 1]);
            assert(p2[k + 1] == d);
        }
    }
}

/// Once the marked set is closed under dependencies, every node a marked
/// node reaches is marked.
proof fn lemma_path_marked(g: GraphModel, marked: Seq<bool>, p: Seq<usize>)
    requires
        g.wf(),
        marked.len() == g.n(),
        dep_path(g, p),
        marked[p[0] as int],
        forall|i: int, e: int|
            0 <= i < g.n() && marked[i] && 0 <= e < g.deps[i].len() ==> marked[(
            #[trigger] g.deps[i][e]) as int],
    ensures
        marked[p[p.len() - 1] as int],
    decreases p.len(),
{
    if p.len() > 1 {
        assert(count_occ(g.deps[p[0] as int], p[1] as int) >= 1);
        lemma_count_occ_pos(g.deps[p[0] as int], p[1] as int);
        let e = choose|e: int|
            0 <= e < g.deps[p[0] as int].len() && g.deps[p[0] as int][e] == p[1] as int;
        assert(marked[p[1] as int]);
        let p2 = p.skip(1);
        assert(dep_path(g, p2)) by {
            assert forall|k: int| 0 <= k < p2.len() - 1 implies count_occ(
                g.deps[(#[trigger] p2[k]) as int],
                p2[k + 1] as int,
            ) >= 1 by {
                assert(p2[k] == p[k + 1]);
                assert(p2[k + 1] == p[k + 2]);
            }
        }
        assert(p2[0] == p[1]);
        lemma_path_marked(g, marked, p2);
        assert(p2[p2.len() - 1] == p[p.len() - 1]);
    }
}

/// Satisfying more records can only lower a pending count.
proof fn lemma_pending_monotone(ds: Seq<usize>, info1: Seq<NodeInfo>, info2: Seq<NodeInfo>)
    requires
        info2.len() == info1.len(),
        forall|k: int| 0 <= k < ds.len() ==> (#[trigger] ds[k]) < info1.len(),
        forall|i: int|
            0 <= i < info1.len() && satisfied((#[trigger] info1[i]).state) ==> satisfied(
                info2[i].state,
            ),
    ensures
        pending_count(ds, info2) <= pending_count(ds, info1),
    decreases ds.len(),
{
    if ds.len() > 0 {
        lemma_pending_monotone(ds.drop_last(), info1, info2);
    }
}

/// The number of unsatisfied entries of `ds`, as executable code.
fn count_unsat(ds: &Vec<usize>, info: &Vec<NodeInfo>) -> (r: usize)
    requires
        forall|k: int| 0 <= k < ds@.len() ==> (#[trigger] ds@[k]) < info@.len(),
    ensures
        r == pending_count(ds@, info@),
{
    let n = ds.len();
    let mut acc: usize = 0;
    let mut k: usize = 0;
    while k < n
        invariant
            k <= n,
            n == ds@.len(),
            forall|j: int| 0 <= j < ds@.len() ==> (#[trigger] ds@[j]) < info@.len(),
            acc == pending_count(ds@.take(k as int), info@),
            acc <= k,
        decreases n - k,
    {
        let d = ds[k];
        let s = info[d].state;
        proof {
            assert(ds@.take(k as int + 1).drop_last() =~= ds@.take(k as int));
            assert(ds@.take(k as int + 1).last() == ds@[k as int]);
        }
        match s {
            NodeState::Done => {},
            NodeState::Removed => {},
            _ => {
                acc = acc + 1;
            },
        }
        k += 1;
    }
    proof {
        assert(ds@.take(n as int) =~= ds@);
    }
    acc
}

/// What the live filter holds: exactly the surviving entries of `q`, and
/// no duplicates when `q` has none.
proof fn lemma_live_filter_props(q: Seq<usize>, info: Seq<NodeInfo>)
    ensures
        forall|t: int|
            0 <= t < live_filter(q, info).len() ==> q.contains(#[trigger] live_filter(q, info)[t])
                && info[live_filter(q, info)[t] as int].state != NodeState::Removed,
        forall|t: int|
            0 <= t < q.len() && info[(#[trigger] q[t]) as int].state != NodeState::Removed
                ==> live_filter(q, info).contains(q[t]),
        (forall|t1: int, t2: int| 0 <= t1 < t2 < q.len() ==> q[t1] != q[t2]) ==> (forall|
            t1: int,
            t2: int,
        |
            0 <= t1 < t2 < live_filter(q, info).len() ==> live_filter(q, info)[t1] != live_filter(
                q,
                info,
            )[t2]),
    decreases q.len(),
{
    if q.len() > 0 {
        lemma_live_filter_props(q.drop_last(), info);
        let prev = live_filter(q.drop_last(), info);
        let cur = live_filter(q, info);
        assert forall|t: int| 0 <= t < cur.len() implies q.contains(#[trigger] cur[t])
            && info[cur[t] as int].state != NodeState::Removed by {
            if t < prev.len() {
                assert(cur[t] == prev[t]);
                assert(q.drop_last().contains(prev[t]));
                let j = choose|j: int| 0 <= j < q.drop_last().len() && q.drop_last()[j] == prev[t];
                assert(q[j] == prev[t]);
            } else {
                assert(info[q.last() as int].state != NodeState::Removed);
                assert(cur[t] == q.last());
                assert(q[q.len() - 1] == q.last());
            }
        }
        assert forall|t: int|
            0 <= t < q.len() && info[(#[trigger] q[t]) as int].state != NodeState::Removed implies cur.contains(
            q[t],
        ) by {
            if t < q.len() - 1 {
                assert(q.drop_last()[t] == q[t]);
                assert(prev.contains(q[t]));
                let j = choose|j: int| 0 <= j < prev.len() && prev[j] == q[t];
                assert(cur[j] == q[t]);
            } else {
                assert(cur[cur.len() - 1] == q.last());
            }
        }
        if forall|t1: int, t2: int| 0 <= t1 < t2 < q.len() ==> q[t1] != q[t2] {
            assert forall|t1: int, t2: int|
                0 <= t1 < t2 < q.drop_last().len() implies q.drop_last()[t1] != q.drop_last()[t2] by {
                assert(q.drop_last()[t1] == q[t1]);
                assert(q.drop_last()[t2] == q[t2]);
            }
            assert forall|t1: int, t2: int| 0 <= t1 < t2 < cur.len() implies cur[t1] != cur[t2] by {
                if t2 < prev.len() {
                    assert(cur[t1] == prev[t1] && cur[t2] == prev[t2]);
                } else if t2 == prev.len() && cur.len() > prev.len() {
                    assert(cur[t2] == q.last());
                    assert(cur[t1] == prev[t1]);
                    assert(q.drop_last().contains(prev[t1]));
                    let j = choose|j: int|
                        0 <= j < q.drop_last().len() && q.drop_last()[j] == prev[t1];
                    assert(q[j] == prev[t1]);
                    assert(q[q.len() - 1] == q.last());
                }
            }
        }
    }
}

/// What the newly-ready list holds: exactly the flipped ids below `upto`,
/// in strictly ascending order.
proof fn lemma_nra_props(info_old: Seq<NodeInfo>, info_new: Seq<NodeInfo>, upto: int)
    requires
        upto <= usize::MAX,
    ensures
        forall|t: int|
            0 <= t < new_ready_asc(info_old, info_new, upto).len() ==> (#[trigger] new_ready_asc(
                info_old,
                info_new,
                upto,
            )[t]) < upto && info_old[new_ready_asc(info_old, info_new, upto)[t] as int].state
                == NodeState::Active && info_new[new_ready_asc(info_old, info_new, upto)[t] as int].state
                == NodeState::Ready,
        forall|i: int|
            0 <= i < upto && info_old[i].state == NodeState::Active && info_new[i].state
                == NodeState::Ready ==> new_ready_asc(info_old, info_new, upto).contains(
                #[trigger] (i as usize),
            ),
        forall|t1: int, t2: int|
            0 <= t1 < t2 < new_ready_asc(info_old, info_new, upto).len() ==> new_ready_asc(
                info_old,
                info_new,
                upto,
            )[t1] < new_ready_asc(info_old, info_new, upto)[t2],
    decreases upto,
{
    if upto > 0 {
        lemma_nra_props(info_old, info_new, upto - 1);
        let prev = new_ready_asc(info_old, info_new, upto - 1);
        let cur = new_ready_asc(info_old, info_new, upto);
        assert forall|i: int|
            0 <= i < upto && info_old[i].state == NodeState::Active && info_new[i].state
                == NodeState::Ready implies cur.contains(#[trigger] (i as usize)) by {
            if i < upto - 1 {
                assert(prev.contains(i as usize));
                let j = choose|j: int| 0 <= j < prev.len() && prev[j] == i as usize;
                assert(cur[j] == i as usize);
            } else {
                assert(cur[cur.len() - 1] == (upto - 1) as usize);
            }
        }
        assert forall|t: int| 0 <= t < cur.len() implies (#[trigger] cur[t]) < upto
            && info_old[cur[t] as int].state == NodeState::Active && info_new[cur[t] as int].state
            == NodeState::Ready by {
            if t < prev.len() {
                assert(cur[t] == prev[t]);
            }
        }
        assert forall|t1: int, t2: int| 0 <= t1 < t2 < cur.len() implies cur[t1] < cur[t2] by {
            if t2 < prev.len() {
                assert(cur[t1] == prev[t1] && cur[t2] == prev[t2]);
            } else {
                assert(cur[t1] == prev[t1]);
                assert(prev[t1] < upto - 1);
            }
        }
    }
}

/// Only entries below `upto` matter to the newly-ready list.
proof fn lemma_nra_prefix_same(
    info_old: Seq<NodeInfo>,
    a: Seq<NodeInfo>,
    b: Seq<NodeInfo>,
    upto: int,
)
    requires
        forall|j: int| 0 <= j < upto ==> (#[trigger] a[j]) == b[j],
    ensures
        new_ready_asc(info_old, a, upto) == new_ready_asc(info_old, b, upto),
    decreases upto,
{
    if upto > 0 {
        lemma_nra_prefix_same(info_old, a, b, upto - 1);
    }
}

impl PreparedState {
    /// Applies a computed removal set: every marked node's record becomes
    /// removed, every survivor's pending count is re-derived from the
    /// surviving dependencies, active nodes left with none become ready,
    /// and the queue is rebuilt as the surviving entries followed by the
    /// newly readied ids in ascending order.
    #[verifier::loop_isolation(false)]
    #[verifier::rlimit(100)]
    fn apply_removal(&mut self, wl: &Vec<usize>, marked: &Vec<bool>)
        requires
            old(self)@.inv(),
            !old(self)@.started,
            marked@.len() == old(self)@.n(),
            forall|t: int|
                0 <= t < wl@.len() ==> (#[trigger] wl@[t]) < old(self)@.n()
                    && marked@[wl@[t] as int],
            forall|i: int| 0 <= i < old(self)@.n() && marked@[i] ==> wl@.contains(i as usize),
            forall|t1: int, t2: int| 0 <= t1 < t2 < wl@.len() ==> wl@[t1] != wl@[t2],
            forall|i: int, e: int|
                0 <= i < old(self)@.n() && marked@[i] && 0 <= e < old(self)@.graph.deps[i].len()
                    ==> marked@[(#[trigger] old(self)@.graph.deps[i][e]) as int],
        ensures
            final(self)@.inv(),
            final(self)@.graph == old(self)@.graph,
            final(self)@.rank == old(self)@.rank,
            final(self)@.started == old(self)@.started,
            final(self)@.n_passed_out == old(self)@.n_passed_out,
            final(self)@.n_finished == old(self)@.n_finished,
            forall|i: int|
                0 <= i < old(self)@.n() ==> ((#[trigger] final(self)@.info[i]).state
                    == NodeState::Removed <==> (old(self)@.info[i].state == NodeState::Removed
                    || marked@[i])),
            forall|i: int|
                0 <= i < old(self)@.n() && (#[trigger] final(self)@.info[i]).state
                    != NodeState::Removed ==> final(self)@.info[i].state == (if old(
                    self,
                )@.info[i].state == NodeState::Active && final(self)@.info[i].npredecessors == 0 {
                    NodeState::Ready
                } else {
                    old(self)@.info[i].state
                }),
            final(self)@.queue == live_filter(old(self)@.queue, final(self)@.info) + new_ready_asc(
                old(self)@.info,
                final(self)@.info,
                old(self)@.n(),
            ),
    {
        let ghost m = self@;
        let n = self.id2nodeinfo.len();
        // Nothing is handed out or done yet.
        proof {
            assert forall|i: int| 0 <= i < n implies (#[trigger] m.info[i]).state
                == NodeState::Active || m.info[i].state == NodeState::Ready || m.info[i].state
                == NodeState::Removed by {
                if m.info[i].state == NodeState::HandedOut {
                    crate::prepared::lemma_count_state_pos(m.info, NodeState::HandedOut, i);
                }
                if m.info[i].state == NodeState::Done {
                    crate::prepared::lemma_count_state_pos(m.info, NodeState::Done, i);
                }
            }
        }
        // Mark the removal set.
        let wln = wl.len();
        let mut t: usize = 0;
        while t < wln
            invariant
                t <= wln,
                self.id2nodeinfo@.len() == n,
                self.dag == old(self).dag,
                self.ready_nodes == old(self).ready_nodes,
                self.n_passed_out == old(self).n_passed_out,
                self.n_finished == old(self).n_finished,
                self.iter_started == old(self).iter_started,
                self.rank == old(self).rank,
                forall|tt: int|
                    0 <= tt < t ==> self.id2nodeinfo@[(#[trigger] wl@[tt]) as int] == (NodeInfo {
                        state: NodeState::Removed,
                        npredecessors: 0,
                    }),
                forall|i: int|
                    0 <= i < n && (forall|tt: int| 0 <= tt < t ==> wl@[tt] != i) ==> (
                    #[trigger] self.id2nodeinfo@[i]) == m.info[i],
            decreases wln - t,
        {
            let v = wl[t];
            self.id2nodeinfo[v] = NodeInfo { state: NodeState::Removed, npredecessors: 0 };
            t += 1;
        }
        let ghost info2 = self.id2nodeinfo@;
        proof {
            assert forall|i: int| 0 <= i < n implies (#[trigger] info2[i]) == (if marked@[i] {
                NodeInfo { state: NodeState::Removed, npredecessors: 0 }
            } else {
                m.info[i]
            }) by {
                if marked@[i] {
                    assert(wl@.contains(i as usize));
                    let tt = choose|tt: int| 0 <= tt < wl@.len() && wl@[tt] == i as usize;
                    assert(info2[wl@[tt] as int] == (NodeInfo {
                        state: NodeState::Removed,
                        npredecessors: 0,
                    }));
                } else {
                    assert forall|tt: int| 0 <= tt < wl@.len() implies (#[trigger] wl@[tt])
                        != i by {
                        assert(marked@[wl@[tt] as int]);
                    }
                }
            }
            // satisfied-ness only grew
            assert forall|i: int|
                0 <= i < n && satisfied((#[trigger] m.info[i]).state) implies satisfied(
                info2[i].state,
            ) by {}
        }
        // Rebuild the queue: surviving entries first.
        let mut newq: Vec<usize> = Vec::new();
        let mut oldq: Vec<usize> = Vec::new();
        std::mem::swap(&mut oldq, &mut self.ready_nodes);
        let qn = oldq.len();
        let mut qk: usize = 0;
        while qk < qn
            invariant
                qk <= qn,
                qn == m.queue.len(),
                oldq@ == m.queue,
                self.id2nodeinfo@ == info2,
                self.dag == old(self).dag,
                self.n_passed_out == old(self).n_passed_out,
                self.n_finished == old(self).n_finished,
                self.iter_started == old(self).iter_started,
                self.rank == old(self).rank,
                newq@ == live_filter(m.queue.take(qk as int), info2),
            decreases qn - qk,
        {
            let id = oldq[qk];
            let st = self.id2nodeinfo[id].state;
            proof {
                assert(m.queue.take(qk as int + 1).drop_last() =~= m.queue.take(qk as int));
                assert(m.queue.take(qk as int + 1).last() == m.queue[qk as int]);
            }
            match st {
                NodeState::Removed => {},
                _ => {
                    newq.push(id);
                },
            }
            qk += 1;
        }
        proof {
            assert(m.queue.take(qn as int) =~= m.queue);
        }
        // Re-derive every survivor and append the newly readied ids.
        let mut i: usize = 0;
        while i < n
            invariant
                i <= n,
                self.id2nodeinfo@.len() == n,
                self.dag == old(self).dag,
                self.n_passed_out == old(self).n_passed_out,
                self.n_finished == old(self).n_finished,
                self.iter_started == old(self).iter_started,
                self.rank == old(self).rank,
                forall|j: int|
                    i <= j < n ==> (#[trigger] self.id2nodeinfo@[j]) == info2[j],
                forall|j: int|
                    0 <= j < n ==> (((#[trigger] self.id2nodeinfo@[j]).state == NodeState::Removed)
                        <==> info2[j].state == NodeState::Removed),
                forall|j: int|
                    0 <= j < n ==> satisfied((#[trigger] self.id2nodeinfo@[j]).state) == satisfied(
                        info2[j].state,
                    ),
                forall|j: int|
                    0 <= j < i && (#[trigger] self.id2nodeinfo@[j]).state != NodeState::Removed
                        ==> self.id2nodeinfo@[j].npredecessors == pending_count(
                        m.graph.deps[j],
                        info2,
                    ) && self.id2nodeinfo@[j].state == (if m.info[j].state == NodeState::Active
                        && pending_count(m.graph.deps[j], info2) == 0 {
                        NodeState::Ready
                    } else {
                        m.info[j].state
                    }),
                newq@ == live_filter(m.queue, info2) + new_ready_asc(
                    m.info,
                    self.id2nodeinfo@,
                    i as int,
                ),
            decreases n - i,
        {
            let ghost info_head = self.id2nodeinfo@;
            let st = self.id2nodeinfo[i].state;
            match st {
                NodeState::Removed => {
                    proof {
                        assert(new_ready_asc(m.info, self.id2nodeinfo@, i as int + 1)
                            =~= new_ready_asc(m.info, self.id2nodeinfo@, i as int));
                    }
                },
                _ => {
                    let p = count_unsat(&self.dag.deps[i], &self.id2nodeinfo);
                    proof {
                        lemma_pending_same_sat(m.graph.deps[i as int], info_head, info2);
                        assert(p == pending_count(m.graph.deps[i as int], info2));
                        assert(info2[i as int] == m.info[i as int]);
                    }
                    let is_active = match st {
                        NodeState::Active => true,
                        _ => false,
                    };
                    if p == 0 && is_active {
                        self.id2nodeinfo[i] = NodeInfo { state: NodeState::Ready, npredecessors: 0 };
                        newq.push(i);
                        proof {
                            lemma_nra_prefix_same(m.info, self.id2nodeinfo@, info_head, i as int);
                            assert(new_ready_asc(m.info, self.id2nodeinfo@, i as int + 1)
                                =~= new_ready_asc(m.info, self.id2nodeinfo@, i as int).push(i));
                        }
                    } else {
                        self.id2nodeinfo[i] = NodeInfo { state: st, npredecessors: p };
                        proof {
                            lemma_nra_prefix_same(m.info, self.id2nodeinfo@, info_head, i as int);
                            assert(new_ready_asc(m.info, self.id2nodeinfo@, i as int + 1)
                                =~= new_ready_asc(m.info, self.id2nodeinfo@, i as int));
                        }
                    }
                },
            }
            i += 1;
        }
        self.ready_nodes = newq;
        proof {
            assert(m.n() <= usize::MAX);
            lemma_removal_inv(m, marked@, info2, self@);
        }
    }
}


/// After a removal pass the scheduler invariant holds again, and the
/// queue description over the intermediate records carries over to the
/// final ones.
#[verifier::rlimit(100)]
proof fn lemma_removal_inv(
    m: SchedModel,
    marked: Seq<bool>,
    info2: Seq<NodeInfo>,
    mf: SchedModel,
)
    requires
        m.inv(),
        !m.started,
        m.n() <= usize::MAX,
        marked.len() == m.n(),
        info2.len() == m.n(),
        forall|i: int, e: int|
            0 <= i < m.n() && marked[i] && 0 <= e < m.graph.deps[i].len() ==> marked[(
            #[trigger] m.graph.deps[i][e]) as int],
        forall|i: int|
            0 <= i < m.n() ==> (#[trigger] m.info[i]).state == NodeState::Active
                || m.info[i].state == NodeState::Ready || m.info[i].state == NodeState::Removed,
        forall|i: int|
            0 <= i < m.n() ==> (#[trigger] info2[i]) == (if marked[i] {
                NodeInfo { state: NodeState::Removed, npredecessors: 0 }
            } else {
                m.info[i]
            }),
        mf.graph == m.graph,
        mf.rank == m.rank,
        mf.started == m.started,
        mf.n_passed_out == m.n_passed_out,
        mf.n_finished == m.n_finished,
        mf.info.len() == m.n(),
        forall|j: int|
            0 <= j < m.n() ==> (((#[trigger] mf.info[j]).state == NodeState::Removed)
                <==> info2[j].state == NodeState::Removed),
        forall|j: int|
            0 <= j < m.n() ==> satisfied((#[trigger] mf.info[j]).state) == satisfied(
                info2[j].state,
            ),
        forall|j: int|
            0 <= j < m.n() && (#[trigger] mf.info[j]).state != NodeState::Removed
                ==> mf.info[j].npredecessors == pending_count(m.graph.deps[j], info2)
                && mf.info[j].state == (if m.info[j].state == NodeState::Active && pending_count(
                m.graph.deps[j],
                info2,
            ) == 0 {
                NodeState::Ready
            } else {
                m.info[j].state
            }),
        mf.queue == live_filter(m.queue, info2) + new_ready_asc(m.info, mf.info, m.n()),
    ensures
        mf.inv(),
        mf.queue == live_filter(m.queue, mf.info) + new_ready_asc(m.info, mf.info, m.n()),
        forall|i: int|
            0 <= i < m.n() ==> ((#[trigger] mf.info[i]).state == NodeState::Removed <==> (
            m.info[i].state == NodeState::Removed || marked[i])),
        forall|i: int|
            0 <= i < m.n() && (#[trigger] mf.info[i]).state != NodeState::Removed
                ==> mf.info[i].state == (if m.info[i].state == NodeState::Active
                && mf.info[i].npredecessors == 0 {
                NodeState::Ready
            } else {
                m.info[i].state
            }),
{
    let n = m.n();

    lemma_live_filter_props(m.queue, mf.info);
    lemma_live_filter_props(m.queue, info2);
    lemma_nra_props(m.info, mf.info, n as int);
    // the two filters agree: removedness is the same
    assert(live_filter(m.queue, mf.info) =~= live_filter(m.queue, info2)) by {
        lemma_live_filter_same(m.queue, info2, mf.info);
    }
    // pending counts over the final records equal those over info2
    assert forall|j: int|
        0 <= j < n && (#[trigger] mf.info[j]).state != NodeState::Removed implies mf.info[j].npredecessors
        == pending_count(m.graph.deps[j], mf.info) by {
        lemma_pending_same_sat(m.graph.deps[j], info2, mf.info);
    }
    // an old ready node keeps a zero count
    assert forall|j: int|
        0 <= j < n && (#[trigger] mf.info[j]).state == NodeState::Ready implies mf.info[j].npredecessors
        == 0 by {
        if m.info[j].state == NodeState::Ready {
            assert(m.info[j].npredecessors == 0);
            assert(pending_count(m.graph.deps[j], m.info) == 0);
            lemma_pending_monotone(m.graph.deps[j], m.info, info2);
        }
    }
    // queue invariant
    assert forall|k: int| 0 <= k < mf.queue.len() implies (#[trigger] mf.queue[k]) < n
        && mf.info[mf.queue[k] as int].state == NodeState::Ready by {
        let fl = live_filter(m.queue, mf.info);
        if k < fl.len() {
            assert(mf.queue[k] == fl[k]);
            assert(m.queue.contains(fl[k]));
            let j = choose|j: int| 0 <= j < m.queue.len() && m.queue[j] == fl[k];
            assert(m.info[fl[k] as int].state == NodeState::Ready);
            assert(info2[fl[k] as int].state != NodeState::Removed);
            assert(info2[fl[k] as int] == m.info[fl[k] as int]);
        } else {
            let nra = new_ready_asc(m.info, mf.info, n as int);
            assert(mf.queue[k] == nra[k - fl.len()]);
        }
    }
    assert forall|k1: int, k2: int|
        0 <= k1 < k2 < mf.queue.len() implies mf.queue[k1] != mf.queue[k2] by {
        let fl = live_filter(m.queue, mf.info);
        let nra = new_ready_asc(m.info, mf.info, n as int);
        if k1 < fl.len() && k2 >= fl.len() {
            assert(mf.queue[k1] == fl[k1]);
            assert(mf.queue[k2] == nra[k2 - fl.len()]);
            assert(m.queue.contains(fl[k1]));
            let j = choose|j: int| 0 <= j < m.queue.len() && m.queue[j] == fl[k1];
            assert(m.info[fl[k1] as int].state == NodeState::Ready);
            assert(m.info[nra[k2 - fl.len()] as int].state == NodeState::Active);
        } else if k1 >= fl.len() {
            assert(mf.queue[k1] == nra[k1 - fl.len()]);
            assert(mf.queue[k2] == nra[k2 - fl.len()]);
        } else {
            assert(mf.queue[k1] == fl[k1] && mf.queue[k2] == fl[k2]);
        }
    }
    assert forall|j: int|
        0 <= j < n && (#[trigger] mf.info[j]).state == NodeState::Ready implies mf.queue.contains(
        j as usize,
    ) by {
        let fl = live_filter(m.queue, mf.info);
        let nra = new_ready_asc(m.info, mf.info, n as int);
        if m.info[j].state == NodeState::Ready {
            assert(m.queue.contains(j as usize));
            let t2 = choose|t2: int| 0 <= t2 < m.queue.len() && m.queue[t2] == j as usize;
            assert(mf.info[m.queue[t2] as int].state != NodeState::Removed);
            assert(fl.contains(j as usize));
            let t3 = choose|t3: int| 0 <= t3 < fl.len() && fl[t3] == j as usize;
            assert(mf.queue[t3] == j as usize);
        } else {
            assert(m.info[j].state == NodeState::Active);
            assert(nra.contains(j as usize));
            let t3 = choose|t3: int| 0 <= t3 < nra.len() && nra[t3] == j as usize;
            assert(mf.queue[fl.len() + t3] == j as usize);
        }
    }
    // counters: still nothing handed out or done
    assert forall|j: int| 0 <= j < n implies (#[trigger] mf.info[j]).state
        != NodeState::HandedOut && mf.info[j].state != NodeState::Done by {}
    crate::prepared::lemma_count_state_absent(mf.info, NodeState::HandedOut);
    crate::prepared::lemma_count_state_absent(mf.info, NodeState::Done);
    crate::prepared::lemma_count_state_absent(m.info, NodeState::HandedOut);
    crate::prepared::lemma_count_state_absent(m.info, NodeState::Done);
    // removal stays closed downward
    assert forall|j: int, e: int|
        0 <= j < n && mf.info[j].state == NodeState::Removed && 0 <= e
            < m.graph.deps[j].len() implies mf.info[(#[trigger] m.graph.deps[j][e]) as int].state
        == NodeState::Removed by {
        if marked[j] {
            assert(marked[m.graph.deps[j][e] as int]);
        } else {
            assert(m.info[j].state == NodeState::Removed);
            assert(m.info[m.graph.deps[j][e] as int].state == NodeState::Removed);
        }
    }
    assert(mf.inv());
}

/// Two record sequences with the same removed set filter a queue alike.
proof fn lemma_live_filter_same(q: Seq<usize>, info1: Seq<NodeInfo>, info2: Seq<NodeInfo>)
    requires
        forall|i: int|
            0 <= i < info1.len() ==> (((#[trigger] info1[i]).state == NodeState::Removed)
                <==> info2[i].state == NodeState::Removed),
        info2.len() == info1.len(),
        forall|k: int| 0 <= k < q.len() ==> (#[trigger] q[k]) < info1.len(),
    ensures
        live_filter(q, info1) == live_filter(q, info2),
    decreases q.len(),
{
    if q.len() > 0 {
        lemma_live_filter_same(q.drop_last(), info1, info2);
    }
}


/// The bookkeeping of the closure search: the worklist names each marked
/// id exactly once.
spec fn table_ok(g: GraphModel, marked: Seq<bool>, wl: Seq<usize>) -> bool {
    &&& marked.len() == g.n()
    &&& wl.len() == count_trues(marked)
    &&& forall|t: int| 0 <= t < wl.len() ==> (#[trigger] wl[t]) < g.n() && marked[wl[t] as int]
    &&& forall|i: int| 0 <= i < g.n() && marked[i] ==> wl.contains(#[trigger] (i as usize))
    &&& forall|t1: int, t2: int| 0 <= t1 < t2 < wl.len() ==> wl[t1] != wl[t2]
}

/// The recorded path of node `i`: a dependency walk from one of the
/// sources down to `i`.
spec fn path_to(g: GraphModel, srcs: Seq<usize>, paths: Map<int, Seq<usize>>, i: int) -> bool {
    &&& paths.dom().contains(i)
    &&& dep_path(g, paths[i])
    &&& srcs.contains(paths[i][0])
    &&& paths[i][paths[i].len() - 1] == i as usize
}

/// Each marked node carries a recorded dependency path that starts at one
/// of the sources and ends at it: a concrete witness of reachability.
spec fn paths_ok(
    g: GraphModel,
    srcs: Seq<usize>,
    marked: Seq<bool>,
    paths: Map<int, Seq<usize>>,
) -> bool {
    forall|i: int| 0 <= i < g.n() && marked[i] ==> #[trigger] path_to(g, srcs, paths, i)
}

/// Every direct dependency of `u` is marked.
spec fn deps_marked(g: GraphModel, marked: Seq<bool>, u: usize) -> bool {
    forall|e: int|
        0 <= e < g.deps[u as int].len() ==> marked[(#[trigger] g.deps[u as int][e]) as int]
}

/// Marks a node if it is new, appending it to the worklist and recording
/// the dependency path that reached it.
fn mark_one(
    g: Ghost<GraphModel>,
    srcs: Ghost<Seq<usize>>,
    marked: &mut Vec<bool>,
    wl: &mut Vec<usize>,
    paths: Ghost<Map<int, Seq<usize>>>,
    v: usize,
    pv: Ghost<Seq<usize>>,
) -> (out: Ghost<Map<int, Seq<usize>>>)
    requires
        table_ok(g@, old(marked)@, old(wl)@),
        paths_ok(g@, srcs@, old(marked)@, paths@),
        (v as int) < g@.n(),
        dep_path(g@, pv@),
        srcs@.contains(pv@[0]),
        pv@[pv@.len() - 1] == v,
    ensures
        table_ok(g@, final(marked)@, final(wl)@),
        paths_ok(g@, srcs@, final(marked)@, out@),
        final(marked)@.len() == old(marked)@.len(),
        forall|i: int|
            0 <= i < final(marked)@.len() ==> ((#[trigger] final(marked)@[i]) <==> (old(
                marked,
            )@[i] || i == v as int)),
        old(wl)@.len() <= final(wl)@.len(),
        forall|t: int| 0 <= t < old(wl)@.len() ==> (#[trigger] final(wl)@[t]) == old(wl)@[t],
{
    if !marked[v] {
        let ghost pre = marked@;
        let ghost pre_wl = wl@;
        marked[v] = true;
        wl.push(v);
        proof {
            lemma_count_trues_set(pre, v as int);
            assert forall|i: int|
                0 <= i < g@.n() && marked@[i] implies wl@.contains(#[trigger] (i as usize)) by {
                if i == v as int {
                    assert(wl@[wl@.len() - 1] == v);
                } else {
                    assert(pre[i]);
                    assert(pre_wl.contains(i as usize));
                    let t = choose|t: int| 0 <= t < pre_wl.len() && pre_wl[t] == i as usize;
                    assert(wl@[t] == i as usize);
                }
            }
            assert forall|t1: int, t2: int|
                0 <= t1 < t2 < wl@.len() implies wl@[t1] != wl@[t2] by {
                if t2 == wl@.len() - 1 {
                    assert(wl@[t1] == pre_wl[t1]);
                    assert(pre[pre_wl[t1] as int]);
                }
            }
            let np = paths@.insert(v as int, pv@);
            assert forall|i: int|
                0 <= i < g@.n() && marked@[i] implies #[trigger] path_to(g@, srcs@, np, i) by {
                if i == v as int {
                    assert(np[i] == pv@);
                    assert(path_to(g@, srcs@, np, i));
                } else {
                    assert(pre[i]);
                    assert(path_to(g@, srcs@, paths@, i));
                    assert(np[i] == paths@[i]);
                    assert(path_to(g@, srcs@, np, i));
                }
            }
            assert(paths_ok(g@, srcs@, marked@, np));
        }
        Ghost(paths@.insert(v as int, pv@))
    } else {
        proof {
            assert(paths_ok(g@, srcs@, marked@, paths@));
        }
        paths
    }
}

/// Marks every direct dependency of an already marked node, extending its
/// recorded path by one hop for each.
fn mark_deps(
    g: Ghost<GraphModel>,
    srcs: Ghost<Seq<usize>>,
    deps: &Vec<Vec<usize>>,
    marked: &mut Vec<bool>,
    wl: &mut Vec<usize>,
    paths: Ghost<Map<int, Seq<usize>>>,
    u: usize,
) -> (out: Ghost<Map<int, Seq<usize>>>)
    requires
        g@.wf(),
        crate::topology::seq_views(*deps) == g@.deps,
        table_ok(g@, old(marked)@, old(wl)@),
        paths_ok(g@, srcs@, old(marked)@, paths@),
        (u as int) < g@.n(),
        old(marked)@[u as int],
    ensures
        table_ok(g@, final(marked)@, final(wl)@),
        paths_ok(g@, srcs@, final(marked)@, out@),
        final(marked)@.len() == old(marked)@.len(),
        forall|i: int|
            0 <= i < old(marked)@.len() && (#[trigger] old(marked)@[i]) ==> final(marked)@[i],
        deps_marked(g@, final(marked)@, u),
        old(wl)@.len() <= final(wl)@.len(),
        forall|t: int| 0 <= t < old(wl)@.len() ==> (#[trigger] final(wl)@[t]) == old(wl)@[t],
{
    let dn = deps[u].len();
    let mut cur = paths;
    let mut e: usize = 0;
    while e < dn
        invariant
            e <= dn,
            g@.wf(),
            crate::topology::seq_views(*deps) == g@.deps,
            (u as int) < g@.n(),
            dn == g@.deps[u as int].len(),
            marked@[u as int],
            table_ok(g@, marked@, wl@),
            paths_ok(g@, srcs@, marked@, cur@),
            marked@.len() == old(marked)@.len(),
            forall|i: int|
                0 <= i < old(marked)@.len() && (#[trigger] old(marked)@[i]) ==> marked@[i],
            forall|e2: int|
                0 <= e2 < e ==> marked@[(#[trigger] g@.deps[u as int][e2]) as int],
            old(wl)@.len() <= wl@.len(),
            forall|t: int| 0 <= t < old(wl)@.len() ==> (#[trigger] wl@[t]) == old(wl)@[t],
        decreases dn - e,
    {
        let d = deps[u][e];
        let ghost pu = cur@[u as int];
        proof {
            assert(g@.deps[u as int][e as int] == d);
            assert(d < g@.n());
            assert(path_to(g@, srcs@, cur@, u as int));
            assert(dep_path(g@, pu) && srcs@.contains(pu[0]) && pu[pu.len() - 1] == u);
            crate::topology::lemma_count_occ_pos(g@.deps[u as int], d as int);
            assert(count_occ(g@.deps[u as int], d as int) >= 1);
            lemma_path_extend(g@, pu, d);
        }
        cur = mark_one(g, srcs, marked, wl, cur, d, Ghost(pu.push(d)));
        e += 1;
    }
    cur
}

/// Marks everything the listed ids transitively depend on, returning the
/// mark table and a worklist that names each marked id exactly once; the
/// marked set is exactly what the listed ids reach.
#[verifier::rlimit(100)]
fn mark_closure(g: Ghost<GraphModel>, deps: &Vec<Vec<usize>>, ids: &Vec<usize>) -> (r: (
    Vec<bool>,
    Vec<usize>,
))
    requires
        g@.wf(),
        crate::topology::seq_views(*deps) == g@.deps,
        forall|j: int| 0 <= j < ids@.len() ==> (#[trigger] ids@[j]) < g@.n(),
    ensures
        ({
            let (marked, wl) = r;
            &&& marked@.len() == g@.n()
            &&& forall|t: int|
                0 <= t < wl@.len() ==> (#[trigger] wl@[t]) < g@.n() && marked@[wl@[t] as int]
            &&& forall|i: int|
                0 <= i < g@.n() && marked@[i] ==> wl@.contains(#[trigger] (i as usize))
            &&& forall|t1: int, t2: int| 0 <= t1 < t2 < wl@.len() ==> wl@[t1] != wl@[t2]
            &&& forall|i: int, e: int|
                0 <= i < g@.n() && marked@[i] && 0 <= e < g@.deps[i].len() ==> marked@[(
                #[trigger] g@.deps[i][e]) as int]
            &&& forall|i: int|
                0 <= i < g@.n() ==> ((#[trigger] marked@[i]) <==> reaches(g@, ids@, i))
        }),
{
    let n = deps.len();
    proof {
        assert(g@.deps.len() == g@.n());
    }
    let n_ids = ids.len();
    let mut marked = crate::cycle::filled_false(n);
    proof {
        lemma_count_trues_zero(marked@);
    }
    let mut wl: Vec<usize> = Vec::new();
    let mut paths: Ghost<Map<int, Seq<usize>>> = Ghost(Map::empty());
    let mut k2: usize = 0;
    while k2 < n_ids
        invariant
            k2 <= n_ids,
            n_ids == ids@.len(),
            n == g@.n(),
            g@.wf(),
            forall|j: int| 0 <= j < ids@.len() ==> (#[trigger] ids@[j]) < g@.n(),
            table_ok(g@, marked@, wl@),
            paths_ok(g@, ids@, marked@, paths@),
            forall|j: int| 0 <= j < k2 ==> marked@[(#[trigger] ids@[j]) as int],
        decreases n_ids - k2,
    {
        let v = ids[k2];
        let ghost pv: Seq<usize> = seq![v];
        proof {
            assert(dep_path(g@, pv));
            assert(ids@[k2 as int] == v);
            assert(ids@.contains(v));
            assert(pv[0] == v && pv[pv.len() - 1] == v);
        }
        paths = mark_one(g, Ghost(ids@), &mut marked, &mut wl, paths, v, Ghost(pv));
        k2 += 1;
    }
    let mut ptr: usize = 0;
    while ptr < wl.len()
        invariant
            n == g@.n(),
            g@.wf(),
            crate::topology::seq_views(*deps) == g@.deps,
            ptr <= wl@.len(),
            table_ok(g@, marked@, wl@),
            paths_ok(g@, ids@, marked@, paths@),
            forall|j: int| 0 <= j < ids@.len() ==> (#[trigger] ids@[j]) < g@.n(),
            forall|j: int| 0 <= j < ids@.len() ==> marked@[(#[trigger] ids@[j]) as int],
            forall|t: int| 0 <= t < ptr ==> deps_marked(g@, marked@, #[trigger] wl@[t]),
        decreases n - ptr,
    {
        proof {
            lemma_count_trues_le(marked@);
        }
        let u = wl[ptr];
        let ghost pre_wl = wl@;
        let ghost pre_marked = marked@;
        paths = mark_deps(g, Ghost(ids@), deps, &mut marked, &mut wl, paths, u);
        proof {
            assert forall|t: int| 0 <= t < ptr + 1 implies deps_marked(
                g@,
                marked@,
                #[trigger] wl@[t],
            ) by {
                assert(wl@[t] == pre_wl[t]);
                if t < ptr {
                    assert(deps_marked(g@, pre_marked, pre_wl[t]));
                    assert forall|e: int|
                        0 <= e < g@.deps[wl@[t] as int].len() implies marked@[(
                    #[trigger] g@.deps[wl@[t] as int][e]) as int] by {
                        assert(pre_marked[(g@.deps[pre_wl[t] as int][e]) as int]);
                    }
                } else {
                    assert(wl@[t] == u);
                }
            }
            assert forall|j: int|
                0 <= j < ids@.len() implies marked@[(#[trigger] ids@[j]) as int] by {
                assert(pre_marked[ids@[j] as int]);
            }
        }
        ptr += 1;
    }
    proof {
        assert forall|i: int, e: int|
            0 <= i < n && marked@[i] && 0 <= e < g@.deps[i].len() implies marked@[(
        #[trigger] g@.deps[i][e]) as int] by {
            assert(wl@.contains(i as usize));
            let t = choose|t: int| 0 <= t < wl@.len() && wl@[t] == i as usize;
            assert(deps_marked(g@, marked@, wl@[t]));
            assert(marked@[(g@.deps[wl@[t] as int][e]) as int]);
        }
        assert forall|i: int| 0 <= i < n && marked@[i] implies reaches(g@, ids@, i) by {
            assert(path_to(g@, ids@, paths@, i));
            let p = paths@[i];
            assert(dep_path(g@, p) && ids@.contains(p[0]) && p[p.len() - 1] == i as usize);
        }
        assert forall|i: int| 0 <= i < n && reaches(g@, ids@, i) implies marked@[i] by {
            let p = choose|p: Seq<usize>|
                dep_path(g@, p) && ids@.contains(p[0]) && p[p.len() - 1] == i as usize;
            assert(ids@.contains(p[0]));
            let j = choose|j: int| 0 <= j < ids@.len() && ids@[j] == p[0];
            assert(marked@[p[0] as int]);
            lemma_path_marked(g@, marked@, p);
        }
    }
    (marked, wl)
}

impl PreparedState {
    /// Removes each listed node together with, transitively, everything it
    /// depends on.  Surviving dependents are re-derived: their pending
    /// counts drop by the removed occurrences, and active nodes left with
    /// none become ready, queued in ascending id order behind the
    /// surviving queue entries.  Refused once `get_ready` has been called,
    /// and for unknown or already removed ids, in both cases changing
    /// nothing.
    #[verifier::loop_isolation(false)]
    #[verifier::rlimit(100)]
    pub fn remove_nodes(&mut self, ids: &Vec<usize>) -> (r: Result<(), SorterError>)
        requires
            old(self)@.inv(),
        ensures
            final(self)@.inv(),
            final(self)@.graph == old(self)@.graph,
            final(self)@.rank == old(self)@.rank,
            final(self)@.started == old(self)@.started,
            final(self)@.n_passed_out == old(self)@.n_passed_out,
            final(self)@.n_finished == old(self)@.n_finished,
            old(self)@.started ==> r == Err::<(), SorterError>(SorterError::IterationStarted)
                && final(self)@ == old(self)@,
            !old(self)@.started && !ids_valid(old(self)@, ids@) ==> r == Err::<(), SorterError>(
                SorterError::UnknownNode,
            ) && final(self)@ == old(self)@,
            !old(self)@.started && ids_valid(old(self)@, ids@) ==> r is Ok && remove_ok(
                old(self)@,
                ids@,
                final(self)@,
            ),
    {
        let ghost m = self@;
        if self.iter_started {
            return Err(SorterError::IterationStarted);
        }
        let n = self.id2nodeinfo.len();
        let n_ids = ids.len();
        let mut k: usize = 0;
        while k < n_ids
            invariant
                k <= n_ids,
                m == self@,
                forall|j: int|
                    0 <= j < k ==> (#[trigger] ids@[j]) < m.n() && m.info[ids@[j] as int].state
                        != NodeState::Removed,
            decreases n_ids - k,
        {
            let v = ids[k];
            if v >= n {
                return Err(SorterError::UnknownNode);
            }
            let st = self.id2nodeinfo[v].state;
            match st {
                NodeState::Removed => {
                    return Err(SorterError::UnknownNode);
                },
                _ => {},
            }
            k += 1;
        }
        proof {
            assert(ids_valid(m, ids@));
        }
        let (marked, wl) = mark_closure(Ghost(m.graph), &self.dag.deps, ids);
        self.apply_removal(&wl, &marked);
        proof {
            assert forall|i: int|
                0 <= i < m.n() implies ((#[trigger] self@.info[i]).state == NodeState::Removed
                <==> (m.info[i].state == NodeState::Removed || reaches(m.graph, ids@, i))) by {
                assert((self@.info[i].state == NodeState::Removed) <==> (m.info[i].state
                    == NodeState::Removed || marked@[i]));
            }
            assert(remove_ok(m, ids@, self@));
        }
        Ok(())
    }
}

} // verus!
