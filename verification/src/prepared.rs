//! The sealed, running scheduler: an immutable, shared topology plus the
//! small mutable overlay tracking each node's progress, the ready queue
//! and the two counters.
//!
//! Per-node states refine the `Active -> Ready -> Done` state machine by
//! splitting `Ready` into ready-and-queued and ready-and-handed-out, so
//! that marking work done never has to search the queue.  Transitions are
//! strictly monotonic; `Removed` is terminal and reachable only before the
//! first `get_ready`.

use vstd::prelude::*;

use std::rc::Rc;

use crate::cycle::valid_rank;
use crate::errors::SorterError;
use crate::key::NodeKey;
use crate::topology::count_occ;
use crate::topology::GraphModel;
use crate::topology::Topology;

verus! {

/// Where a node stands.  `Ready` means ready and still queued;
/// `HandedOut` means ready and already returned by `get_ready`.
#[derive(Clone, Copy, PartialEq, Eq, Structural, Debug)]
pub enum NodeState {
    /// Some dependency is not yet done.
    Active,
    /// All dependencies done; waiting in the ready queue.
    Ready,
    /// Handed to the caller by `get_ready`; not yet reported done.
    HandedOut,
    /// Reported done.
    Done,
    /// Removed, together with everything it depended on.
    Removed,
}

/// The mutable per-node record.
#[derive(Clone, Copy, Debug)]
pub struct NodeInfo {
    /// Where the node stands.
    pub state: NodeState,
    /// How many of its dependency occurrences are not yet done or removed.
    pub npredecessors: usize,
}

/// A node in this state will never again block a dependent.
pub open spec fn satisfied(s: NodeState) -> bool {
    s == NodeState::Done || s == NodeState::Removed
}

/// How many occurrences in `ds` name a node whose state is not satisfied.
pub open spec fn pending_count(ds: Seq<usize>, info: Seq<NodeInfo>) -> nat
    decreases ds.len(),
{
    if ds.len() == 0 {
        0nat
    } else {
        pending_count(ds.drop_last(), info) + if satisfied(info[ds.last() as int].state) {
            0nat
        } else {
            1nat
        }
    }
}

/// How many records are in state `s`.
pub open spec fn count_state(info: Seq<NodeInfo>, s: NodeState) -> nat
    decreases info.len(),
{
    if info.len() == 0 {
        0nat
    } else {
        count_state(info.drop_last(), s) + if info.last().state == s {
            1nat
        } else {
            0nat
        }
    }
}

/// The ids below `upto` with an empty dependency list, in ascending order.
pub open spec fn zero_dep_ids(g: GraphModel, upto: int) -> Seq<usize>
    decreases upto,
{
    if upto <= 0 {
        Seq::empty()
    } else {
        zero_dep_ids(g, upto - 1) + if g.deps[upto - 1].len() == 0 {
            seq![(upto - 1) as usize]
        } else {
            Seq::empty()
        }
    }
}

/// The mathematical content of a sealed scheduler.
pub struct SchedModel {
    /// The immutable topology.
    pub graph: GraphModel,
    /// The per-node records, indexed by id.
    pub info: Seq<NodeInfo>,
    /// Ids whose state is `Ready`, in enqueue order.
    pub queue: Seq<usize>,
    /// How many nodes `get_ready` has handed out.
    pub n_passed_out: int,
    /// How many nodes were reported done.
    pub n_finished: int,
    /// Whether `get_ready` has ever been called; removal is then barred.
    pub started: bool,
    /// A ranking that decreases along every dependent edge, the sealed-in
    /// witness that the graph is acyclic.
    pub rank: Seq<int>,
}

impl SchedModel {
    /// Number of nodes.
    pub open spec fn n(self) -> int {
        self.graph.n()
    }

    /// The state of node `i`.
    pub open spec fn state(self, i: int) -> NodeState {
        self.info[i].state
    }

    /// Whether node `i` is still part of the graph.
    pub open spec fn live(self, i: int) -> bool {
        self.state(i) != NodeState::Removed
    }

    /// The immutable part is well formed and the acyclicity witness holds.
    pub open spec fn base_inv(self) -> bool {
        &&& self.graph.wf()
        &&& self.info.len() == self.n()
        &&& self.rank.len() == self.n()
        &&& valid_rank(self.graph.dependents, self.rank)
    }

    /// The queue holds exactly the `Ready` ids, each once.
    pub open spec fn queue_inv(self) -> bool {
        &&& forall|k: int|
            0 <= k < self.queue.len() ==> (#[trigger] self.queue[k]) < self.n() && self.info[self.queue[k] as int].state
                == NodeState::Ready
        &&& forall|k1: int, k2: int|
            0 <= k1 < k2 < self.queue.len() ==> self.queue[k1] != self.queue[k2]
        &&& forall|i: int|
            0 <= i < self.n() && (#[trigger] self.info[i]).state == NodeState::Ready
                ==> self.queue.contains(i as usize)
    }

    /// A node is `Active` exactly while its stored count is positive.
    pub open spec fn link_inv(self) -> bool {
        forall|i: int|
            0 <= i < self.n() && self.live(i) ==> ((#[trigger] self.info[i]).state
                == NodeState::Active <==> self.info[i].npredecessors > 0)
    }

    /// The counters are the state counts they claim to be, and nothing is
    /// handed out or done before the first `get_ready`.
    pub open spec fn counts_inv(self) -> bool {
        &&& self.n_passed_out == count_state(self.info, NodeState::HandedOut) + count_state(
            self.info,
            NodeState::Done,
        )
        &&& self.n_finished == count_state(self.info, NodeState::Done)
        &&& !self.started ==> count_state(self.info, NodeState::HandedOut) == 0 && count_state(
            self.info,
            NodeState::Done,
        ) == 0
    }

    /// Everything a removed node depended on is removed too.
    pub open spec fn closed_removed(self) -> bool {
        forall|i: int, k: int|
            0 <= i < self.n() && !self.live(i) && 0 <= k < self.graph.deps[i].len() ==> self.info[(
            #[trigger] self.graph.deps[i][k]) as int].state == NodeState::Removed
    }

    /// Every live node's stored count is the number of its dependency
    /// occurrences not yet satisfied.
    pub open spec fn pending_inv(self) -> bool {
        forall|i: int|
            0 <= i < self.n() && self.live(i) ==> (#[trigger] self.info[i]).npredecessors
                == pending_count(self.graph.deps[i], self.info)
    }

    /// Mid-propagation form of `pending_inv`: the occurrences in `rest`
    /// are satisfied but their decrements have not landed yet.
    pub open spec fn pending_mid(self, rest: Seq<usize>) -> bool {
        forall|i: int|
            0 <= i < self.n() && self.live(i) ==> (#[trigger] self.info[i]).npredecessors
                == pending_count(self.graph.deps[i], self.info) + count_occ(rest, i)
    }

    /// The invariant every operation preserves: the spec's bookkeeping
    /// rules tying pending counts, states, queue membership and the two
    /// counters together.
    pub open spec fn inv(self) -> bool {
        &&& self.base_inv()
        &&& self.queue_inv()
        &&& self.link_inv()
        &&& self.counts_inv()
        &&& self.closed_removed()
        &&& self.pending_inv()
    }

    /// All of `inv` but with the pending counts mid-propagation.
    pub open spec fn mid_inv(self, rest: Seq<usize>) -> bool {
        &&& self.base_inv()
        &&& self.queue_inv()
        &&& self.link_inv()
        &&& self.counts_inv()
        &&& self.closed_removed()
        &&& self.pending_mid(rest)
    }
}

/// One dependency occurrence of `w` was satisfied: its stored count
/// drops by one, and on reaching zero the node becomes ready and is
/// queued.
pub open spec fn apply_dec(m: SchedModel, w: int) -> SchedModel {
    let p = (m.info[w].npredecessors - 1) as usize;
    if p == 0 {
        SchedModel {
            info: m.info.update(w, NodeInfo { state: NodeState::Ready, npredecessors: p }),
            queue: m.queue.push(w as usize),
            ..m
        }
    } else {
        SchedModel {
            info: m.info.update(w, NodeInfo { state: m.info[w].state, npredecessors: p }),
            ..m
        }
    }
}

/// The decrements for every occurrence in `lst`, applied left to right.
pub open spec fn apply_decs(m: SchedModel, lst: Seq<usize>) -> SchedModel
    decreases lst.len(),
{
    if lst.len() == 0 {
        m
    } else {
        apply_decs(apply_dec(m, lst[0] as int), lst.skip(1))
    }
}

/// Why marking `v` done would fail, if it would: unknown or removed ids
/// are rejected, nodes never handed out are not ready, done nodes cannot
/// be done again.
pub open spec fn done_error(m: SchedModel, v: int) -> Option<SorterError> {
    if !(0 <= v < m.n()) || m.state(v) == NodeState::Removed {
        Some(SorterError::UnknownNode)
    } else if m.state(v) == NodeState::Active || m.state(v) == NodeState::Ready {
        Some(SorterError::NodeNotReady)
    } else if m.state(v) == NodeState::Done {
        Some(SorterError::NodeAlreadyDone)
    } else {
        None
    }
}

/// Marking one handed-out node done: its record flips to `Done`, the
/// finished counter grows, and each of its dependents loses one pending
/// occurrence.
pub open spec fn done_step(m: SchedModel, v: int) -> SchedModel {
    let m1 = SchedModel {
        info: m.info.update(
            v,
            NodeInfo { state: NodeState::Done, npredecessors: m.info[v].npredecessors },
        ),
        n_finished: m.n_finished + 1,
        ..m
    };
    apply_decs(m1, m.graph.dependents[v])
}

/// A whole `done` batch: nodes are processed in the given order, each
/// validated on its own; the first failure stops the batch and is
/// returned, with every earlier node's mutation kept.
pub open spec fn done_batch(m: SchedModel, ids: Seq<usize>) -> (SchedModel, Option<SorterError>)
    decreases ids.len(),
{
    if ids.len() == 0 {
        (m, None)
    } else {
        let v = ids[0] as int;
        if done_error(m, v) is Some {
            (m, done_error(m, v))
        } else {
            done_batch(done_step(m, v), ids.skip(1))
        }
    }
}

/// The sealed scheduler.
pub struct PreparedState {
    /// The immutable half, shared between copies.
    pub dag: Rc<Topology>,
    /// The per-node records, indexed by id.
    pub id2nodeinfo: Vec<NodeInfo>,
    /// Ids in state `Ready`, in enqueue order.
    pub ready_nodes: Vec<usize>,
    /// How many nodes `get_ready` has handed out.
    pub n_passed_out: usize,
    /// How many nodes were reported done.
    pub n_finished: usize,
    /// Whether `get_ready` has ever been called.
    pub iter_started: bool,
    /// The acyclicity witness found at seal time.
    pub rank: Ghost<Seq<int>>,
}

impl View for PreparedState {
    type V = SchedModel;

    open spec fn view(&self) -> SchedModel {
        SchedModel {
            graph: self.dag@,
            info: self.id2nodeinfo@,
            queue: self.ready_nodes@,
            n_passed_out: self.n_passed_out as int,
            n_finished: self.n_finished as int,
            started: self.iter_started,
            rank: self.rank@,
        }
    }
}

/// Relies on alloc::rc::Rc::clone: the returned handle points to the very
/// same topology, nothing is copied.
#[verifier::external_body]
fn rc_clone_topology(t: &Rc<Topology>) -> (r: Rc<Topology>)
    ensures
        r == *t,
{
    Rc::clone(t)
}

/// `pending_count` only reads whether each named node is satisfied.
pub proof fn lemma_pending_same_sat(ds: Seq<usize>, info1: Seq<NodeInfo>, info2: Seq<NodeInfo>)
    requires
        info2.len() == info1.len(),
        forall|k: int| 0 <= k < ds.len() ==> (#[trigger] ds[k]) < info1.len(),
        forall|i: int|
            0 <= i < info1.len() ==> satisfied((#[trigger] info1[i]).state) == satisfied(
                info2[i].state,
            ),
    ensures
        pending_count(ds, info1) == pending_count(ds, info2),
    decreases ds.len(),
{
    if ds.len() > 0 {
        lemma_pending_same_sat(ds.drop_last(), info1, info2);
    }
}

/// With no named node satisfied, every occurrence is pending.
proof fn lemma_pending_all_unsat(ds: Seq<usize>, info: Seq<NodeInfo>)
    requires
        forall|k: int|
            0 <= k < ds.len() ==> (#[trigger] ds[k]) < info.len() && !satisfied(
                info[ds[k] as int].state,
            ),
    ensures
        pending_count(ds, info) == ds.len(),
    decreases ds.len(),
{
    if ds.len() > 0 {
        lemma_pending_all_unsat(ds.drop_last(), info);
    }
}

/// How one record update moves each state's count.
proof fn lemma_count_state_update(info: Seq<NodeInfo>, i: int, x: NodeInfo, s: NodeState)
    requires
        0 <= i < info.len(),
    ensures
        count_state(info.update(i, x), s) == count_state(info, s) + (if x.state == s {
            1int
        } else {
            0int
        }) - (if info[i].state == s {
            1int
        } else {
            0int
        }),
    decreases info.len(),
{
    if i == info.len() - 1 {
        assert(info.update(i, x).drop_last() =~= info.drop_last());
    } else {
        assert(info.update(i, x).drop_last() =~= info.drop_last().update(i, x));
        lemma_count_state_update(info.drop_last(), i, x, s);
    }
}

/// No record is counted under two states, so two counts fit in the length.
proof fn lemma_count_state_pair(info: Seq<NodeInfo>, s1: NodeState, s2: NodeState)
    requires
        s1 != s2,
    ensures
        count_state(info, s1) + count_state(info, s2) <= info.len(),
    decreases info.len(),
{
    if info.len() > 0 {
        lemma_count_state_pair(info.drop_last(), s1, s2);
    }
}

/// A count never exceeds the length.
pub proof fn lemma_count_state_le(info: Seq<NodeInfo>, s: NodeState)
    ensures
        count_state(info, s) <= info.len(),
    decreases info.len(),
{
    if info.len() > 0 {
        lemma_count_state_le(info.drop_last(), s);
    }
}

/// A record in state `s` makes the count positive.
pub proof fn lemma_count_state_pos(info: Seq<NodeInfo>, s: NodeState, i: int)
    requires
        0 <= i < info.len(),
        info[i].state == s,
    ensures
        count_state(info, s) >= 1,
    decreases info.len(),
{
    if i < info.len() - 1 {
        lemma_count_state_pos(info.drop_last(), s, i);
    }
}

/// Satisfying the record of `v` takes each pending count down by `v`'s
/// occurrence count.
proof fn lemma_pending_flip(ds: Seq<usize>, info: Seq<NodeInfo>, v: int, x: NodeInfo)
    requires
        0 <= v < info.len(),
        forall|k: int| 0 <= k < ds.len() ==> (#[trigger] ds[k]) < info.len(),
        !satisfied(info[v].state),
        satisfied(x.state),
    ensures
        pending_count(ds, info.update(v, x)) + count_occ(ds, v) == pending_count(ds, info),
    decreases ds.len(),
{
    if ds.len() > 0 {
        lemma_pending_flip(ds.drop_last(), info, v, x);
    }
}

/// A zero pending count cannot name an unsatisfied node.
proof fn lemma_pending_zero_absent(ds: Seq<usize>, info: Seq<NodeInfo>, v: int)
    requires
        pending_count(ds, info) == 0,
        forall|k: int| 0 <= k < ds.len() ==> (#[trigger] ds[k]) < info.len(),
        0 <= v < info.len(),
        !satisfied(info[v].state),
    ensures
        count_occ(ds, v) == 0,
    decreases ds.len(),
{
    if ds.len() > 0 {
        lemma_pending_zero_absent(ds.drop_last(), info, v);
    }
}

/// A sequence with no record in state `s` counts zero.
pub proof fn lemma_count_state_absent(info: Seq<NodeInfo>, s: NodeState)
    requires
        forall|i: int| 0 <= i < info.len() ==> (#[trigger] info[i]).state != s,
    ensures
        count_state(info, s) == 0,
    decreases info.len(),
{
    if info.len() > 0 {
        lemma_count_state_absent(info.drop_last(), s);
    }
}

/// A zero pending count means every listed occurrence is satisfied.
pub proof fn lemma_pending_zero_all_sat(ds: Seq<usize>, info: Seq<NodeInfo>)
    requires
        pending_count(ds, info) == 0,
    ensures
        forall|k: int| 0 <= k < ds.len() ==> satisfied(info[(#[trigger] ds[k]) as int].state),
    decreases ds.len(),
{
    if ds.len() > 0 {
        lemma_pending_zero_all_sat(ds.drop_last(), info);
        assert forall|k: int|
            0 <= k < ds.len() implies satisfied(info[(#[trigger] ds[k]) as int].state) by {
            if k < ds.len() - 1 {
                assert(ds.drop_last()[k] == ds[k]);
            }
        }
    }
}

/// With every listed occurrence satisfied, nothing is pending.
pub proof fn lemma_pending_all_sat(ds: Seq<usize>, info: Seq<NodeInfo>)
    requires
        forall|k: int| 0 <= k < ds.len() ==> satisfied(info[(#[trigger] ds[k]) as int].state),
    ensures
        pending_count(ds, info) == 0,
    decreases ds.len(),
{
    if ds.len() > 0 {
        lemma_pending_all_sat(ds.drop_last(), info);
    }
}

/// When every record is in state `s`, the count is the length.
pub proof fn lemma_count_state_all(info: Seq<NodeInfo>, s: NodeState)
    requires
        forall|i: int| 0 <= i < info.len() ==> (#[trigger] info[i]).state == s,
    ensures
        count_state(info, s) == info.len(),
    decreases info.len(),
{
    if info.len() > 0 {
        lemma_count_state_all(info.drop_last(), s);
    }
}

/// Among the active nodes below `k` there is one of maximal rank.
proof fn lemma_active_argmax(m: SchedModel, k: int) -> (x: int)
    requires
        m.base_inv(),
        1 <= k <= m.n(),
        exists|i: int| 0 <= i < k && m.info[i].state == NodeState::Active,
    ensures
        0 <= x < k,
        m.info[x].state == NodeState::Active,
        forall|i: int|
            0 <= i < k && (#[trigger] m.info[i]).state == NodeState::Active ==> m.rank[i]
                <= m.rank[x],
    decreases k,
{
    if m.info[k - 1].state == NodeState::Active {
        if exists|i: int| 0 <= i < k - 1 && m.info[i].state == NodeState::Active {
            let y = lemma_active_argmax(m, k - 1);
            if m.rank[k - 1] >= m.rank[y] {
                k - 1
            } else {
                y
            }
        } else {
            k - 1
        }
    } else {
        let i0 = choose|i: int| 0 <= i < k && m.info[i].state == NodeState::Active;
        assert(0 <= i0 < k - 1 && m.info[i0].state == NodeState::Active);
        lemma_active_argmax(m, k - 1)
    }
}

/// Completeness of the drain: with the queue empty, no handed-out work
/// outstanding and nothing removed, every node is done.  An active node
/// of maximal rank would need an unfinished dependency of strictly
/// higher rank, which cannot exist.
pub proof fn lemma_all_done(m: SchedModel)
    requires
        m.inv(),
        m.queue.len() == 0,
        m.n_passed_out == m.n_finished,
        forall|i: int| 0 <= i < m.n() ==> (#[trigger] m.info[i]).state != NodeState::Removed,
    ensures
        forall|i: int| 0 <= i < m.n() ==> (#[trigger] m.info[i]).state == NodeState::Done,
{
    assert(count_state(m.info, NodeState::HandedOut) == 0);
    assert forall|i: int|
        0 <= i < m.n() implies (#[trigger] m.info[i]).state != NodeState::Ready by {
        if m.info[i].state == NodeState::Ready {
            assert(m.queue.contains(i as usize));
        }
    }
    assert forall|i: int|
        0 <= i < m.n() implies (#[trigger] m.info[i]).state != NodeState::HandedOut by {
        if m.info[i].state == NodeState::HandedOut {
            lemma_count_state_pos(m.info, NodeState::HandedOut, i);
        }
    }
    if exists|i: int| 0 <= i < m.n() && m.info[i].state == NodeState::Active {
        let x = lemma_active_argmax(m, m.n());
        assert forall|e: int| 0 <= e < m.graph.deps[x].len() implies satisfied(
            m.info[(#[trigger] m.graph.deps[x][e]) as int].state,
        ) by {
            let d = m.graph.deps[x][e] as int;
            crate::topology::lemma_count_occ_pos(m.graph.deps[x], d);
            assert(count_occ(m.graph.deps[x], d) > 0);
            assert(count_occ(m.graph.dependents[d], x) > 0);
            crate::topology::lemma_count_occ_pos(m.graph.dependents[d], x);
            let kk = choose|kk: int|
                0 <= kk < m.graph.dependents[d].len() && m.graph.dependents[d][kk] == x;
            assert(m.rank[(m.graph.dependents[d][kk]) as int] < m.rank[d]);
            assert(m.rank[x] < m.rank[d]);
            assert(m.info[d].state != NodeState::Active);
            assert(m.info[d].state == NodeState::Done);
        }
        lemma_pending_all_sat(m.graph.deps[x], m.info);
        assert(m.info[x].npredecessors == 0);
        assert(false);
    }
}

/// Flipping a handed-out node to `Done` leaves the scheduler in the
/// mid-propagation state where every occurrence in its dependent list
/// still awaits its decrement.
proof fn lemma_done_start(m: SchedModel, v: int)
    requires
        m.inv(),
        0 <= v < m.n(),
        m.state(v) == NodeState::HandedOut,
    ensures
        m.info[v].npredecessors == 0,
        m.started,
        ({
            let m1 = SchedModel {
                info: m.info.update(
                    v,
                    NodeInfo { state: NodeState::Done, npredecessors: m.info[v].npredecessors },
                ),
                n_finished: m.n_finished + 1,
                ..m
            };
            m1.mid_inv(m.graph.dependents[v])
        }),
{
    let x = NodeInfo { state: NodeState::Done, npredecessors: m.info[v].npredecessors };
    let m1 = SchedModel {
        info: m.info.update(v, x),
        n_finished: m.n_finished + 1,
        ..m
    };
    let lst = m.graph.dependents[v];
    assert(m.live(v));
    assert(m.info[v].npredecessors == 0);
    if !m.started {
        lemma_count_state_pos(m.info, NodeState::HandedOut, v);
        assert(false);
    }
    assert forall|i: int| 0 <= i < m1.n() && m1.live(i) implies (
    #[trigger] m1.info[i]).npredecessors == pending_count(m1.graph.deps[i], m1.info) + count_occ(
        lst,
        i,
    ) by {
        assert forall|k: int|
            0 <= k < m.graph.deps[i].len() implies (#[trigger] m.graph.deps[i][k])
            < m.info.len() by {}
        lemma_pending_flip(m.graph.deps[i], m.info, v, x);
        assert(count_occ(m.graph.deps[i], v) == count_occ(m.graph.dependents[v], i));
        if i == v {
            lemma_pending_zero_absent(m.graph.deps[v], m.info, v);
        } else {
            assert(m.live(i));
            assert(m.info[i].npredecessors == pending_count(m.graph.deps[i], m.info));
        }
    }
    assert forall|i: int|
        0 <= i < m1.n() && (#[trigger] m1.info[i]).state == NodeState::Ready implies m1.queue.contains(
        i as usize,
    ) by {
        assert(i != v);
        assert(m.info[i].state == NodeState::Ready);
    }
    lemma_count_state_update(m.info, v, x, NodeState::HandedOut);
    lemma_count_state_update(m.info, v, x, NodeState::Done);
    assert forall|i: int, k: int|
        0 <= i < m1.n() && !m1.live(i) && 0 <= k < m1.graph.deps[i].len() implies m1.info[(
    #[trigger] m1.graph.deps[i][k]) as int].state == NodeState::Removed by {
        assert(i != v);
        assert(!m.live(i));
        assert(m.info[m.graph.deps[i][k] as int].state == NodeState::Removed);
        assert(m.graph.deps[i][k] != v);
    }
    assert(m1.mid_inv(lst));
}

/// One propagation step: the node named at position `e` of the done
/// node's dependent list is live, its stored count positive, and the
/// decrement carries the mid-propagation invariant one occurrence
/// further.
proof fn lemma_propagate_step(m: SchedModel, v: int, e: int)
    requires
        0 <= v < m.n(),
        m.state(v) == NodeState::Done,
        0 <= e < m.graph.dependents[v].len(),
        m.mid_inv(m.graph.dependents[v].skip(e)),
    ensures
        (m.graph.dependents[v][e] as int) < m.n(),
        m.live(m.graph.dependents[v][e] as int),
        m.info[m.graph.dependents[v][e] as int].npredecessors >= 1,
        apply_dec(m, m.graph.dependents[v][e] as int).mid_inv(
            m.graph.dependents[v].skip(e + 1),
        ),
{
    let w = m.graph.dependents[v][e] as int;
    let rest = m.graph.dependents[v].skip(e);
    assert(rest[0] == m.graph.dependents[v][e]);
    assert(rest.skip(1) =~= m.graph.dependents[v].skip(e + 1));
    crate::topology::lemma_count_occ_skip1(rest, w);
    assert(count_occ(rest, w) >= 1);
    // w is live: a removed dependent would force v itself removed.
    crate::topology::lemma_count_occ_skip_le(m.graph.dependents[v], e, w);
    assert(count_occ(m.graph.deps[w], v) == count_occ(m.graph.dependents[v], w));
    if !m.live(w) {
        crate::topology::lemma_count_occ_pos(m.graph.deps[w], v);
        let k = choose|k: int| 0 <= k < m.graph.deps[w].len() && m.graph.deps[w][k] == v;
        assert(m.info[m.graph.deps[w][k] as int].state == NodeState::Removed);
        assert(false);
    }
    assert(m.info[w].npredecessors == pending_count(m.graph.deps[w], m.info) + count_occ(rest, w));
    let p = (m.info[w].npredecessors - 1) as usize;
    let was_active = m.info[w].state == NodeState::Active;
    assert(was_active);
    let x = if p == 0 {
        NodeInfo { state: NodeState::Ready, npredecessors: p }
    } else {
        NodeInfo { state: m.info[w].state, npredecessors: p }
    };
    let m2 = apply_dec(m, w);
    assert(m2.info == m.info.update(w, x));
    // pending counts only read satisfied-ness, which the step preserves.
    assert forall|i: int| 0 <= i < m2.n() && m2.live(i) implies (
    #[trigger] m2.info[i]).npredecessors == pending_count(m2.graph.deps[i], m2.info) + count_occ(
        rest.skip(1),
        i,
    ) by {
        assert forall|k: int|
            0 <= k < m.graph.deps[i].len() implies (#[trigger] m.graph.deps[i][k])
            < m.info.len() by {}
        lemma_pending_same_sat(m.graph.deps[i], m.info, m2.info);
        assert(m.live(i));
        assert(m.info[i].npredecessors == pending_count(m.graph.deps[i], m.info) + count_occ(
            rest,
            i,
        ));
        crate::topology::lemma_count_occ_skip1(rest, i);
    }
    // queue: on reaching zero w is enqueued, fresh because it was active.
    if p == 0 {
        assert forall|k: int| 0 <= k < m2.queue.len() implies (#[trigger] m2.queue[k]) < m2.n()
            && m2.info[m2.queue[k] as int].state == NodeState::Ready by {
            if k < m.queue.len() {
                assert(m.info[m.queue[k] as int].state == NodeState::Ready);
                assert(m.queue[k] != w);
            }
        }
        assert forall|k1: int, k2: int|
            0 <= k1 < k2 < m2.queue.len() implies m2.queue[k1] != m2.queue[k2] by {
            if k2 < m.queue.len() {
            } else {
                assert(m2.queue[k2] == w as usize);
                if k1 < m.queue.len() {
                    assert(m.info[m.queue[k1] as int].state == NodeState::Ready);
                }
            }
        }
        assert forall|i: int|
            0 <= i < m2.n() && (#[trigger] m2.info[i]).state == NodeState::Ready implies m2.queue.contains(
            i as usize,
        ) by {
            if i == w {
                assert(m2.queue[m2.queue.len() - 1] == w as usize);
            } else {
                assert(m.info[i].state == NodeState::Ready);
                assert(m.queue.contains(i as usize));
                let k = choose|k: int| 0 <= k < m.queue.len() && m.queue[k] == i as usize;
                assert(m2.queue[k] == i as usize);
            }
        }
    } else {
        assert forall|i: int|
            0 <= i < m2.n() && (#[trigger] m2.info[i]).state == NodeState::Ready implies m2.queue.contains(
            i as usize,
        ) by {
            assert(i != w);
            assert(m.info[i].state == NodeState::Ready);
        }
    }
    lemma_count_state_update(m.info, w, x, NodeState::HandedOut);
    lemma_count_state_update(m.info, w, x, NodeState::Done);
    assert forall|i: int, k: int|
        0 <= i < m2.n() && !m2.live(i) && 0 <= k < m2.graph.deps[i].len() implies m2.info[(
    #[trigger] m2.graph.deps[i][k]) as int].state == NodeState::Removed by {
        assert(i != w);
        assert(!m.live(i));
        assert(m.info[m.graph.deps[i][k] as int].state == NodeState::Removed);
        assert(m.graph.deps[i][k] != w);
    }
    assert(m2.mid_inv(rest.skip(1)));
}

/// What `zero_dep_ids` holds: exactly the ids below `upto` without
/// dependencies, in strictly ascending order.
proof fn lemma_zero_dep_ids(g: GraphModel, upto: int)
    requires
        upto <= usize::MAX,
    ensures
        forall|k: int|
            0 <= k < zero_dep_ids(g, upto).len() ==> (#[trigger] zero_dep_ids(g, upto)[k]) < upto
                && g.deps[zero_dep_ids(g, upto)[k] as int].len() == 0,
        forall|i: int|
            0 <= i < upto && g.deps[i].len() == 0 ==> zero_dep_ids(g, upto).contains(i as usize),
        forall|k1: int, k2: int|
            0 <= k1 < k2 < zero_dep_ids(g, upto).len() ==> zero_dep_ids(g, upto)[k1]
                < zero_dep_ids(g, upto)[k2],
    decreases upto,
{
    if upto > 0 {
        lemma_zero_dep_ids(g, upto - 1);
        let prev = zero_dep_ids(g, upto - 1);
        let cur = zero_dep_ids(g, upto);
        if g.deps[upto - 1].len() == 0 {
            assert(cur =~= prev.push((upto - 1) as usize));
            assert forall|i: int|
                0 <= i < upto && g.deps[i].len() == 0 implies cur.contains(i as usize) by {
                if i < upto - 1 {
                    assert(prev.contains(i as usize));
                    let k = choose|k: int| 0 <= k < prev.len() && prev[k] == i as usize;
                    assert(cur[k] == i as usize);
                } else {
                    assert(cur[cur.len() - 1] == i as usize);
                }
            }
        } else {
            assert(cur =~= prev);
            assert forall|i: int|
                0 <= i < upto && g.deps[i].len() == 0 implies cur.contains(i as usize) by {
                assert(i != upto - 1);
                assert(prev.contains(i as usize));
                let k = choose|k: int| 0 <= k < prev.len() && prev[k] == i as usize;
                assert(cur[k] == i as usize);
            }
        }
        assert forall|k: int| 0 <= k < cur.len() implies (#[trigger] cur[k]) < upto
            && g.deps[cur[k] as int].len() == 0 by {
            if k < prev.len() {
                assert(cur[k] == prev[k]);
            }
        }
        assert forall|k1: int, k2: int| 0 <= k1 < k2 < cur.len() implies cur[k1] < cur[k2] by {
            if k2 < prev.len() {
                assert(cur[k1] == prev[k1] && cur[k2] == prev[k2]);
            } else {
                assert(cur[k1] == prev[k1]);
                assert(prev[k1] < upto - 1);
            }
        }
    }
}

impl PreparedState {
    /// Seals a finished topology: every node starts `Active` with its full
    /// dependency count, except that nodes without dependencies start
    /// `Ready` and are queued in id order.  Counters start at zero and no
    /// iteration has begun.
    pub fn seal(dag: Topology, rank: Ghost<Seq<int>>) -> (r: PreparedState)
        requires
            dag@.wf(),
            rank@.len() == dag@.n(),
            valid_rank(dag@.dependents, rank@),
        ensures
            r@.inv(),
            r@.graph == dag@,
            r@.rank == rank@,
            r@.n_passed_out == 0,
            r@.n_finished == 0,
            !r@.started,
            r@.queue == zero_dep_ids(dag@, dag@.n()),
            forall|i: int|
                0 <= i < dag@.n() ==> (#[trigger] r@.info[i]).npredecessors == dag@.deps[i].len()
                    && r@.info[i].state == (if dag@.deps[i].len() == 0 {
                    NodeState::Ready
                } else {
                    NodeState::Active
                }),
    {
        let ghost g = dag@;
        let n = dag.keys.len();
        let mut info: Vec<NodeInfo> = Vec::new();
        let mut ready: Vec<usize> = Vec::new();
        let mut i: usize = 0;
        while i < n
            invariant
                i <= n,
                n == g.n(),
                g == dag@,
                g.wf(),
                info@.len() == i,
                forall|j: int|
                    0 <= j < i ==> (#[trigger] info@[j]).npredecessors == g.deps[j].len()
                        && info@[j].state == (if g.deps[j].len() == 0 {
                        NodeState::Ready
                    } else {
                        NodeState::Active
                    }),
                ready@ == zero_dep_ids(g, i as int),
            decreases n - i,
        {
            let p = dag.deps[i].len();
            if p == 0 {
                info.push(NodeInfo { state: NodeState::Ready, npredecessors: 0 });
                ready.push(i);
                proof {
                    assert(zero_dep_ids(g, i as int + 1) =~= zero_dep_ids(g, i as int).push(i));
                }
            } else {
                info.push(NodeInfo { state: NodeState::Active, npredecessors: p });
                proof {
                    assert(zero_dep_ids(g, i as int + 1) =~= zero_dep_ids(g, i as int));
                }
            }
            i += 1;
        }
        let r = PreparedState {
            dag: Rc::new(dag),
            id2nodeinfo: info,
            ready_nodes: ready,
            n_passed_out: 0,
            n_finished: 0,
            iter_started: false,
            rank,
        };
        proof {
            let m = r@;
            lemma_zero_dep_ids(g, g.n());
            lemma_count_state_absent(m.info, NodeState::HandedOut);
            lemma_count_state_absent(m.info, NodeState::Done);
            assert forall|i2: int| 0 <= i2 < m.n() && m.live(i2) implies (
            #[trigger] m.info[i2]).npredecessors == pending_count(m.graph.deps[i2], m.info) by {
                assert forall|k: int| 0 <= k < m.graph.deps[i2].len() implies (
                #[trigger] m.graph.deps[i2][k]) < m.info.len() && !satisfied(
                    m.info[m.graph.deps[i2][k] as int].state,
                ) by {
                    let d = m.graph.deps[i2][k] as int;
                    assert(m.info[d].state == NodeState::Ready || m.info[d].state
                        == NodeState::Active);
                }
                lemma_pending_all_unsat(m.graph.deps[i2], m.info);
            }
            assert(m.inv());
        }
        r
    }

    /// Whether the run is unfinished: some handed-out node is not yet done,
    /// or ready work is still queued.
    pub fn is_active(&self) -> (r: bool)
        ensures
            r == (self@.n_finished < self@.n_passed_out || self@.queue.len() > 0),
    {
        self.n_finished < self.n_passed_out || self.ready_nodes.len() > 0
    }

    /// Drains the whole ready queue: every queued node becomes handed-out,
    /// the passed-out counter grows by the batch, and the drained nodes'
    /// keys are returned in queue order.  An empty result means no
    /// newly-unblocked work exists yet.
    #[verifier::rlimit(50)]
    pub fn get_ready(&mut self) -> (r: Vec<NodeKey>)
        requires
            old(self)@.inv(),
        ensures
            final(self)@.inv(),
            final(self)@.graph == old(self)@.graph,
            final(self)@.rank == old(self)@.rank,
            final(self)@.queue == Seq::<usize>::empty(),
            final(self)@.started,
            final(self)@.n_finished == old(self)@.n_finished,
            final(self)@.n_passed_out == old(self)@.n_passed_out + old(self)@.queue.len(),
            r@.len() == old(self)@.queue.len(),
            forall|k: int|
                0 <= k < r@.len() ==> r@[k] == old(self)@.graph.keys[(
                #[trigger] old(self)@.queue[k]) as int],
            forall|i: int|
                0 <= i < old(self)@.n() ==> (#[trigger] final(self)@.info[i]) == (
                if old(self)@.info[i].state == NodeState::Ready {
                    NodeInfo { state: NodeState::HandedOut, npredecessors: 0 }
                } else {
                    old(self)@.info[i]
                }),
    {
        let ghost m0 = self@;
        self.iter_started = true;
        let mut drained: Vec<usize> = Vec::new();
        std::mem::swap(&mut drained, &mut self.ready_nodes);
        let mut out: Vec<NodeKey> = Vec::new();
        let mut k: usize = 0;
        let len = drained.len();
        while k < len
            invariant
                k <= len,
                len == m0.queue.len(),
                drained@ == m0.queue,
                m0.inv(),
                self.dag@ == m0.graph,
                self.rank@ == m0.rank,
                self.iter_started,
                self.ready_nodes@.len() == 0,
                self.n_passed_out == m0.n_passed_out,
                self.n_finished == m0.n_finished,
                self.id2nodeinfo@.len() == m0.n(),
                out@.len() == k,
                forall|k2: int|
                    0 <= k2 < k ==> out@[k2] == m0.graph.keys[(#[trigger] m0.queue[k2]) as int],
                forall|k2: int|
                    0 <= k2 < k ==> (#[trigger] self.id2nodeinfo@[m0.queue[k2] as int]) == (
                    NodeInfo { state: NodeState::HandedOut, npredecessors: 0 }),
                forall|i: int|
                    0 <= i < m0.n() && (forall|k2: int| 0 <= k2 < k ==> m0.queue[k2] != i)
                        ==> (#[trigger] self.id2nodeinfo@[i]) == m0.info[i],
                count_state(self.id2nodeinfo@, NodeState::HandedOut) == count_state(
                    m0.info,
                    NodeState::HandedOut,
                ) + k,
                count_state(self.id2nodeinfo@, NodeState::Done) == count_state(
                    m0.info,
                    NodeState::Done,
                ),
            decreases len - k,
        {
            let id = drained[k];
            let ghost pre_info = self.id2nodeinfo@;
            proof {
                assert(m0.queue[k as int] == id);
                assert(m0.info[id as int].state == NodeState::Ready);
                assert(pre_info[id as int] == m0.info[id as int]);
                assert(m0.info[id as int].npredecessors == 0);
            }
            self.id2nodeinfo[id] = NodeInfo { state: NodeState::HandedOut, npredecessors: 0 };
            out.push(self.dag.keys[id]);
            proof {
                lemma_count_state_update(
                    pre_info,
                    id as int,
                    NodeInfo { state: NodeState::HandedOut, npredecessors: 0 },
                    NodeState::HandedOut,
                );
                lemma_count_state_update(
                    pre_info,
                    id as int,
                    NodeInfo { state: NodeState::HandedOut, npredecessors: 0 },
                    NodeState::Done,
                );
            }
            k += 1;
        }
        let info_len = self.id2nodeinfo.len();
        proof {
            assert(info_len == self.id2nodeinfo@.len());
            lemma_count_state_pair(self.id2nodeinfo@, NodeState::HandedOut, NodeState::Done);
            assert(self.n_passed_out + len <= info_len);
        }
        self.n_passed_out = self.n_passed_out + len;
        proof {
            let m = self@;
            assert forall|i: int| 0 <= i < m.n() implies (#[trigger] m.info[i]) == (
            if m0.info[i].state == NodeState::Ready {
                NodeInfo { state: NodeState::HandedOut, npredecessors: 0 }
            } else {
                m0.info[i]
            }) by {
                if m0.info[i].state == NodeState::Ready {
                    assert(m0.queue.contains(i as usize));
                    let k2 = choose|k2: int| 0 <= k2 < m0.queue.len() && m0.queue[k2] == i as usize;
                    assert(m.info[m0.queue[k2] as int] == (NodeInfo {
                        state: NodeState::HandedOut,
                        npredecessors: 0,
                    }));
                } else {
                    if exists|k2: int| 0 <= k2 < m0.queue.len() && m0.queue[k2] == i as usize {
                        let k2 = choose|k2: int|
                            0 <= k2 < m0.queue.len() && m0.queue[k2] == i as usize;
                        assert(m0.info[m0.queue[k2] as int].state == NodeState::Ready);
                        assert(false);
                    }
                }
            }
            assert forall|i: int| 0 <= i < m.n() && m.live(i) implies (
            #[trigger] m.info[i]).npredecessors == pending_count(m.graph.deps[i], m.info) by {
                lemma_pending_same_sat(m.graph.deps[i], m0.info, m.info);
            }
            assert(m.inv());
        }
        out
    }

    /// Marks each listed id done, in the order given, each validated on
    /// its own: a handed-out node flips to `Done`, the finished counter
    /// grows, and every dependent loses one pending occurrence per listed
    /// edge, becoming ready and queued on reaching zero.  The first
    /// failing node stops the batch with its error; earlier nodes keep
    /// their mutations.
    #[verifier::rlimit(100)]
    pub fn mark_nodes_as_done(&mut self, nodes: &Vec<usize>) -> (r: Result<(), SorterError>)
        requires
            old(self)@.inv(),
        ensures
            final(self)@.inv(),
            final(self)@ == done_batch(old(self)@, nodes@).0,
            match r {
                Ok(_) => done_batch(old(self)@, nodes@).1 is None,
                Err(e) => done_batch(old(self)@, nodes@).1 == Some(e),
            },
            final(self)@.graph == old(self)@.graph,
            final(self)@.rank == old(self)@.rank,
            final(self)@.started == old(self)@.started,
            final(self)@.n_passed_out == old(self)@.n_passed_out,
            r is Ok ==> final(self)@.n_finished == old(self)@.n_finished + nodes@.len(),
            forall|i: int|
                0 <= i < old(self)@.n() ==> ((final(self)@.info[i].state == NodeState::Removed)
                    <==> ((#[trigger] old(self)@.info[i]).state == NodeState::Removed)),
            r is Ok ==> forall|i: int|
                0 <= i < old(self)@.n() ==> ((final(self)@.info[i].state == NodeState::Done) <==> ((
                #[trigger] old(self)@.info[i]).state == NodeState::Done || nodes@.contains(
                    i as usize,
                ))),
            (forall|k1: int, k2: int| 0 <= k1 < k2 < nodes@.len() ==> nodes@[k1] != nodes@[k2])
                && (forall|k: int|
                0 <= k < nodes@.len() ==> (#[trigger] nodes@[k]) < old(self)@.n()
                    && old(self)@.info[nodes@[k] as int].state == NodeState::HandedOut) ==> r is Ok,
    {
        let ghost m_start = self@;
        let ghost goal = done_batch(m_start, nodes@);
        proof {
            assert(nodes@.skip(0) =~= nodes@);
        }
        let n_nodes = nodes.len();
        let mut idx: usize = 0;
        while idx < n_nodes
            invariant
                idx <= n_nodes,
                n_nodes == nodes@.len(),
                self@.inv(),
                m_start == old(self)@,
                goal == done_batch(m_start, nodes@),
                done_batch(self@, nodes@.skip(idx as int)) == goal,
                self@.graph == m_start.graph,
                self@.rank == m_start.rank,
                self@.started == m_start.started,
                self@.n_passed_out == m_start.n_passed_out,
                self@.n_finished == m_start.n_finished + idx,
                forall|i: int|
                    0 <= i < self@.n() ==> ((self@.info[i].state == NodeState::Removed) <==> ((
                    #[trigger] m_start.info[i]).state == NodeState::Removed)),
                forall|i: int|
                    0 <= i < self@.n() ==> ((self@.info[i].state == NodeState::Done) <==> ((
                    #[trigger] m_start.info[i]).state == NodeState::Done || nodes@.take(
                        idx as int,
                    ).contains(i as usize))),
                forall|i: int|
                    0 <= i < self@.n() ==> ((self@.info[i].state == NodeState::HandedOut) <==> ((
                    #[trigger] m_start.info[i]).state == NodeState::HandedOut && !nodes@.take(
                        idx as int,
                    ).contains(i as usize))),
            decreases n_nodes - idx,
        {
            let v = nodes[idx];
            let ghost rest_ids = nodes@.skip(idx as int);
            proof {
                assert(rest_ids[0] == v);
            }
            let n_all = self.id2nodeinfo.len();
            if v >= n_all {
                proof {
                    assert(rest_ids.len() > 0);
                    assert(done_error(self@, v as int) == Some(SorterError::UnknownNode));
                    assert(done_batch(self@, rest_ids) == (self@, Some(SorterError::UnknownNode)));
                    assert(goal == (self@, Some(SorterError::UnknownNode)));
                }
                return Err(SorterError::UnknownNode);
            }
            let st = self.id2nodeinfo[v].state;
            match st {
                NodeState::Active => {
                    return Err(SorterError::NodeNotReady);
                },
                NodeState::Ready => {
                    return Err(SorterError::NodeNotReady);
                },
                NodeState::Done => {
                    return Err(SorterError::NodeAlreadyDone);
                },
                NodeState::Removed => {
                    return Err(SorterError::UnknownNode);
                },
                NodeState::HandedOut => {},
            }
            let ghost m_pre = self@;
            proof {
                lemma_done_start(m_pre, v as int);
            }
            let p_v = self.id2nodeinfo[v].npredecessors;
            self.id2nodeinfo[v] = NodeInfo { state: NodeState::Done, npredecessors: p_v };
            let fin = self.n_finished;
            proof {
                lemma_count_state_update(
                    m_pre.info,
                    v as int,
                    NodeInfo { state: NodeState::Done, npredecessors: p_v },
                    NodeState::Done,
                );
                lemma_count_state_le(self.id2nodeinfo@, NodeState::Done);
                assert(fin + 1 <= self.id2nodeinfo@.len());
            }
            self.n_finished = fin + 1;
            let ghost m_done = self@;
            proof {
                assert(m_done == (SchedModel {
                    info: m_pre.info.update(
                        v as int,
                        NodeInfo { state: NodeState::Done, npredecessors: p_v },
                    ),
                    n_finished: m_pre.n_finished + 1,
                    ..m_pre
                }));
                assert(m_done.mid_inv(m_pre.graph.dependents[v as int]));
                assert(m_pre.graph.dependents[v as int].skip(0) =~= m_pre.graph.dependents[v as int]);
            }
            let dep_len = self.dag.dependents[v].len();
            let mut e: usize = 0;
            while e < dep_len
                invariant
                    e <= dep_len,
                    self@.graph == m_pre.graph,
                    0 <= (v as int) < self@.n(),
                    dep_len == self@.graph.dependents[v as int].len(),
                    self@.state(v as int) == NodeState::Done,
                    self@.mid_inv(self@.graph.dependents[v as int].skip(e as int)),
                    self@.info.len() == self@.n(),
                    apply_decs(self@, self@.graph.dependents[v as int].skip(e as int))
                        == done_step(m_pre, v as int),
                    self@.n_finished == m_done.n_finished,
                    self@.n_passed_out == m_done.n_passed_out,
                    self@.started == m_done.started,
                    self@.rank == m_done.rank,
                    forall|i: int|
                        0 <= i < self@.n() ==> ((#[trigger] self@.info[i]).state
                            == m_done.info[i].state || (m_done.info[i].state == NodeState::Active
                            && self@.info[i].state == NodeState::Ready)),
                decreases dep_len - e,
            {
                let ghost m_head = self@;
                let ghost rest = m_head.graph.dependents[v as int].skip(e as int);
                proof {
                    lemma_propagate_step(m_head, v as int, e as int);
                    assert(rest[0] == m_head.graph.dependents[v as int][e as int]);
                }
                let w = self.dag.dependents[v][e];
                let pw = self.id2nodeinfo[w].npredecessors;
                let new_p = pw - 1;
                if new_p == 0 {
                    self.id2nodeinfo[w] = NodeInfo { state: NodeState::Ready, npredecessors: 0 };
                    self.ready_nodes.push(w);
                } else {
                    let stw = self.id2nodeinfo[w].state;
                    self.id2nodeinfo[w] = NodeInfo { state: stw, npredecessors: new_p };
                }
                proof {
                    let m2 = apply_dec(m_head, w as int);
                    assert(self@.info =~= m2.info);
                    assert(self@.queue =~= m2.queue);
                    assert(self@ == m2);
                    assert(rest.skip(1) =~= m_head.graph.dependents[v as int].skip(e as int + 1));
                }
                e += 1;
            }
            proof {
                assert(self@.graph.dependents[v as int].skip(dep_len as int) =~= Seq::<
                    usize,
                >::empty());
                assert(self@ == done_step(m_pre, v as int));
                assert forall|i: int| 0 <= i < self@.n() && self@.live(i) implies (
                #[trigger] self@.info[i]).npredecessors == pending_count(
                    self@.graph.deps[i],
                    self@.info,
                ) by {
                    assert(count_occ(Seq::<usize>::empty(), i) == 0);
                }
                assert(self@.inv());
                assert(rest_ids.skip(1) =~= nodes@.skip(idx as int + 1));
                assert(done_error(m_pre, v as int) is None);
                assert(done_batch(self@, nodes@.skip(idx as int + 1)) == goal);
                assert(nodes@.take(idx as int + 1) =~= nodes@.take(idx as int).push(v));
                let taken = nodes@.take(idx as int);
                let taken1 = nodes@.take(idx as int + 1);
                assert forall|i: int|
                    0 <= i < self@.n() implies ((self@.info[i].state == NodeState::Done) <==> ((
                #[trigger] m_start.info[i]).state == NodeState::Done || taken1.contains(
                    i as usize,
                ))) by {
                    assert(self@.info[i].state == m_done.info[i].state || (m_done.info[i].state
                        == NodeState::Active && self@.info[i].state == NodeState::Ready));
                    if taken1.contains(i as usize) {
                        let j = choose|j: int| 0 <= j < taken1.len() && taken1[j] == i as usize;
                        if j < idx {
                            assert(taken[j] == i as usize);
                            assert(taken.contains(i as usize));
                        } else {
                            assert(i == v as int);
                        }
                    }
                    if taken.contains(i as usize) {
                        let j = choose|j: int| 0 <= j < taken.len() && taken[j] == i as usize;
                        assert(taken1[j] == i as usize);
                        assert(taken1.contains(i as usize));
                    }
                    if i == v as int {
                        assert(taken1[idx as int] == v);
                        assert(taken1.contains(v));
                    }
                }
                assert forall|i: int|
                    0 <= i < self@.n() implies ((self@.info[i].state == NodeState::HandedOut) <==> ((
                #[trigger] m_start.info[i]).state == NodeState::HandedOut && !taken1.contains(
                    i as usize,
                ))) by {
                    assert(self@.info[i].state == m_done.info[i].state || (m_done.info[i].state
                        == NodeState::Active && self@.info[i].state == NodeState::Ready));
                    if taken1.contains(i as usize) {
                        let j = choose|j: int| 0 <= j < taken1.len() && taken1[j] == i as usize;
                        if j < idx {
                            assert(taken[j] == i as usize);
                            assert(taken.contains(i as usize));
                        } else {
                            assert(i == v as int);
                        }
                    }
                    if taken.contains(i as usize) {
                        let j = choose|j: int| 0 <= j < taken.len() && taken[j] == i as usize;
                        assert(taken1[j] == i as usize);
                        assert(taken1.contains(i as usize));
                    }
                    if i == v as int {
                        assert(taken1[idx as int] == v);
                        assert(taken1.contains(v));
                    }
                }
                assert forall|i: int|
                    0 <= i < self@.n() implies ((self@.info[i].state == NodeState::Removed) <==> ((
                #[trigger] m_start.info[i]).state == NodeState::Removed)) by {
                    assert(self@.info[i].state == m_done.info[i].state || (m_done.info[i].state
                        == NodeState::Active && self@.info[i].state == NodeState::Ready));
                }
            }
            idx += 1;
        }
        proof {
            assert(nodes@.skip(n_nodes as int) =~= Seq::<usize>::empty());
        }
        Ok(())
    }

    /// An independent scheduler over the same shared topology: the mutable
    /// overlay is copied, so later mutation of either side never shows in
    /// the other.
    pub fn copy(&self) -> (r: PreparedState)
        ensures
            r@ == self@,
    {
        let mut info: Vec<NodeInfo> = Vec::new();
        let mut k: usize = 0;
        let n = self.id2nodeinfo.len();
        while k < n
            invariant
                k <= n,
                n == self.id2nodeinfo@.len(),
                info@ =~= self.id2nodeinfo@.take(k as int),
            decreases n - k,
        {
            info.push(self.id2nodeinfo[k]);
            k += 1;
        }
        let mut queue: Vec<usize> = Vec::new();
        let mut k2: usize = 0;
        let qn = self.ready_nodes.len();
        while k2 < qn
            invariant
                k2 <= qn,
                qn == self.ready_nodes@.len(),
                queue@ =~= self.ready_nodes@.take(k2 as int),
            decreases qn - k2,
        {
            queue.push(self.ready_nodes[k2]);
            k2 += 1;
        }
        let r = PreparedState {
            dag: rc_clone_topology(&self.dag),
            id2nodeinfo: info,
            ready_nodes: queue,
            n_passed_out: self.n_passed_out,
            n_finished: self.n_finished,
            iter_started: self.iter_started,
            rank: Ghost(self.rank@),
        };
        proof {
            assert(info@ =~= self.id2nodeinfo@);
            assert(queue@ =~= self.ready_nodes@);
        }
        r
    }
}

} // verus!
