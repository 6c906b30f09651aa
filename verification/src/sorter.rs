//! The public face of the scheduler: a sorter that accumulates nodes and
//! edges, is sealed once with `prepare`, and then hands out ready work
//! until the graph is drained.

use vstd::prelude::*;

use crate::cycle::adj_wf;
use crate::cycle::find_cycle;
use crate::cycle::cycle_report;
use crate::cycle::valid_cycle;
use crate::cycle::valid_rank;
use crate::errors::SorterError;
use crate::key::NodeKey;
use crate::prepared::done_batch;
use crate::prepared::lemma_all_done;
use crate::prepared::lemma_count_state_all;
use crate::prepared::lemma_pending_zero_all_sat;
use crate::prepared::pending_count;
use crate::prepared::satisfied;
use crate::prepared::zero_dep_ids;
use crate::removal::ids_valid;
use crate::removal::remove_ok;
use crate::prepared::NodeState;
use crate::prepared::PreparedState;
use crate::prepared::SchedModel;
use crate::topology::GraphModel;
use crate::topology::Topology;

verus! {

broadcast use vstd::std_specs::hash::group_hash_axioms;

/// The two lives of a sorter: accumulating edges, or sealed and running.
pub enum State {
    /// Still accumulating nodes and edges.
    Unprepared(Topology),
    /// Sealed; handing out ready work.
    Prepared(PreparedState),
}

/// What a sorter is at the spec level.
pub enum SorterModel {
    /// Still accumulating: the graph built so far.
    Building(GraphModel),
    /// Sealed: the running scheduler.
    Running(SchedModel),
}

impl SorterModel {
    /// The well-formedness carried through every operation.
    pub open spec fn inv(self) -> bool {
        match self {
            SorterModel::Building(g) => g.wf(),
            SorterModel::Running(m) => m.inv(),
        }
    }
}

/// The ids registered for a list of keys.
pub open spec fn ids_of(g: GraphModel, keys: Seq<NodeKey>) -> Seq<usize> {
    Seq::new(keys.len(), |k: int| g.ids[keys[k].ident])
}

/// Whether every listed key is registered.
pub open spec fn all_known(g: GraphModel, keys: Seq<NodeKey>) -> bool {
    forall|k: int| 0 <= k < keys.len() ==> g.has_key(#[trigger] keys[k])
}

/// One full, duplicate-free emission of the graph in dependency order:
/// `em` lists every id exactly once, each strictly after all of its
/// dependencies, and `order` lists the corresponding keys.
pub open spec fn emission_ok(g: GraphModel, em: Seq<usize>, order: Seq<NodeKey>) -> bool {
    &&& em.len() == g.n()
    &&& order.len() == em.len()
    &&& forall|k: int|
        0 <= k < em.len() ==> (#[trigger] em[k]) < g.n() && order[k] == g.keys[em[k] as int]
    &&& forall|k1: int, k2: int| 0 <= k1 < k2 < em.len() ==> em[k1] != em[k2]
    &&& forall|i: int| 0 <= i < g.n() ==> em.contains(#[trigger] (i as usize))
    &&& forall|k: int, e: int|
        0 <= k < em.len() && 0 <= e < g.deps[em[k] as int].len() ==> exists|k2: int|
            0 <= k2 < k && em[k2] == #[trigger] g.deps[em[k] as int][e]
}

/// An element-for-element copy of an id list.
fn clone_ids(v: &Vec<usize>) -> (r: Vec<usize>)
    ensures
        r@ == v@,
{
    let n = v.len();
    let mut r: Vec<usize> = Vec::new();
    let mut i: usize = 0;
    while i < n
        invariant
            i <= n,
            n == v@.len(),
            r@ =~= v@.take(i as int),
        decreases n - i,
    {
        r.push(v[i]);
        i += 1;
    }
    proof {
        assert(r@ =~= v@);
    }
    r
}

/// Pulls and retires ready batches until the queue stays empty.  Started
/// on a freshly sealed scheduler, this drains the whole graph: every node
/// ends done, and the returned keys list each node exactly once, strictly
/// after all of its dependencies.
#[verifier::loop_isolation(false)]
#[verifier::rlimit(100)]
fn drain_all(ps: &mut PreparedState) -> (order: Vec<NodeKey>)
    requires
        old(ps)@.inv(),
        old(ps)@.n_passed_out == 0,
        old(ps)@.n_finished == 0,
        forall|i: int|
            0 <= i < old(ps)@.n() ==> (#[trigger] old(ps)@.info[i]).state == NodeState::Active
                || old(ps)@.info[i].state == NodeState::Ready,
    ensures
        final(ps)@.inv(),
        final(ps)@.graph == old(ps)@.graph,
        final(ps)@.queue == Seq::<usize>::empty(),
        final(ps)@.n_finished == old(ps)@.n(),
        forall|i: int|
            0 <= i < old(ps)@.n() ==> (#[trigger] final(ps)@.info[i]).state == NodeState::Done,
        exists|em: Seq<usize>| emission_ok(old(ps)@.graph, em, order@),
{
        let ghost g = ps@.graph;
        let mut order: Vec<NodeKey> = Vec::new();
        let ghost mut em: Seq<usize> = Seq::<usize>::empty();
        while ps.ready_nodes.len() > 0
            invariant
                ps@.inv(),
                ps@.graph == g,
                ps@.n_passed_out == ps@.n_finished,
                ps@.n_finished <= g.n(),
                forall|i: int|
                    0 <= i < g.n() ==> (#[trigger] ps@.info[i]).state != NodeState::Removed,
                order@.len() == em.len(),
                em.len() == ps@.n_finished,
                forall|k: int|
                    0 <= k < em.len() ==> (#[trigger] em[k]) < g.n() && order@[k]
                        == g.keys[em[k] as int],
                forall|k1: int, k2: int| 0 <= k1 < k2 < em.len() ==> em[k1] != em[k2],
                forall|i: int|
                    0 <= i < g.n() ==> ((#[trigger] ps@.info[i]).state == NodeState::Done
                        <==> em.contains(i as usize)),
                forall|k: int, e: int|
                    0 <= k < em.len() && 0 <= e < g.deps[em[k] as int].len()
                        ==> exists|k2: int|
                        0 <= k2 < k && em[k2] == #[trigger] g.deps[em[k] as int][e],
            decreases g.n() - ps@.n_finished,
        {
            let ghost m0 = ps@;
            let ghost em0 = em;
            let batch_ids = clone_ids(&ps.ready_nodes);
            let keys = ps.get_ready();
            let ghost m1 = ps@;
            let ghost b = batch_ids@;
            proof {
                assert(b == m0.queue);
                assert forall|k: int| 0 <= k < b.len() implies (#[trigger] b[k]) < m1.n()
                    && m1.info[b[k] as int].state == NodeState::HandedOut by {
                    assert(m0.queue[k] == b[k]);
                    assert(m0.info[b[k] as int].state == NodeState::Ready);
                }
                em = em + b;
            }
            let mut ks = keys;
            order.append(&mut ks);
            let res = ps.mark_nodes_as_done(&batch_ids);
            proof {
                let m2 = ps@;
                assert(res is Ok);
                crate::prepared::lemma_count_state_le(m2.info, NodeState::Done);
                // Batch members were not yet emitted: they were
                // ready, not done, at the head of this round.
                assert forall|k1: int, k2: int|
                    0 <= k1 < k2 < em.len() implies em[k1] != em[k2] by {
                    if k1 < em0.len() && k2 >= em0.len() {
                        assert(em[k2] == b[k2 - em0.len()]);
                        assert(m0.info[em[k2] as int].state == NodeState::Ready);
                        if em[k1] == em[k2] {
                            assert(em0.contains(em[k2]));
                            assert(m0.info[em[k2] as int].state == NodeState::Done);
                        }
                    } else if k1 >= em0.len() {
                        assert(em[k1] == b[k1 - em0.len()]);
                        assert(em[k2] == b[k2 - em0.len()]);
                    }
                }
                assert forall|i: int|
                    0 <= i < g.n() implies ((#[trigger] m2.info[i]).state
                    == NodeState::Done <==> em.contains(i as usize)) by {
                    assert(m1.info[i].state == NodeState::Done <==> m0.info[i].state
                        == NodeState::Done);
                    if m2.info[i].state == NodeState::Done {
                        if m1.info[i].state == NodeState::Done {
                            assert(em0.contains(i as usize));
                            let j = choose|j: int|
                                0 <= j < em0.len() && em0[j] == i as usize;
                            assert(em[j] == i as usize);
                        } else {
                            assert(b.contains(i as usize));
                            let j = choose|j: int| 0 <= j < b.len() && b[j] == i as usize;
                            assert(em[em0.len() + j] == i as usize);
                        }
                    }
                    if em.contains(i as usize) {
                        let j = choose|j: int| 0 <= j < em.len() && em[j] == i as usize;
                        if j < em0.len() {
                            assert(em0[j] == i as usize);
                            assert(em0.contains(i as usize));
                        } else {
                            assert(b[j - em0.len()] == i as usize);
                            assert(b.contains(i as usize));
                        }
                    }
                }
                assert forall|i: int|
                    0 <= i < g.n() implies (#[trigger] m2.info[i]).state
                    != NodeState::Removed by {
                    assert(m1.info[i].state == NodeState::Removed <==> m0.info[i].state
                        == NodeState::Removed);
                }
                assert forall|k: int, e: int|
                    0 <= k < em.len() && 0 <= e < g.deps[em[k] as int].len()
                        implies exists|k2: int|
                    0 <= k2 < k && em[k2] == #[trigger] g.deps[em[k] as int][e] by {
                    if k < em0.len() {
                        assert(em0[k] == em[k]);
                        let k2 = choose|k2: int|
                            0 <= k2 < k && em0[k2] == g.deps[em0[k] as int][e];
                        assert(em[k2] == g.deps[em[k] as int][e]);
                    } else {
                        let x = b[k - em0.len()] as int;
                        assert(em[k] == b[k - em0.len()]);
                        assert(m0.info[x].state == NodeState::Ready);
                        assert(m0.info[x].npredecessors == 0);
                        assert(pending_count(m0.graph.deps[x], m0.info) == 0);
                        lemma_pending_zero_all_sat(m0.graph.deps[x], m0.info);
                        let d = g.deps[x][e] as int;
                        assert(satisfied(m0.info[d].state));
                        assert(m0.info[d].state == NodeState::Done);
                        assert(em0.contains(d as usize));
                        let k2 = choose|k2: int|
                            0 <= k2 < em0.len() && em0[k2] == d as usize;
                        assert(em[k2] == g.deps[em[k] as int][e]);
                    }
                }
                assert(em.len() == ps@.n_finished);
            }
        }
        proof {
            lemma_all_done(ps@);
            lemma_count_state_all(ps@.info, NodeState::Done);
            assert(ps@.queue =~= Seq::<usize>::empty());
            assert(em.len() == g.n());
            assert forall|i: int| 0 <= i < g.n() implies em.contains(
                #[trigger] (i as usize),
            ) by {
                assert(ps@.info[i].state == NodeState::Done);
            }
            assert(emission_ok(g, em, order@));
        }
    order
}

/// The successful outcome of `static_order`: the sorter ends sealed and
/// fully drained over graph `g`, and `order` is one complete emission.
pub open spec fn static_order_emits(g: GraphModel, post: SorterModel, order: Seq<NodeKey>) -> bool {
    &&& (exists|em: Seq<usize>| emission_ok(g, em, order))
    &&& post matches SorterModel::Running(m2)
    &&& m2.graph == g
    &&& m2.queue == Seq::<usize>::empty()
    &&& m2.n_finished == g.n()
    &&& forall|i: int| 0 <= i < g.n() ==> (#[trigger] m2.info[i]).state == NodeState::Done
}

/// The error `prepare` and `static_order` report for a cyclic graph: the
/// keys along the one simple cycle that `cycle_report` fixes for the
/// dependent relation, so the diagnostic is a function of the graph.
pub open spec fn cycle_error(g: GraphModel, e: SorterError) -> bool {
    &&& e matches SorterError::CycleDetected(cyc)
    &&& cycle_report(g.dependents) matches Some(p)
    &&& valid_cycle(g.dependents, p)
    &&& cyc@ == p.map_values(|id: usize| g.keys[id as int])
}

/// What `static_order` promises: a sealed sorter is refused untouched; a
/// building sorter either drains completely, every node emitted exactly
/// once and after its dependencies, or is left untouched with the cycle
/// that stopped it.
pub open spec fn static_order_post(
    pre: SorterModel,
    post: SorterModel,
    r: Result<Vec<NodeKey>, SorterError>,
) -> bool {
    match pre {
        SorterModel::Running(_) => r == Err::<Vec<NodeKey>, SorterError>(
            SorterError::AlreadyPrepared,
        ) && post == pre,
        SorterModel::Building(g) => match r {
            Ok(order) => static_order_emits(g, post, order@),
            Err(e) => post == pre && cycle_error(g, e),
        },
    }
}

/// An incremental dependency-graph scheduler.
///
/// Nodes and their dependency lists are added while unprepared; `prepare`
/// validates that the graph is acyclic and seals it; afterwards
/// `get_ready` yields the nodes whose dependencies are all done and
/// `done` retires finished work, unblocking dependents.
pub struct TopologicalSorter {
    /// Building or running.
    pub state: State,
}

impl View for TopologicalSorter {
    type V = SorterModel;

    open spec fn view(&self) -> SorterModel {
        match self.state {
            State::Unprepared(ref t) => SorterModel::Building(t@),
            State::Prepared(ref p) => SorterModel::Running(p@),
        }
    }
}

impl TopologicalSorter {
    /// An empty, unprepared sorter.
    pub fn new() -> (r: TopologicalSorter)
        ensures
            r@.inv(),
            r@ matches SorterModel::Building(g) && g.keys == Seq::<NodeKey>::empty()
                && g.ids == Map::<u64, usize>::empty(),
    {
        TopologicalSorter { state: State::Unprepared(Topology::new()) }
    }

    /// Registers `node` and its dependency list, in order, creating ids
    /// for keys seen for the first time.  A dependency listed twice counts
    /// twice.  Fails once the graph is sealed.
    pub fn add(&mut self, node: NodeKey, predecessors: Vec<NodeKey>) -> (r: Result<
        (),
        SorterError,
    >)
        requires
            old(self)@.inv(),
        ensures
            final(self)@.inv(),
            match old(self)@ {
                SorterModel::Building(g) => r is Ok && final(self)@ == SorterModel::Building(
                    g.add_call(node, predecessors@),
                ),
                SorterModel::Running(_) => r == Err::<(), SorterError>(SorterError::AlreadyPrepared)
                    && final(self)@ == old(self)@,
            },
    {
        match &mut self.state {
            State::Unprepared(t) => {
                t.add_node(node, &predecessors);
                Ok(())
            },
            State::Prepared(_) => Err(SorterError::AlreadyPrepared),
        }
    }

    /// Seals the graph.  On success every node without dependencies is
    /// ready and queued in id order, the counters are zero, and an
    /// acyclicity witness is fixed.  If a cycle exists, nothing is
    /// changed and the error carries the keys along one simple cycle:
    /// the one `cycle_report` fixes for the graph, so the same graph
    /// always reports the same path.  Calling it twice fails.
    pub fn prepare(&mut self) -> (r: Result<(), SorterError>)
        requires
            old(self)@.inv(),
        ensures
            final(self)@.inv(),
            match old(self)@ {
                SorterModel::Building(g) => match r {
                    Ok(_) => {
                        &&& cycle_report(g.dependents) is None
                        &&& (exists|rank: Seq<int>| valid_rank(g.dependents, rank))
                        &&& final(self)@ matches SorterModel::Running(m)
                        &&& m.graph == g
                        &&& m.n_passed_out == 0
                        &&& m.n_finished == 0
                        &&& !m.started
                        &&& m.queue == zero_dep_ids(g, g.n())
                        &&& forall|i: int|
                            0 <= i < g.n() ==> (#[trigger] m.info[i]).npredecessors
                                == g.deps[i].len() && m.info[i].state == (if g.deps[i].len() == 0 {
                                NodeState::Ready
                            } else {
                                NodeState::Active
                            })
                    },
                    Err(e) => {
                        &&& final(self)@ == old(self)@
                        &&& cycle_error(g, e)
                    },
                },
                SorterModel::Running(_) => r == Err::<(), SorterError>(SorterError::AlreadyPrepared)
                    && final(self)@ == old(self)@,
            },
    {
        match &self.state {
            State::Prepared(_) => {
                return Err(SorterError::AlreadyPrepared);
            },
            State::Unprepared(_) => {},
        }
        let mut tmp = State::Unprepared(Topology::new());
        std::mem::swap(&mut tmp, &mut self.state);
        match tmp {
            State::Unprepared(topo) => {
                let ghost g = topo@;
                proof {
                    assert(adj_wf(g.dependents));
                }
                match find_cycle(&topo.dependents) {
                    Some(path) => {
                        let mut cyc: Vec<NodeKey> = Vec::new();
                        let mut k: usize = 0;
                        let plen = path.len();
                        while k < plen
                            invariant
                                k <= plen,
                                plen == path@.len(),
                                g == topo@,
                                g.wf(),
                                valid_cycle(g.dependents, path@),
                                cyc@ =~= path@.take(k as int).map_values(
                                    |id: usize| g.keys[id as int],
                                ),
                            decreases plen - k,
                        {
                            let id = path[k];
                            cyc.push(topo.keys[id]);
                            proof {
                                assert(path@.take(k as int + 1).drop_last() =~= path@.take(
                                    k as int,
                                ));
                                assert(cyc@ =~= path@.take(k as int + 1).map_values(
                                    |id: usize| g.keys[id as int],
                                ));
                            }
                            k += 1;
                        }
                        self.state = State::Unprepared(topo);
                        proof {
                            assert(path@.take(plen as int) =~= path@);
                            assert(cyc@ == path@.map_values(|id: usize| g.keys[id as int]));
                            assert(cycle_report(g.dependents) == Some(path@));
                            assert(cycle_error(g, SorterError::CycleDetected(cyc)));
                        }
                        Err(SorterError::CycleDetected(cyc))
                    },
                    None => {
                        let ghost rank = choose|rank: Seq<int>| valid_rank(g.dependents, rank);
                        let ps = PreparedState::seal(topo, Ghost(rank));
                        self.state = State::Prepared(ps);
                        Ok(())
                    },
                }
            },
            State::Prepared(_) => {
                proof {
                    assert(false);
                }
                Err(SorterError::AlreadyPrepared)
            },
        }
    }

    /// Whether unfinished work remains: some handed-out node not yet done,
    /// or ready work still queued.  Fails before `prepare`.
    pub fn is_active(&self) -> (r: Result<bool, SorterError>)
        ensures
            match self@ {
                SorterModel::Building(_) => r == Err::<bool, SorterError>(SorterError::NotPrepared),
                SorterModel::Running(m) => r == Ok::<bool, SorterError>(
                    m.n_finished < m.n_passed_out || m.queue.len() > 0,
                ),
            },
    {
        match &self.state {
            State::Prepared(ps) => Ok(ps.is_active()),
            State::Unprepared(_) => Err(SorterError::NotPrepared),
        }
    }

    /// Drains the ready queue, returning the drained nodes' keys in queue
    /// order and counting them as handed out.  An empty result means no
    /// newly-unblocked work exists yet.  Fails before `prepare`.
    pub fn get_ready(&mut self) -> (r: Result<Vec<NodeKey>, SorterError>)
        requires
            old(self)@.inv(),
        ensures
            final(self)@.inv(),
            match old(self)@ {
                SorterModel::Building(_) => r == Err::<Vec<NodeKey>, SorterError>(
                    SorterError::NotPrepared,
                ) && final(self)@ == old(self)@,
                SorterModel::Running(m) => {
                    &&& final(self)@ matches SorterModel::Running(m2)
                    &&& r matches Ok(keys)
                    &&& keys@.len() == m.queue.len()
                    &&& (forall|k: int|
                        0 <= k < keys@.len() ==> keys@[k] == m.graph.keys[(
                        #[trigger] m.queue[k]) as int])
                    &&& m2.queue == Seq::<usize>::empty()
                    &&& m2.started
                    &&& m2.graph == m.graph
                    &&& m2.n_finished == m.n_finished
                    &&& m2.n_passed_out == m.n_passed_out + m.queue.len()
                    &&& (forall|i: int|
                        0 <= i < m.n() ==> (#[trigger] m2.info[i]) == (if m.info[i].state
                            == NodeState::Ready {
                            crate::prepared::NodeInfo {
                                state: NodeState::HandedOut,
                                npredecessors: 0,
                            }
                        } else {
                            m.info[i]
                        }))
                },
            },
    {
        match &mut self.state {
            State::Prepared(ps) => Ok(ps.get_ready()),
            State::Unprepared(_) => Err(SorterError::NotPrepared),
        }
    }

    /// Marks the listed nodes done, in order, each validated on its own:
    /// nodes never handed out are not ready, nodes already done cannot be
    /// done again, unknown keys are rejected before anything is mutated.
    /// The first failure stops the batch; earlier nodes stay done.
    #[verifier::loop_isolation(false)]
    pub fn done(&mut self, nodes: &Vec<NodeKey>) -> (r: Result<(), SorterError>)
        requires
            old(self)@.inv(),
        ensures
            final(self)@.inv(),
            match old(self)@ {
                SorterModel::Building(_) => r == Err::<(), SorterError>(SorterError::NotPrepared)
                    && final(self)@ == old(self)@,
                SorterModel::Running(m) => {
                    if all_known(m.graph, nodes@) {
                        let (m2, e) = done_batch(m, ids_of(m.graph, nodes@));
                        &&& final(self)@ == SorterModel::Running(m2)
                        &&& match r {
                            Ok(_) => e is None,
                            Err(err) => e == Some(err),
                        }
                    } else {
                        r == Err::<(), SorterError>(SorterError::UnknownNode) && final(self)@
                            == old(self)@
                    }
                },
            },
    {
        match &mut self.state {
            State::Unprepared(_) => Err(SorterError::NotPrepared),
            State::Prepared(ps) => {
                let ghost m = ps@;
                let n_nodes = nodes.len();
                let mut ids: Vec<usize> = Vec::new();
                let mut k: usize = 0;
                while k < n_nodes
                    invariant
                        k <= n_nodes,
                        n_nodes == nodes@.len(),
                        m == ps@,
                        m.inv(),
                        ids@.len() == k,
                        forall|j: int| 0 <= j < k ==> m.graph.has_key(#[trigger] nodes@[j]),
                        forall|j: int|
                            0 <= j < k ==> (#[trigger] ids@[j]) == m.graph.ids[nodes@[j].ident],
                    decreases n_nodes - k,
                {
                    let key = nodes[k];
                    match ps.dag.node2id.get(&key.ident) {
                        Some(v) => {
                            ids.push(*v);
                        },
                        None => {
                            proof {
                                assert(!m.graph.has_key(nodes@[k as int]));
                            }
                            return Err(SorterError::UnknownNode);
                        },
                    }
                    k += 1;
                }
                proof {
                    assert(ids@ =~= ids_of(m.graph, nodes@));
                }
                ps.mark_nodes_as_done(&ids)
            },
        }
    }

    /// Marks nodes done by their dense ids; otherwise exactly like
    /// [`TopologicalSorter::done`].
    pub fn done_by_id(&mut self, ids: &Vec<usize>) -> (r: Result<(), SorterError>)
        requires
            old(self)@.inv(),
        ensures
            final(self)@.inv(),
            match old(self)@ {
                SorterModel::Building(_) => r == Err::<(), SorterError>(SorterError::NotPrepared)
                    && final(self)@ == old(self)@,
                SorterModel::Running(m) => {
                    let (m2, e) = done_batch(m, ids@);
                    &&& final(self)@ == SorterModel::Running(m2)
                    &&& match r {
                        Ok(_) => e is None,
                        Err(err) => e == Some(err),
                    }
                },
            },
    {
        match &mut self.state {
            State::Unprepared(_) => Err(SorterError::NotPrepared),
            State::Prepared(ps) => ps.mark_nodes_as_done(ids),
        }
    }

    /// The dense id of each listed key, in order; fails on any key never
    /// registered through `add`.
    #[verifier::loop_isolation(false)]
    pub fn get_ids(&self, nodes: &Vec<NodeKey>) -> (r: Result<Vec<usize>, SorterError>)
        requires
            self@.inv(),
        ensures
            ({
                let g = match self@ {
                    SorterModel::Building(g) => g,
                    SorterModel::Running(m) => m.graph,
                };
                match r {
                    Ok(ids) => all_known(g, nodes@) && ids@ == ids_of(g, nodes@),
                    Err(e) => e == SorterError::UnknownNode && !all_known(g, nodes@),
                }
            }),
    {
        let ghost g = match self@ {
            SorterModel::Building(g) => g,
            SorterModel::Running(m) => m.graph,
        };
        let map = match &self.state {
            State::Unprepared(t) => &t.node2id,
            State::Prepared(ps) => &ps.dag.node2id,
        };
        let n_nodes = nodes.len();
        let mut ids: Vec<usize> = Vec::new();
        let mut k: usize = 0;
        while k < n_nodes
            invariant
                k <= n_nodes,
                n_nodes == nodes@.len(),
                map@ == g.ids,
                ids@.len() == k,
                forall|j: int| 0 <= j < k ==> g.has_key(#[trigger] nodes@[j]),
                forall|j: int| 0 <= j < k ==> (#[trigger] ids@[j]) == g.ids[nodes@[j].ident],
            decreases n_nodes - k,
        {
            let key = nodes[k];
            match map.get(&key.ident) {
                Some(v) => {
                    ids.push(*v);
                },
                None => {
                    proof {
                        assert(!g.has_key(nodes@[k as int]));
                    }
                    return Err(SorterError::UnknownNode);
                },
            }
            k += 1;
        }
        proof {
            assert(ids@ =~= ids_of(g, nodes@));
        }
        Ok(ids)
    }

    /// Seals the graph and drains it to completion in one call: repeated
    /// `get_ready` batches, each immediately marked done, until nothing
    /// is left.  The returned order lists every node exactly once, each
    /// strictly after all of its dependencies.  On a cyclic graph it
    /// fails with the cycle and changes nothing; on a sorter already
    /// sealed it fails too.
    #[verifier::loop_isolation(false)]
    #[verifier::rlimit(100)]
    pub fn static_order(&mut self) -> (r: Result<Vec<NodeKey>, SorterError>)
        requires
            old(self)@.inv(),
        ensures
            final(self)@.inv(),
            static_order_post(old(self)@, final(self)@, r),
    {
        let ghost og = self@;
        match &self.state {
            State::Prepared(_) => {
                proof {
                    assert(static_order_post(
                        og,
                        self@,
                        Err::<Vec<NodeKey>, SorterError>(SorterError::AlreadyPrepared),
                    ));
                }
                return Err(SorterError::AlreadyPrepared);
            },
            State::Unprepared(_) => {},
        }
        match self.prepare() {
            Err(e) => {
                proof {
                    assert(og matches SorterModel::Building(g2) ==> cycle_error(g2, e));
                    assert(static_order_post(og, self@, Err::<Vec<NodeKey>, SorterError>(e)));
                }
                return Err(e);
            },
            Ok(_) => {},
        }
        let mut tmp = State::Unprepared(Topology::new());
        std::mem::swap(&mut tmp, &mut self.state);
        match tmp {
            State::Unprepared(_) => {
                proof {
                    assert(false);
                }
                Err(SorterError::NotPrepared)
            },
            State::Prepared(mut ps) => {
                let ghost m_sealed = ps@;
                let order = drain_all(&mut ps);
                self.state = State::Prepared(ps);
                proof {
                    assert(self@ matches SorterModel::Running(m2x) && m2x == ps@);
                    assert(og matches SorterModel::Building(g2) && m_sealed.graph == g2);
                    assert(static_order_emits(m_sealed.graph, self@, order@));
                    assert(static_order_post(
                        og,
                        self@,
                        Ok::<Vec<NodeKey>, SorterError>(order),
                    ));
                }
                Ok(order)
            },
        }
    }

    /// Removes each listed node and, transitively, everything it depends
    /// on: those requirements may now be unreachable.  Every surviving
    /// dependent's pending count is re-derived; active nodes left with no
    /// pending dependencies become ready, queued in ascending id order
    /// behind the surviving queue entries.  Only allowed on a sealed
    /// graph before the first `get_ready`; unknown keys, and keys of
    /// already removed nodes, are rejected before anything changes.
    #[verifier::loop_isolation(false)]
    pub fn remove(&mut self, nodes: &Vec<NodeKey>) -> (r: Result<(), SorterError>)
        requires
            old(self)@.inv(),
        ensures
            final(self)@.inv(),
            match old(self)@ {
                SorterModel::Building(_) => r == Err::<(), SorterError>(SorterError::NotPrepared)
                    && final(self)@ == old(self)@,
                SorterModel::Running(m) => {
                    &&& m.started ==> r == Err::<(), SorterError>(SorterError::IterationStarted)
                        && final(self)@ == old(self)@
                    &&& !m.started && !all_known(m.graph, nodes@) ==> r == Err::<(), SorterError>(
                        SorterError::UnknownNode,
                    ) && final(self)@ == old(self)@
                    &&& !m.started && all_known(m.graph, nodes@) && !ids_valid(
                        m,
                        ids_of(m.graph, nodes@),
                    ) ==> r == Err::<(), SorterError>(SorterError::UnknownNode) && final(self)@
                        == old(self)@
                    &&& !m.started && all_known(m.graph, nodes@) && ids_valid(
                        m,
                        ids_of(m.graph, nodes@),
                    ) ==> {
                        &&& r is Ok
                        &&& final(self)@ matches SorterModel::Running(m2)
                        &&& remove_ok(m, ids_of(m.graph, nodes@), m2)
                    }
                },
            },
    {
        match &mut self.state {
            State::Unprepared(_) => Err(SorterError::NotPrepared),
            State::Prepared(ps) => {
                if ps.iter_started {
                    return Err(SorterError::IterationStarted);
                }
                let ghost m = ps@;
                let n_nodes = nodes.len();
                let mut ids: Vec<usize> = Vec::new();
                let mut k: usize = 0;
                while k < n_nodes
                    invariant
                        k <= n_nodes,
                        n_nodes == nodes@.len(),
                        m == ps@,
                        m.inv(),
                        ids@.len() == k,
                        forall|j: int| 0 <= j < k ==> m.graph.has_key(#[trigger] nodes@[j]),
                        forall|j: int|
                            0 <= j < k ==> (#[trigger] ids@[j]) == m.graph.ids[nodes@[j].ident],
                    decreases n_nodes - k,
                {
                    let key = nodes[k];
                    match ps.dag.node2id.get(&key.ident) {
                        Some(v) => {
                            ids.push(*v);
                        },
                        None => {
                            proof {
                                assert(!m.graph.has_key(nodes@[k as int]));
                            }
                            return Err(SorterError::UnknownNode);
                        },
                    }
                    k += 1;
                }
                proof {
                    assert(ids@ =~= ids_of(m.graph, nodes@));
                }
                ps.remove_nodes(&ids)
            },
        }
    }

    /// Removes nodes by their dense ids; otherwise exactly like
    /// [`TopologicalSorter::remove`].
    pub fn remove_by_id(&mut self, ids: &Vec<usize>) -> (r: Result<(), SorterError>)
        requires
            old(self)@.inv(),
        ensures
            final(self)@.inv(),
            match old(self)@ {
                SorterModel::Building(_) => r == Err::<(), SorterError>(SorterError::NotPrepared)
                    && final(self)@ == old(self)@,
                SorterModel::Running(m) => {
                    &&& m.started ==> r == Err::<(), SorterError>(SorterError::IterationStarted)
                        && final(self)@ == old(self)@
                    &&& !m.started && !ids_valid(m, ids@) ==> r == Err::<(), SorterError>(
                        SorterError::UnknownNode,
                    ) && final(self)@ == old(self)@
                    &&& !m.started && ids_valid(m, ids@) ==> {
                        &&& r is Ok
                        &&& final(self)@ matches SorterModel::Running(m2)
                        &&& remove_ok(m, ids@, m2)
                    }
                },
            },
    {
        match &mut self.state {
            State::Unprepared(_) => Err(SorterError::NotPrepared),
            State::Prepared(ps) => ps.remove_nodes(ids),
        }
    }

    /// An independent sorter over the same graph.  A sealed sorter shares
    /// its immutable topology and deep-copies only the mutable run state,
    /// so later mutation of either side never shows in the other.
    pub fn copy(&self) -> (r: TopologicalSorter)
        requires
            self@.inv(),
        ensures
            r@ == self@,
            r@.inv(),
    {
        match &self.state {
            State::Unprepared(t) => TopologicalSorter {
                state: State::Unprepared(t.clone_full()),
            },
            State::Prepared(ps) => TopologicalSorter { state: State::Prepared(ps.copy()) },
        }
    }
}

} // verus!
