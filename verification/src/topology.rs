//! The graph under construction: nodes, their dense ids, and both
//! adjacency directions.
//!
//! Every distinct key is assigned a small dense id in first-seen order; ids
//! are never reused or renumbered, and index directly into the per-node
//! vectors.  For every node both the list of its dependencies and the list
//! of its dependents are kept: marking work done walks dependents, removing
//! a node walks dependencies.  A dependency listed twice is recorded twice;
//! each occurrence counts separately towards the node's pending count.

use vstd::prelude::*;

use crate::key::NodeKey;
use std::collections::HashMap;

verus! {

broadcast use vstd::std_specs::hash::group_hash_axioms;

/// The mathematical content of a [`Topology`]: the registered keys in id
/// order, the ident-to-id correspondence, and the two adjacency directions,
/// each a sequence of id lists in edge insertion order.
pub struct GraphModel {
    /// The key of each id, in id order.
    pub keys: Seq<NodeKey>,
    /// Identity token of a registered key, mapped to its id.
    pub ids: Map<u64, usize>,
    /// For each id, the ids it depends on, one entry per listed occurrence.
    pub deps: Seq<Seq<usize>>,
    /// For each id, the ids that depend on it, one entry per occurrence.
    pub dependents: Seq<Seq<usize>>,
}

/// The element sequences of a vector of vectors.
pub open spec fn seq_views(v: Vec<Vec<usize>>) -> Seq<Seq<usize>> {
    v@.map_values(|x: Vec<usize>| x@)
}

/// How often `v` occurs in `s`.
pub open spec fn count_occ(s: Seq<usize>, v: int) -> nat
    decreases s.len(),
{
    if s.len() == 0 {
        0nat
    } else {
        count_occ(s.drop_last(), v) + if s.last() == v {
            1nat
        } else {
            0nat
        }
    }
}

impl GraphModel {
    /// Number of registered nodes; ids are exactly `0 .. n`.
    pub open spec fn n(self) -> int {
        self.keys.len() as int
    }

    /// Well-formedness: the per-id sequences agree in length, every edge
    /// endpoint is a registered id, the two adjacency directions are
    /// transposes of one another occurrence for occurrence, and the ident
    /// map is exactly the key list read backwards.
    pub open spec fn wf(self) -> bool {
        &&& self.deps.len() == self.n()
        &&& self.dependents.len() == self.n()
        &&& forall|i: int, k: int|
            0 <= i < self.n() && 0 <= k < self.deps[i].len() ==> (#[trigger] self.deps[i][k])
                < self.n()
        &&& forall|i: int, k: int|
            0 <= i < self.n() && 0 <= k < self.dependents[i].len() ==> (
            #[trigger] self.dependents[i][k]) < self.n()
        &&& forall|i: int, j: int|
            0 <= i < self.n() && 0 <= j < self.n() ==> #[trigger] count_occ(self.deps[i], j)
                == count_occ(self.dependents[j], i)
        &&& forall|i: int|
            0 <= i < self.n() ==> self.ids.contains_key(#[trigger] self.keys[i].ident)
                && self.ids[self.keys[i].ident] == i
        &&& forall|ident: u64|
            #[trigger] self.ids.contains_key(ident) ==> self.ids[ident] < self.n()
                && self.keys[self.ids[ident] as int].ident == ident
    }

    /// Whether a key with `k`'s identity token is registered.
    pub open spec fn has_key(self, k: NodeKey) -> bool {
        self.ids.contains_key(k.ident)
    }

    /// The id registered for `k`'s identity token.
    pub open spec fn id_of(self, k: NodeKey) -> int {
        self.ids[k.ident] as int
    }

    /// The model with a fresh node appended for `k`: id `n`, no edges yet.
    pub open spec fn register(self, k: NodeKey) -> GraphModel {
        GraphModel {
            keys: self.keys.push(k),
            ids: self.ids.insert(k.ident, self.keys.len() as usize),
            deps: self.deps.push(Seq::empty()),
            dependents: self.dependents.push(Seq::empty()),
        }
    }

    /// Resolves `k` to its id, registering it first when it is new.
    pub open spec fn touch(self, k: NodeKey) -> (GraphModel, int) {
        if self.has_key(k) {
            (self, self.id_of(k))
        } else {
            (self.register(k), self.n())
        }
    }

    /// One dependency edge recorded: `node_id` depends on `dep`, which is
    /// itself registered first when new.  Both adjacency directions gain
    /// one occurrence.
    pub open spec fn add_edge(self, node_id: int, dep: NodeKey) -> GraphModel {
        let (g, did) = self.touch(dep);
        GraphModel {
            deps: g.deps.update(node_id, g.deps[node_id].push(did as usize)),
            dependents: g.dependents.update(did, g.dependents[did].push(node_id as usize)),
            ..g
        }
    }

    /// The edges for `preds`, recorded left to right.
    pub open spec fn add_edges(self, node_id: int, preds: Seq<NodeKey>) -> GraphModel
        decreases preds.len(),
    {
        if preds.len() == 0 {
            self
        } else {
            self.add_edge(node_id, preds.first()).add_edges(node_id, preds.drop_first())
        }
    }

    /// The whole effect of one `add` call: resolve or register the node,
    /// then record its dependency list in order.
    pub open spec fn add_call(self, node: NodeKey, preds: Seq<NodeKey>) -> GraphModel {
        let (g, nid) = self.touch(node);
        g.add_edges(nid, preds)
    }
}

/// The graph as accumulated before sealing, and the immutable half of a
/// sealed scheduler: id/key correspondence plus both adjacency directions.
pub struct Topology {
    /// The key of each id, in id (first-seen) order.
    pub keys: Vec<NodeKey>,
    /// Identity token of each registered key, mapped to its id.
    pub node2id: HashMap<u64, usize>,
    /// For each id, the ids it depends on, one entry per listed occurrence.
    pub deps: Vec<Vec<usize>>,
    /// For each id, the ids depending on it, one entry per occurrence.
    pub dependents: Vec<Vec<usize>>,
}

impl View for Topology {
    type V = GraphModel;

    open spec fn view(&self) -> GraphModel {
        GraphModel {
            keys: self.keys@,
            ids: self.node2id@,
            deps: seq_views(self.deps),
            dependents: seq_views(self.dependents),
        }
    }
}

/// `count_occ` over a push grows by one exactly for the pushed value.
pub proof fn lemma_count_occ_push(s: Seq<usize>, v: usize, x: int)
    ensures
        count_occ(s.push(v), x) == count_occ(s, x) + if v == x {
            1nat
        } else {
            0nat
        },
{
    assert(s.push(v).drop_last() =~= s);
}

/// A sequence without any occurrence of `x` counts zero.
pub proof fn lemma_count_occ_absent(s: Seq<usize>, x: int)
    requires
        forall|k: int| 0 <= k < s.len() ==> (#[trigger] s[k]) != x,
    ensures
        count_occ(s, x) == 0,
    decreases s.len(),
{
    if s.len() > 0 {
        lemma_count_occ_absent(s.drop_last(), x);
    }
}

/// Counting can also peel the first element instead of the last.
pub proof fn lemma_count_occ_skip1(s: Seq<usize>, x: int)
    requires
        s.len() > 0,
    ensures
        count_occ(s, x) == count_occ(s.skip(1), x) + if s[0] == x {
            1nat
        } else {
            0nat
        },
    decreases s.len(),
{
    if s.len() == 1 {
        assert(s.skip(1) =~= Seq::<usize>::empty());
        assert(count_occ(s.skip(1), x) == 0);
        assert(s.drop_last() =~= Seq::<usize>::empty());
        assert(count_occ(s, x) == count_occ(s.drop_last(), x) + if s.last() == x {
            1nat
        } else {
            0nat
        });
        assert(s[0] == s.last());
    } else {
        assert(s.skip(1).drop_last() =~= s.drop_last().skip(1));
        lemma_count_occ_skip1(s.drop_last(), x);
        assert(s.drop_last()[0] == s[0]);
        assert(s.skip(1).last() == s.last());
        assert(count_occ(s.skip(1), x) == count_occ(s.skip(1).drop_last(), x) + if s.last() == x {
            1nat
        } else {
            0nat
        });
        assert(count_occ(s, x) == count_occ(s.drop_last(), x) + if s.last() == x {
            1nat
        } else {
            0nat
        });
        assert(count_occ(s.drop_last(), x) == count_occ(s.drop_last().skip(1), x) + if s[0] == x {
            1nat
        } else {
            0nat
        });
    }
}

/// A suffix never counts more occurrences than the whole.
pub proof fn lemma_count_occ_skip_le(s: Seq<usize>, k: int, x: int)
    requires
        0 <= k <= s.len(),
    ensures
        count_occ(s.skip(k), x) <= count_occ(s, x),
    decreases k,
{
    if k > 0 {
        lemma_count_occ_skip_le(s, k - 1, x);
        lemma_count_occ_skip1(s.skip(k - 1), x);
        assert(s.skip(k - 1).skip(1) =~= s.skip(k));
    } else {
        assert(s.skip(0) =~= s);
    }
}

/// A positive count names an occurrence, and an occurrence a positive count.
pub proof fn lemma_count_occ_pos(s: Seq<usize>, x: int)
    ensures
        count_occ(s, x) > 0 <==> exists|k: int| 0 <= k < s.len() && s[k] == x,
    decreases s.len(),
{
    if s.len() > 0 {
        lemma_count_occ_pos(s.drop_last(), x);
        if s.last() == x {
            assert(s[s.len() - 1] == x);
        } else if count_occ(s, x) > 0 {
            let k = choose|k: int| 0 <= k < s.drop_last().len() && s.drop_last()[k] == x;
            assert(s[k] == x);
        } else if exists|k: int| 0 <= k < s.len() && s[k] == x {
            let k = choose|k: int| 0 <= k < s.len() && s[k] == x;
            assert(s.drop_last()[k] == x);
        }
    }
}

/// An element-for-element copy of an adjacency structure.
fn clone_adjacency(v: &Vec<Vec<usize>>) -> (r: Vec<Vec<usize>>)
    ensures
        seq_views(r) == seq_views(*v),
{
    let n = v.len();
    let mut r: Vec<Vec<usize>> = Vec::new();
    let mut i: usize = 0;
    while i < n
        invariant
            i <= n,
            n == v@.len(),
            r@.len() == i,
            forall|k: int| 0 <= k < i ==> (#[trigger] r@[k])@ == v@[k]@,
        decreases n - i,
    {
        let m = v[i].len();
        let mut inner: Vec<usize> = Vec::new();
        let mut j: usize = 0;
        while j < m
            invariant
                j <= m,
                i < v@.len(),
                m == v@[i as int]@.len(),
                inner@ =~= v@[i as int]@.take(j as int),
            decreases m - j,
        {
            inner.push(v[i][j]);
            j += 1;
        }
        proof {
            assert(inner@ =~= v@[i as int]@);
        }
        r.push(inner);
        i += 1;
    }
    proof {
        assert(seq_views(r) =~= seq_views(*v));
    }
    r
}

impl Topology {
    /// An empty graph: no nodes, no edges.
    pub fn new() -> (t: Topology)
        ensures
            t@.wf(),
            t@.keys == Seq::<NodeKey>::empty(),
            t@.ids == Map::<u64, usize>::empty(),
    {
        Topology {
            keys: Vec::new(),
            node2id: HashMap::new(),
            deps: Vec::new(),
            dependents: Vec::new(),
        }
    }

    /// Registers a key not seen before and returns its fresh dense id, the
    /// next unused one.
    fn new_node(&mut self, node: &NodeKey) -> (id: usize)
        requires
            old(self)@.wf(),
            !old(self)@.has_key(*node),
        ensures
            final(self)@.wf(),
            final(self)@ == old(self)@.register(*node),
            id == old(self)@.n(),
    {
        let id = self.keys.len();
        self.keys.push(*node);
        self.node2id.insert(node.ident, id);
        self.deps.push(Vec::new());
        self.dependents.push(Vec::new());
        proof {
            let old_g = old(self)@;
            let g = self@;
            assert(g.deps =~= old_g.deps.push(Seq::empty()));
            assert(g.dependents =~= old_g.dependents.push(Seq::empty()));
            assert(g == old_g.register(*node));
            assert forall|i: int, j: int| 0 <= i < g.n() && 0 <= j < g.n() implies #[trigger] count_occ(
                g.deps[i],
                j,
            ) == count_occ(g.dependents[j], i) by {
                if i < old_g.n() && j < old_g.n() {
                    assert(count_occ(old_g.deps[i], j) == count_occ(old_g.dependents[j], i));
                } else if i == old_g.n() && j == old_g.n() {
                } else if i == old_g.n() {
                    assert(count_occ(g.dependents[j], i) == 0) by {
                        lemma_count_occ_absent(old_g.dependents[j], i);
                    }
                } else {
                    assert(count_occ(g.deps[i], j) == 0) by {
                        lemma_count_occ_absent(old_g.deps[i], j);
                    }
                }
            }
        }
        id
    }

    /// The id registered for `node`, registering it first when it is new.
    pub fn get_or_insert_node_id(&mut self, node: &NodeKey) -> (id: usize)
        requires
            old(self)@.wf(),
        ensures
            final(self)@.wf(),
            (final(self)@, id as int) == old(self)@.touch(*node),
    {
        match self.node2id.get(&node.ident) {
            Some(v) => *v,
            None => self.new_node(node),
        }
    }

    /// A deep copy: same keys, ids and adjacency, nothing shared.
    pub fn clone_full(&self) -> (t: Topology)
        requires
            self@.wf(),
        ensures
            t@ == self@,
            t@.wf(),
    {
        let ghost g = self@;
        let n = self.keys.len();
        let mut keys: Vec<NodeKey> = Vec::new();
        let mut i: usize = 0;
        while i < n
            invariant
                i <= n,
                g == self@,
                n == g.keys.len(),
                keys@ =~= g.keys.take(i as int),
            decreases n - i,
        {
            keys.push(self.keys[i]);
            i += 1;
        }
        let mut node2id: HashMap<u64, usize> = HashMap::new();
        let mut j: usize = 0;
        while j < n
            invariant
                j <= n,
                g == self@,
                g.wf(),
                n == g.keys.len(),
                forall|k: int|
                    0 <= k < j ==> node2id@.contains_key(#[trigger] g.keys[k].ident)
                        && node2id@[g.keys[k].ident] == k,
                forall|ident: u64|
                    #[trigger] node2id@.contains_key(ident) ==> node2id@[ident] < j
                        && g.keys[node2id@[ident] as int].ident == ident,
            decreases n - j,
        {
            node2id.insert(self.keys[j].ident, j);
            j += 1;
        }
        proof {
            assert forall|ident: u64|
                #[trigger] node2id@.contains_key(ident) == g.ids.contains_key(ident) by {
                if node2id@.contains_key(ident) {
                    assert(g.keys[node2id@[ident] as int].ident == ident);
                    assert(g.ids.contains_key(g.keys[node2id@[ident] as int].ident));
                } else if g.ids.contains_key(ident) {
                    let jj = g.ids[ident] as int;
                    assert(g.keys[jj].ident == ident);
                    assert(node2id@.contains_key(g.keys[jj].ident));
                }
            }
            assert forall|ident: u64| #[trigger] node2id@.contains_key(ident) implies node2id@[ident]
                == g.ids[ident] by {
                assert(g.keys[node2id@[ident] as int].ident == ident);
                assert(g.ids[g.keys[node2id@[ident] as int].ident] == node2id@[ident] as int);
            }
            assert(node2id@ =~= g.ids);
            assert(keys@ =~= g.keys);
        }
        Topology {
            keys,
            node2id,
            deps: clone_adjacency(&self.deps),
            dependents: clone_adjacency(&self.dependents),
        }
    }

    /// Records that `node` depends on each entry of `predecessors`, in
    /// order, registering every key seen for the first time.  A dependency
    /// listed twice is recorded twice.
    pub fn add_node(&mut self, node: NodeKey, predecessors: &Vec<NodeKey>)
        requires
            old(self)@.wf(),
        ensures
            final(self)@.wf(),
            final(self)@ == old(self)@.add_call(node, predecessors@),
    {
        let node_id = self.get_or_insert_node_id(&node);
        proof {
            assert(predecessors@.skip(0) =~= predecessors@);
        }
        let n_preds = predecessors.len();
        let mut idx: usize = 0;
        while idx < n_preds
            invariant
                idx <= n_preds,
                n_preds == predecessors@.len(),
                self@.wf(),
                node_id < self@.n(),
                self@.add_edges(node_id as int, predecessors@.skip(idx as int)) == old(
                    self,
                )@.add_call(node, predecessors@),
            decreases n_preds - idx,
        {
            let ghost mid = self@;
            let pred = predecessors[idx];
            let child_id = self.get_or_insert_node_id(&pred);
            let ghost reg = self@;
            self.deps[node_id].push(child_id);
            self.dependents[child_id].push(node_id);
            proof {
                let g = self@;
                let goal = mid.add_edge(node_id as int, pred);
                assert(g.deps =~= reg.deps.update(
                    node_id as int,
                    reg.deps[node_id as int].push(child_id),
                ));
                assert(g.dependents =~= reg.dependents.update(
                    child_id as int,
                    reg.dependents[child_id as int].push(node_id),
                ));
                assert(g == goal);
                assert forall|i: int, j: int|
                    0 <= i < g.n() && 0 <= j < g.n() implies #[trigger] count_occ(g.deps[i], j)
                    == count_occ(g.dependents[j], i) by {
                    assert(count_occ(reg.deps[i], j) == count_occ(reg.dependents[j], i));
                    lemma_count_occ_push(reg.deps[node_id as int], child_id, j);
                    lemma_count_occ_push(reg.dependents[child_id as int], node_id, i);
                }
                assert(g.wf());
                assert(predecessors@.skip(idx as int).first() == pred);
                assert(predecessors@.skip(idx as int).drop_first() =~= predecessors@.skip(
                    idx as int + 1,
                ));
            }
            idx += 1;
        }
        proof {
            assert(predecessors@.skip(n_preds as int) =~= Seq::<NodeKey>::empty());
        }
    }
}

} // verus!
