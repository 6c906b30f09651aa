//! Cycle detection over an adjacency structure: an iterative depth-first
//! search with an explicit node stack and a parallel stack of neighbor
//! cursors, so that arbitrarily deep graphs never touch the native call
//! stack.
//!
//! On failure the search hands back the offending path itself; on success
//! it establishes a witness that no cycle exists at all: a ranking of the
//! nodes that strictly decreases along every edge.

use vstd::prelude::*;

use crate::topology::seq_views;

verus! {

/// There is an edge from `u` to `v`.
pub open spec fn has_edge(adj: Seq<Seq<usize>>, u: int, v: int) -> bool {
    exists|k: int| 0 <= k < adj[u].len() && adj[u][k] == v
}

/// Every listed neighbor is a valid node index.
pub open spec fn adj_wf(adj: Seq<Seq<usize>>) -> bool {
    forall|u: int, k: int|
        0 <= u < adj.len() && 0 <= k < adj[u].len() ==> (#[trigger] adj[u][k]) < adj.len()
}

/// `p`, read as consecutive edges, is a simple cycle: at least one edge,
/// first and last node equal, and no node repeated before the closing
/// entry.  On a two-node cycle only the two length-three paths qualify.
pub open spec fn valid_cycle(adj: Seq<Seq<usize>>, p: Seq<usize>) -> bool {
    &&& p.len() >= 2
    &&& p[0] == p[p.len() - 1]
    &&& forall|k: int| 0 <= k < p.len() ==> (#[trigger] p[k]) < adj.len()
    &&& forall|k: int| 0 <= k < p.len() - 1 ==> has_edge(adj, #[trigger] p[k] as int, p[k + 1] as int)
    &&& forall|k1: int, k2: int| 0 <= k1 < k2 < p.len() - 1 ==> p[k1] != p[k2]
}

/// A ranking that strictly decreases along every edge.  A graph with such
/// a ranking cannot contain a cycle; its existence is what `find_cycle`
/// guarantees when it finds none.
pub open spec fn valid_rank(adj: Seq<Seq<usize>>, rank: Seq<int>) -> bool {
    &&& rank.len() == adj.len()
    &&& forall|u: int, k: int|
        0 <= u < adj.len() && 0 <= k < adj[u].len() ==> rank[(#[trigger] adj[u][k]) as int]
            < rank[u]
}

/// How many entries of `seen` are still false.
pub open spec fn count_unseen(seen: Seq<bool>) -> nat
    decreases seen.len(),
{
    if seen.len() == 0 {
        0nat
    } else {
        count_unseen(seen.drop_last()) + if seen.last() {
            0nat
        } else {
            1nat
        }
    }
}

proof fn lemma_count_unseen_update(seen: Seq<bool>, i: int)
    requires
        0 <= i < seen.len(),
        !seen[i],
    ensures
        count_unseen(seen.update(i, true)) + 1 == count_unseen(seen),
    decreases seen.len(),
{
    if i == seen.len() - 1 {
        assert(seen.update(i, true).drop_last() =~= seen.drop_last());
        assert(seen.update(i, true).last());
    } else {
        assert(seen.update(i, true).drop_last() =~= seen.drop_last().update(i, true));
        lemma_count_unseen_update(seen.drop_last(), i);
    }
}

/// The neighbors not yet handed out by the cursors of the stack entries.
pub open spec fn sum_rem(adj: Seq<Seq<usize>>, stack: Seq<usize>, iters: Seq<usize>) -> nat
    decreases stack.len(),
{
    if stack.len() == 0 {
        0nat
    } else {
        sum_rem(adj, stack.drop_last(), iters.drop_last()) + if iters.last() <= adj[stack.last() as int].len() {
            (adj[stack.last() as int].len() - iters.last()) as nat
        } else {
            0nat
        }
    }
}

proof fn lemma_sum_rem_advance(adj: Seq<Seq<usize>>, stack: Seq<usize>, iters: Seq<usize>, it1: usize)
    requires
        iters.len() == stack.len(),
        stack.len() > 0,
        iters.last() < adj[stack.last() as int].len(),
        it1 == iters.last() + 1,
    ensures
        sum_rem(adj, stack, iters.update(iters.len() - 1, it1)) == sum_rem(adj, stack, iters) - 1,
{
    let iters2 = iters.update(iters.len() - 1, it1);
    assert(iters2.drop_last() =~= iters.drop_last());
    assert(iters2.last() == iters.last() + 1);
}

/// Everything already popped is ranked below `counter`, and its neighbors
/// are all popped with strictly smaller rank.
spec fn popped_inv(
    adj: Seq<Seq<usize>>,
    seen: Seq<bool>,
    on_stack: Seq<bool>,
    rank: Seq<int>,
    counter: int,
) -> bool {
    forall|i: int|
        0 <= i < adj.len() && seen[i] && !(#[trigger] on_stack[i]) ==> 0 <= rank[i] < counter
            && forall|m: int|
            0 <= m < adj[i].len() ==> seen[(#[trigger] adj[i][m]) as int] && !on_stack[adj[i][m] as int]
                && rank[adj[i][m] as int] < rank[i]
}

/// Marking a previously unseen node as seen and on the stack leaves
/// `popped_inv` standing: the node was not popped, and nothing popped can
/// list an unseen node among its neighbors.
proof fn lemma_popped_inv_mark(
    adj: Seq<Seq<usize>>,
    seen: Seq<bool>,
    on_stack: Seq<bool>,
    rank: Seq<int>,
    counter: int,
    x: int,
)
    requires
        adj_wf(adj),
        popped_inv(adj, seen, on_stack, rank, counter),
        seen.len() == adj.len(),
        on_stack.len() == adj.len(),
        0 <= x < adj.len(),
        !seen[x],
    ensures
        popped_inv(adj, seen.update(x, true), on_stack.update(x, true), rank, counter),
{
    let seen2 = seen.update(x, true);
    let on2 = on_stack.update(x, true);
    assert forall|i: int| 0 <= i < adj.len() && seen2[i] && !(#[trigger] on2[i]) implies 0 <= rank[i]
        < counter && forall|m: int|
        0 <= m < adj[i].len() ==> seen2[(#[trigger] adj[i][m]) as int] && !on2[adj[i][m] as int]
            && rank[adj[i][m] as int] < rank[i] by {
        assert(i != x);
        assert(seen[i] && !on_stack[i]);
        assert forall|m: int| 0 <= m < adj[i].len() implies seen2[(#[trigger] adj[i][m]) as int]
            && !on2[adj[i][m] as int] && rank[adj[i][m] as int] < rank[i] by {
            let nb = adj[i][m] as int;
            assert(0 <= nb < adj.len());
            assert(seen[nb] && !on_stack[nb] && rank[nb] < rank[i]);
            assert(nb != x);
        }
    }
}

/// The shape of the search stack: entries are valid, marked, placed where
/// their recorded position says, their cursors in bounds, and consecutive
/// entries joined by the edge their cursor last handed out.
spec fn stack_ok(
    adj: Seq<Seq<usize>>,
    stack: Seq<usize>,
    iters: Seq<usize>,
    seen: Seq<bool>,
    on_stack: Seq<bool>,
    pos: Seq<usize>,
) -> bool {
    &&& iters.len() == stack.len()
    &&& forall|k: int|
        0 <= k < stack.len() ==> (#[trigger] stack[k]) < adj.len() && seen[stack[k] as int]
            && on_stack[stack[k] as int] && pos[stack[k] as int] == k && iters[k] <= adj[stack[k] as int].len()
    &&& forall|i: int|
        0 <= i < adj.len() && #[trigger] on_stack[i] ==> pos[i] < stack.len() && stack[pos[i] as int]
            == i
    &&& forall|k: int|
        0 <= k < stack.len() - 1 ==> (#[trigger] iters[k]) >= 1 && adj[stack[k] as int][iters[k]
            - 1] == stack[k + 1]
}

/// Every neighbor a cursor has already handed out is marked, and if it is
/// still on the stack it sits strictly above the entry that explored it.
spec fn processed_ok(
    adj: Seq<Seq<usize>>,
    stack: Seq<usize>,
    iters: Seq<usize>,
    seen: Seq<bool>,
    on_stack: Seq<bool>,
    pos: Seq<usize>,
) -> bool {
    forall|k: int, m: int|
        0 <= k < stack.len() && 0 <= m < iters[k] ==> seen[(#[trigger] adj[stack[k] as int][m]) as int]
            && (on_stack[adj[stack[k] as int][m] as int] ==> pos[adj[stack[k] as int][m] as int]
            > k)
}


/// The search itself, as a function: from an explicit machine state
/// (visited marks, on-stack marks, recorded positions, node stack and
/// cursor stack), the result of running the depth-first search to the end
/// of the current root, together with the state it leaves behind.  This
/// is what makes the reported diagnostic deterministic: `find_cycle`
/// returns exactly this function of the adjacency.
pub open spec fn dfs_from(
    adj: Seq<Seq<usize>>,
    seen: Seq<bool>,
    on_stack: Seq<bool>,
    pos: Seq<usize>,
    stack: Seq<usize>,
    iters: Seq<usize>,
) -> (Option<Seq<usize>>, Seq<bool>, Seq<bool>, Seq<usize>)
    decreases count_unseen(seen), sum_rem(adj, stack, iters), stack.len(),
    via check_dfs_from
{
    if stack.len() == 0 || iters.len() != stack.len() {
        (None, seen, on_stack, pos)
    } else {
        let u = stack.last();
        let it = iters.last();
        if it < adj[u as int].len() && it < usize::MAX {
            let j = adj[u as int][it as int];
            let iters2 = iters.update(iters.len() - 1, (it + 1) as usize);
            if (j as int) < seen.len() && !seen[j as int] {
                dfs_from(
                    adj,
                    seen.update(j as int, true),
                    on_stack.update(j as int, true),
                    pos.update(j as int, stack.len() as usize),
                    stack.push(j),
                    iters2.push(0),
                )
            } else if (j as int) < on_stack.len() && on_stack[j as int] {
                (
                    Some(stack.subrange(pos[j as int] as int, stack.len() as int).push(j)),
                    seen,
                    on_stack,
                    pos,
                )
            } else {
                dfs_from(adj, seen, on_stack, pos, stack, iters2)
            }
        } else {
            dfs_from(
                adj,
                seen,
                on_stack.update(u as int, false),
                pos,
                stack.drop_last(),
                iters.drop_last(),
            )
        }
    }
}

#[via_fn]
proof fn check_dfs_from(
    adj: Seq<Seq<usize>>,
    seen: Seq<bool>,
    on_stack: Seq<bool>,
    pos: Seq<usize>,
    stack: Seq<usize>,
    iters: Seq<usize>,
) {
    if stack.len() > 0 && iters.len() == stack.len() {
        let u = stack.last();
        let it = iters.last();
        if it < adj[u as int].len() && it < usize::MAX {
            let j = adj[u as int][it as int];
            let iters2 = iters.update(iters.len() - 1, (it + 1) as usize);
            lemma_sum_rem_advance(adj, stack, iters, (it + 1) as usize);
            if (j as int) < seen.len() && !seen[j as int] {
                lemma_count_unseen_update(seen, j as int);
            }
        } else {
            assert(sum_rem(adj, stack.drop_last(), iters.drop_last()) <= sum_rem(
                adj,
                stack,
                iters,
            ));
        }
    }
}

/// The whole search: roots visited in id order, each unseen root explored
/// by `dfs_from`, the first cycle found reported.
pub open spec fn scan_roots(
    adj: Seq<Seq<usize>>,
    seen: Seq<bool>,
    on_stack: Seq<bool>,
    pos: Seq<usize>,
    root: int,
) -> Option<Seq<usize>>
    decreases adj.len() - root,
{
    if root < 0 || root >= adj.len() {
        None
    } else {
        if 0 <= root < seen.len() && !seen[root] {
            let st = dfs_from(
                adj,
                seen.update(root, true),
                on_stack.update(root, true),
                pos.update(root, 0),
                seq![(root as usize)],
                seq![0],
            );
            if st.0 is Some {
                st.0
            } else {
                scan_roots(adj, st.1, st.2, st.3, root + 1)
            }
        } else {
            scan_roots(adj, seen, on_stack, pos, root + 1)
        }
    }
}

/// The cycle the search reports for `adj`, if any: a function of the
/// adjacency alone, so two runs over the same graph report the same path.
pub open spec fn cycle_report(adj: Seq<Seq<usize>>) -> Option<Seq<usize>> {
    scan_roots(
        adj,
        Seq::new(adj.len(), |i: int| false),
        Seq::new(adj.len(), |i: int| false),
        Seq::new(adj.len(), |i: int| 0usize),
        0,
    )
}

pub(crate) fn filled_false(n: usize) -> (v: Vec<bool>)
    ensures
        v@.len() == n,
        forall|i: int| 0 <= i < n ==> !(#[trigger] v@[i]),
{
    let mut v: Vec<bool> = Vec::new();
    let mut i: usize = 0;
    while i < n
        invariant
            i <= n,
            v@.len() == i,
            forall|k: int| 0 <= k < i ==> !(#[trigger] v@[k]),
        decreases n - i,
    {
        v.push(false);
        i += 1;
    }
    v
}

fn filled_zero(n: usize) -> (v: Vec<usize>)
    ensures
        v@.len() == n,
        forall|i: int| 0 <= i < n ==> (#[trigger] v@[i]) == 0,
{
    let mut v: Vec<usize> = Vec::new();
    let mut i: usize = 0;
    while i < n
        invariant
            i <= n,
            v@.len() == i,
            forall|k: int| 0 <= k < i ==> (#[trigger] v@[k]) == 0,
        decreases n - i,
    {
        v.push(0);
        i += 1;
    }
    v
}

/// Searches `adj` for a cycle, visiting roots in id order and neighbors in
/// list order.  The reported path is pinned exactly: it is `cycle_report`,
/// a function of the adjacency alone, so the diagnostic is reproducible.
/// When nothing is found, a ranking strictly decreasing along every edge
/// exists, so no cycle does.
pub fn find_cycle(adj: &Vec<Vec<usize>>) -> (r: Option<Vec<usize>>)
    requires
        adj_wf(seq_views(*adj)),
    ensures
        match r {
            Some(p) => valid_cycle(seq_views(*adj), p@),
            None => exists|rank: Seq<int>| valid_rank(seq_views(*adj), rank),
        },
        cycle_report(seq_views(*adj)) == (match r {
            Some(p) => Some(p@),
            None => None::<Seq<usize>>,
        }),
{
    let ghost adjv = seq_views(*adj);
    let n = adj.len();
    let mut seen = filled_false(n);
    let mut on_stack = filled_false(n);
    let mut pos = filled_zero(n);
    let mut stack: Vec<usize> = Vec::new();
    let mut iters: Vec<usize> = Vec::new();
    let ghost mut rank: Seq<int> = Seq::new(n as nat, |i: int| 0);
    let ghost mut counter: int = 0;
    proof {
        assert(seen@ =~= Seq::new(adjv.len(), |i: int| false));
        assert(on_stack@ =~= Seq::new(adjv.len(), |i: int| false));
        assert(pos@ =~= Seq::new(adjv.len(), |i: int| 0usize));
    }

    let mut root: usize = 0;
    while root < n
        invariant
            root <= n,
            n == adjv.len(),
            adjv == seq_views(*adj),
            adj_wf(adjv),
            seen@.len() == n,
            on_stack@.len() == n,
            pos@.len() == n,
            rank.len() == n,
            stack@.len() == 0,
            iters@.len() == 0,
            counter >= 0,
            forall|i: int| 0 <= i < n ==> !(#[trigger] on_stack@[i]),
            forall|i: int| 0 <= i < root ==> seen@[i],
            popped_inv(adjv, seen@, on_stack@, rank, counter),
            scan_roots(adjv, seen@, on_stack@, pos@, root as int) == cycle_report(adjv),
        decreases n - root,
    {
        let ghost h_seen = seen@;
        let ghost h_on = on_stack@;
        let ghost h_pos = pos@;
        if !seen[root] {
            proof {
                lemma_popped_inv_mark(adjv, seen@, on_stack@, rank, counter, root as int);
                lemma_count_unseen_update(seen@, root as int);
            }
            let ghost pre_seen = seen@;
            let ghost pre_on = on_stack@;
            seen[root] = true;
            on_stack[root] = true;
            pos[root] = 0;
            stack.push(root);
            iters.push(0);
            let ghost dgoal = dfs_from(adjv, seen@, on_stack@, pos@, stack@, iters@);
            proof {
                assert(seen@ =~= pre_seen.update(root as int, true));
                assert(on_stack@ =~= pre_on.update(root as int, true));
                assert(pos@ =~= h_pos.update(root as int, 0));
                assert(stack@ =~= seq![(root as usize)]);
                assert(iters@ =~= seq![0usize]);
                assert(scan_roots(adjv, h_seen, h_on, h_pos, root as int) == (if dgoal.0 is Some {
                    dgoal.0
                } else {
                    scan_roots(adjv, dgoal.1, dgoal.2, dgoal.3, root as int + 1)
                }));
            }
            while stack.len() > 0
                invariant
                    n == adjv.len(),
                    adjv == seq_views(*adj),
                    adj_wf(adjv),
                    seen@.len() == n,
                    on_stack@.len() == n,
                    pos@.len() == n,
                    rank.len() == n,
                    counter >= 0,
                    root < n,
                    seen@[root as int],
                    forall|i: int| 0 <= i < root ==> seen@[i],
                    stack_ok(adjv, stack@, iters@, seen@, on_stack@, pos@),
                    processed_ok(adjv, stack@, iters@, seen@, on_stack@, pos@),
                    popped_inv(adjv, seen@, on_stack@, rank, counter),
                    dfs_from(adjv, seen@, on_stack@, pos@, stack@, iters@) == dgoal,
                    dgoal.0 is Some ==> cycle_report(adjv) == dgoal.0,
                    dgoal.0 is None ==> cycle_report(adjv) == scan_roots(
                        adjv,
                        dgoal.1,
                        dgoal.2,
                        dgoal.3,
                        root as int + 1,
                    ),
                decreases count_unseen(seen@), sum_rem(adjv, stack@, iters@), stack@.len(),
            {
                let top = stack.len() - 1;
                let u = stack[top];
                let it = iters[top];
                if it < adj[u].len() {
                    let ghost pre_iters = iters@;
                    iters[top] = it + 1;
                    proof {
                        assert(iters@ =~= pre_iters.update(top as int, (it + 1) as usize));
                        lemma_sum_rem_advance(adjv, stack@, pre_iters, (it + 1) as usize);
                        assert(stack@.last() == u);
                        assert(pre_iters.last() == it);
                        assert(it < adjv[u as int].len() && it < usize::MAX);
                    }
                    let j = adj[u][it];
                    proof {
                        assert(adjv[u as int][it as int] == j);
                        assert(j < n);
                    }
                    if !seen[j] {
                        proof {
                            lemma_popped_inv_mark(adjv, seen@, on_stack@, rank, counter, j as int);
                            lemma_count_unseen_update(seen@, j as int);
                        }
                        let ghost pre_seen = seen@;
                        let ghost pre_on = on_stack@;
                        let ghost pre_pos = pos@;
                        let ghost pre_stack = stack@;
                        let ghost cur_iters = iters@;
                        seen[j] = true;
                        on_stack[j] = true;
                        pos[j] = stack.len();
                        stack.push(j);
                        iters.push(0);
                        proof {
                            assert(seen@ =~= pre_seen.update(j as int, true));
                            assert(on_stack@ =~= pre_on.update(j as int, true));
                            assert(pos@ =~= pre_pos.update(j as int, pre_stack.len() as usize));
                            assert(stack@ =~= pre_stack.push(j));
                            assert(iters@ =~= cur_iters.push(0));
                            let pl = pre_stack.len() as int;
                            assert forall|k: int| 0 <= k < stack@.len() implies (
                            #[trigger] stack@[k]) < adjv.len() && seen@[stack@[k] as int]
                                && on_stack@[stack@[k] as int] && pos@[stack@[k] as int] == k
                                && iters@[k] <= adjv[stack@[k] as int].len() by {
                                if k < pl {
                                    assert(stack@[k] == pre_stack[k]);
                                    assert(pre_seen[pre_stack[k] as int]);
                                    assert(pre_stack[k] != j);
                                    if k < pl - 1 {
                                        assert(iters@[k] == pre_iters[k]);
                                    } else {
                                        assert(iters@[k] == it + 1);
                                    }
                                } else {
                                    assert(stack@[k] == j);
                                    assert(pos@[j as int] == pl);
                                    assert(iters@[k] == 0);
                                }
                            }
                            assert forall|i: int|
                                0 <= i < n && #[trigger] on_stack@[i] implies pos@[i]
                                < stack@.len() && stack@[pos@[i] as int] == i by {
                                if i == j as int {
                                    assert(pos@[i] == pl);
                                } else {
                                    assert(pre_on[i]);
                                    assert(pos@[i] == pre_pos[i]);
                                    assert(pre_stack[pre_pos[i] as int] == i);
                                }
                            }
                            assert forall|k: int| 0 <= k < stack@.len() - 1 implies (
                            #[trigger] iters@[k]) >= 1 && adjv[stack@[k] as int][iters@[k] - 1]
                                == stack@[k + 1] by {
                                if k < pl - 1 {
                                    assert(stack@[k] == pre_stack[k]);
                                    assert(stack@[k + 1] == pre_stack[k + 1]);
                                    assert(iters@[k] == pre_iters[k]);
                                    assert(adjv[pre_stack[k] as int][pre_iters[k] - 1]
                                        == pre_stack[k + 1]);
                                } else {
                                    assert(stack@[k] == u);
                                    assert(iters@[k] == it + 1);
                                    assert(stack@[k + 1] == j);
                                }
                            }
                            assert forall|k: int, m: int|
                                0 <= k < stack@.len() && 0 <= m < iters@[k] implies seen@[(
                            #[trigger] adjv[stack@[k] as int][m]) as int] && (on_stack@[adjv[stack@[k] as int][m] as int]
                                ==> pos@[adjv[stack@[k] as int][m] as int] > k) by {
                                if k < pl {
                                    assert(stack@[k] == pre_stack[k]);
                                    let nb = adjv[pre_stack[k] as int][m] as int;
                                    assert(0 <= nb < n);
                                    if k == pl - 1 && m == it {
                                        assert(nb == j as int);
                                        assert(pos@[nb] == pl > k);
                                    } else {
                                        assert(m < pre_iters[k]);
                                        assert(pre_seen[nb]);
                                        assert(nb != j as int);
                                        if on_stack@[nb] {
                                            assert(pre_on[nb]);
                                            assert(pre_pos[nb] > k);
                                        }
                                    }
                                }
                            }
                            assert(stack_ok(adjv, stack@, iters@, seen@, on_stack@, pos@));
                            assert(processed_ok(adjv, stack@, iters@, seen@, on_stack@, pos@));
                            assert(cur_iters == pre_iters.update(
                                pre_iters.len() - 1,
                                (it + 1) as usize,
                            ));
                            assert(pos@ =~= pre_pos.update(j as int, pre_stack.len() as usize));
                            assert(dfs_from(adjv, pre_seen, pre_on, pre_pos, pre_stack, pre_iters)
                                == dfs_from(adjv, seen@, on_stack@, pos@, stack@, iters@));
                        }
                    } else if on_stack[j] {
                        // The stack from j's recorded position to the top,
                        // with j appended, read as consecutive edges, is a
                        // cycle.
                        let start = pos[j];
                        let mut res: Vec<usize> = Vec::new();
                        let mut t = start;
                        while t < stack.len()
                            invariant
                                start <= t <= stack@.len(),
                                res@ =~= stack@.subrange(start as int, t as int),
                            decreases stack@.len() - t,
                        {
                            let x = stack[t];
                            res.push(x);
                            t += 1;
                        }
                        res.push(j);
                        proof {
                            let p = res@;
                            let sl = stack@.len() as int;
                            assert(stack@[pos@[j as int] as int] == j);
                            assert(p[0] == j);
                            assert(p[p.len() - 1] == j);
                            // stack entries are distinct (each knows its
                            // position), so the reported slice is simple
                            assert forall|k1: int, k2: int|
                                0 <= k1 < k2 < p.len() - 1 implies p[k1] != p[k2] by {
                                assert(p[k1] == stack@[start + k1]);
                                assert(p[k2] == stack@[start + k2]);
                                assert(pos@[stack@[start + k1] as int] == start + k1);
                                assert(pos@[stack@[start + k2] as int] == start + k2);
                            }
                            assert forall|k: int| 0 <= k < p.len() - 1 implies has_edge(
                                adjv,
                                #[trigger] p[k] as int,
                                p[k + 1] as int,
                            ) by {
                                if k < p.len() - 2 {
                                    let sk = start + k;
                                    assert(p[k] == stack@[sk]);
                                    assert(p[k + 1] == stack@[sk + 1]);
                                    assert(adjv[stack@[sk] as int][iters@[sk] - 1] == stack@[sk
                                        + 1]);
                                } else {
                                    assert(p[k] == stack@[sl - 1]);
                                    assert(adjv[u as int][it as int] == j);
                                }
                            }
                            assert(p =~= stack@.subrange(
                                pos@[j as int] as int,
                                stack@.len() as int,
                            ).push(j));
                            assert(dfs_from(adjv, seen@, on_stack@, pos@, stack@, pre_iters).0
                                == Some(p));
                            assert(dgoal.0 == Some(p));
                            assert(cycle_report(adjv) == Some(res@));
                        }
                        return Some(res);
                    } else {
                        // The neighbor was explored and popped before:
                        // only u's cursor moved on.
                        proof {
                            assert forall|k: int| 0 <= k < stack@.len() implies (
                            #[trigger] stack@[k]) < adjv.len() && seen@[stack@[k] as int]
                                && on_stack@[stack@[k] as int] && pos@[stack@[k] as int] == k
                                && iters@[k] <= adjv[stack@[k] as int].len() by {
                                if k != top as int {
                                    assert(iters@[k] == pre_iters[k]);
                                }
                            }
                            assert forall|k: int, m: int|
                                0 <= k < stack@.len() && 0 <= m < iters@[k] implies seen@[(
                            #[trigger] adjv[stack@[k] as int][m]) as int] && (on_stack@[adjv[stack@[k] as int][m] as int]
                                ==> pos@[adjv[stack@[k] as int][m] as int] > k) by {
                                if k == top as int && m == it {
                                    assert(adjv[stack@[k] as int][m] == j);
                                } else {
                                    assert(m < pre_iters[k]);
                                }
                            }
                            assert(stack_ok(adjv, stack@, iters@, seen@, on_stack@, pos@));
                            assert(processed_ok(adjv, stack@, iters@, seen@, on_stack@, pos@));
                            assert(dfs_from(adjv, seen@, on_stack@, pos@, stack@, pre_iters)
                                == dfs_from(adjv, seen@, on_stack@, pos@, stack@, iters@));
                        }
                    }
                } else {
                    let ghost pre_stack = stack@;
                    let ghost pre_iters = iters@;
                    let ghost pre_on = on_stack@;
                    let ghost pre_rank = rank;
                    let ghost pre_counter = counter;
                    stack.pop();
                    iters.pop();
                    on_stack[u] = false;
                    proof {
                        rank = rank.update(u as int, counter);
                        counter = counter + 1;
                        assert(stack@ =~= pre_stack.drop_last());
                        assert(iters@ =~= pre_iters.drop_last());
                        assert(on_stack@ =~= pre_on.update(u as int, false));
                        assert(pre_stack[pre_stack.len() - 1] == u);
                        assert(pos@[u as int] == pre_stack.len() - 1);
                        assert(sum_rem(adjv, pre_stack, pre_iters) == sum_rem(
                            adjv,
                            stack@,
                            iters@,
                        ));
                        // u's cursor is exhausted, so every neighbor of u
                        // was handed out; none can sit above the top, so
                        // all are popped with ranks below u's.
                        assert forall|m: int| 0 <= m < adjv[u as int].len() implies seen@[(
                        #[trigger] adjv[u as int][m]) as int] && !on_stack@[adjv[u as int][m] as int]
                            && rank[adjv[u as int][m] as int] < rank[u as int] by {
                            let nb = adjv[u as int][m] as int;
                            assert(seen@[nb]);
                            if pre_on[nb] {
                                assert(pos@[nb] > pre_stack.len() - 1);
                                assert(pos@[nb] < pre_stack.len());
                            }
                            assert(!pre_on[nb]);
                            assert(nb != u as int);
                            assert(pre_rank[nb] < pre_counter);
                        }
                        assert forall|i: int|
                            0 <= i < n && seen@[i] && !(#[trigger] on_stack@[i]) implies 0 <= rank[i]
                            < counter && forall|m: int|
                            0 <= m < adjv[i].len() ==> seen@[(#[trigger] adjv[i][m]) as int]
                                && !on_stack@[adjv[i][m] as int] && rank[adjv[i][m] as int]
                                < rank[i] by {
                            if i != u as int {
                                assert(seen@[i] && !pre_on[i]);
                                assert(0 <= pre_rank[i] < pre_counter);
                                assert forall|m: int| 0 <= m < adjv[i].len() implies seen@[(
                                #[trigger] adjv[i][m]) as int] && !on_stack@[adjv[i][m] as int]
                                    && rank[adjv[i][m] as int] < rank[i] by {
                                    let nb = adjv[i][m] as int;
                                    assert(seen@[nb] && !pre_on[nb]);
                                    assert(nb != u as int);
                                }
                            }
                        }
                        assert forall|k: int| 0 <= k < stack@.len() implies (#[trigger] stack@[k])
                            < adjv.len() && seen@[stack@[k] as int] && on_stack@[stack@[k] as int]
                            && pos@[stack@[k] as int] == k && iters@[k]
                            <= adjv[stack@[k] as int].len() by {
                            assert(stack@[k] == pre_stack[k]);
                            assert(pos@[pre_stack[k] as int] == k);
                            assert(pre_stack[k] != u);
                        }
                        assert forall|i: int|
                            0 <= i < n && #[trigger] on_stack@[i] implies pos@[i] < stack@.len()
                            && stack@[pos@[i] as int] == i by {
                            assert(pre_on[i] && i != u as int);
                            assert(pos@[i] < pre_stack.len());
                            assert(pre_stack[pos@[i] as int] == i);
                            assert(pos@[i] != pre_stack.len() - 1);
                        }
                        assert forall|k: int, m: int|
                            0 <= k < stack@.len() && 0 <= m < iters@[k] implies seen@[(
                        #[trigger] adjv[stack@[k] as int][m]) as int] && (on_stack@[adjv[stack@[k] as int][m] as int]
                            ==> pos@[adjv[stack@[k] as int][m] as int] > k) by {
                            assert(stack@[k] == pre_stack[k]);
                            assert(iters@[k] == pre_iters[k]);
                            let nb = adjv[pre_stack[k] as int][m] as int;
                            assert(seen@[nb]);
                            if on_stack@[nb] {
                                assert(pre_on[nb]);
                            }
                        }
                        assert forall|k: int| 0 <= k < stack@.len() - 1 implies (
                        #[trigger] iters@[k]) >= 1 && adjv[stack@[k] as int][iters@[k] - 1]
                            == stack@[k + 1] by {
                            assert(stack@[k] == pre_stack[k]);
                            assert(stack@[k + 1] == pre_stack[k + 1]);
                            assert(iters@[k] == pre_iters[k]);
                            assert(adjv[pre_stack[k] as int][pre_iters[k] - 1] == pre_stack[k + 1]);
                        }
                        assert(stack_ok(adjv, stack@, iters@, seen@, on_stack@, pos@));
                        assert(processed_ok(adjv, stack@, iters@, seen@, on_stack@, pos@));
                        assert(pre_stack.last() == u);
                        assert(pre_iters.last() == it);
                        assert(dfs_from(adjv, seen@, pre_on, pos@, pre_stack, pre_iters)
                            == dfs_from(adjv, seen@, on_stack@, pos@, stack@, iters@));
                    }
                }
            }
            proof {
                assert(dfs_from(adjv, seen@, on_stack@, pos@, stack@, iters@) == (
                    None::<Seq<usize>>,
                    seen@,
                    on_stack@,
                    pos@,
                ));
                assert(dgoal.0 is None);
                assert(cycle_report(adjv) == scan_roots(
                    adjv,
                    seen@,
                    on_stack@,
                    pos@,
                    root as int + 1,
                ));
            }
        } else {
            proof {
                assert(scan_roots(adjv, h_seen, h_on, h_pos, root as int) == scan_roots(
                    adjv,
                    h_seen,
                    h_on,
                    h_pos,
                    root as int + 1,
                ));
            }
        }
        root += 1;
    }
    proof {
        assert(scan_roots(adjv, seen@, on_stack@, pos@, n as int) == None::<Seq<usize>>);
        assert forall|u: int, k: int|
            0 <= u < adjv.len() && 0 <= k < adjv[u].len() implies rank[(#[trigger] adjv[u][k]) as int]
            < rank[u] by {
            assert(seen@[u] && !on_stack@[u]);
        }
        assert(valid_rank(adjv, rank));
    }
    None
}

} // verus!
