//! Which nodes the walk along the edges of a graph visits.

use crate::tsp::christofides::{
    edge_count, grow, growth_fits, joined, lemma_edge_count_pop, lemma_joined_within,
    lemma_relax_fits, lemma_walk_from_first, next_node, relax, seed, spanning, walk, within, Edges,
    Growth,
};
use vstd::prelude::*;

verus! {

/// An edge of the list of `u` leads to `v`.
pub open spec fn leads(lists: Edges, u: int, v: usize) -> bool {
    exists|i: int| 0 <= i < lists[u].len() && (#[trigger] lists[u][i]).0 == v
}

/// Every list of `more` begins with the list of `lists` for that node.
pub open spec fn grown_from(more: Edges, lists: Edges) -> bool {
    &&& more.len() == lists.len()
    &&& forall|u: int| 0 <= u < lists.len() ==> (#[trigger] lists[u]).len() <= more[u].len()
    &&& forall|u: int, i: int|
        0 <= u < lists.len() && 0 <= i < lists[u].len() ==> more[u][i] == #[trigger] lists[u][i]
}

/// The lists that grew keep where their edges lead.
pub proof fn lemma_grown_leads(more: Edges, lists: Edges, u: int, v: usize)
    requires
        grown_from(more, lists),
        0 <= u < lists.len(),
        leads(lists, u, v),
    ensures
        leads(more, u, v),
{
    let i = choose|i: int| 0 <= i < lists[u].len() && (#[trigger] lists[u][i]).0 == v;
    assert(more[u][i] == lists[u][i]);
}

/// A visit of `u` that has looked at the first `m` nodes lets the lists
/// grow, and an edge of `u` leads to each of those nodes that is not
/// visited and that a positive weight joins to `u`.
pub proof fn lemma_relax_grows(adj: Seq<Vec<i32>>, s: Growth, u: int, m: int)
    requires
        growth_fits(s, adj.len() as int),
        0 <= u < adj.len(),
        0 <= m <= adj.len(),
    ensures
        grown_from(relax(adj, s, u, m).lists, s.lists),
        forall|v: int|
            0 <= v < m && !s.visited[v] && adj[u][v] > 0 ==> #[trigger] leads(
                relax(adj, s, u, m).lists,
                u,
                v as usize,
            ),
    decreases m,
{
    if m > 0 {
        lemma_relax_grows(adj, s, u, m - 1);
        lemma_relax_fits(adj, s, u, m - 1);
        let prev = relax(adj, s, u, m - 1);
        let now = relax(adj, s, u, m);
        let last = m - 1;
        let w = adj[u][last];
        if !prev.visited[last] && w > 0 {
            let l1 = prev.lists.update(u, prev.lists[u].push((last as usize, w)));
            let l2 = l1.update(last, l1[last].push((u as usize, w)));
            assert(now.lists == l2);
            assert(grown_from(l2, prev.lists)) by {
                assert forall|a: int, i: int|
                    0 <= a < prev.lists.len() && 0 <= i < prev.lists[a].len() implies l2[a][i]
                    == #[trigger] prev.lists[a][i] by {
                    if a == last {
                        assert(l2[a][i] == l1[a][i]);
                    }
                }
            }
            if last == u {
                assert(l2[u][l2[u].len() - 1].0 == last as usize);
            } else {
                assert(l2[u][prev.lists[u].len() as int].0 == last as usize);
            }
            assert(leads(l2, u, last as usize));
        }
        assert forall|v: int| 0 <= v < m && !s.visited[v] && adj[u][v] > 0 implies #[trigger] leads(
            now.lists,
            u,
            v as usize,
        ) by {
            if v < last {
                assert(leads(prev.lists, u, v as usize));
                lemma_grown_leads(now.lists, prev.lists, u, v as usize);
            }
        }
    }
}

/// The node to visit next is one of the nodes looked at.
pub proof fn lemma_next_node_below(s: Growth, m: int)
    requires
        0 <= m <= usize::MAX,
    ensures
        next_node(s, m) is Some ==> next_node(s, m).unwrap() < m,
    decreases m,
{
    if m > 0 {
        lemma_next_node_below(s, m - 1);
    }
}

/// The growth lets the lists grow.
pub proof fn lemma_grow_grows(adj: Seq<Vec<i32>>, s: Growth, fuel: nat)
    requires
        growth_fits(s, adj.len() as int),
        adj.len() <= usize::MAX,
    ensures
        grown_from(grow(adj, s, fuel).lists, s.lists),
    decreases fuel,
{
    if fuel > 0 {
        let n = adj.len() as int;
        lemma_next_node_below(s, n);
        match next_node(s, n) {
            None => {},
            Some(u) => {
                let seen = Growth {
                    visited: s.visited.update(u as int, true),
                    reached: s.reached,
                    lists: s.lists,
                };
                lemma_relax_fits(adj, seen, u as int, n);
                lemma_relax_grows(adj, seen, u as int, n);
                let after = relax(adj, seen, u as int, n);
                lemma_grow_grows(adj, after, (fuel - 1) as nat);
            },
        }
    }
}

/// Before the first visit the node to visit next is the first node.
pub proof fn lemma_next_of_seed(n: nat, m: int)
    requires
        1 <= m <= n,
    ensures
        next_node(seed(n), m) == Some(0usize),
    decreases m,
{
    if m > 1 {
        lemma_next_of_seed(n, m - 1);
    } else {
        assert(next_node(seed(n), 0) is None);
    }
}

/// In the spanning structure an edge of the first node leads to every node
/// that a positive weight joins to it.
pub proof fn lemma_spanning_first(adj: Seq<Vec<i32>>)
    requires
        0 < adj.len() <= usize::MAX,
    ensures
        spanning(adj).len() == adj.len(),
        forall|v: int|
            0 < v < adj.len() && adj[0][v] > 0 ==> #[trigger] leads(spanning(adj), 0, v as usize),
{
    let n = adj.len();
    let s = seed(n);
    lemma_next_of_seed(n, n as int);
    let seen = Growth { visited: s.visited.update(0, true), reached: s.reached, lists: s.lists };
    lemma_relax_fits(adj, seen, 0, n as int);
    lemma_relax_grows(adj, seen, 0, n as int);
    let after = relax(adj, seen, 0, n as int);
    lemma_grow_grows(adj, after, (n - 1) as nat);
    assert(spanning(adj) == grow(adj, after, (n - 1) as nat).lists);
    assert forall|v: int| 0 < v < n && adj[0][v] > 0 implies #[trigger] leads(
        spanning(adj),
        0,
        v as usize,
    ) by {
        assert(!seen.visited[v]);
        assert(leads(after.lists, 0, v as usize));
        lemma_grown_leads(spanning(adj), after.lists, 0, v as usize);
    }
}

/// The edges of a matching let the lists grow.
pub proof fn lemma_joined_grows(lists: Edges, adj: Seq<Vec<i32>>, pairs: Seq<(usize, usize)>, k: int)
    requires
        lists.len() == adj.len(),
        within(lists, adj.len() as int),
        0 <= k <= pairs.len(),
        forall|i: int|
            0 <= i < pairs.len() ==> (#[trigger] pairs[i]).0 < adj.len() && pairs[i].1 < adj.len(),
    ensures
        grown_from(joined(lists, adj, pairs, k), lists),
    decreases k,
{
    if k > 0 {
        lemma_joined_grows(lists, adj, pairs, k - 1);
        lemma_joined_within(lists, adj, pairs, k - 1);
        let prev = joined(lists, adj, pairs, k - 1);
        let (u, v) = pairs[k - 1];
        let w = adj[u as int][v as int];
        let l1 = prev.update(u as int, prev[u as int].push((v, w)));
        let l2 = l1.update(v as int, l1[v as int].push((u, w)));
        assert(joined(lists, adj, pairs, k) == l2);
        assert forall|a: int| 0 <= a < lists.len() implies (#[trigger] lists[a]).len()
            <= l2[a].len() by {
            assert(lists[a].len() <= prev[a].len());
        }
        assert forall|a: int, i: int| 0 <= a < lists.len() && 0 <= i < lists[a].len() implies l2[a][i]
            == #[trigger] lists[a][i] by {
            assert(prev[a][i] == lists[a][i]);
            if a == v as int {
                assert(l2[a][i] == l1[a][i]);
            }
        }
    }
}

/// The walk has node `v` in its circuit, among the nodes it remembers, or
/// is at it.
pub open spec fn pending(stack: Seq<usize>, current: usize, circuit: Seq<usize>, v: usize) -> bool {
    circuit.contains(v) || stack.contains(v) || v == current
}

/// A state of the walk that began with the lists `start` at the first
/// node: the lists are what is left of `start`; every edge that was used
/// leads to a node that the walk has seen; no edge is left at a node of
/// the circuit.
pub open spec fn walked(
    start: Edges,
    lists: Edges,
    stack: Seq<usize>,
    current: usize,
    circuit: Seq<usize>,
) -> bool {
    &&& within(start, start.len() as int)
    &&& grown_from(start, lists)
    &&& current < start.len()
    &&& forall|i: int| 0 <= i < stack.len() ==> #[trigger] stack[i] < start.len()
    &&& forall|i: int| 0 <= i < circuit.len() ==> #[trigger] circuit[i] < start.len()
    &&& stack.len() >= 1 ==> stack[0] == 0
    &&& stack.len() == 1 ==> current == 0
    &&& stack.len() >= 2 ==> stack[1] == 0
    &&& forall|u: int, i: int|
        0 <= u < start.len() && lists[u].len() <= i < start[u].len() ==> pending(
            stack,
            current,
            circuit,
            (#[trigger] start[u][i]).0,
        )
    &&& forall|k: int| 0 <= k < circuit.len() ==> lists[#[trigger] circuit[k] as int].len() == 0
}

/// Every edge of `start` at a node of `circuit` leads to a node of
/// `circuit`.
pub open spec fn closed(start: Edges, circuit: Seq<usize>) -> bool {
    forall|u: usize, i: int|
        circuit.contains(u) && u < start.len() && 0 <= i < start[u as int].len()
            ==> circuit.contains((#[trigger] start[u as int][i]).0)
}

/// A node that the walk has seen is still seen after the walk has put the
/// current node into the circuit and returned to the node remembered last.
proof fn lemma_pending_back(stack: Seq<usize>, current: usize, circuit: Seq<usize>, v: usize)
    requires
        stack.len() > 0,
        pending(stack, current, circuit, v),
    ensures
        pending(stack.drop_last(), stack.last(), circuit.push(current), v),
{
    let done = circuit.push(current);
    if circuit.contains(v) {
        let k = choose|k: int| 0 <= k < circuit.len() && circuit[k] == v;
        assert(done[k] == v);
    } else if stack.contains(v) {
        let k = choose|k: int| 0 <= k < stack.len() && stack[k] == v;
        if k < stack.len() - 1 {
            assert(stack.drop_last()[k] == v);
        }
    } else {
        assert(done[circuit.len() as int] == v);
    }
}

/// A node that the walk has seen is still seen after the walk has
/// remembered the current node and gone on to `next`.
proof fn lemma_pending_on(
    stack: Seq<usize>,
    current: usize,
    circuit: Seq<usize>,
    next: usize,
    v: usize,
)
    requires
        pending(stack, current, circuit, v),
    ensures
        pending(stack.push(current), next, circuit, v),
{
    let more = stack.push(current);
    if circuit.contains(v) {
    } else if stack.contains(v) {
        let k = choose|k: int| 0 <= k < stack.len() && stack[k] == v;
        assert(more[k] == v);
    } else {
        assert(more[stack.len() as int] == v);
    }
}

/// The circuit of a walk is closed under the edges that the walk began
/// with.
pub proof fn lemma_walk_closed(
    start: Edges,
    lists: Edges,
    stack: Seq<usize>,
    current: usize,
    circuit: Seq<usize>,
)
    requires
        walked(start, lists, stack, current, circuit),
        stack.len() > 0,
    ensures
        closed(start, walk(lists, stack, current, circuit).0),
    decreases 2 * edge_count(lists, lists.len() as int) + stack.len(),
{
    let n = start.len();
    if lists[current as int].len() == 0 {
        let done = circuit.push(current);
        let back = stack.drop_last();
        assert forall|u: int, i: int|
            0 <= u < n && lists[u].len() <= i < start[u].len() implies pending(
            back,
            stack.last(),
            done,
            (#[trigger] start[u][i]).0,
        ) by {
            lemma_pending_back(stack, current, circuit, start[u][i].0);
        }
        assert forall|k: int| 0 <= k < done.len() implies lists[#[trigger] done[k] as int].len()
            == 0 by {
            if k < circuit.len() {
                assert(done[k] == circuit[k]);
            }
        }
        if stack.len() == 1 {
            assert(back.len() == 0);
            let c = done.reverse();
            assert(walk(lists, back, stack.last(), done).0 == c);
            assert(walk(lists, stack, current, circuit).0 == c);
            assert forall|u: usize, i: int|
                c.contains(u) && u < n && 0 <= i < start[u as int].len() implies c.contains(
                (#[trigger] start[u as int][i]).0,
            ) by {
                let j = choose|j: int| 0 <= j < c.len() && c[j] == u;
                assert(done[done.len() - 1 - j] == u);
                assert(lists[u as int].len() == 0);
                let v = start[u as int][i].0;
                assert(pending(back, stack.last(), done, v));
                assert(!back.contains(v));
                assert(stack.last() == 0 && current == 0);
                assert(done[done.len() - 1] == current);
                assert(done.contains(v));
                let k = choose|k: int| 0 <= k < done.len() && done[k] == v;
                assert(c[done.len() - 1 - k] == v);
            }
        } else {
            assert(walked(start, lists, back, stack.last(), done)) by {
                assert(back[0] == stack[0]);
                if back.len() >= 2 {
                    assert(back[1] == stack[1]);
                }
                assert forall|i: int| 0 <= i < back.len() implies #[trigger] back[i] < n by {
                    assert(back[i] == stack[i]);
                }
                assert forall|i: int| 0 <= i < done.len() implies #[trigger] done[i] < n by {
                    if i < circuit.len() {
                        assert(done[i] == circuit[i]);
                    }
                }
            }
            lemma_walk_closed(start, lists, back, stack.last(), done);
        }
    } else {
        lemma_edge_count_pop(lists, current as int, lists.len() as int);
        let rest = lists.update(current as int, lists[current as int].drop_last());
        let edge = lists[current as int].last();
        let next = edge.0;
        let more = stack.push(current);
        let used = lists[current as int].len() - 1;
        assert(start[current as int][used] == lists[current as int][used]);
        assert(next < n);
        assert(walked(start, rest, more, next, circuit)) by {
            assert forall|u: int| 0 <= u < rest.len() implies (#[trigger] rest[u]).len()
                <= start[u].len() by {
                assert(lists[u].len() <= start[u].len());
            }
            assert forall|u: int, i: int| 0 <= u < rest.len() && 0 <= i < rest[u].len() implies start[u][i]
                == #[trigger] rest[u][i] by {
                assert(rest[u][i] == lists[u][i]);
            }
            assert(more[0] == stack[0]);
            if stack.len() == 1 {
                assert(more[1] == current);
            } else {
                assert(more[1] == stack[1]);
            }
            assert forall|i: int| 0 <= i < more.len() implies #[trigger] more[i] < n by {
                if i < stack.len() {
                    assert(more[i] == stack[i]);
                }
            }
            assert forall|u: int, i: int|
                0 <= u < n && rest[u].len() <= i < start[u].len() implies pending(
                more,
                next,
                circuit,
                (#[trigger] start[u][i]).0,
            ) by {
                if u == current as int && i == used {
                } else {
                    lemma_pending_on(stack, current, circuit, next, start[u][i].0);
                }
            }
            assert forall|k: int| 0 <= k < circuit.len() implies rest[#[trigger] circuit[k] as int].len()
                == 0 by {
                assert(lists[circuit[k] as int].len() == 0);
            }
        }
        lemma_walk_closed(start, rest, more, next, circuit);
    }
}

/// Where an edge of the first node leads to every other node, the circuit
/// of the walk from the first node holds every node.
pub proof fn lemma_walk_visits_all(start: Edges)
    requires
        0 < start.len() <= usize::MAX,
        within(start, start.len() as int),
        forall|v: int| 0 < v < start.len() ==> #[trigger] leads(start, 0, v as usize),
    ensures
        forall|v: int|
            0 <= v < start.len() ==> walk(start, seq![0usize], 0, Seq::empty()).0.contains(
                #[trigger] (v as usize),
            ),
{
    let stack = seq![0usize];
    let none = Seq::<usize>::empty();
    let c = walk(start, stack, 0, none).0;
    assert(walked(start, start, stack, 0, none));
    lemma_walk_closed(start, start, stack, 0, none);
    lemma_walk_from_first(start, stack, 0, none);
    assert(c.contains(0usize));
    assert forall|v: int| 0 <= v < start.len() implies c.contains(#[trigger] (v as usize)) by {
        if v > 0 {
            assert(leads(start, 0, v as usize));
            let i = choose|i: int| 0 <= i < start[0].len() && (#[trigger] start[0][i]).0 == v as usize;
            assert(c.contains(start[0usize as int][i].0));
        }
    }
}

/// How many of the first `k` marks are set.
pub open spec fn marks_set(marks: Seq<bool>, k: int) -> nat
    decreases k,
{
    if k <= 0 {
        0
    } else {
        marks_set(marks, k - 1) + if marks[k - 1] {
            1nat
        } else {
            0nat
        }
    }
}

/// Setting a mark that was not set gives one more.
pub proof fn lemma_marks_set_one(marks: Seq<bool>, x: int, k: int)
    requires
        0 <= x < marks.len(),
        !marks[x],
        0 <= k <= marks.len(),
    ensures
        marks_set(marks.update(x, true), k) == marks_set(marks, k) + if x < k {
            1nat
        } else {
            0nat
        },
    decreases k,
{
    if k > 0 {
        lemma_marks_set_one(marks, x, k - 1);
    }
}

/// Of marks that are all set, or none, as many are set.
pub proof fn lemma_marks_set_same(marks: Seq<bool>, k: int)
    requires
        0 <= k <= marks.len(),
    ensures
        (forall|i: int| 0 <= i < k ==> marks[i]) ==> marks_set(marks, k) == k,
        (forall|i: int| 0 <= i < k ==> !marks[i]) ==> marks_set(marks, k) == 0,
    decreases k,
{
    if k > 0 {
        lemma_marks_set_same(marks, k - 1);
    }
}

} // verus!
