//! A tour through all nodes of a distance matrix, built from a spanning
//! structure, a matching of its nodes of odd degree, and a walk along the
//! edges of both.

use crate::project::rooms::square;
use crate::tsp::visits::{
    lemma_grown_leads, lemma_joined_grows, lemma_marks_set_one, lemma_marks_set_same,
    lemma_spanning_first, lemma_walk_visits_all, marks_set,
};
use vstd::prelude::*;

verus! {

/// For every node the edges that leave it: the node they lead to and their
/// weight.
pub type Edges = Seq<Seq<(usize, i32)>>;

/// The lists of an executable graph.
pub open spec fn edges_of(lists: Seq<Vec<(usize, i32)>>) -> Edges {
    Seq::new(lists.len(), |u: int| lists[u]@)
}

/// Every edge leads to one of the first `n` nodes.
pub open spec fn within(lists: Edges, n: int) -> bool {
    forall|u: int, i: int|
        0 <= u < lists.len() && 0 <= i < lists[u].len() ==> (#[trigger] lists[u][i]).0 < n
}

/// What the growth of the spanning structure keeps: which nodes are
/// visited, for every node the weight of the cheapest edge that reached it
/// so far, and the edges so far.
pub struct Growth {
    pub visited: Seq<bool>,
    pub reached: Seq<Option<i32>>,
    pub lists: Edges,
}

/// The node to visit next, among the first `m`: of the nodes that are
/// reached and not visited, the one that the cheapest edge reached, the
/// last such node where several are reached as cheaply.
pub open spec fn next_node(s: Growth, m: int) -> Option<usize>
    decreases m,
{
    if m <= 0 {
        None
    } else {
        let prev = next_node(s, m - 1);
        if s.visited[m - 1] || s.reached[m - 1] is None {
            prev
        } else if prev is Some && s.reached[prev.unwrap() as int].unwrap() < s.reached[m
            - 1].unwrap() {
            prev
        } else {
            Some((m - 1) as usize)
        }
    }
}

/// The growth after node `u`, just visited, has looked at the first `m`
/// nodes: every node that is not visited and that an edge of positive
/// weight joins to `u` is reached by that edge, and the edge is added to
/// the lists of both.
pub open spec fn relax(adj: Seq<Vec<i32>>, s: Growth, u: int, m: int) -> Growth
    decreases m,
{
    if m <= 0 {
        s
    } else {
        let prev = relax(adj, s, u, m - 1);
        let v = m - 1;
        let w = adj[u][v];
        if !prev.visited[v] && w > 0 {
            Growth {
                visited: prev.visited,
                reached: prev.reached.update(
                    v,
                    if prev.reached[v] is Some && prev.reached[v].unwrap() <= w {
                        prev.reached[v]
                    } else {
                        Some(w)
                    },
                ),
                lists: prev.lists.update(u, prev.lists[u].push((v as usize, w))).update(
                    v,
                    prev.lists.update(u, prev.lists[u].push((v as usize, w)))[v].push(
                        (u as usize, w),
                    ),
                ),
            }
        } else {
            prev
        }
    }
}

/// The growth after `fuel` more visits at most: the next node is visited
/// and looks at all nodes, until no node is reached that is not visited.
pub open spec fn grow(adj: Seq<Vec<i32>>, s: Growth, fuel: nat) -> Growth
    decreases fuel,
{
    if fuel == 0 {
        s
    } else {
        match next_node(s, adj.len() as int) {
            None => s,
            Some(u) => grow(
                adj,
                relax(
                    adj,
                    Growth {
                        visited: s.visited.update(u as int, true),
                        reached: s.reached,
                        lists: s.lists,
                    },
                    u as int,
                    adj.len() as int,
                ),
                (fuel - 1) as nat,
            ),
        }
    }
}

/// The growth before the first visit: only the first node is reached.
pub open spec fn seed(n: nat) -> Growth {
    Growth {
        visited: Seq::new(n, |i: int| false),
        reached: Seq::new(
            n,
            |i: int|
                if i == 0 {
                    Some(0i32)
                } else {
                    None
                },
        ),
        lists: Seq::new(n, |i: int| Seq::empty()),
    }
}

/// The edges of the spanning structure of `adj`.
pub open spec fn spanning(adj: Seq<Vec<i32>>) -> Edges {
    grow(adj, seed(adj.len()), adj.len()).lists
}

/// The shapes of a growth fit `n` nodes.
pub open spec fn growth_fits(s: Growth, n: int) -> bool {
    &&& s.visited.len() == n
    &&& s.reached.len() == n
    &&& s.lists.len() == n
    &&& within(s.lists, n)
}

pub proof fn lemma_relax_fits(adj: Seq<Vec<i32>>, s: Growth, u: int, m: int)
    requires
        growth_fits(s, adj.len() as int),
        0 <= u < adj.len(),
        0 <= m <= adj.len(),
    ensures
        growth_fits(relax(adj, s, u, m), adj.len() as int),
        relax(adj, s, u, m).visited == s.visited,
    decreases m,
{
    if m > 0 {
        lemma_relax_fits(adj, s, u, m - 1);
        let prev = relax(adj, s, u, m - 1);
        let v = m - 1;
        let w = adj[u][v];
        if !prev.visited[v] && w > 0 {
            let l1 = prev.lists.update(u, prev.lists[u].push((v as usize, w)));
            let l2 = l1.update(v, l1[v].push((u as usize, w)));
            assert forall|a: int, i: int| 0 <= a < l2.len() && 0 <= i < l2[a].len() implies (
            #[trigger] l2[a][i]).0 < adj.len() by {
                if a == v {
                    if i < l1[v].len() {
                        assert(l2[a][i] == l1[v][i]);
                        if v == u {
                            if i < prev.lists[u].len() {
                                assert(l1[v][i] == prev.lists[u][i]);
                            }
                        } else {
                            assert(l1[v][i] == prev.lists[v][i]);
                        }
                    }
                } else if a == u {
                    assert(l2[a] == l1[u]);
                    if i < prev.lists[u].len() {
                        assert(l1[u][i] == prev.lists[u][i]);
                    }
                } else {
                    assert(l2[a][i] == prev.lists[a][i]);
                }
            }
        }
    }
}

/// The spanning structure of `adj`: the first node is visited first; a
/// visited node reaches every node that is not visited and that an edge
/// of positive weight joins to it, and that edge is added to the lists of
/// both; the node visited next is the one that the cheapest edge reached.
pub fn prim_mst(adj: &Vec<Vec<i32>>) -> (mst_adj: Vec<Vec<(usize, i32)>>)
    requires
        square(adj@, adj.len() as nat),
    ensures
        edges_of(mst_adj@) == spanning(adj@),
        mst_adj.len() == adj.len(),
        within(edges_of(mst_adj@), adj.len() as int),
{
    let n = adj.len();
    let mut mst_adj: Vec<Vec<(usize, i32)>> = Vec::new();
    let mut visited: Vec<bool> = Vec::new();
    let mut reached: Vec<Option<i32>> = Vec::new();
    let mut i: usize = 0;
    while i < n
        invariant
            i <= n,
            mst_adj.len() == i,
            visited.len() == i,
            reached.len() == i,
            forall|k: int| 0 <= k < i ==> (#[trigger] mst_adj[k])@.len() == 0,
            forall|k: int| 0 <= k < i ==> !visited[k],
            forall|k: int|
                0 <= k < i ==> #[trigger] reached[k] == if k == 0 {
                    Some(0i32)
                } else {
                    None::<i32>
                },
        decreases n - i,
    {
        mst_adj.push(Vec::new());
        visited.push(false);
        reached.push(if i == 0 {
            Some(0)
        } else {
            None
        });
        i += 1;
    }
    let ghost start = Growth { visited: visited@, reached: reached@, lists: edges_of(mst_adj@) };
    assert(start.visited =~= seed(n as nat).visited);
    assert(start.reached =~= seed(n as nat).reached);
    assert(start.lists =~= seed(n as nat).lists) by {
        assert forall|k: int| 0 <= k < n implies #[trigger] start.lists[k] == seed(
            n as nat,
        ).lists[k] by {
            assert(mst_adj[k]@ =~= Seq::<(usize, i32)>::empty());
        }
    }
    let mut round: usize = 0;
    let mut done = false;
    while round < n && !done
        invariant
            round <= n,
            n == adj.len(),
            square(adj@, n as nat),
            growth_fits(
                Growth { visited: visited@, reached: reached@, lists: edges_of(mst_adj@) },
                n as int,
            ),
            mst_adj.len() == n,
            visited.len() == n,
            reached.len() == n,
            !done ==> grow(
                adj@,
                Growth { visited: visited@, reached: reached@, lists: edges_of(mst_adj@) },
                (n - round) as nat,
            ) == grow(adj@, seed(n as nat), n as nat),
            done ==> (Growth { visited: visited@, reached: reached@, lists: edges_of(mst_adj@) })
                == grow(adj@, seed(n as nat), n as nat),
        decreases n - round + if done {
            0int
        } else {
            1int
        },
    {
        let ghost s = Growth { visited: visited@, reached: reached@, lists: edges_of(mst_adj@) };
        // the node to visit next
        let mut best: Option<usize> = None;
        let mut m: usize = 0;
        while m < n
            invariant
                m <= n,
                visited.len() == n,
                reached.len() == n,
                s == (Growth { visited: visited@, reached: reached@, lists: edges_of(mst_adj@) }),
                best == next_node(s, m as int),
                best matches Some(u) ==> u < n && reached[u as int] is Some,
            decreases n - m,
        {
            if !visited[m] && reached[m].is_some() {
                let better = match best {
                    None => true,
                    Some(u) => !(reached[u].unwrap() < reached[m].unwrap()),
                };
                if better {
                    best = Some(m);
                }
            }
            m += 1;
        }
        match best {
            None => {
                done = true;
            },
            Some(u) => {
                visited[u] = true;
                let ghost s1 = Growth {
                    visited: visited@,
                    reached: reached@,
                    lists: edges_of(mst_adj@),
                };
                assert(s1 == (Growth {
                    visited: s.visited.update(u as int, true),
                    reached: s.reached,
                    lists: s.lists,
                }));
                let mut v: usize = 0;
                while v < n
                    invariant
                        v <= n,
                        u < n,
                        n == adj.len(),
                        square(adj@, n as nat),
                        mst_adj.len() == n,
                        visited.len() == n,
                        reached.len() == n,
                        growth_fits(s1, n as int),
                        (Growth { visited: visited@, reached: reached@, lists: edges_of(mst_adj@) })
                            == relax(adj@, s1, u as int, v as int),
                    decreases n - v,
                {
                    proof {
                        lemma_relax_fits(adj@, s1, u as int, v as int);
                    }
                    let ghost prev = relax(adj@, s1, u as int, v as int);
                    assert(adj@[u as int].len() == n);
                    let w = adj[u][v];
                    if !visited[v] && w > 0 {
                        let keep = match reached[v] {
                            Some(old) => old <= w,
                            None => false,
                        };
                        if !keep {
                            reached[v] = Some(w);
                        }
                        mst_adj[u].push((v, w));
                        mst_adj[v].push((u, w));
                        proof {
                            let l1 = prev.lists.update(u as int, prev.lists[u as int].push((v, w)));
                            let l2 = l1.update(v as int, l1[v as int].push((u, w)));
                            assert(edges_of(mst_adj@) =~= l2);
                            assert(reached@ =~= prev.reached.update(
                                v as int,
                                if prev.reached[v as int] is Some && prev.reached[v as int].unwrap()
                                    <= w {
                                    prev.reached[v as int]
                                } else {
                                    Some(w)
                                },
                            ));
                        }
                    }
                    v += 1;
                }
                proof {
                    lemma_relax_fits(adj@, s1, u as int, n as int);
                }
                round += 1;
            },
        }
    }
    mst_adj
}

/// The partner of node `u` among the first `m` nodes of `odd`: the node
/// other than `u` that the cheapest edge joins to `u`, the first of them
/// where several are joined as cheaply; node 0 where there is none.
pub open spec fn partner(adj: Seq<Vec<i32>>, odd: Seq<usize>, u: int, m: int) -> (int, usize)
    decreases m,
{
    if m <= 0 {
        (0x7fff_ffff, 0)
    } else {
        let prev = partner(adj, odd, u, m - 1);
        let v = odd[m - 1];
        if u != v && adj[u][v as int] < prev.0 {
            (adj[u][v as int] as int, v)
        } else {
            prev
        }
    }
}

/// Every node of `odd`, in order, with its partner among them.
pub fn minimum_perfect_matching(adj: &Vec<Vec<i32>>, odd_vertices: &Vec<usize>) -> (edges: Vec<
    (usize, usize),
>)
    requires
        square(adj@, adj.len() as nat),
        forall|i: int| 0 <= i < odd_vertices.len() ==> #[trigger] odd_vertices[i] < adj.len(),
    ensures
        edges.len() == odd_vertices.len(),
        forall|k: int|
            0 <= k < edges.len() ==> #[trigger] edges[k] == (
                odd_vertices[k],
                partner(adj@, odd_vertices@, odd_vertices[k] as int, odd_vertices.len() as int).1,
            ),
        forall|k: int|
            0 <= k < edges.len() ==> (#[trigger] edges[k]).1 < adj.len() || (edges[k].1 == 0
                && adj.len() == 0),
{
    let mut matching_edges: Vec<(usize, usize)> = Vec::new();
    let mut a: usize = 0;
    while a < odd_vertices.len()
        invariant
            a <= odd_vertices.len(),
            square(adj@, adj.len() as nat),
            forall|i: int| 0 <= i < odd_vertices.len() ==> #[trigger] odd_vertices[i] < adj.len(),
            matching_edges.len() == a,
            forall|k: int|
                0 <= k < a ==> #[trigger] matching_edges[k] == (
                    odd_vertices[k],
                    partner(
                        adj@,
                        odd_vertices@,
                        odd_vertices[k] as int,
                        odd_vertices.len() as int,
                    ).1,
                ),
            forall|k: int| 0 <= k < a ==> (#[trigger] matching_edges[k]).1 < adj.len(),
        decreases odd_vertices.len() - a,
    {
        let u = odd_vertices[a];
        let mut min_weight = i32::MAX;
        let mut min_v: usize = 0;
        let mut b: usize = 0;
        while b < odd_vertices.len()
            invariant
                b <= odd_vertices.len(),
                u < adj.len(),
                square(adj@, adj.len() as nat),
                forall|i: int|
                    0 <= i < odd_vertices.len() ==> #[trigger] odd_vertices[i] < adj.len(),
                (min_weight as int, min_v) == partner(adj@, odd_vertices@, u as int, b as int),
                min_v < adj.len(),
            decreases odd_vertices.len() - b,
        {
            let v = odd_vertices[b];
            assert(adj@[u as int].len() == adj.len());
            if u != v && adj[u][v] < min_weight {
                min_weight = adj[u][v];
                min_v = v;
            }
            b += 1;
        }
        matching_edges.push((u, min_v));
        a += 1;
    }
    matching_edges
}

/// Number of edges in all lists.
pub open spec fn edge_count(lists: Edges, n: int) -> nat
    decreases n,
{
    if n <= 0 {
        0
    } else {
        edge_count(lists, n - 1) + lists[n - 1].len()
    }
}

/// Using up the last edge of a list leaves one edge fewer.
pub proof fn lemma_edge_count_pop(lists: Edges, u: int, n: int)
    requires
        0 <= u < lists.len(),
        lists[u].len() > 0,
        0 <= n <= lists.len(),
    ensures
        edge_count(lists.update(u, lists[u].drop_last()), n) + (if u < n {
            1nat
        } else {
            0nat
        }) == edge_count(lists, n),
    decreases n,
{
    if n > 0 {
        lemma_edge_count_pop(lists, u, n - 1);
    }
}

/// The walk along the edges: from the current node the walk follows the
/// last edge of the node's list, which is used up, and remembers the node;
/// at a node without an edge the node joins the circuit and the walk
/// returns to the node remembered last. The walk ends when no node is
/// remembered. Gives the circuit in the order of the walk, and the edges
/// that are left.
pub open spec fn walk(lists: Edges, stack: Seq<usize>, current: usize, circuit: Seq<usize>) -> (
    Seq<usize>,
    Edges,
)
    decreases 2 * edge_count(lists, lists.len() as int) + stack.len(),
{
    if stack.len() == 0 || current >= lists.len() {
        (circuit.reverse(), lists)
    } else if lists[current as int].len() == 0 {
        walk(lists, stack.drop_last(), stack.last(), circuit.push(current))
    } else {
        proof {
            lemma_edge_count_pop(lists, current as int, lists.len() as int);
        }
        walk(
            lists.update(current as int, lists[current as int].drop_last()),
            stack.push(current),
            lists[current as int].last().0,
            circuit,
        )
    }
}

/// The circuit of the walk along the edges of `adj` from the first node;
/// `adj` keeps the edges that the walk did not use. Where there is a node
/// the circuit begins at the first.
pub fn find_eulerian_circuit(adj: &mut Vec<Vec<(usize, i32)>>) -> (circuit: Vec<usize>)
    requires
        within(edges_of(old(adj)@), old(adj).len() as int),
    ensures
        old(adj).len() > 0 ==> circuit.len() > 0 && circuit[0] == 0,
        (circuit@, edges_of(final(adj)@)) == walk(
            edges_of(old(adj)@),
            seq![0usize],
            0,
            Seq::empty(),
        ),
        forall|i: int| 0 <= i < circuit.len() ==> #[trigger] circuit[i] < old(adj).len(),
{
    let ghost start = edges_of(adj@);
    let n = adj.len();
    let mut circuit: Vec<usize> = Vec::new();
    let mut stack: Vec<usize> = Vec::new();
    let mut current_vertex: usize = 0;
    stack.push(current_vertex);
    assert(stack@ =~= seq![0usize]);
    if n == 0 {
        assert(circuit@.reverse() =~= circuit@);
        return circuit;
    }
    while stack.len() > 0
        invariant
            n == adj.len(),
            n > 0,
            current_vertex < n,
            within(edges_of(adj@), n as int),
            forall|i: int| 0 <= i < stack.len() ==> #[trigger] stack[i] < n,
            forall|i: int| 0 <= i < circuit.len() ==> #[trigger] circuit[i] < n,
            walk(edges_of(adj@), stack@, current_vertex, circuit@) == walk(
                start,
                seq![0usize],
                0,
                Seq::empty(),
            ),
        decreases 2 * edge_count(edges_of(adj@), n as int) + stack.len(),
    {
        let ghost lists = edges_of(adj@);
        if adj[current_vertex].len() == 0 {
            assert(lists[current_vertex as int].len() == 0);
            circuit.push(current_vertex);
            current_vertex = stack.pop().unwrap();
        } else {
            assert(lists[current_vertex as int].len() > 0);
            proof {
                lemma_edge_count_pop(lists, current_vertex as int, n as int);
            }
            let edge = adj[current_vertex].pop().unwrap();
            assert(edge == lists[current_vertex as int].last());
            assert(edges_of(adj@) =~= lists.update(
                current_vertex as int,
                lists[current_vertex as int].drop_last(),
            ));
            assert(within(edges_of(adj@), n as int)) by {
                let l2 = edges_of(adj@);
                assert forall|u: int, i: int| 0 <= u < l2.len() && 0 <= i < l2[u].len() implies (
                #[trigger] l2[u][i]).0 < n by {
                    assert(l2[u][i] == lists[u][i]);
                }
            }
            stack.push(current_vertex);
            current_vertex = edge.0;
        }
    }
    let ghost done = circuit@;
    let circuit = crate::pareto::order::reversed(circuit);
    proof {
        lemma_walk_from_first(start, seq![0usize], 0, Seq::empty());
    }
    circuit
}

/// The nodes below `n` whose list has an odd number of edges, in ascending
/// order.
pub open spec fn odd_nodes(lists: Edges, n: int) -> Seq<usize>
    decreases n,
{
    if n <= 0 {
        Seq::empty()
    } else if lists[n - 1].len() % 2 != 0 {
        odd_nodes(lists, n - 1).push((n - 1) as usize)
    } else {
        odd_nodes(lists, n - 1)
    }
}

/// The lists with the first `k` edges of the matching added, each to the
/// lists of both its nodes.
pub open spec fn joined(lists: Edges, adj: Seq<Vec<i32>>, pairs: Seq<(usize, usize)>, k: int) -> Edges
    decreases k,
{
    if k <= 0 {
        lists
    } else {
        let prev = joined(lists, adj, pairs, k - 1);
        let (u, v) = pairs[k - 1];
        let w = adj[u as int][v as int];
        let l1 = prev.update(u as int, prev[u as int].push((v, w)));
        l1.update(v as int, l1[v as int].push((u, w)))
    }
}

/// The nodes of the first `k` steps of a circuit, each at its first visit.
pub open spec fn first_visits(circuit: Seq<usize>, k: int) -> Seq<usize>
    decreases k,
{
    if k <= 0 {
        Seq::empty()
    } else if first_visits(circuit, k - 1).contains(circuit[k - 1]) {
        first_visits(circuit, k - 1)
    } else {
        first_visits(circuit, k - 1).push(circuit[k - 1])
    }
}

/// A walk that began at the first node ends its circuit there: the node
/// that joins the circuit last, which the circuit lists first, is the
/// first node.
pub proof fn lemma_walk_from_first(
    lists: Edges,
    stack: Seq<usize>,
    current: usize,
    circuit: Seq<usize>,
)
    requires
        within(lists, lists.len() as int),
        current < lists.len(),
        stack.len() > 0,
        forall|i: int| 0 <= i < stack.len() ==> #[trigger] stack[i] < lists.len(),
        stack.len() == 1 ==> current == 0,
        stack.len() >= 2 ==> stack[1] == 0,
    ensures
        walk(lists, stack, current, circuit).0.len() > 0,
        walk(lists, stack, current, circuit).0[0] == 0,
    decreases 2 * edge_count(lists, lists.len() as int) + stack.len(),
{
    if lists[current as int].len() == 0 {
        if stack.len() == 1 {
            let done = circuit.push(current);
            assert(stack.drop_last().len() == 0);
            assert(walk(lists, stack.drop_last(), stack.last(), done).0 == done.reverse());
            assert(walk(lists, stack, current, circuit).0 == done.reverse());
            assert(done.reverse()[0] == done[done.len() - 1]);
        } else {
            lemma_walk_from_first(lists, stack.drop_last(), stack.last(), circuit.push(current));
        }
    } else {
        lemma_edge_count_pop(lists, current as int, lists.len() as int);
        let rest = lists.update(current as int, lists[current as int].drop_last());
        let next = lists[current as int].last().0;
        assert forall|u: int, i: int| 0 <= u < rest.len() && 0 <= i < rest[u].len() implies (
        #[trigger] rest[u][i]).0 < rest.len() by {
            assert(rest[u][i] == lists[u][i]);
        }
        lemma_walk_from_first(rest, stack.push(current), next, circuit);
    }
}

/// The first visits of a circuit begin with its first node.
pub proof fn lemma_first_visits_head(circuit: Seq<usize>, k: int)
    requires
        1 <= k <= circuit.len(),
    ensures
        first_visits(circuit, k).len() > 0,
        first_visits(circuit, k)[0] == circuit[0],
    decreases k,
{
    if k > 1 {
        lemma_first_visits_head(circuit, k - 1);
    } else {
        assert(first_visits(circuit, 0) =~= Seq::<usize>::empty());
        assert(!first_visits(circuit, 0).contains(circuit[0]));
    }
}

/// The matching of the nodes of odd degree of the spanning structure.
pub open spec fn matching(adj: Seq<Vec<i32>>) -> Seq<(usize, usize)> {
    let odd = odd_nodes(spanning(adj), adj.len() as int);
    Seq::new(odd.len(), |k: int| (odd[k], partner(adj, odd, odd[k] as int, odd.len() as int).1))
}

/// The tour through `adj`: the nodes of the walk along the edges of the
/// spanning structure and of the matching, each at its first visit.
pub open spec fn tour_of(adj: Seq<Vec<i32>>) -> Seq<usize> {
    let pairs = matching(adj);
    let circuit = walk(
        joined(spanning(adj), adj, pairs, pairs.len() as int),
        seq![0usize],
        0,
        Seq::empty(),
    ).0;
    first_visits(circuit, circuit.len() as int)
}

pub proof fn lemma_joined_within(lists: Edges, adj: Seq<Vec<i32>>, pairs: Seq<(usize, usize)>, k: int)
    requires
        lists.len() == adj.len(),
        within(lists, adj.len() as int),
        0 <= k <= pairs.len(),
        forall|i: int|
            0 <= i < pairs.len() ==> (#[trigger] pairs[i]).0 < adj.len() && pairs[i].1 < adj.len(),
    ensures
        joined(lists, adj, pairs, k).len() == adj.len(),
        within(joined(lists, adj, pairs, k), adj.len() as int),
    decreases k,
{
    if k > 0 {
        lemma_joined_within(lists, adj, pairs, k - 1);
        let prev = joined(lists, adj, pairs, k - 1);
        let (u, v) = pairs[k - 1];
        let w = adj[u as int][v as int];
        let l1 = prev.update(u as int, prev[u as int].push((v, w)));
        let l2 = l1.update(v as int, l1[v as int].push((u, w)));
        assert forall|a: int, i: int| 0 <= a < l2.len() && 0 <= i < l2[a].len() implies (
        #[trigger] l2[a][i]).0 < adj.len() by {
            if a == v {
                if i < l1[v as int].len() {
                    assert(l2[a][i] == l1[v as int][i]);
                    if v == u {
                        if i < prev[u as int].len() {
                            assert(l1[v as int][i] == prev[u as int][i]);
                        }
                    } else {
                        assert(l1[v as int][i] == prev[v as int][i]);
                    }
                }
            } else if a == u {
                assert(l2[a] == l1[u as int]);
                if i < prev[u as int].len() {
                    assert(l1[u as int][i] == prev[u as int][i]);
                }
            } else {
                assert(l2[a][i] == prev[a][i]);
            }
        }
    }
}

/// A tour through the nodes of `adj`: the spanning structure is grown, its
/// nodes of odd degree are matched, the edges of the matching are added,
/// the edges are walked along from the first node, and the nodes are
/// listed at their first visit. No node is listed twice, and where there is
/// a node the tour begins at the first. Where a positive weight joins the
/// first node to every other, the tour lists every node.
pub fn solve(adj: &Vec<Vec<i32>>) -> (tsp_tour: Vec<usize>)
    requires
        square(adj@, adj.len() as nat),
    ensures
        tsp_tour@ == tour_of(adj@),
        tsp_tour@.no_duplicates(),
        adj.len() > 0 ==> tsp_tour.len() > 0 && tsp_tour[0] == 0,
        (forall|v: int| 0 < v < adj.len() ==> #[trigger] adj[0][v] > 0) ==> tsp_tour.len()
            == adj.len(),
        forall|i: int| 0 <= i < tsp_tour.len() ==> #[trigger] tsp_tour[i] < adj.len(),
{
    let n = adj.len();

    // Minimum Spanning Tree
    let mut mst_adj = prim_mst(adj);
    let ghost tree = edges_of(mst_adj@);

    // Minimum Perfect Matching on odd-degree vertices
    let mut odd_vertices: Vec<usize> = Vec::new();
    let mut i: usize = 0;
    while i < n
        invariant
            i <= n,
            n == mst_adj.len(),
            tree == edges_of(mst_adj@),
            odd_vertices@ == odd_nodes(tree, i as int),
            forall|k: int| 0 <= k < odd_vertices.len() ==> #[trigger] odd_vertices[k] < n,
        decreases n - i,
    {
        if mst_adj[i].len() % 2 != 0 {
            odd_vertices.push(i);
        }
        i += 1;
    }
    let mpm_edges = minimum_perfect_matching(adj, &odd_vertices);
    assert(mpm_edges@ =~= matching(adj@));

    // Combine MST and MPM to form a multigraph
    let mut k: usize = 0;
    while k < mpm_edges.len()
        invariant
            k <= mpm_edges.len(),
            n == adj.len(),
            n == mst_adj.len(),
            square(adj@, n as nat),
            tree.len() == n,
            within(tree, n as int),
            forall|i: int|
                0 <= i < mpm_edges.len() ==> (#[trigger] mpm_edges[i]).0 < n && mpm_edges[i].1 < n,
            edges_of(mst_adj@) == joined(tree, adj@, mpm_edges@, k as int),
        decreases mpm_edges.len() - k,
    {
        let (u, v) = mpm_edges[k];
        assert(adj@[u as int].len() == n);
        let w = adj[u][v];
        let ghost prev = edges_of(mst_adj@);
        mst_adj[u].push((v, w));
        mst_adj[v].push((u, w));
        proof {
            let l1 = prev.update(u as int, prev[u as int].push((v, w)));
            assert(edges_of(mst_adj@) =~= l1.update(v as int, l1[v as int].push((u, w))));
        }
        k += 1;
    }
    proof {
        lemma_joined_within(tree, adj@, mpm_edges@, mpm_edges.len() as int);
    }

    // Eulerian Circuit on the multigraph
    let ghost both = edges_of(mst_adj@);
    let eulerian_circuit = find_eulerian_circuit(&mut mst_adj);
    let ghost joins = forall|v: int| 0 < v < n ==> #[trigger] adj[0][v] > 0;
    proof {
        if n > 0 {
            lemma_first_visits_head(eulerian_circuit@, eulerian_circuit.len() as int);
            if joins {
                lemma_spanning_first(adj@);
                lemma_joined_grows(tree, adj@, mpm_edges@, mpm_edges.len() as int);
                assert forall|v: int| 0 < v < n implies #[trigger] crate::tsp::visits::leads(
                    both,
                    0,
                    v as usize,
                ) by {
                    assert(adj[0][v] > 0);
                    lemma_grown_leads(both, tree, 0, v as usize);
                }
                lemma_walk_visits_all(both);
            }
        }
    }

    // Shorten the circuit to get the TSP tour
    let mut visited: Vec<bool> = Vec::new();
    let mut i: usize = 0;
    while i < n
        invariant
            i <= n,
            visited.len() == i,
            forall|k: int| 0 <= k < i ==> !visited[k],
        decreases n - i,
    {
        visited.push(false);
        i += 1;
    }
    let mut tsp_tour: Vec<usize> = Vec::new();
    let mut c: usize = 0;
    proof {
        lemma_marks_set_same(visited@, n as int);
    }
    while c < eulerian_circuit.len()
        invariant
            c <= eulerian_circuit.len(),
            visited.len() == n,
            tsp_tour.len() == marks_set(visited@, n as int),
            forall|k: int| 0 <= k < c ==> visited[#[trigger] eulerian_circuit[k] as int],
            forall|i: int| 0 <= i < eulerian_circuit.len() ==> #[trigger] eulerian_circuit[i] < n,
            tsp_tour@ == first_visits(eulerian_circuit@, c as int),
            tsp_tour@.no_duplicates(),
            forall|i: int| 0 <= i < tsp_tour.len() ==> #[trigger] tsp_tour[i] < n,
            forall|x: int| 0 <= x < n ==> (#[trigger] visited[x] <==> tsp_tour@.contains(x as usize)),
        decreases eulerian_circuit.len() - c,
    {
        let node = eulerian_circuit[c];
        let ghost before = tsp_tour@;
        if !visited[node] {
            proof {
                lemma_marks_set_one(visited@, node as int, n as int);
            }
            tsp_tour.push(node);
            visited[node] = true;
            proof {
                assert forall|x: int| 0 <= x < n implies (#[trigger] visited[x]
                    <==> tsp_tour@.contains(x as usize)) by {
                    if before.contains(x as usize) {
                        let w = choose|w: int| 0 <= w < before.len() && before[w] == x as usize;
                        assert(tsp_tour@[w] == x as usize);
                    }
                    if tsp_tour@.contains(x as usize) {
                        let w = choose|w: int| 0 <= w < tsp_tour.len() && tsp_tour[w] == x as usize;
                        if w < before.len() {
                            assert(before[w] == x as usize);
                        }
                    }
                    if x == node {
                        assert(tsp_tour@[before.len() as int] == node);
                    }
                }
                assert forall|i: int, j: int|
                    0 <= i < tsp_tour.len() && 0 <= j < tsp_tour.len() && i != j implies tsp_tour[i]
                    != tsp_tour[j] by {
                    if i < before.len() && j < before.len() {
                        assert(before[i] != before[j]);
                    } else if i < before.len() {
                        assert(before.contains(before[i]));
                    } else {
                        assert(before.contains(before[j]));
                    }
                }
            }
        }
        c += 1;
    }
    proof {
        if joins {
            assert forall|x: int| 0 <= x < n implies visited[x] by {
                assert(eulerian_circuit@.contains(x as usize));
                let k = choose|k: int|
                    0 <= k < eulerian_circuit.len() && eulerian_circuit[k] == x as usize;
                assert(visited[eulerian_circuit[k] as int]);
            }
            lemma_marks_set_same(visited@, n as int);
        }
    }
    tsp_tour
}

} // verus!
