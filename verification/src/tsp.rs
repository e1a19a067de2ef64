//! The walking tour through the rooms of one person's day.

pub mod christofides;
pub mod visits;

use crate::project::{Project, Room};
use crate::random::random_index;
use vstd::prelude::*;

verus! {

/// The sum of the first `n` legs of the closed tour through `path`: leg `i`
/// leads from stop `i` to stop `i + 1`, the last leg back to the first stop.
pub open spec fn tour(p: &Project, path: Seq<(usize, Room)>, n: int) -> int
    decreases n,
{
    if n <= 0 {
        0
    } else {
        tour(p, path, n - 1) + p.rooms.spec_distance(
            path[n - 1].1,
            path[if n < path.len() {
                n
            } else {
                0
            }].1,
        )
    }
}

/// The length of the closed tour through `path`.
pub open spec fn tour_length(p: &Project, path: Seq<(usize, Room)>) -> int {
    tour(p, path, path.len() as int)
}

/// Every stop of `path` is at a room of the project.
pub open spec fn stops_known(p: &Project, path: Seq<(usize, Room)>) -> bool {
    forall|i: int| 0 <= i < path.len() ==> (#[trigger] path[i]).1.0 < p.rooms.spec_len()
}

/// The sum of the first `n` legs of the closed tour through the nodes
/// `path` of the distance matrix `adj`.
pub open spec fn matrix_tour(path: Seq<usize>, adj: Seq<Vec<i32>>, n: int) -> int
    decreases n,
{
    if n <= 0 {
        0
    } else {
        matrix_tour(path, adj, n - 1) + adj[path[n - 1] as int][path[if n < path.len() {
            n
        } else {
            0
        }] as int]
    }
}

/// The length of the closed tour through the nodes `path` of the distance
/// matrix `adj`.
pub fn calculate_total_distance(path: &Vec<usize>, adj: &Vec<Vec<i32>>) -> (total: i128)
    requires
        crate::project::rooms::square(adj@, adj.len() as nat),
        forall|i: int| 0 <= i < path.len() ==> #[trigger] path[i] < adj.len(),
    ensures
        total == matrix_tour(path@, adj@, path.len() as int),
{
    let mut total_distance: i128 = 0;
    let mut i: usize = 0;
    while i < path.len()
        invariant
            i <= path.len(),
            crate::project::rooms::square(adj@, adj.len() as nat),
            forall|k: int| 0 <= k < path.len() ==> #[trigger] path[k] < adj.len(),
            total_distance == matrix_tour(path@, adj@, i as int),
            -(i * 0x8000_0000) <= total_distance <= i * 0x8000_0000,
        decreases path.len() - i,
    {
        let j = if i + 1 < path.len() {
            i + 1
        } else {
            0
        };
        assert(adj@[path[i as int] as int].len() == adj.len());
        total_distance = total_distance + adj[path[i]][path[j]] as i128;
        i += 1;
    }
    total_distance
}

/// The length of the closed tour through the rooms of `path`.
pub fn calculate_total_distance_proj(path: &Vec<(usize, Room)>, project: &Project) -> (total: i128)
    requires
        project.rooms.wf(),
        stops_known(project, path@),
    ensures
        total == tour_length(project, path@),
{
    let mut total_distance: i128 = 0;
    let mut i: usize = 0;
    while i < path.len()
        invariant
            i <= path.len(),
            project.rooms.wf(),
            stops_known(project, path@),
            total_distance == tour(project, path@, i as int),
            -(i * 0x8000_0000) <= total_distance <= i * 0x8000_0000,
        decreases path.len() - i,
    {
        let j = if i + 1 < path.len() {
            i + 1
        } else {
            0
        };
        total_distance = total_distance + project.rooms.distance(&path[i].1, &path[j].1) as i128;
        i += 1;
    }
    total_distance
}

/// Exchanging two stops keeps the stops.
proof fn lemma_swap_same_stops(s: Seq<(usize, Room)>, i: int, j: int)
    requires
        0 <= i < s.len(),
        0 <= j < s.len(),
    ensures
        s.update(i, s[j]).update(j, s[i]).to_multiset() == s.to_multiset(),
{
    broadcast use vstd::seq_lib::to_multiset_update;
    broadcast use vstd::multiset::group_multiset_axioms;

    let m = s.to_multiset();
    let a = s[i];
    let b = s[j];
    s.to_multiset_ensures();
    assert(s.contains(a) && s.contains(b));
    assert(m.count(a) > 0 && m.count(b) > 0);
    let s1 = s.update(i, b);
    assert(s1.to_multiset() == m.insert(b).remove(a));
    assert(s1[j] == b);
    let s2 = s1.update(j, a);
    assert(s2.to_multiset() == s1.to_multiset().insert(a).remove(b));
    assert forall|x: (usize, Room)| s2.to_multiset().count(x) == m.count(x) by {
        let m1 = m.insert(b);
        let m2 = m1.remove(a);
        let m3 = m2.insert(a);
        let m4 = m3.remove(b);
        assert(m1.count(a) > 0);
        assert(m3.count(b) > 0);
    }
    assert(s2.to_multiset() =~= m);
}

/// Reorders the stops of a day to shorten the closed walking tour: a
/// thousand times two stops drawn at random are exchanged, and the
/// exchange stays where the tour gets strictly shorter (`climbed`). The
/// result has the stops of `rooms`, each as often; its tour is no longer.
pub fn solve(rooms: Vec<(usize, Room)>, project: &Project) -> (path: Vec<(usize, Room)>)
    requires
        project.rooms.wf(),
        stops_known(project, rooms@),
    ensures
        path@.to_multiset() == rooms@.to_multiset(),
        path.len() == rooms.len(),
        stops_known(project, path@),
        tour_length(project, path@) <= tour_length(project, rooms@),
        climbs(project, rooms@, path@),
{
    let mut path = rooms;
    if path.len() == 0 {
        proof {
            let none = Seq::new(1000, |k: int| (0usize, 0usize));
            lemma_climbed_nothing(project, path@, none, 1000);
            assert(none.len() == 1000 && path@ == climbed(project, rooms@, none, 1000));
        }
        return path;
    }
    let mut min_distance = calculate_total_distance_proj(&path, project);
    let ghost mut draws: Seq<(usize, usize)> = Seq::empty();
    let mut round: usize = 0;
    while round < 1000
        invariant
            round <= 1000,
            project.rooms.wf(),
            stops_known(project, path@),
            path.len() == rooms.len(),
            path.len() > 0,
            path@.to_multiset() == rooms@.to_multiset(),
            min_distance == tour_length(project, path@),
            min_distance <= tour_length(project, rooms@),
            draws.len() == round,
            path@ == climbed(project, rooms@, draws, round as int),
        decreases 1000 - round,
    {
        let idx1 = random_index();
        let idx2 = random_index();
        let ghost before = draws;
        min_distance = exchange_step(&mut path, project, idx1, idx2, min_distance);
        proof {
            draws = before.push((idx1, idx2));
            lemma_climbed_prefix(project, rooms@, before, draws, round as int);
        }
        round += 1;
    }
    assert(draws.len() == 1000 && path@ == climbed(project, rooms@, draws, 1000));
    path
}

/// `path` with the stops at the positions `i` and `j` exchanged.
pub open spec fn exchanged(path: Seq<(usize, Room)>, i: int, j: int) -> Seq<(usize, Room)> {
    path.update(i, path[j]).update(j, path[i])
}

/// One step of the climb with the draws `a` and `b`: the stops at the
/// positions `a` and `b`, both taken modulo the number of stops, are
/// exchanged, and the exchange stays if the closed tour gets strictly
/// shorter. A path without stops stays as it is.
pub open spec fn climb_step(p: &Project, path: Seq<(usize, Room)>, a: usize, b: usize) -> Seq<
    (usize, Room),
> {
    if path.len() == 0 {
        path
    } else {
        let next = exchanged(path, a as int % path.len() as int, b as int % path.len() as int);
        if tour_length(p, next) < tour_length(p, path) {
            next
        } else {
            path
        }
    }
}

/// The path after the first `n` steps of the climb from `path`, step `k`
/// with the draws `draws[k]`.
pub open spec fn climbed(p: &Project, path: Seq<(usize, Room)>, draws: Seq<(usize, usize)>, n: int) -> Seq<
    (usize, Room),
>
    decreases n,
{
    if n <= 0 {
        path
    } else {
        climb_step(p, climbed(p, path, draws, n - 1), draws[n - 1].0, draws[n - 1].1)
    }
}

/// `to` is what a climb of a thousand steps makes of `from`, for some draws.
pub open spec fn climbs(p: &Project, from: Seq<(usize, Room)>, to: Seq<(usize, Room)>) -> bool {
    exists|draws: Seq<(usize, usize)>|
        draws.len() == 1000 && to == #[trigger] climbed(p, from, draws, 1000)
}

/// The first steps of a climb depend on the first draws only.
proof fn lemma_climbed_prefix(
    p: &Project,
    path: Seq<(usize, Room)>,
    a: Seq<(usize, usize)>,
    b: Seq<(usize, usize)>,
    n: int,
)
    requires
        0 <= n <= a.len(),
        n <= b.len(),
        forall|k: int| 0 <= k < n ==> a[k] == b[k],
    ensures
        climbed(p, path, a, n) == climbed(p, path, b, n),
    decreases n,
{
    if n > 0 {
        lemma_climbed_prefix(p, path, a, b, n - 1);
    }
}

/// A climb makes nothing of a path without stops.
proof fn lemma_climbed_nothing(p: &Project, path: Seq<(usize, Room)>, draws: Seq<(usize, usize)>, n: int)
    requires
        path.len() == 0,
    ensures
        climbed(p, path, draws, n) == path,
    decreases n,
{
    if n > 0 {
        lemma_climbed_nothing(p, path, draws, n - 1);
    }
}

/// One step of the climb on a path with stops, whose tour has the length
/// `min_distance`. Gives the length of the tour of the path after the step.
fn exchange_step(
    path: &mut Vec<(usize, Room)>,
    project: &Project,
    a: usize,
    b: usize,
    min_distance: i128,
) -> (distance: i128)
    requires
        project.rooms.wf(),
        stops_known(project, old(path)@),
        old(path).len() > 0,
        min_distance == tour_length(project, old(path)@),
    ensures
        final(path)@ == climb_step(project, old(path)@, a, b),
        distance == tour_length(project, final(path)@),
        distance <= min_distance,
        stops_known(project, final(path)@),
        final(path).len() == old(path).len(),
        final(path)@.to_multiset() == old(path)@.to_multiset(),
{
    let idx1 = a % path.len();
    let idx2 = b % path.len();
    let ghost before = path@;
    let x = path[idx1];
    let y = path[idx2];
    path[idx1] = y;
    path[idx2] = x;
    proof {
        lemma_swap_same_stops(before, idx1 as int, idx2 as int);
        assert(path@ =~= exchanged(before, idx1 as int, idx2 as int));
        assert forall|i: int| 0 <= i < path.len() implies (#[trigger] path[i]).1.0
            < project.rooms.spec_len() by {
            if i == idx2 {
                assert(path[i] == before[idx1 as int]);
            } else if i == idx1 {
                assert(path[i] == before[idx2 as int]);
            } else {
                assert(path[i] == before[i]);
            }
        }
    }
    let new_distance = calculate_total_distance_proj(path, project);
    if new_distance < min_distance {
        new_distance
    } else {
        path[idx2] = y;
        path[idx1] = x;
        assert(path@ =~= before);
        min_distance
    }
}

/// One step of the climb with the draws `a` and `b`: exchanges the stops at
/// the positions `a` and `b`, both taken modulo the number of stops, if that
/// makes the closed tour strictly shorter.
pub fn exchange_if_shorter(path: Vec<(usize, Room)>, project: &Project, a: usize, b: usize) -> (r:
    Vec<(usize, Room)>)
    requires
        project.rooms.wf(),
        stops_known(project, path@),
    ensures
        r@ == climb_step(project, path@, a, b),
{
    let mut path = path;
    if path.len() == 0 {
        return path;
    }
    let min_distance = calculate_total_distance_proj(&path, project);
    exchange_step(&mut path, project, a, b, min_distance);
    path
}

} // verus!
