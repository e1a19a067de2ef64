//! The parts of the optimizer loop that decide by counting: which move
//! family makes the candidates, and which timetables are new.

use crate::grid::{feasible, grid_of, Grid};
use crate::neighborhoods::greedy_room::{is_greedy_move, served, wanted};
use crate::neighborhoods::relocation::{is_relocation, relocatable, relocated};
use crate::neighborhoods::swap::{can_swap, is_swap, swapped, SwapKind};
use crate::neighborhoods::{all_feasible, emitted};
use crate::project::Project;
use crate::random::shuffle;
use crate::solution::{copy_timemap, same_timemap, Solution, TIMEMAP};
use vstd::prelude::*;

verus! {

/// Number of move families.
pub const NEIGHBORHOODS: usize = 5;

/// The timetable that the optimizer starts from: `initial`, as it is.
pub fn optimize(initial: TIMEMAP) -> (tm: TIMEMAP)
    ensures
        tm == initial,
{
    initial
}

/// The move family with index `index`: relocate, greedy room, swap of rooms,
/// swap of slots, swap of slots and rooms.
pub open spec fn family(index: usize, g: Grid, p: &Project, h: Grid) -> bool {
    if index == 0 {
        is_relocation(g, p, h)
    } else if index == 1 {
        is_greedy_move(g, p, h)
    } else if index == 2 {
        is_swap(SwapKind::RoomOnly, g, p, h)
    } else if index == 3 {
        is_swap(SwapKind::TimeOnly, g, p, h)
    } else {
        is_swap(SwapKind::TimeAndRoom, g, p, h)
    }
}

/// Every timetable that the move family `index` permits is among `out`: for
/// the greedy-room family, the move for every person, kind of room and day
/// for which one is wanted.
pub open spec fn exhaustive(index: usize, g: Grid, p: &Project, out: Seq<Solution>) -> bool {
    if index == 0 {
        forall|t: int, i: int, t2: int|
            relocatable(g, p, t, i, t2) ==> emitted(out, #[trigger] relocated(g, t, i, t2))
    } else if index == 1 {
        forall|a: int, b: int, d: int| #[trigger]
            wanted(g, p, a, b, d) ==> served(out, g, p, a, b, d)
    } else {
        let f = if index == 2 {
            SwapKind::RoomOnly
        } else if index == 3 {
            SwapKind::TimeOnly
        } else {
            SwapKind::TimeAndRoom
        };
        forall|t1: int, i1: int, t2: int, i2: int|
            can_swap(f, g, p, t1, i1, t2, i2) ==> emitted(
                out,
                #[trigger] swapped(f, g, t1, i1, t2, i2),
            )
    }
}

/// All candidates that the move family with index `index` makes from `s`.
/// Every one of them is made by one move of that family and is feasible.
pub fn collect_neighborhoods(index: usize, s: Solution, project: &Project) -> (out: Vec<Solution>)
    requires
        index < NEIGHBORHOODS,
        project.wf(),
        feasible(s.grid(), project),
        s.counter_filled(project),
    ensures
        all_feasible(out@, project),
        forall|k: int|
            0 <= k < out.len() ==> family(index, s.grid(), project, (#[trigger] out[k]).grid()),
        exhaustive(index, s.grid(), project, out@),
{
    if index == 0 {
        crate::neighborhoods::relocation::neighborhoods(s, project)
    } else if index == 1 {
        crate::neighborhoods::greedy_room::neighborhoods(s, project)
    } else if index == 2 {
        crate::neighborhoods::swap::room_only(s, project)
    } else if index == 3 {
        crate::neighborhoods::swap::time_only(s, project)
    } else {
        crate::neighborhoods::swap::time_and_room(s, project)
    }
}

/// The timetables that were seen on past frontiers, each once.
#[derive(Debug)]
pub struct History {
    seen: Vec<TIMEMAP>,
}

/// The timetables of a list.
pub open spec fn grids_of(seen: Seq<TIMEMAP>) -> Seq<Grid> {
    Seq::new(seen.len(), |i: int| grid_of(seen[i]@))
}

/// What `observe` does to the history and to the counts, solution by
/// solution: a timetable that the history does not hold joins it, and the
/// count of the family that made it goes up by one.
pub open spec fn observed(
    seen: Seq<Grid>,
    counts: Seq<usize>,
    frontline: Seq<Grid>,
    sources: Seq<usize>,
    n: int,
) -> (Seq<Grid>, Seq<usize>)
    decreases n,
{
    if n <= 0 {
        (seen, counts)
    } else {
        let prev = observed(seen, counts, frontline, sources, n - 1);
        if prev.0.contains(frontline[n - 1]) {
            prev
        } else {
            (
                prev.0.push(frontline[n - 1]),
                prev.1.update(
                    sources[n - 1] as int,
                    (prev.1[sources[n - 1] as int] + 1) as usize,
                ),
            )
        }
    }
}

impl History {
    /// The timetables of the history, in the order in which they joined.
    pub closed spec fn grids(&self) -> Seq<Grid> {
        grids_of(self.seen@)
    }

    /// No timetable is held twice.
    pub open spec fn wf(&self) -> bool {
        self.grids().no_duplicates()
    }

    /// An empty history.
    pub fn new() -> (h: History)
        ensures
            h.grids().len() == 0,
            h.wf(),
    {
        let h = History { seen: Vec::new() };
        assert(h.grids().len() == 0);
        h
    }

    /// Number of timetables held.
    pub fn len(&self) -> (n: usize)
        ensures
            n == self.grids().len(),
    {
        self.seen.len()
    }

    /// Whether the history holds the timetable `tm`.
    pub fn contains(&self, tm: &TIMEMAP) -> (found: bool)
        ensures
            found == self.grids().contains(grid_of(tm@)),
    {
        let mut i: usize = 0;
        while i < self.seen.len()
            invariant
                i <= self.seen.len(),
                forall|j: int| 0 <= j < i ==> self.grids()[j] != grid_of(tm@),
            decreases self.seen.len() - i,
        {
            if same_timemap(&self.seen[i], tm) {
                assert(self.grids()[i as int] == grid_of(tm@));
                return true;
            }
            i += 1;
        }
        false
    }

    /// Adds the timetable `tm` unless the history holds it. Tells whether
    /// it was added.
    pub fn insert(&mut self, tm: TIMEMAP) -> (added: bool)
        requires
            old(self).wf(),
        ensures
            final(self).wf(),
            added == !old(self).grids().contains(grid_of(tm@)),
            final(self).grids() == if added {
                old(self).grids().push(grid_of(tm@))
            } else {
                old(self).grids()
            },
    {
        if self.contains(&tm) {
            return false;
        }
        let ghost before = self.grids();
        self.seen.push(tm);
        proof {
            assert(self.grids() =~= before.push(grid_of(tm@)));
            assert forall|i: int, j: int|
                0 <= i < self.grids().len() && 0 <= j < self.grids().len() && i != j implies self.grids()[i]
                != self.grids()[j] by {
                if i < before.len() && j < before.len() {
                    assert(before[i] != before[j]);
                } else if i < before.len() {
                    assert(before.contains(before[i]));
                } else {
                    assert(before.contains(before[j]));
                }
            }
        }
        true
    }

    /// Looks at the solutions of a frontier, each with the index of the move
    /// family that made it: a timetable that the history does not hold joins
    /// it. Gives, for every family, the number of timetables of its making
    /// that joined.
    pub fn observe(&mut self, frontline: &Vec<Solution>, sources: &Vec<usize>) -> (counts: Vec<
        usize,
    >)
        requires
            old(self).wf(),
            sources.len() == frontline.len(),
            forall|k: int| 0 <= k < sources.len() ==> #[trigger] sources[k] < NEIGHBORHOODS,
        ensures
            final(self).wf(),
            counts.len() == NEIGHBORHOODS,
            (final(self).grids(), counts@) == observed(
                old(self).grids(),
                Seq::new(NEIGHBORHOODS as nat, |i: int| 0usize),
                Seq::new(frontline.len() as nat, |k: int| frontline[k].grid()),
                sources@,
                frontline.len() as int,
            ),
    {
        let ghost start = self.grids();
        let ghost zero = Seq::new(NEIGHBORHOODS as nat, |i: int| 0usize);
        let ghost front = Seq::new(frontline.len() as nat, |k: int| frontline[k].grid());
        let mut counts: Vec<usize> = Vec::new();
        let mut i: usize = 0;
        while i < NEIGHBORHOODS
            invariant
                i <= NEIGHBORHOODS,
                counts.len() == i,
                forall|j: int| 0 <= j < i ==> counts[j] == 0,
            decreases NEIGHBORHOODS - i,
        {
            counts.push(0);
            i += 1;
        }
        assert(counts@ =~= zero);
        let mut k: usize = 0;
        while k < frontline.len()
            invariant
                k <= frontline.len(),
                sources.len() == frontline.len(),
                forall|j: int| 0 <= j < sources.len() ==> #[trigger] sources[j] < NEIGHBORHOODS,
                self.wf(),
                counts.len() == NEIGHBORHOODS,
                front == Seq::new(frontline.len() as nat, |k: int| frontline[k].grid()),
                (self.grids(), counts@) == observed(start, zero, front, sources@, k as int),
                forall|j: int| 0 <= j < counts.len() ==> #[trigger] counts[j] <= k,
            decreases frontline.len() - k,
        {
            let tm = copy_timemap(frontline[k].inner());
            assert(grid_of(tm@) == front[k as int]);
            if self.insert(tm) {
                let source = sources[k];
                counts[source] = counts[source] + 1;
            }
            k += 1;
        }
        counts
    }

    /// Where the history holds more than `max` timetables: keeps half of
    /// `max` of them, chosen at random.
    pub fn trim(&mut self, max: usize)
        requires
            old(self).wf(),
        ensures
            final(self).wf(),
            old(self).grids().len() <= max ==> final(self).grids() == old(self).grids(),
            old(self).grids().len() > max ==> final(self).grids().len() == max / 2 && forall|
                i: int,
            |
                0 <= i < final(self).grids().len() ==> old(self).grids().contains(
                    #[trigger] final(self).grids()[i],
                ),
    {
        if self.seen.len() > max {
            let ghost before = self.seen@;
            let ghost listed = self.grids();
            shuffle(&mut self.seen);
            let ghost order = self.seen@;
            self.seen.truncate(max / 2);
            proof {
                crate::utils::lemma_same_items(order, before);
                let kept = self.grids();
                assert(self.seen@ =~= order.take((max / 2) as int));
                assert forall|i: int| 0 <= i < kept.len() implies listed.contains(
                    #[trigger] kept[i],
                ) by {
                    assert(order.contains(order[i]));
                    assert(before.contains(order[i]));
                    let w = choose|w: int| 0 <= w < before.len() && before[w] == order[i];
                    assert(listed[w] == kept[i]);
                }
                lemma_shuffled_distinct(before, order);
                assert forall|i: int, j: int|
                    0 <= i < kept.len() && 0 <= j < kept.len() && i != j implies kept[i]
                    != kept[j] by {
                    assert(grids_of(order)[i] != grids_of(order)[j]);
                }
            }
        }
    }
}

/// A reordering of timetables that are all different holds timetables
/// that are all different.
proof fn lemma_shuffled_distinct(before: Seq<TIMEMAP>, order: Seq<TIMEMAP>)
    requires
        grids_of(before).no_duplicates(),
        order.to_multiset() == before.to_multiset(),
    ensures
        grids_of(order).no_duplicates(),
{
    crate::utils::lemma_same_items(order, before);
    assert(before.no_duplicates()) by {
        assert forall|i: int, j: int|
            0 <= i < before.len() && 0 <= j < before.len() && i != j implies before[i]
            != before[j] by {
            assert(grids_of(before)[i] != grids_of(before)[j]);
        }
    }
    before.lemma_multiset_has_no_duplicates();
    order.lemma_multiset_has_no_duplicates_conv();
    assert forall|i: int, j: int|
        0 <= i < order.len() && 0 <= j < order.len() && i != j implies grids_of(order)[i]
        != grids_of(order)[j] by {
        assert(order.contains(order[i]) && order.contains(order[j]));
        let a = choose|a: int| 0 <= a < before.len() && before[a] == order[i];
        let b = choose|b: int| 0 <= b < before.len() && before[b] == order[j];
        assert(order[i] != order[j]);
        assert(a != b);
        assert(grids_of(before)[a] != grids_of(before)[b]);
    }
}

} // verus!
