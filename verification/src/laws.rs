//! What holds of every feasible timetable and of the moves on timetables.

use crate::grid::{
    all_scheduled, count_event, no_event_twice, occurrences, occurs, orderly, slot_people_unique,
    slot_rooms_unique, Grid, Slot,
};
use crate::neighborhoods::relocation::relocated;
use crate::project::{Event, Person, Project, Room};
use crate::solution::{cleared, entries};
use vstd::prelude::*;

verus! {

/// The rooms of the pairs of a slot, in order.
pub open spec fn rooms_in(s: Slot) -> Seq<Room> {
    Seq::new(s.len(), |i: int| s[i].1)
}

/// A slot that does not hold an event holds it zero times.
pub proof fn lemma_count_absent(s: Slot, e: Event)
    requires
        forall|j: int| 0 <= j < s.len() ==> (#[trigger] s[j]).0 != e,
    ensures
        count_event(s, e) == 0,
    decreases s.len(),
{
    if s.len() > 0 {
        assert forall|j: int| 0 <= j < s.drop_last().len() implies (
        #[trigger] s.drop_last()[j]).0 != e by {
            assert(s.drop_last()[j] == s[j]);
        }
        lemma_count_absent(s.drop_last(), e);
        assert(s[s.len() - 1].0 != e);
    }
}

/// A slot that holds an event at one position only holds it once.
pub proof fn lemma_count_single(s: Slot, e: Event, i: int)
    requires
        0 <= i < s.len(),
        s[i].0 == e,
        forall|j: int| 0 <= j < s.len() && j != i ==> (#[trigger] s[j]).0 != e,
    ensures
        count_event(s, e) == 1,
    decreases s.len(),
{
    let init = s.drop_last();
    if i == s.len() - 1 {
        assert forall|j: int| 0 <= j < init.len() implies (#[trigger] init[j]).0 != e by {
            assert(init[j] == s[j]);
        }
        lemma_count_absent(init, e);
    } else {
        assert(init[i] == s[i]);
        assert forall|j: int| 0 <= j < init.len() && j != i implies (#[trigger] init[j]).0 != e by {
            assert(init[j] == s[j]);
        }
        lemma_count_single(init, e, i);
        assert(s[s.len() - 1].0 != e);
    }
}

/// Where no event is scheduled twice, an event that is scheduled in slot
/// `t` is counted once in the slots up to and with `t`, and not at all in
/// those before.
proof fn lemma_occurrences(g: Grid, e: Event, t: int, i: int, hi: int)
    requires
        no_event_twice(g),
        0 <= t < g.len(),
        0 <= i < g[t].len(),
        g[t][i].0 == e,
        0 <= hi <= g.len(),
    ensures
        occurrences(g, e, hi) == if t < hi {
            1nat
        } else {
            0nat
        },
    decreases hi,
{
    if hi > 0 {
        lemma_occurrences(g, e, t, i, hi - 1);
        let u = hi - 1;
        if u == t {
            assert forall|j: int| 0 <= j < g[t].len() && j != i implies (#[trigger] g[t][j]).0
                != e by {
                if g[t][j].0 == e {
                    assert(g[t][j].0 == g[t][i].0);
                }
            }
            lemma_count_single(g[t], e, i);
        } else {
            assert forall|j: int| 0 <= j < g[u].len() implies (#[trigger] g[u][j]).0 != e by {
                if g[u][j].0 == e {
                    assert(g[u][j].0 == g[t][i].0);
                }
            }
            lemma_count_absent(g[u], e);
        }
    }
}

/// Completeness: an orderly timetable that schedules every event, as every
/// feasible timetable is and every result of the initial solver, schedules
/// every event of the project exactly once.
pub proof fn lemma_every_event_once(g: Grid, p: &Project, e: Event)
    requires
        orderly(g, p),
        all_scheduled(g, p),
        e.0 < p.events.spec_len(),
    ensures
        occurrences(g, e, g.len() as int) == 1,
{
    assert(occurs(g, e));
    let (t, i) = choose|t: int, i: int|
        0 <= t < g.len() && 0 <= i < g[t].len() && (#[trigger] g[t][i]).0 == e;
    lemma_occurrences(g, e, t, i, g.len() as int);
}

/// Room uniqueness: in an orderly timetable, as every feasible timetable is
/// and every result of the initial solver, the rooms of a slot are all
/// different.
pub proof fn lemma_rooms_distinct(g: Grid, p: &Project, t: int)
    requires
        orderly(g, p),
        0 <= t < g.len(),
    ensures
        rooms_in(g[t]).no_duplicates(),
{
    assert(slot_rooms_unique(g[t]));
    let r = rooms_in(g[t]);
    assert forall|i: int, j: int| 0 <= i < r.len() && 0 <= j < r.len() && i != j implies r[i]
        != r[j] by {
        if i < j {
            assert(g[t][i].1 != g[t][j].1);
        } else {
            assert(g[t][j].1 != g[t][i].1);
        }
    }
}

/// Person uniqueness: in an orderly timetable, as every feasible timetable
/// is and every result of the initial solver, no person attends two events
/// of one slot.
pub proof fn lemma_attendees_disjoint(g: Grid, p: &Project, t: int, i: int, j: int, who: Person)
    requires
        orderly(g, p),
        0 <= t < g.len(),
        0 <= i < g[t].len(),
        0 <= j < g[t].len(),
        i != j,
    ensures
        !(p.events.spec_attendees(g[t][i].0).contains(who) && p.events.spec_attendees(
            g[t][j].0,
        ).contains(who)),
{
    assert(slot_people_unique(p, g[t]));
    if i < j {
        assert(!p.events.conflict(g[t][i].0, g[t][j].0));
    } else {
        assert(!p.events.conflict(g[t][j].0, g[t][i].0));
    }
}

/// A day that was drained is empty: its slots hold no pair.
pub proof fn lemma_drained_day_empty(g: Grid, lo: int, hi: int, from: int, to: int)
    requires
        0 <= lo <= from,
        to <= hi <= g.len(),
    ensures
        entries(cleared(g, lo, hi), from, to).len() == 0,
    decreases to - from,
{
    if to > from {
        lemma_drained_day_empty(g, lo, hi, from, to - 1);
        assert(cleared(g, lo, hi)[to - 1].len() == 0);
    }
}

/// Relocating a pair and relocating it back leaves every slot with the
/// pairs it had: the slot that the pair left and rejoined holds it last,
/// its other pairs in their order, and every other slot is as it was.
pub proof fn lemma_relocate_back(g: Grid, t: int, i: int, t2: int)
    requires
        0 <= t < g.len(),
        0 <= i < g[t].len(),
        0 <= t2 < g.len(),
        t2 != t,
    ensures
        ({
            let there = relocated(g, t, i, t2);
            let back = relocated(there, t2, there[t2].len() - 1, t);
            &&& back.len() == g.len()
            &&& back[t] == g[t].remove(i).push(g[t][i])
            &&& back[t].to_multiset() == g[t].to_multiset()
            &&& forall|u: int| 0 <= u < g.len() && u != t ==> #[trigger] back[u] == g[u]
            &&& i == g[t].len() - 1 ==> back == g
        }),
{
    broadcast use vstd::seq_lib::to_multiset_remove;
    broadcast use vstd::seq_lib::to_multiset_build;
    broadcast use vstd::multiset::group_multiset_axioms;

    let x = g[t][i];
    let there = relocated(g, t, i, t2);
    let last = there[t2].len() - 1;
    assert(there[t2] == g[t2].push(x));
    assert(there[t2][last] == x);
    let back = relocated(there, t2, last, t);
    assert(there[t2].remove(last) =~= g[t2]);
    assert(back[t2] == g[t2]);
    assert(back[t] == g[t].remove(i).push(x));
    assert forall|u: int| 0 <= u < g.len() && u != t implies #[trigger] back[u] == g[u] by {}
    g[t].to_multiset_ensures();
    assert(g[t].contains(x));
    assert(g[t].to_multiset().count(x) > 0);
    assert(g[t].remove(i).to_multiset() == g[t].to_multiset().remove(x));
    assert(g[t].remove(i).push(x).to_multiset() == g[t].remove(i).to_multiset().insert(x));
    assert(back[t].to_multiset() =~= g[t].to_multiset());
    if i == g[t].len() - 1 {
        assert(g[t].remove(i).push(x) =~= g[t]);
        assert(back =~= g);
    }
}

} // verus!
