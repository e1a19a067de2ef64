//! Relocate: move one event to another slot, keeping its room.

use crate::grid::{blocked, day_count, feasible, lemma_day_of_slot, lemma_place, lemma_remove_at, occurs, place, remove_at, Grid};
use crate::neighborhoods::{all_feasible, emitted, lemma_emitted_last, lemma_emitted_push};
use crate::project::{Event, EventKind, Project, Room};
use crate::solution::{entries, find_event, lemma_entries_has, lemma_entries_member, Solution};
use crate::utils::lemma_same_items;
use vstd::prelude::*;

verus! {

/// The pair at position `i` of slot `t` may move to slot `t2`: it is another
/// slot, which does not block the pair, and if it lies on another day, that
/// day has room for one more event of the kind.
pub open spec fn relocatable(g: Grid, p: &Project, t: int, i: int, t2: int) -> bool {
    &&& 0 <= t < g.len()
    &&& 0 <= i < g[t].len()
    &&& 0 <= t2 < g.len()
    &&& t2 != t
    &&& (p.config.day_of(t2) != p.config.day_of(t) ==> day_count(
        p,
        g,
        p.config.day_of(t2),
        p.events.spec_kind(g[t][i].0),
    ) < p.events.spec_max_per_day(g[t][i].0))
    &&& !blocked(p, g[t2], g[t][i].0, g[t][i].1)
}

/// `g` after the pair at position `i` of slot `t` has moved to the end of
/// slot `t2`.
pub open spec fn relocated(g: Grid, t: int, i: int, t2: int) -> Grid {
    place(remove_at(g, t, i), t2, g[t][i])
}

/// `h` is `g` after one permitted relocation.
pub open spec fn is_relocation(g: Grid, p: &Project, h: Grid) -> bool {
    exists|t: int, i: int, t2: int|
        relocatable(g, p, t, i, t2) && h == #[trigger] relocated(g, t, i, t2)
}

/// Every permitted move of the entry `x` to a slot below `bound` is emitted.
pub open spec fn covered(
    out: Seq<Solution>,
    g: Grid,
    p: &Project,
    x: (usize, Event, Room),
    bound: int,
) -> bool {
    forall|i: int, t2: int|
        0 <= i < g[x.0 as int].len() && g[x.0 as int][i] == (x.1, x.2) && t2 < bound
            && relocatable(g, p, x.0 as int, i, t2) ==> emitted(
            out,
            #[trigger] relocated(g, x.0 as int, i, t2),
        )
}

/// A permitted relocation keeps a feasible timetable feasible.
pub proof fn lemma_relocated_feasible(g: Grid, p: &Project, t: int, i: int, t2: int)
    requires
        p.wf(),
        feasible(g, p),
        relocatable(g, p, t, i, t2),
    ensures
        feasible(relocated(g, t, i, t2), p),
{
    let x = g[t][i];
    let g1 = remove_at(g, t, i);
    lemma_remove_at(g, p, t, i);
    lemma_day_of_slot(p.config.slots_per_day as int, p.config.days as int, t2);
    lemma_day_of_slot(p.config.slots_per_day as int, p.config.days as int, t);
    let d2 = p.config.day_of(t2);
    let k = p.events.spec_kind(x.0);
    assert(day_count(p, g, d2, k) <= p.events.spec_max_per_day(x.0));
    assert(day_count(p, g1, d2, k) < p.events.spec_max_per_day(x.0));
    assert(g1[t2] == g[t2]);
    lemma_place(g1, p, t2, x);
    let g2 = place(g1, t2, x);
    assert forall|e: Event| e.0 < p.events.spec_len() implies occurs(g2, e) by {
        assert(occurs(g, e));
    }
}

proof fn lemma_covered_push(
    out: Seq<Solution>,
    y: Solution,
    g: Grid,
    p: &Project,
    x: (usize, Event, Room),
    bound: int,
)
    requires
        covered(out, g, p, x, bound),
    ensures
        covered(out.push(y), g, p, x, bound),
{
    assert forall|i: int, t2: int|
        0 <= i < g[x.0 as int].len() && g[x.0 as int][i] == (x.1, x.2) && t2 < bound
            && relocatable(g, p, x.0 as int, i, t2) implies emitted(
        out.push(y),
        #[trigger] relocated(g, x.0 as int, i, t2),
    ) by {
        lemma_emitted_push(out, y, relocated(g, x.0 as int, i, t2));
    }
}

/// All timetables that one permitted relocation makes from `s`: for every
/// scheduled event and every other slot that takes it, the timetable with
/// the event moved there. Every one of them is feasible. The order is random.
pub fn neighborhoods(s: Solution, project: &Project) -> (out: Vec<Solution>)
    requires
        project.wf(),
        feasible(s.grid(), project),
        s.counter_filled(project),
    ensures
        forall|k: int|
            0 <= k < out.len() ==> is_relocation(s.grid(), project, (#[trigger] out[k]).grid()),
        forall|t: int, i: int, t2: int|
            relocatable(s.grid(), project, t, i, t2) ==> emitted(
                out@,
                #[trigger] relocated(s.grid(), t, i, t2),
            ),
        all_feasible(out@, project),
{
    let ghost g = s.grid();
    let all = s.iter_all_shuffle();
    let slots = project.config.num_slots;
    let spd = project.config.slots_per_day;
    let mut out: Vec<Solution> = Vec::new();
    proof {
        lemma_same_items(all@, entries(g, 0, g.len() as int));
    }
    let mut a: usize = 0;
    while a < all.len()
        invariant
            a <= all.len(),
            project.wf(),
            feasible(g, project),
            s.counter_filled(project),
            g == s.grid(),
            slots == project.config.num_slots,
            spd == project.config.slots_per_day,
            forall|x: (usize, Event, Room)|
                all@.contains(x) <==> entries(g, 0, g.len() as int).contains(x),
            forall|k: int| 0 <= k < out.len() ==> is_relocation(g, project, (#[trigger] out[k]).grid()),
            all_feasible(out@, project),
            forall|b: int| 0 <= b < a ==> covered(out@, g, project, #[trigger] all[b], slots as int),
        decreases all.len() - a,
    {
        let (t, e, r) = all[a];
        proof {
            assert(all@.contains(all[a as int]));
            lemma_entries_member(g, 0, g.len() as int, all[a as int]);
        }
        let found = find_event(s.events_in_slot(t), e);
        proof {
            let w = choose|w: int| 0 <= w < g[t as int].len() && g[t as int][w] == (e, r);
            assert(g[t as int][w].0 == e);
        }
        let i = found.unwrap();
        assert(g[t as int][i as int] == (e, r)) by {
            let w = choose|w: int| 0 <= w < g[t as int].len() && g[t as int][w] == (e, r);
            assert(g[t as int][w].0 == g[t as int][i as int].0);
        }
        assert(g[t as int][i as int].0.0 < project.events.spec_len());
        let cap = project.events.max_per_day(&e);
        let kind = project.events.kind(&e);
        let day_in = project.config.slots_to_day(t);
        let mut t2: usize = 0;
        while t2 < slots
            invariant
                t2 <= slots,
                project.wf(),
                feasible(g, project),
                s.counter_filled(project),
                g == s.grid(),
                slots == project.config.num_slots,
                spd == project.config.slots_per_day,
                a < all.len(),
                all[a as int] == (t, e, r),
                t < g.len(),
                i < g[t as int].len(),
                g[t as int][i as int] == (e, r),
                cap == project.events.spec_max_per_day(e),
                kind == project.events.spec_kind(e),
                kind.0 < project.events.spec_kinds_len(),
                day_in == project.config.day_of(t as int),
                forall|k: int|
                    0 <= k < out.len() ==> is_relocation(g, project, (#[trigger] out[k]).grid()),
                all_feasible(out@, project),
                forall|b: int|
                    0 <= b < a ==> covered(out@, g, project, #[trigger] all[b], slots as int),
                covered(out@, g, project, all[a as int], t2 as int),
            decreases slots - t2,
        {
            let ghost before = out@;
            let mut keep = t2 != t;
            if keep {
                let day = project.config.slots_to_day(t2);
                proof {
                    lemma_day_of_slot(spd as int, project.config.days as int, t2 as int);
                    assert(EventKind(kind.0 as int as usize) == kind);
                    assert(s.counts()[day as int].len() == project.events.spec_kinds_len());
                    assert(s.counts()[day as int][kind.0 as int] == day_count(
                        project,
                        g,
                        day as int,
                        EventKind(kind.0 as int as usize),
                    ));
                }
                if day != day_in && s.same_kind_events(day, kind) >= cap {
                    keep = false;
                }
            }
            if keep {
                assert forall|j: int| 0 <= j < g[t2 as int].len() implies (
                #[trigger] g[t2 as int][j]).0.0 < project.events.spec_len() by {}
                if s.event_can_not_fit_in(&e, &r, t2, project) {
                    keep = false;
                }
            }
            assert(keep == relocatable(g, project, t as int, i as int, t2 as int));
            if keep {
                let mut xx = s.duplicate();
                let x = xx.take_out(t, i);
                xx.put_in(t2, x);
                proof {
                    lemma_relocated_feasible(g, project, t as int, i as int, t2 as int);
                    assert(xx.grid() == relocated(g, t as int, i as int, t2 as int));
                    assert(is_relocation(g, project, xx.grid()));
                    lemma_emitted_last(before, xx);
                    assert forall|b: int| 0 <= b < a implies covered(
                        before.push(xx),
                        g,
                        project,
                        #[trigger] all[b],
                        slots as int,
                    ) by {
                        lemma_covered_push(before, xx, g, project, all[b], slots as int);
                    }
                    lemma_covered_push(before, xx, g, project, all[a as int], t2 as int);
                }
                out.push(xx);
            }
            proof {
                assert forall|j: int, u: int|
                    0 <= j < g[t as int].len() && g[t as int][j] == (e, r) && u < t2 + 1
                        && relocatable(g, project, t as int, j, u) implies emitted(
                    out@,
                    #[trigger] relocated(g, t as int, j, u),
                ) by {
                    assert(g[t as int][j].0 == g[t as int][i as int].0);
                    assert(j == i);
                    if u == t2 {
                        assert(keep);
                        assert(emitted(out@, relocated(g, t as int, i as int, t2 as int)));
                    } else {
                        assert(covered(out@, g, project, all[a as int], t2 as int));
                        assert(all[a as int].0 == t);
                        assert(g[all[a as int].0 as int][j] == (all[a as int].1, all[a as int].2));
                        assert(emitted(out@, relocated(g, all[a as int].0 as int, j, u)));
                    }
                    assert(emitted(out@, relocated(g, t as int, j, u)));
                }
            }
            t2 += 1;
        }
        a += 1;
    }
    proof {
        assert forall|t: int, i: int, t2: int| relocatable(g, project, t, i, t2) implies emitted(
            out@,
            #[trigger] relocated(g, t, i, t2),
        ) by {
            lemma_entries_has(g, 0, g.len() as int, t, i);
            let x = (t as usize, g[t][i].0, g[t][i].1);
            assert(all@.contains(x));
            let b = choose|b: int| 0 <= b < all.len() && all[b] == x;
            assert(covered(out@, g, project, all[b], slots as int));
        }
    }
    out
}

} // verus!
