//! Swap: two scheduled events exchange their rooms, their slots, or both.

use crate::grid::{blocked, day_count, feasible, in_range, lemma_day_of_slot, lemma_place, lemma_remove_at, occurs, place, remove_at, slot_people_unique, slot_rooms_unique, Grid, Slot};
use crate::neighborhoods::{all_feasible, emitted, lemma_emitted_last, lemma_emitted_push};
use crate::project::{Event, EventKind, Project, Room};
use crate::solution::Solution;
use crate::validity::{earlier, holds_room};
use vstd::prelude::*;

verus! {

/// What two events exchange.
#[derive(Debug, Clone, Copy, PartialEq, Eq, Structural)]
pub enum SwapKind {
    RoomOnly,
    TimeOnly,
    TimeAndRoom,
}

/// The pairs that take the place of `a` (in its slot) and of `b` (in its slot).
pub open spec fn new_pairs(f: SwapKind, a: (Event, Room), b: (Event, Room)) -> (
    (Event, Room),
    (Event, Room),
) {
    match f {
        SwapKind::RoomOnly => ((a.0, b.1), (b.0, a.1)),
        SwapKind::TimeOnly => (b, a),
        SwapKind::TimeAndRoom => ((b.0, a.1), (a.0, b.1)),
    }
}

/// `g` without the pairs at `(t1, i1)` and at the later position `(t2, i2)`.
pub open spec fn rest(g: Grid, t1: int, i1: int, t2: int, i2: int) -> Grid {
    remove_at(remove_at(g, t2, i2), t1, i1)
}

/// `g` after the pairs at `(t1, i1)` and `(t2, i2)` have made the exchange:
/// both are taken out, and the new pairs are added at the end of the slots.
pub open spec fn swapped(f: SwapKind, g: Grid, t1: int, i1: int, t2: int, i2: int) -> Grid {
    let x = new_pairs(f, g[t1][i1], g[t2][i2]);
    place(place(rest(g, t1, i1, t2, i2), t1, x.0), t2, x.1)
}

/// Each event may move to the other's day: the days or the kinds are the
/// same, or each day has room for one more event of the other's kind.
pub open spec fn caps_allow(g: Grid, p: &Project, t1: int, e1: Event, t2: int, e2: Event) -> bool {
    let d1 = p.config.day_of(t1);
    let d2 = p.config.day_of(t2);
    let k1 = p.events.spec_kind(e1);
    let k2 = p.events.spec_kind(e2);
    d1 != d2 && k1 != k2 ==> day_count(p, g, d1, k2) < p.events.spec_max_per_day(e2) && day_count(
        p,
        g,
        d2,
        k1,
    ) < p.events.spec_max_per_day(e1)
}

/// `(t1, i1)` and `(t2, i2)` are positions of `g`, the first before the second.
pub open spec fn ordered_positions(g: Grid, t1: int, i1: int, t2: int, i2: int) -> bool {
    &&& 0 <= t1 < g.len()
    &&& 0 <= i1 < g[t1].len()
    &&& 0 <= t2 < g.len()
    &&& 0 <= i2 < g[t2].len()
    &&& earlier(t1, i1, t2, i2)
}

/// The exchange `f` between the pairs at `(t1, i1)` and `(t2, i2)` is
/// permitted. Rooms are exchanged only between rooms of one kind; slots only
/// where the daily caps allow it; and what remains of each slot must not
/// block the pair that joins it (for an exchange of rooms alone: must not
/// use its room).
pub open spec fn can_swap(f: SwapKind, g: Grid, p: &Project, t1: int, i1: int, t2: int, i2: int) -> bool {
    let a = g[t1][i1];
    let b = g[t2][i2];
    let r = rest(g, t1, i1, t2, i2);
    &&& ordered_positions(g, t1, i1, t2, i2)
    &&& match f {
        SwapKind::RoomOnly => {
            &&& p.rooms.spec_room_kind(a.1) == p.rooms.spec_room_kind(b.1)
            &&& !holds_room(r[t1], b.1)
            &&& !holds_room(r[t2], a.1)
        },
        SwapKind::TimeOnly => {
            &&& caps_allow(g, p, t1, a.0, t2, b.0)
            &&& !blocked(p, r[t2], a.0, a.1)
            &&& !blocked(p, r[t1], b.0, b.1)
        },
        SwapKind::TimeAndRoom => {
            &&& p.rooms.spec_room_kind(a.1) == p.rooms.spec_room_kind(b.1)
            &&& caps_allow(g, p, t1, a.0, t2, b.0)
            &&& !blocked(p, r[t2], a.0, b.1)
            &&& !blocked(p, r[t1], b.0, a.1)
        },
    }
}

/// `h` is `g` after one permitted exchange `f`.
pub open spec fn is_swap(f: SwapKind, g: Grid, p: &Project, h: Grid) -> bool {
    exists|t1: int, i1: int, t2: int, i2: int|
        can_swap(f, g, p, t1, i1, t2, i2) && h == #[trigger] swapped(f, g, t1, i1, t2, i2)
}

/// Every permitted exchange whose first position comes before `(t1, i1)`, or
/// is `(t1, i1)` with the second position before `(t2, i2)`, is emitted.
pub open spec fn covered(
    f: SwapKind,
    out: Seq<Solution>,
    g: Grid,
    p: &Project,
    t1: int,
    i1: int,
    t2: int,
    i2: int,
) -> bool {
    forall|a: int, b: int, c: int, d: int|
        (earlier(a, b, t1, i1) || (a == t1 && b == i1 && earlier(c, d, t2, i2))) && can_swap(
            f,
            g,
            p,
            a,
            b,
            c,
            d,
        ) ==> emitted(out, #[trigger] swapped(f, g, a, b, c, d))
}

proof fn lemma_covered_push(
    f: SwapKind,
    out: Seq<Solution>,
    y: Solution,
    g: Grid,
    p: &Project,
    t1: int,
    i1: int,
    t2: int,
    i2: int,
)
    requires
        covered(f, out, g, p, t1, i1, t2, i2),
    ensures
        covered(f, out.push(y), g, p, t1, i1, t2, i2),
{
    assert forall|a: int, b: int, c: int, d: int|
        (earlier(a, b, t1, i1) || (a == t1 && b == i1 && earlier(c, d, t2, i2))) && can_swap(
            f,
            g,
            p,
            a,
            b,
            c,
            d,
        ) implies emitted(out.push(y), #[trigger] swapped(f, g, a, b, c, d)) by {
        lemma_emitted_push(out, y, swapped(f, g, a, b, c, d));
    }
}

/// A slot with one more pair blocks what the slot blocked, what uses the
/// pair's room and what shares an attendee with the pair's event.
pub proof fn lemma_blocked_push(p: &Project, s: Slot, y: (Event, Room), e: Event, r: Room)
    ensures
        blocked(p, s.push(y), e, r) <==> blocked(p, s, e, r) || y.1 == r || p.events.conflict(
            e,
            y.0,
        ),
{
    let s2 = s.push(y);
    if blocked(p, s2, e, r) {
        let i = choose|i: int|
            0 <= i < s2.len() && ((#[trigger] s2[i]).1 == r || p.events.conflict(e, s2[i].0));
        if i < s.len() {
            assert(s[i] == s2[i]);
        }
    }
    if blocked(p, s, e, r) {
        let i = choose|i: int|
            0 <= i < s.len() && ((#[trigger] s[i]).1 == r || p.events.conflict(e, s[i].0));
        assert(s2[i] == s[i]);
    }
    if y.1 == r || p.events.conflict(e, y.0) {
        assert(s2[s.len() as int] == y);
    }
}

/// A slot that holds no pair with room `r` and no event that shares an
/// attendee with `e` does not block `(e, r)`.
pub proof fn lemma_not_blocked(p: &Project, s: Slot, e: Event, r: Room)
    requires
        !holds_room(s, r),
        forall|j: int| 0 <= j < s.len() ==> !p.events.conflict(e, (#[trigger] s[j]).0),
    ensures
        !blocked(p, s, e, r),
{
    if blocked(p, s, e, r) {
        let i = choose|i: int|
            0 <= i < s.len() && ((#[trigger] s[i]).1 == r || p.events.conflict(e, s[i].0));
        assert(s[i].1 != r);
    }
}

/// The core of all three families: taking two pairs out of a feasible
/// timetable and adding two pairs that hold the same two events leaves it
/// feasible if the new pairs fit where they are added.
pub proof fn lemma_exchange_feasible(
    g: Grid,
    p: &Project,
    t1: int,
    i1: int,
    t2: int,
    i2: int,
    x1: (Event, Room),
    x2: (Event, Room),
)
    requires
        p.wf(),
        feasible(g, p),
        ordered_positions(g, t1, i1, t2, i2),
        (x1.0 == g[t1][i1].0 && x2.0 == g[t2][i2].0) || (x1.0 == g[t2][i2].0 && x2.0
            == g[t1][i1].0),
        x1.1.0 < p.rooms.spec_len(),
        x2.1.0 < p.rooms.spec_len(),
        p.rooms.spec_room_kind(x1.1) == p.events.spec_room_kind(x1.0),
        p.rooms.spec_room_kind(x2.1) == p.events.spec_room_kind(x2.0),
        !blocked(p, rest(g, t1, i1, t2, i2)[t1], x1.0, x1.1),
        !blocked(p, rest(g, t1, i1, t2, i2)[t2], x2.0, x2.1),
        t1 == t2 ==> x1.1 != x2.1 && !p.events.conflict(x2.0, x1.0),
        x1.0 == g[t2][i2].0 ==> caps_allow(g, p, t1, g[t1][i1].0, t2, g[t2][i2].0),
    ensures
        feasible(place(place(rest(g, t1, i1, t2, i2), t1, x1), t2, x2), p),
{
    let a = g[t1][i1];
    let b = g[t2][i2];
    let spd = p.config.slots_per_day as int;
    let days = p.config.days as int;
    lemma_day_of_slot(spd, days, t1);
    lemma_day_of_slot(spd, days, t2);
    let d1 = p.config.day_of(t1);
    let d2 = p.config.day_of(t2);
    let k1 = p.events.spec_kind(a.0);
    let k2 = p.events.spec_kind(b.0);
    assert(a.0 != b.0);
    let g1 = remove_at(g, t2, i2);
    lemma_remove_at(g, p, t2, i2);
    assert(g1[t1][i1] == a);
    lemma_remove_at(g1, p, t1, i1);
    let g2 = remove_at(g1, t1, i1);
    assert(g2 == rest(g, t1, i1, t2, i2));
    assert(!occurs(g2, a.0));
    assert(!occurs(g2, b.0));
    p.events.lemma_wf();
    // counts of the two kinds on the two days
    assert(day_count(p, g, d1, k1) <= p.events.spec_max_per_day(a.0));
    assert(day_count(p, g, d2, k2) <= p.events.spec_max_per_day(b.0));
    assert(day_count(p, g, d1, k2) <= p.events.spec_max_per_day(b.0));
    assert(day_count(p, g, d2, k1) <= p.events.spec_max_per_day(a.0));
    assert(day_count(p, g, d1, k1) == day_count(p, g1, d1, k1) + if d2 == d1 && k2 == k1 {
        1nat
    } else {
        0nat
    });
    assert(day_count(p, g1, d1, k1) == day_count(p, g2, d1, k1) + 1);
    assert(day_count(p, g, d1, k2) == day_count(p, g1, d1, k2) + if d2 == d1 {
        1nat
    } else {
        0nat
    });
    assert(day_count(p, g1, d1, k2) == day_count(p, g2, d1, k2) + if k1 == k2 {
        1nat
    } else {
        0nat
    });
    assert(day_count(p, g, d2, k1) == day_count(p, g1, d2, k1) + if k2 == k1 {
        1nat
    } else {
        0nat
    });
    assert(day_count(p, g1, d2, k1) == day_count(p, g2, d2, k1) + if d1 == d2 {
        1nat
    } else {
        0nat
    });
    assert(day_count(p, g, d2, k2) == day_count(p, g1, d2, k2) + 1);
    assert(day_count(p, g1, d2, k2) == day_count(p, g2, d2, k2) + if d1 == d2 && k1 == k2 {
        1nat
    } else {
        0nat
    });
    lemma_place(g2, p, t1, x1);
    let g3 = place(g2, t1, x1);
    assert(!occurs(g3, x2.0));
    assert(!blocked(p, g3[t2], x2.0, x2.1)) by {
        if t1 == t2 {
            lemma_blocked_push(p, g2[t1], x1, x2.0, x2.1);
        } else {
            assert(g3[t2] == g2[t2]);
        }
    }
    let kx1 = p.events.spec_kind(x1.0);
    let kx2 = p.events.spec_kind(x2.0);
    assert(day_count(p, g3, d2, kx2) == day_count(p, g2, d2, kx2) + if d1 == d2 && kx1 == kx2 {
        1nat
    } else {
        0nat
    });
    lemma_place(g3, p, t2, x2);
    let g4 = place(g3, t2, x2);
    assert forall|e: Event| e.0 < p.events.spec_len() implies occurs(g4, e) by {
        assert(occurs(g, e));
        if e != a.0 && e != b.0 {
            assert(occurs(g1, e));
            assert(occurs(g2, e));
            assert(occurs(g3, e));
        }
    }
}


/// What is left of a slot after the exchange's two pairs are taken out holds
/// only pairs of the slot, and neither of the two.
pub proof fn lemma_rest_from(g: Grid, t1: int, i1: int, t2: int, i2: int, t: int, j: int)
    requires
        ordered_positions(g, t1, i1, t2, i2),
        0 <= t < g.len(),
        0 <= j < rest(g, t1, i1, t2, i2)[t].len(),
    ensures
        exists|j0: int|
            0 <= j0 < g[t].len() && rest(g, t1, i1, t2, i2)[t][j] == #[trigger] g[t][j0] && !(t
                == t1 && j0 == i1) && !(t == t2 && j0 == i2),
{
    let g1 = remove_at(g, t2, i2);
    let r = remove_at(g1, t1, i1);
    let j1 = if t == t1 && j >= i1 {
        j + 1
    } else {
        j
    };
    assert(r[t][j] == g1[t][j1]);
    let j0 = if t == t2 && j1 >= i2 {
        j1 + 1
    } else {
        j1
    };
    assert(g1[t][j1] == g[t][j0]);
}

/// In a feasible timetable no event of a slot shares an attendee with
/// another event of the slot.
pub proof fn lemma_no_conflict(g: Grid, p: &Project, t: int, i: int, j: int)
    requires
        feasible(g, p),
        0 <= t < g.len(),
        0 <= i < g[t].len(),
        0 <= j < g[t].len(),
        i != j,
    ensures
        !p.events.conflict(g[t][i].0, g[t][j].0),
        g[t][i].1 != g[t][j].1,
{
    assert(slot_people_unique(p, g[t]));
    assert(slot_rooms_unique(g[t]));
    p.events.lemma_conflict_symmetric(g[t][i].0, g[t][j].0);
}

/// A permitted exchange keeps a feasible timetable feasible.
pub proof fn lemma_swapped_feasible(
    f: SwapKind,
    g: Grid,
    p: &Project,
    t1: int,
    i1: int,
    t2: int,
    i2: int,
)
    requires
        p.wf(),
        feasible(g, p),
        can_swap(f, g, p, t1, i1, t2, i2),
    ensures
        feasible(swapped(f, g, t1, i1, t2, i2), p),
{
    let a = g[t1][i1];
    let b = g[t2][i2];
    let r = rest(g, t1, i1, t2, i2);
    let x = new_pairs(f, a, b);
    assert(a.0 != b.0);
    if t1 == t2 {
        lemma_no_conflict(g, p, t1, i1, i2);
        lemma_no_conflict(g, p, t1, i2, i1);
    }
    if f == SwapKind::RoomOnly {
        assert forall|j: int| 0 <= j < r[t1].len() implies !p.events.conflict(
            a.0,
            (#[trigger] r[t1][j]).0,
        ) by {
            lemma_rest_from(g, t1, i1, t2, i2, t1, j);
            let j0 = choose|j0: int|
                0 <= j0 < g[t1].len() && r[t1][j] == #[trigger] g[t1][j0] && !(t1 == t1 && j0
                    == i1) && !(t1 == t2 && j0 == i2);
            lemma_no_conflict(g, p, t1, i1, j0);
        }
        lemma_not_blocked(p, r[t1], a.0, b.1);
        assert forall|j: int| 0 <= j < r[t2].len() implies !p.events.conflict(
            b.0,
            (#[trigger] r[t2][j]).0,
        ) by {
            lemma_rest_from(g, t1, i1, t2, i2, t2, j);
            let j0 = choose|j0: int|
                0 <= j0 < g[t2].len() && r[t2][j] == #[trigger] g[t2][j0] && !(t2 == t1 && j0
                    == i1) && !(t2 == t2 && j0 == i2);
            lemma_no_conflict(g, p, t2, i2, j0);
        }
        lemma_not_blocked(p, r[t2], b.0, a.1);
    }
    lemma_exchange_feasible(g, p, t1, i1, t2, i2, x.0, x.1);
}

/// Whether `slot` holds a pair with room `r`.
pub fn room_taken(slot: &Vec<(Event, Room)>, r: Room) -> (taken: bool)
    ensures
        taken == holds_room(slot@, r),
{
    let mut i: usize = 0;
    while i < slot.len()
        invariant
            i <= slot.len(),
            forall|j: int| 0 <= j < i ==> (#[trigger] slot[j]).1 != r,
        decreases slot.len() - i,
    {
        if slot[i].1 == r {
            return true;
        }
        i += 1;
    }
    false
}

/// Whether the caps allow the events `a` (in slot `t1`) and `b` (in slot
/// `t2`) to move to each other's day.
fn caps_let(s: &Solution, project: &Project, t1: usize, a: Event, t2: usize, b: Event) -> (ok:
    bool)
    requires
        project.wf(),
        s.counter_filled(project),
        in_range(s.grid(), project),
        t1 < s.grid().len(),
        t2 < s.grid().len(),
        a.0 < project.events.spec_len(),
        b.0 < project.events.spec_len(),
    ensures
        ok == caps_allow(s.grid(), project, t1 as int, a, t2 as int, b),
{
    let day_1 = project.config.slots_to_day(t1);
    let day_2 = project.config.slots_to_day(t2);
    let kind_1 = project.events.kind(&a);
    let kind_2 = project.events.kind(&b);
    if day_1 != day_2 && kind_1 != kind_2 {
        proof {
            let spd = project.config.slots_per_day as int;
            lemma_day_of_slot(spd, project.config.days as int, t1 as int);
            lemma_day_of_slot(spd, project.config.days as int, t2 as int);
            assert(EventKind(kind_1.0 as int as usize) == kind_1);
            assert(EventKind(kind_2.0 as int as usize) == kind_2);
            assert(s.counts()[day_1 as int].len() == project.events.spec_kinds_len());
            assert(s.counts()[day_2 as int].len() == project.events.spec_kinds_len());
            assert(s.counts()[day_1 as int][kind_2.0 as int] == day_count(
                project,
                s.grid(),
                day_1 as int,
                EventKind(kind_2.0 as int as usize),
            ));
            assert(s.counts()[day_2 as int][kind_1.0 as int] == day_count(
                project,
                s.grid(),
                day_2 as int,
                EventKind(kind_1.0 as int as usize),
            ));
        }
        let max_per_day_1 = project.events.max_per_day(&a);
        let max_per_day_2 = project.events.max_per_day(&b);
        if s.same_kind_events(day_1, kind_2) >= max_per_day_2 || s.same_kind_events(day_2, kind_1)
            >= max_per_day_1 {
            return false;
        }
    }
    true
}

/// The timetable that the exchange `f` between the pairs at `(t1, i1)` and
/// `(t2, i2)` makes from `s`, if the exchange is permitted.
fn try_swap(f: SwapKind, s: &Solution, project: &Project, t1: usize, i1: usize, t2: usize, i2: usize) -> (r:
    Option<Solution>)
    requires
        project.wf(),
        feasible(s.grid(), project),
        s.counter_filled(project),
        ordered_positions(s.grid(), t1 as int, i1 as int, t2 as int, i2 as int),
    ensures
        r is Some <==> can_swap(f, s.grid(), project, t1 as int, i1 as int, t2 as int, i2 as int),
        r is Some ==> r.unwrap().grid() == swapped(
            f,
            s.grid(),
            t1 as int,
            i1 as int,
            t2 as int,
            i2 as int,
        ) && feasible(r.unwrap().grid(), project),
{
    let ghost g = s.grid();
    let a = s.events_in_slot(t1)[i1];
    let b = s.events_in_slot(t2)[i2];
    assert(g[t1 as int][i1 as int].0.0 < project.events.spec_len());
    assert(g[t2 as int][i2 as int].0.0 < project.events.spec_len());
    let rooms = match f {
        SwapKind::TimeOnly => true,
        _ => project.rooms.room_kind(&a.1) == project.rooms.room_kind(&b.1),
    };
    if !rooms {
        return None;
    }
    let caps = match f {
        SwapKind::RoomOnly => true,
        _ => caps_let(s, project, t1, a.0, t2, b.0),
    };
    if !caps {
        return None;
    }
    let mut xx = s.duplicate();
    xx.take_out(t2, i2);
    assert(xx.grid()[t1 as int][i1 as int] == a);
    xx.take_out(t1, i1);
    let ghost r = rest(g, t1 as int, i1 as int, t2 as int, i2 as int);
    assert(xx.grid() == r);
    proof {
        lemma_remove_at(g, project, t2 as int, i2 as int);
        lemma_remove_at(remove_at(g, t2 as int, i2 as int), project, t1 as int, i1 as int);
        assert(in_range(r, project));
        assert forall|j: int| 0 <= j < r[t1 as int].len() implies (#[trigger] r[t1 as int][j]).0.0
            < project.events.spec_len() by {}
        assert forall|j: int| 0 <= j < r[t2 as int].len() implies (#[trigger] r[t2 as int][j]).0.0
            < project.events.spec_len() by {}
    }
    let fits = match f {
        SwapKind::RoomOnly => !room_taken(xx.events_in_slot(t1), b.1) && !room_taken(
            xx.events_in_slot(t2),
            a.1,
        ),
        SwapKind::TimeOnly => !xx.event_can_not_fit_in(&a.0, &a.1, t2, project)
            && !xx.event_can_not_fit_in(&b.0, &b.1, t1, project),
        SwapKind::TimeAndRoom => !xx.event_can_not_fit_in(&a.0, &b.1, t2, project)
            && !xx.event_can_not_fit_in(&b.0, &a.1, t1, project),
    };
    if !fits {
        return None;
    }
    let x = match f {
        SwapKind::RoomOnly => ((a.0, b.1), (b.0, a.1)),
        SwapKind::TimeOnly => (b, a),
        SwapKind::TimeAndRoom => ((b.0, a.1), (a.0, b.1)),
    };
    xx.put_in(t1, x.0);
    xx.put_in(t2, x.1);
    proof {
        lemma_swapped_feasible(f, g, project, t1 as int, i1 as int, t2 as int, i2 as int);
    }
    Some(xx)
}

/// All timetables that one permitted exchange `f` makes from `s`, for every
/// two scheduled events. Every one of them is feasible.
pub fn swaps(f: SwapKind, s: Solution, project: &Project) -> (out: Vec<Solution>)
    requires
        project.wf(),
        feasible(s.grid(), project),
        s.counter_filled(project),
    ensures
        forall|k: int|
            0 <= k < out.len() ==> is_swap(f, s.grid(), project, (#[trigger] out[k]).grid()),
        forall|t1: int, i1: int, t2: int, i2: int|
            can_swap(f, s.grid(), project, t1, i1, t2, i2) ==> emitted(
                out@,
                #[trigger] swapped(f, s.grid(), t1, i1, t2, i2),
            ),
        all_feasible(out@, project),
{
    let ghost g = s.grid();
    let slots = s.inner().len();
    let mut out: Vec<Solution> = Vec::new();
    let mut t1: usize = 0;
    while t1 < slots
        invariant
            t1 <= slots,
            slots == g.len(),
            g == s.grid(),
            project.wf(),
            feasible(g, project),
            s.counter_filled(project),
            forall|k: int| 0 <= k < out.len() ==> is_swap(f, g, project, (#[trigger] out[k]).grid()),
            all_feasible(out@, project),
            covered(f, out@, g, project, t1 as int, 0, 0, 0),
        decreases slots - t1,
    {
        let len1 = s.events_in_slot(t1).len();
        let mut i1: usize = 0;
        while i1 < len1
            invariant
                t1 < slots,
                i1 <= len1,
                len1 == g[t1 as int].len(),
                slots == g.len(),
                g == s.grid(),
                project.wf(),
                feasible(g, project),
                s.counter_filled(project),
                forall|k: int|
                    0 <= k < out.len() ==> is_swap(f, g, project, (#[trigger] out[k]).grid()),
                all_feasible(out@, project),
                covered(f, out@, g, project, t1 as int, i1 as int, 0, 0),
            decreases len1 - i1,
        {
            let mut t2: usize = t1;
            assert(covered(f, out@, g, project, t1 as int, i1 as int, t2 as int, 0)) by {
                assert forall|a: int, b: int, c: int, d: int|
                    (earlier(a, b, t1 as int, i1 as int) || (a == t1 && b == i1 && earlier(
                        c,
                        d,
                        t2 as int,
                        0,
                    ))) && can_swap(f, g, project, a, b, c, d) implies emitted(
                    out@,
                    #[trigger] swapped(f, g, a, b, c, d),
                ) by {}
            }
            while t2 < slots
                invariant
                    t1 <= t2 <= slots,
                    i1 < len1,
                    len1 == g[t1 as int].len(),
                    slots == g.len(),
                    g == s.grid(),
                    project.wf(),
                    feasible(g, project),
                    s.counter_filled(project),
                    forall|k: int|
                        0 <= k < out.len() ==> is_swap(f, g, project, (#[trigger] out[k]).grid()),
                    all_feasible(out@, project),
                    covered(f, out@, g, project, t1 as int, i1 as int, t2 as int, 0),
                decreases slots - t2,
            {
                let len2 = s.events_in_slot(t2).len();
                let mut i2: usize = 0;
                while i2 < len2
                    invariant
                        t1 <= t2 < slots,
                        i1 < len1,
                        i2 <= len2,
                        len1 == g[t1 as int].len(),
                        len2 == g[t2 as int].len(),
                        slots == g.len(),
                        g == s.grid(),
                        project.wf(),
                        feasible(g, project),
                        s.counter_filled(project),
                        forall|k: int|
                            0 <= k < out.len() ==> is_swap(
                                f,
                                g,
                                project,
                                (#[trigger] out[k]).grid(),
                            ),
                        all_feasible(out@, project),
                        covered(f, out@, g, project, t1 as int, i1 as int, t2 as int, i2 as int),
                    decreases len2 - i2,
                {
                    let ghost before = out@;
                    let ghost here = swapped(f, g, t1 as int, i1 as int, t2 as int, i2 as int);
                    if t2 > t1 || i2 > i1 {
                        match try_swap(f, &s, project, t1, i1, t2, i2) {
                            Some(xx) => {
                                proof {
                                    lemma_emitted_last(before, xx);
                                    lemma_covered_push(
                                        f,
                                        before,
                                        xx,
                                        g,
                                        project,
                                        t1 as int,
                                        i1 as int,
                                        t2 as int,
                                        i2 as int,
                                    );
                                    assert(is_swap(f, g, project, xx.grid()));
                                }
                                out.push(xx);
                            },
                            None => {},
                        }
                    }
                    proof {
                        assert forall|a: int, b: int, c: int, d: int|
                            (earlier(a, b, t1 as int, i1 as int) || (a == t1 && b == i1 && earlier(
                                c,
                                d,
                                t2 as int,
                                i2 + 1,
                            ))) && can_swap(f, g, project, a, b, c, d) implies emitted(
                            out@,
                            #[trigger] swapped(f, g, a, b, c, d),
                        ) by {
                            if a == t1 && b == i1 && c == t2 && d == i2 {
                                assert(emitted(out@, here));
                            } else {
                                assert(earlier(a, b, t1 as int, i1 as int) || (a == t1 && b == i1
                                    && earlier(c, d, t2 as int, i2 as int)));
                            }
                        }
                    }
                    i2 += 1;
                }
                proof {
                    assert forall|a: int, b: int, c: int, d: int|
                        (earlier(a, b, t1 as int, i1 as int) || (a == t1 && b == i1 && earlier(
                            c,
                            d,
                            t2 + 1,
                            0,
                        ))) && can_swap(f, g, project, a, b, c, d) implies emitted(
                        out@,
                        #[trigger] swapped(f, g, a, b, c, d),
                    ) by {
                        assert(earlier(a, b, t1 as int, i1 as int) || (a == t1 && b == i1
                            && earlier(c, d, t2 as int, len2 as int)));
                    }
                }
                t2 += 1;
            }
            proof {
                assert forall|a: int, b: int, c: int, d: int|
                    (earlier(a, b, t1 as int, i1 + 1) || (a == t1 && b == i1 + 1 && earlier(
                        c,
                        d,
                        0,
                        0,
                    ))) && can_swap(f, g, project, a, b, c, d) implies emitted(
                    out@,
                    #[trigger] swapped(f, g, a, b, c, d),
                ) by {
                    assert(earlier(a, b, t1 as int, i1 as int) || (a == t1 && b == i1 && earlier(
                        c,
                        d,
                        slots as int,
                        0,
                    )));
                }
            }
            i1 += 1;
        }
        proof {
            assert forall|a: int, b: int, c: int, d: int|
                (earlier(a, b, t1 + 1, 0) || (a == t1 + 1 && b == 0 && earlier(c, d, 0, 0)))
                    && can_swap(f, g, project, a, b, c, d) implies emitted(
                out@,
                #[trigger] swapped(f, g, a, b, c, d),
            ) by {
                assert(earlier(a, b, t1 as int, len1 as int) || (a == t1 && b == len1 && earlier(
                    c,
                    d,
                    0,
                    0,
                )));
            }
        }
        t1 += 1;
    }
    proof {
        assert forall|t1: int, i1: int, t2: int, i2: int|
            can_swap(f, g, project, t1, i1, t2, i2) implies emitted(
            out@,
            #[trigger] swapped(f, g, t1, i1, t2, i2),
        ) by {
            assert(earlier(t1, i1, slots as int, 0));
        }
    }
    out
}

/// All timetables in which two events of `s` have exchanged their rooms: the
/// rooms are of one kind and neither is in use in the other's slot. Every one
/// of them is feasible.
pub fn room_only(s: Solution, project: &Project) -> (out: Vec<Solution>)
    requires
        project.wf(),
        feasible(s.grid(), project),
        s.counter_filled(project),
    ensures
        forall|k: int|
            0 <= k < out.len() ==> is_swap(
                SwapKind::RoomOnly,
                s.grid(),
                project,
                (#[trigger] out[k]).grid(),
            ),
        forall|t1: int, i1: int, t2: int, i2: int|
            can_swap(SwapKind::RoomOnly, s.grid(), project, t1, i1, t2, i2) ==> emitted(
                out@,
                #[trigger] swapped(SwapKind::RoomOnly, s.grid(), t1, i1, t2, i2),
            ),
        all_feasible(out@, project),
{
    swaps(SwapKind::RoomOnly, s, project)
}

/// All timetables in which two events of `s` have exchanged their slots,
/// each keeping its room: the daily caps allow it and each event fits in the
/// other's slot. Every one of them is feasible.
pub fn time_only(s: Solution, project: &Project) -> (out: Vec<Solution>)
    requires
        project.wf(),
        feasible(s.grid(), project),
        s.counter_filled(project),
    ensures
        forall|k: int|
            0 <= k < out.len() ==> is_swap(
                SwapKind::TimeOnly,
                s.grid(),
                project,
                (#[trigger] out[k]).grid(),
            ),
        forall|t1: int, i1: int, t2: int, i2: int|
            can_swap(SwapKind::TimeOnly, s.grid(), project, t1, i1, t2, i2) ==> emitted(
                out@,
                #[trigger] swapped(SwapKind::TimeOnly, s.grid(), t1, i1, t2, i2),
            ),
        all_feasible(out@, project),
{
    swaps(SwapKind::TimeOnly, s, project)
}

/// All timetables in which two events of `s` have exchanged their slots and
/// their rooms: the rooms are of one kind, the daily caps allow it and each
/// event fits in the other's slot with the other's room. Every one of them
/// is feasible.
pub fn time_and_room(s: Solution, project: &Project) -> (out: Vec<Solution>)
    requires
        project.wf(),
        feasible(s.grid(), project),
        s.counter_filled(project),
    ensures
        forall|k: int|
            0 <= k < out.len() ==> is_swap(
                SwapKind::TimeAndRoom,
                s.grid(),
                project,
                (#[trigger] out[k]).grid(),
            ),
        forall|t1: int, i1: int, t2: int, i2: int|
            can_swap(SwapKind::TimeAndRoom, s.grid(), project, t1, i1, t2, i2) ==> emitted(
                out@,
                #[trigger] swapped(SwapKind::TimeAndRoom, s.grid(), t1, i1, t2, i2),
            ),
        all_feasible(out@, project),
{
    swaps(SwapKind::TimeAndRoom, s, project)
}

} // verus!
