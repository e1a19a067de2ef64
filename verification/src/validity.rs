//! Whether a timetable satisfies every hard constraint, and which it
//! violates first.

use crate::grid::{countable, events_known, all_scheduled, caps_respected, day_count, feasible, in_range, no_event_twice, occurs, people_unique, placed, room_kinds_match, rooms_unique, slot_people_unique, slot_rooms_unique, Grid, Slot};
use crate::project::{Event, EventKind, Project, Room};
use crate::solution::Solution;
use vstd::prelude::*;
use vstd::string::StrSliceExecFns;

verus! {

/// The first hard constraint that a timetable violates, with the offenders.
#[derive(Debug, Clone, Copy, PartialEq, Eq, Structural)]
pub enum Violation {
    /// The timetable has not one slot per slot of the grid.
    Shape,
    /// Slot `.0` holds event `.1`, which the project does not have.
    UnknownEvent(usize, Event),
    /// Slot `.0` holds room `.1`, which the project does not have.
    UnknownRoom(usize, Room),
    /// The event is scheduled more than once.
    MultipleEvent(Event),
    /// The event is not scheduled.
    MissingEvent(Event),
    /// In slot `.0` the events `.1` and `.2` are both in room `.3`.
    RoomConflict(usize, Event, Event, Room),
    /// In slot `.0` event `.1` is in room `.2`, which is not of the kind it needs.
    WrongRoomKind(usize, Event, Room),
    /// In slot `.0` the events `.1` and `.2` share an attendee.
    PeopleConflict(usize, Event, Event),
    /// Day `.1` has `.2` events of kind `.0`, more than the cap `.3`.
    ExcessEvents(EventKind, usize, usize, usize),
}

/// Event `e` is scheduled at two places of `g`.
pub open spec fn twice(g: Grid, e: Event) -> bool {
    exists|t: int, i: int, u: int, j: int|
        0 <= t < g.len() && 0 <= i < g[t].len() && 0 <= u < g.len() && 0 <= j < g[u].len() && (t
            != u || i != j) && (#[trigger] g[t][i]).0 == e && (#[trigger] g[u][j]).0 == e
}

/// Slot `s` holds event `e`.
pub open spec fn holds_event(s: Slot, e: Event) -> bool {
    exists|i: int| 0 <= i < s.len() && (#[trigger] s[i]).0 == e
}

/// Slot `s` holds room `r`.
pub open spec fn holds_room(s: Slot, r: Room) -> bool {
    exists|i: int| 0 <= i < s.len() && (#[trigger] s[i]).1 == r
}

/// Slot `s` holds event `e1` and, later, event `e2`, both in room `r`.
pub open spec fn holds_both_in(s: Slot, e1: Event, e2: Event, r: Room) -> bool {
    exists|i: int, j: int|
        0 <= i < j < s.len() && (#[trigger] s[i]) == (e1, r) && (#[trigger] s[j]) == (e2, r)
}

/// Slot `s` holds event `e1` and, later, event `e2`.
pub open spec fn holds_both(s: Slot, e1: Event, e2: Event) -> bool {
    exists|i: int, j: int|
        0 <= i < j < s.len() && (#[trigger] s[i]).0 == e1 && (#[trigger] s[j]).0 == e2
}

/// Some event of kind `kind` has the daily cap `cap`.
pub open spec fn cap_of_kind(p: &Project, kind: EventKind, cap: usize) -> bool {
    exists|e: Event|
        e.0 < p.events.spec_len() && #[trigger] p.events.spec_kind(e) == kind
            && p.events.spec_max_per_day(e) == cap
}

/// Position `(u, j)` comes before position `(t, i)`, slot by slot.
pub open spec fn earlier(u: int, j: int, t: int, i: int) -> bool {
    u < t || (u == t && j < i)
}

/// Number of `false` entries.
pub open spec fn unseen(s: Seq<bool>) -> nat
    decreases s.len(),
{
    if s.len() == 0 {
        0
    } else {
        unseen(s.drop_last()) + if s.last() {
            0nat
        } else {
            1nat
        }
    }
}

proof fn lemma_unseen_mark(s: Seq<bool>, i: int)
    requires
        0 <= i < s.len(),
        !s[i],
    ensures
        unseen(s.update(i, true)) + 1 == unseen(s),
    decreases s.len(),
{
    if i == s.len() - 1 {
        assert(s.update(i, true).drop_last() == s.drop_last());
    } else {
        lemma_unseen_mark(s.drop_last(), i);
        assert(s.update(i, true).drop_last() == s.drop_last().update(i, true));
    }
}

proof fn lemma_unseen_all(s: Seq<bool>)
    requires
        forall|i: int| 0 <= i < s.len() ==> !s[i],
    ensures
        unseen(s) == s.len(),
    decreases s.len(),
{
    if s.len() > 0 {
        lemma_unseen_all(s.drop_last());
    }
}

/// The first pair of one slot that shares a room, as positions.
fn find_room_conflict(slot: &Vec<(Event, Room)>) -> (found: Option<(usize, usize)>)
    ensures
        found is None <==> slot_rooms_unique(slot@),
        found matches Some((i, j)) ==> i < j < slot.len() && slot[i as int].1 == slot[j as int].1,
{
    let mut i: usize = 0;
    while i < slot.len()
        invariant
            i <= slot.len(),
            forall|a: int, b: int|
                0 <= a < i && a < b < slot.len() ==> (#[trigger] slot[a]).1 != (#[trigger] slot[b]).1,
        decreases slot.len() - i,
    {
        let mut j: usize = i + 1;
        while j < slot.len()
            invariant
                i < j <= slot.len(),
                forall|a: int, b: int|
                    0 <= a < i && a < b < slot.len() ==> (#[trigger] slot[a]).1 != (
                    #[trigger] slot[b]).1,
                forall|b: int| i < b < j ==> slot[i as int].1 != (#[trigger] slot[b]).1,
            decreases slot.len() - j,
        {
            if slot[i].1 == slot[j].1 {
                return Some((i, j));
            }
            j += 1;
        }
        i += 1;
    }
    None
}

/// The first pair of one slot that shares an attendee, as positions.
fn find_people_conflict(slot: &Vec<(Event, Room)>, project: &Project) -> (found: Option<
    (usize, usize),
>)
    requires
        project.wf(),
        forall|i: int| 0 <= i < slot.len() ==> (#[trigger] slot[i]).0.0 < project.events.spec_len(),
    ensures
        found is None <==> slot_people_unique(project, slot@),
        found matches Some((i, j)) ==> i < j < slot.len() && project.events.conflict(
            slot[i as int].0,
            slot[j as int].0,
        ),
{
    let mut i: usize = 0;
    while i < slot.len()
        invariant
            i <= slot.len(),
            project.wf(),
            forall|a: int| 0 <= a < slot.len() ==> (#[trigger] slot[a]).0.0 < project.events.spec_len(),
            forall|a: int, b: int|
                0 <= a < i && a < b < slot.len() ==> !project.events.conflict(
                    (#[trigger] slot[a]).0,
                    (#[trigger] slot[b]).0,
                ),
        decreases slot.len() - i,
    {
        let mut j: usize = i + 1;
        while j < slot.len()
            invariant
                i < j <= slot.len(),
                project.wf(),
                forall|a: int|
                    0 <= a < slot.len() ==> (#[trigger] slot[a]).0.0 < project.events.spec_len(),
                forall|a: int, b: int|
                    0 <= a < i && a < b < slot.len() ==> !project.events.conflict(
                        (#[trigger] slot[a]).0,
                        (#[trigger] slot[b]).0,
                    ),
                forall|b: int|
                    i < b < j ==> !project.events.conflict(slot[i as int].0, (#[trigger] slot[b]).0),
            decreases slot.len() - j,
        {
            if project.events.have_people_conflict(slot[i].0, slot[j].0) {
                return Some((i, j));
            }
            j += 1;
        }
        i += 1;
    }
    None
}


/// Every room of `g` is a room of the project.
pub open spec fn rooms_known(g: Grid, p: &Project) -> bool {
    forall|t: int, i: int|
        0 <= t < g.len() && 0 <= i < g[t].len() ==> (#[trigger] g[t][i]).1.0 < p.rooms.spec_len()
}

/// The first event, slot by slot, that the project does not have.
fn first_unknown_event(s: &Solution, project: &Project) -> (found: Option<(usize, Event)>)
    ensures
        found is None <==> events_known(s.grid(), project),
        found is Some ==> {
            let (t, e) = found.unwrap();
            &&& t < s.grid().len()
            &&& e.0 >= project.events.spec_len()
            &&& holds_event(s.grid()[t as int], e)
        },
{
    let ghost g = s.grid();
    let n = project.events.len();
    let slots = s.inner().len();
    let mut t: usize = 0;
    while t < slots
        invariant
            t <= slots,
            slots == g.len(),
            g == s.grid(),
            n == project.events.spec_len(),
            forall|u: int, j: int| 0 <= u < t && 0 <= j < g[u].len() ==> (#[trigger] g[u][j]).0.0 < n,
        decreases slots - t,
    {
        let slot = s.events_in_slot(t);
        let mut i: usize = 0;
        while i < slot.len()
            invariant
                i <= slot.len(),
                t < slots,
                slots == g.len(),
                g == s.grid(),
                n == project.events.spec_len(),
                slot@ == g[t as int],
                forall|j: int| 0 <= j < i ==> (#[trigger] g[t as int][j]).0.0 < n,
            decreases slot.len() - i,
        {
            if slot[i].0.0 >= n {
                assert(g[t as int][i as int].0 == slot[i as int].0);
                return Some((t, slot[i].0));
            }
            i += 1;
        }
        t += 1;
    }
    None
}

/// The first room, slot by slot, that the project does not have.
fn first_unknown_room(s: &Solution, project: &Project) -> (found: Option<(usize, Room)>)
    ensures
        found is None <==> rooms_known(s.grid(), project),
        found is Some ==> {
            let (t, r) = found.unwrap();
            &&& t < s.grid().len()
            &&& r.0 >= project.rooms.spec_len()
            &&& holds_room(s.grid()[t as int], r)
        },
{
    let ghost g = s.grid();
    let m = project.rooms.len();
    let slots = s.inner().len();
    let mut t: usize = 0;
    while t < slots
        invariant
            t <= slots,
            slots == g.len(),
            g == s.grid(),
            m == project.rooms.spec_len(),
            forall|u: int, j: int| 0 <= u < t && 0 <= j < g[u].len() ==> (#[trigger] g[u][j]).1.0 < m,
        decreases slots - t,
    {
        let slot = s.events_in_slot(t);
        let mut i: usize = 0;
        while i < slot.len()
            invariant
                i <= slot.len(),
                t < slots,
                slots == g.len(),
                g == s.grid(),
                m == project.rooms.spec_len(),
                slot@ == g[t as int],
                forall|j: int| 0 <= j < i ==> (#[trigger] g[t as int][j]).1.0 < m,
            decreases slot.len() - i,
        {
            if slot[i].1.0 >= m {
                assert(g[t as int][i as int].1 == slot[i as int].1);
                return Some((t, slot[i].1));
            }
            i += 1;
        }
        t += 1;
    }
    None
}

/// The first event that is scheduled twice or, where none is, the first that
/// is not scheduled.
#[verifier::loop_isolation(false)]
fn first_miscount(s: &Solution, project: &Project) -> (found: Option<Violation>)
    requires
        in_range(s.grid(), project),
    ensures
        found is None <==> no_event_twice(s.grid()) && all_scheduled(s.grid(), project),
        found is None ==> placed(s.grid(), 0, s.grid().len() as int) <= usize::MAX,
        found matches Some(v) ==> match v {
            Violation::MultipleEvent(e) => twice(s.grid(), e),
            Violation::MissingEvent(e) => no_event_twice(s.grid()) && e.0
                < project.events.spec_len() && !occurs(s.grid(), e),
            _ => false,
        },
{
    let ghost g = s.grid();
    let n = project.events.len();
    let slots = s.inner().len();
    let mut seen: Vec<bool> = Vec::new();
    let mut e: usize = 0;
    while e < n
        invariant
            e <= n,
            seen.len() == e,
            forall|x: int| 0 <= x < e ==> !seen[x],
        decreases n - e,
    {
        seen.push(false);
        e += 1;
    }
    proof {
        lemma_unseen_all(seen@);
    }
    let mut total: usize = 0;
    let mut t: usize = 0;
    while t < slots
        invariant
            t <= slots,
            seen.len() == n,
            total + unseen(seen@) == n,
            total == placed(g, 0, t as int),
            forall|x: int|
                0 <= x < n ==> (#[trigger] seen[x] <==> exists|u: int, j: int|
                    0 <= u < t && 0 <= j < g[u].len() && (#[trigger] g[u][j]).0 == Event(x as usize)),
            forall|u: int, j: int, v: int, k: int|
                0 <= u < t && 0 <= j < g[u].len() && 0 <= v < t && 0 <= k < g[v].len() && (
                #[trigger] g[u][j]).0 == (#[trigger] g[v][k]).0 ==> u == v && j == k,
        decreases slots - t,
    {
        let slot = s.events_in_slot(t);
        let mut i: usize = 0;
        while i < slot.len()
            invariant
                i <= slot.len(),
                t < slots,
                slot@ == g[t as int],
                seen.len() == n,
                total + unseen(seen@) == n,
                total == placed(g, 0, t as int) + i,
                forall|x: int|
                    0 <= x < n ==> (#[trigger] seen[x] <==> exists|u: int, j: int|
                        0 <= u <= t && 0 <= j < g[u].len() && earlier(u, j, t as int, i as int) && (
                        #[trigger] g[u][j]).0 == Event(x as usize)),
                forall|u: int, j: int, v: int, k: int|
                    0 <= u <= t && 0 <= j < g[u].len() && earlier(u, j, t as int, i as int) && 0
                        <= v <= t && 0 <= k < g[v].len() && earlier(v, k, t as int, i as int) && (
                    #[trigger] g[u][j]).0 == (#[trigger] g[v][k]).0 ==> u == v && j == k,
            decreases slot.len() - i,
        {
            let ev = slot[i].0;
            assert(g[t as int][i as int].0.0 < n);
            assert(Event(ev.0 as int as usize) == ev);
            if seen[ev.0] {
                proof {
                    let (u, j) = choose|u: int, j: int|
                        0 <= u <= t && 0 <= j < g[u].len() && earlier(u, j, t as int, i as int) && (
                        #[trigger] g[u][j]).0 == Event(ev.0 as int as usize);
                    assert(g[u][j].0 == ev && g[t as int][i as int].0 == ev);
                }
                return Some(Violation::MultipleEvent(ev));
            }
            proof {
                lemma_unseen_mark(seen@, ev.0 as int);
            }
            let ghost before = seen@;
            seen[ev.0] = true;
            total = total + 1;
            proof {
                assert forall|x: int| 0 <= x < n implies (#[trigger] seen[x] <==> exists|
                    u: int,
                    j: int,
                |
                    0 <= u <= t && 0 <= j < g[u].len() && earlier(u, j, t as int, i + 1) && (
                    #[trigger] g[u][j]).0 == Event(x as usize)) by {
                    if x == ev.0 {
                        assert(earlier(t as int, i as int, t as int, i + 1));
                        assert(g[t as int][i as int].0 == Event(x as usize));
                    } else {
                        if before[x] {
                            let (u, j) = choose|u: int, j: int|
                                0 <= u <= t && 0 <= j < g[u].len() && earlier(
                                    u,
                                    j,
                                    t as int,
                                    i as int,
                                ) && (#[trigger] g[u][j]).0 == Event(x as usize);
                            assert(earlier(u, j, t as int, i + 1));
                        }
                        if exists|u: int, j: int|
                            0 <= u <= t && 0 <= j < g[u].len() && earlier(u, j, t as int, i + 1)
                                && (#[trigger] g[u][j]).0 == Event(x as usize) {
                            let (u, j) = choose|u: int, j: int|
                                0 <= u <= t && 0 <= j < g[u].len() && earlier(
                                    u,
                                    j,
                                    t as int,
                                    i + 1,
                                ) && (#[trigger] g[u][j]).0 == Event(x as usize);
                            assert(earlier(u, j, t as int, i as int));
                        }
                    }
                }
                assert forall|u: int, j: int, v: int, k: int|
                    0 <= u <= t && 0 <= j < g[u].len() && earlier(u, j, t as int, i + 1) && 0 <= v
                        <= t && 0 <= k < g[v].len() && earlier(v, k, t as int, i + 1) && (
                    #[trigger] g[u][j]).0 == (#[trigger] g[v][k]).0 implies u == v && j == k by {
                    let here_a = u == t && j == i;
                    let here_b = v == t && k == i;
                    if here_a && !here_b {
                        assert(earlier(v, k, t as int, i as int));
                        assert(g[v][k].0 == Event(ev.0 as int as usize));
                        assert(before[ev.0 as int]);
                    }
                    if here_b && !here_a {
                        assert(earlier(u, j, t as int, i as int));
                        assert(g[u][j].0 == Event(ev.0 as int as usize));
                        assert(before[ev.0 as int]);
                    }
                }
            }
            i += 1;
        }
        proof {
            assert(placed(g, 0, t + 1) == placed(g, 0, t as int) + g[t as int].len());
            assert forall|x: int| 0 <= x < n implies (#[trigger] seen[x] <==> exists|
                u: int,
                j: int,
            |
                0 <= u < t + 1 && 0 <= j < g[u].len() && (#[trigger] g[u][j]).0 == Event(
                    x as usize,
                )) by {
                if seen[x] {
                    let (u, j) = choose|u: int, j: int|
                        0 <= u <= t && 0 <= j < g[u].len() && earlier(u, j, t as int, i as int) && (
                        #[trigger] g[u][j]).0 == Event(x as usize);
                    assert(0 <= u < t + 1);
                }
                if exists|u: int, j: int|
                    0 <= u < t + 1 && 0 <= j < g[u].len() && (#[trigger] g[u][j]).0 == Event(
                        x as usize,
                    ) {
                    let (u, j) = choose|u: int, j: int|
                        0 <= u < t + 1 && 0 <= j < g[u].len() && (#[trigger] g[u][j]).0 == Event(
                            x as usize,
                        );
                    assert(earlier(u, j, t as int, i as int));
                }
            }
            assert forall|u: int, j: int, v: int, k: int|
                0 <= u < t + 1 && 0 <= j < g[u].len() && 0 <= v < t + 1 && 0 <= k < g[v].len() && (
                #[trigger] g[u][j]).0 == (#[trigger] g[v][k]).0 implies u == v && j == k by {
                assert(earlier(u, j, t as int, i as int));
                assert(earlier(v, k, t as int, i as int));
            }
        }
        t += 1;
    }
    assert(no_event_twice(g));
    let mut e: usize = 0;
    while e < n
        invariant
            e <= n,
            forall|x: Event| x.0 < e ==> occurs(g, x),
        decreases n - e,
    {
        if !seen[e] {
            assert(!occurs(g, Event(e))) by {
                assert(Event(e as int as usize) == Event(e));
            }
            return Some(Violation::MissingEvent(Event(e)));
        }
        assert forall|x: Event| x.0 < e + 1 implies occurs(g, x) by {
            if x.0 == e {
                assert(seen[e as int]);
                assert(Event(e as int as usize) == x);
            }
        }
        e += 1;
    }
    None
}

/// The first two events, slot by slot, that are in one room at one time.
fn first_room_conflict(s: &Solution) -> (found: Option<(usize, Event, Event, Room)>)
    ensures
        found is None <==> rooms_unique(s.grid()),
        found is Some ==> {
            let (t, e1, e2, room) = found.unwrap();
            &&& t < s.grid().len()
            &&& holds_both_in(s.grid()[t as int], e1, e2, room)
        },
{
    let ghost g = s.grid();
    let slots = s.inner().len();
    let mut t: usize = 0;
    while t < slots
        invariant
            t <= slots,
            slots == g.len(),
            g == s.grid(),
            forall|u: int| 0 <= u < t ==> slot_rooms_unique(#[trigger] g[u]),
        decreases slots - t,
    {
        let slot = s.events_in_slot(t);
        match find_room_conflict(slot) {
            Some((i, j)) => {
                assert(!slot_rooms_unique(g[t as int]));
                let e1 = slot[i].0;
                let e2 = slot[j].0;
                let room = slot[i].1;
                assert(g[t as int][i as int] == (e1, room));
                assert(g[t as int][j as int] == (e2, room));
                assert(holds_both_in(s.grid()[t as int], e1, e2, room));
                return Some((t, e1, e2, room));
            },
            None => {},
        }
        t += 1;
    }
    None
}

/// The first event, slot by slot, whose room is not of the kind it needs.
fn first_wrong_kind(s: &Solution, project: &Project) -> (found: Option<(usize, Event, Room)>)
    requires
        project.wf(),
        in_range(s.grid(), project),
    ensures
        found is None <==> room_kinds_match(s.grid(), project),
        found is Some ==> {
            let (t, e, room) = found.unwrap();
            &&& t < s.grid().len()
            &&& project.rooms.spec_room_kind(room) != project.events.spec_room_kind(e)
            &&& s.grid()[t as int].contains((e, room))
        },
{
    let ghost g = s.grid();
    let slots = s.inner().len();
    let mut t: usize = 0;
    while t < slots
        invariant
            t <= slots,
            slots == g.len(),
            g == s.grid(),
            project.wf(),
            in_range(g, project),
            forall|u: int, j: int|
                0 <= u < t && 0 <= j < g[u].len() ==> project.rooms.spec_room_kind(
                    (#[trigger] g[u][j]).1,
                ) == project.events.spec_room_kind(g[u][j].0),
        decreases slots - t,
    {
        let slot = s.events_in_slot(t);
        let mut i: usize = 0;
        while i < slot.len()
            invariant
                i <= slot.len(),
                t < slots,
                slots == g.len(),
                g == s.grid(),
                slot@ == g[t as int],
                project.wf(),
                in_range(g, project),
                forall|j: int|
                    0 <= j < i ==> project.rooms.spec_room_kind((#[trigger] g[t as int][j]).1)
                        == project.events.spec_room_kind(g[t as int][j].0),
            decreases slot.len() - i,
        {
            let (ev, room) = slot[i];
            assert(g[t as int][i as int].0.0 < project.events.spec_len());
            if project.rooms.room_kind(&room) != project.events.room_kind(&ev) {
                assert(g[t as int][i as int] == (ev, room));
                return Some((t, ev, room));
            }
            i += 1;
        }
        t += 1;
    }
    None
}

/// The first two events, slot by slot, that share an attendee at one time.
fn first_people_conflict(s: &Solution, project: &Project) -> (found: Option<(usize, Event, Event)>)
    requires
        project.wf(),
        in_range(s.grid(), project),
    ensures
        found is None <==> people_unique(s.grid(), project),
        found is Some ==> {
            let (t, e1, e2) = found.unwrap();
            &&& t < s.grid().len()
            &&& project.events.conflict(e1, e2)
            &&& holds_both(s.grid()[t as int], e1, e2)
        },
{
    let ghost g = s.grid();
    let slots = s.inner().len();
    let mut t: usize = 0;
    while t < slots
        invariant
            t <= slots,
            slots == g.len(),
            g == s.grid(),
            project.wf(),
            in_range(g, project),
            forall|u: int| 0 <= u < t ==> slot_people_unique(project, #[trigger] g[u]),
        decreases slots - t,
    {
        let slot = s.events_in_slot(t);
        assert forall|i: int| 0 <= i < slot.len() implies (#[trigger] slot[i]).0.0
            < project.events.spec_len() by {
            assert(g[t as int][i].0.0 < project.events.spec_len());
        }
        match find_people_conflict(slot, project) {
            Some((i, j)) => {
                assert(!slot_people_unique(project, g[t as int]));
                let e1 = slot[i].0;
                let e2 = slot[j].0;
                assert(g[t as int][i as int].0 == e1 && g[t as int][j as int].0 == e2);
                assert(holds_both(s.grid()[t as int], e1, e2));
                return Some((t, e1, e2));
            },
            None => {},
        }
        t += 1;
    }
    None
}

/// The first event, and for it the first day, on which there are more events
/// of its kind than its cap allows.
fn first_excess(s: &Solution, project: &Project) -> (found: Option<
    (EventKind, usize, usize, usize),
>)
    requires
        project.wf(),
        s.counter_filled(project),
    ensures
        found is None <==> caps_respected(s.grid(), project),
        found matches Some((kind, day, count, cap)) ==> {
            &&& day < project.config.days
            &&& count == day_count(project, s.grid(), day as int, kind)
            &&& count > cap
            &&& cap_of_kind(project, kind, cap)
        },
{
    let ghost g = s.grid();
    let n = project.events.len();
    let days = project.config.days;
    let mut e: usize = 0;
    while e < n
        invariant
            e <= n,
            n == project.events.spec_len(),
            days == project.config.days,
            project.wf(),
            g == s.grid(),
            s.counter_filled(project),
            forall|x: Event, d: int|
                x.0 < e && 0 <= d < days ==> #[trigger] day_count(
                    project,
                    g,
                    d,
                    project.events.spec_kind(x),
                ) <= project.events.spec_max_per_day(x),
        decreases n - e,
    {
        let kind = project.events.kind(&Event(e));
        let cap = project.events.max_per_day(&Event(e));
        let mut d: usize = 0;
        while d < days
            invariant
                d <= days,
                e < n,
                n == project.events.spec_len(),
                days == project.config.days,
                g == s.grid(),
                s.counter_filled(project),
                kind == project.events.spec_kind(Event(e)),
                kind.0 < project.events.spec_kinds_len(),
                cap == project.events.spec_max_per_day(Event(e)),
                forall|c: int| 0 <= c < d ==> #[trigger] day_count(project, g, c, kind) <= cap,
            decreases days - d,
        {
            assert(s.counts()[d as int].len() == project.events.spec_kinds_len());
            let count = s.same_kind_events(d, kind);
            assert(count == day_count(project, g, d as int, kind)) by {
                assert(EventKind(kind.0 as int as usize) == kind);
                assert(s.counts()[d as int][kind.0 as int] == day_count(
                    project,
                    g,
                    d as int,
                    EventKind(kind.0 as int as usize),
                ));
            }
            if count > cap {
                assert(!caps_respected(g, project)) by {
                    assert(day_count(project, g, d as int, project.events.spec_kind(Event(e)))
                        > project.events.spec_max_per_day(Event(e)));
                }
                return Some((kind, d, count, cap));
            }
            d += 1;
        }
        assert forall|x: Event, c: int| x.0 < e + 1 && 0 <= c < days implies #[trigger] day_count(
            project,
            g,
            c,
            project.events.spec_kind(x),
        ) <= project.events.spec_max_per_day(x) by {
            if x.0 == e {
                assert(x == Event(e));
            }
        }
        e += 1;
    }
    None
}

/// What a violation reports: the constraint that fails, with the offenders,
/// and the constraints checked before it, which hold.
pub open spec fn reported(g: Grid, p: &Project, v: Violation) -> bool {
    match v {
        Violation::Shape => g.len() != p.config.num_slots,
        Violation::UnknownEvent(t, e) => {
            &&& g.len() == p.config.num_slots
            &&& t < g.len()
            &&& e.0 >= p.events.spec_len()
            &&& holds_event(g[t as int], e)
        },
        Violation::UnknownRoom(t, room) => {
            &&& g.len() == p.config.num_slots
            &&& events_known(g, p)
            &&& t < g.len()
            &&& room.0 >= p.rooms.spec_len()
            &&& holds_room(g[t as int], room)
        },
        Violation::MultipleEvent(e) => {
            &&& in_range(g, p)
            &&& twice(g, e)
        },
        Violation::MissingEvent(e) => {
            &&& in_range(g, p)
            &&& no_event_twice(g)
            &&& e.0 < p.events.spec_len()
            &&& !occurs(g, e)
        },
        Violation::RoomConflict(t, e1, e2, room) => {
            &&& in_range(g, p)
            &&& no_event_twice(g)
            &&& all_scheduled(g, p)
            &&& t < g.len()
            &&& holds_both_in(g[t as int], e1, e2, room)
        },
        Violation::WrongRoomKind(t, e, room) => {
            &&& in_range(g, p)
            &&& no_event_twice(g)
            &&& all_scheduled(g, p)
            &&& rooms_unique(g)
            &&& t < g.len()
            &&& p.rooms.spec_room_kind(room) != p.events.spec_room_kind(e)
            &&& g[t as int].contains((e, room))
        },
        Violation::PeopleConflict(t, e1, e2) => {
            &&& in_range(g, p)
            &&& no_event_twice(g)
            &&& all_scheduled(g, p)
            &&& rooms_unique(g)
            &&& room_kinds_match(g, p)
            &&& t < g.len()
            &&& p.events.conflict(e1, e2)
            &&& holds_both(g[t as int], e1, e2)
        },
        Violation::ExcessEvents(kind, day, count, cap) => {
            &&& in_range(g, p)
            &&& no_event_twice(g)
            &&& all_scheduled(g, p)
            &&& rooms_unique(g)
            &&& room_kinds_match(g, p)
            &&& people_unique(g, p)
            &&& day < p.config.days
            &&& count == day_count(p, g, day as int, kind)
            &&& count > cap
            &&& cap_of_kind(p, kind, cap)
        },
    }
}

/// Whether the timetable holds no more pairs than a machine word counts.
fn pairs_fit(s: &Solution) -> (fits: bool)
    ensures
        fits == (placed(s.grid(), 0, s.grid().len() as int) <= usize::MAX),
{
    let ghost g = s.grid();
    let slots = s.inner().len();
    let mut total: usize = 0;
    let mut t: usize = 0;
    while t < slots
        invariant
            t <= slots,
            slots == g.len(),
            g == s.grid(),
            total == placed(g, 0, t as int),
        decreases slots - t,
    {
        let n = s.events_in_slot(t).len();
        match total.checked_add(n) {
            Some(sum) => {
                total = sum;
            },
            None => {
                proof {
                    crate::grid::lemma_placed_monotone(g, 0, t + 1, 0, g.len() as int);
                }
                return false;
            },
        }
        t += 1;
    }
    true
}

impl Solution {
    /// Checks the hard constraints in a fixed order (shape, known events and
    /// rooms, no event twice, every event scheduled, room uniqueness,
    /// room-kind match, person uniqueness, daily caps) and reports the first
    /// that fails. The counts are brought up to date first, wherever the
    /// timetable covers the week, names known events and holds no more pairs
    /// than a machine word counts; a timetable that passes does.
    pub fn is_valid(&mut self, project: &Project) -> (r: Result<(), Violation>)
        requires
            project.wf(),
        ensures
            final(self).grid() == old(self).grid(),
            r is Ok <==> feasible(old(self).grid(), project),
            r is Ok ==> final(self).counter_filled(project),
            countable(old(self).grid(), project) ==> final(self).counter_filled(project),
            r matches Err(v) ==> reported(old(self).grid(), project, v),
    {
        let ghost g = self.grid();
        if self.inner().len() != project.config.num_slots {
            return Err(Violation::Shape);
        }
        assert(g.len() == project.config.num_slots);
        match first_unknown_event(self, project) {
            Some((t, e)) => {
                assert(t < g.len());
                assert(e.0 >= project.events.spec_len());
                assert(holds_event(g[t as int], e));
                assert(reported(g, project, Violation::UnknownEvent(t, e)));
                return Err(Violation::UnknownEvent(t, e));
            },
            None => {},
        }
        let fits = pairs_fit(self);
        if fits {
            self.fill_counter(project);
        }
        match first_unknown_room(self, project) {
            Some((t, room)) => {
                assert(holds_room(g[t as int], room));
                assert(reported(g, project, Violation::UnknownRoom(t, room)));
                return Err(Violation::UnknownRoom(t, room));
            },
            None => {},
        }
        assert(in_range(g, project));
        match first_miscount(self, project) {
            Some(v) => {
                assert(reported(g, project, v));
                return Err(v);
            },
            None => {},
        }
        match first_room_conflict(self) {
            Some((t, e1, e2, room)) => {
                assert(holds_both_in(g[t as int], e1, e2, room));
                assert(reported(g, project, Violation::RoomConflict(t, e1, e2, room)));
                return Err(Violation::RoomConflict(t, e1, e2, room));
            },
            None => {},
        }
        match first_wrong_kind(self, project) {
            Some((t, e, room)) => {
                assert(g[t as int].contains((e, room)));
                assert(reported(g, project, Violation::WrongRoomKind(t, e, room)));
                return Err(Violation::WrongRoomKind(t, e, room));
            },
            None => {},
        }
        match first_people_conflict(self, project) {
            Some((t, e1, e2)) => {
                assert(holds_both(g[t as int], e1, e2));
                assert(reported(g, project, Violation::PeopleConflict(t, e1, e2)));
                return Err(Violation::PeopleConflict(t, e1, e2));
            },
            None => {},
        }
        assert(fits);
        match first_excess(self, project) {
            Some((kind, day, count, cap)) => {
                assert(cap_of_kind(project, kind, cap));
                assert(reported(g, project, Violation::ExcessEvents(kind, day, count, cap)));
                return Err(Violation::ExcessEvents(kind, day, count, cap));
            },
            None => {},
        }
        Ok(())
    }
}


/// The decimal digits of `n`.
pub open spec fn decimal(n: nat) -> Seq<char>
    decreases n,
{
    if n < 10 {
        seq![('0' as int + n) as char]
    } else {
        decimal(n / 10).push(('0' as int + n % 10) as char)
    }
}

/// The text of a violation: the constraint and the offenders.
pub open spec fn message_text(v: Violation) -> Seq<char> {
    match v {
        Violation::Shape => "The timetable does not cover the week"@,
        Violation::UnknownEvent(t, e) => "Unknown event at "@ + decimal(t as nat) + ": Event("@
            + decimal(e.0 as nat) + ")"@,
        Violation::UnknownRoom(t, r) => "Unknown room at "@ + decimal(t as nat) + ": Room("@
            + decimal(r.0 as nat) + ")"@,
        Violation::MultipleEvent(e) => "Multiple event: Event("@ + decimal(e.0 as nat) + ")"@,
        Violation::MissingEvent(e) => "Some events missing: Event("@ + decimal(e.0 as nat) + ")"@,
        Violation::RoomConflict(t, e1, e2, r) => "Room conflict at "@ + decimal(t as nat)
            + ": Event("@ + decimal(e1.0 as nat) + ") Event("@ + decimal(e2.0 as nat)
            + ") for Room("@ + decimal(r.0 as nat) + ")"@,
        Violation::WrongRoomKind(t, e, r) => "Wrong kind of room at "@ + decimal(t as nat)
            + ": Event("@ + decimal(e.0 as nat) + ") in Room("@ + decimal(r.0 as nat) + ")"@,
        Violation::PeopleConflict(t, e1, e2) => "People conflict at "@ + decimal(t as nat)
            + ": Event("@ + decimal(e1.0 as nat) + ") Event("@ + decimal(e2.0 as nat) + ")"@,
        Violation::ExcessEvents(k, day, n, m) => "Excess num of EventKind("@ + decimal(
            k.0 as nat,
        ) + ") on day "@ + decimal(day as nat) + ": "@ + decimal(n as nat) + " > "@ + decimal(
            m as nat,
        ),
    }
}

/// Adds the characters of `s` to `v`.
fn push_text(v: &mut Vec<char>, s: &str)
    ensures
        final(v)@ == old(v)@ + s@,
{
    let ghost before = v@;
    let n = s.unicode_len();
    let mut i: usize = 0;
    while i < n
        invariant
            i <= n,
            n == s@.len(),
            v@ == before + s@.take(i as int),
        decreases n - i,
    {
        v.push(s.get_char(i));
        assert(v@ =~= before + s@.take(i + 1));
        i += 1;
    }
    assert(s@.take(n as int) =~= s@);
}

/// Adds the decimal digits of `n` to `v`.
fn push_number(v: &mut Vec<char>, n: usize)
    ensures
        final(v)@ == old(v)@ + decimal(n as nat),
{
    let ghost before = v@;
    let mut digits: Vec<char> = Vec::new();
    let mut m = n;
    // the digits from the last to the second
    while m >= 10
        invariant
            decimal(n as nat) == decimal(m as nat) + digits@.reverse(),
        decreases m,
    {
        let d = (m % 10) as u8;
        let c = (48u8 + d) as char;
        assert(c == ('0' as int + m % 10) as char);
        let ghost old_digits = digits@;
        digits.push(c);
        assert(digits@.reverse() =~= seq![c] + old_digits.reverse());
        assert(decimal(m as nat) == decimal((m / 10) as nat).push(c));
        assert(decimal((m / 10) as nat).push(c) + old_digits.reverse() =~= decimal(
            (m / 10) as nat,
        ) + (seq![c] + old_digits.reverse()));
        m = m / 10;
    }
    let first = (48u8 + m as u8) as char;
    assert(decimal(m as nat) =~= seq![first]);
    v.push(first);
    let ghost tail = digits@.reverse();
    let mut k: usize = digits.len();
    while k > 0
        invariant
            k <= digits.len(),
            tail == digits@.reverse(),
            v@ == before + seq![first] + tail.take(digits.len() - k),
        decreases k,
    {
        k -= 1;
        v.push(digits[k]);
        assert(tail[digits.len() - 1 - k] == digits[k as int]);
        assert(v@ =~= before + seq![first] + tail.take(digits.len() - k));
    }
    assert(tail.take(digits.len() as int) =~= tail);
    assert(v@ =~= before + (seq![first] + tail));
}

impl Violation {
    /// The text of the violation: the constraint and the offenders.
    pub fn message(&self) -> (text: String)
        ensures
            text@ == message_text(*self),
    {
        let mut v: Vec<char> = Vec::new();
        assert(v@ =~= Seq::<char>::empty());
        match *self {
            Violation::Shape => {
                push_text(&mut v, "The timetable does not cover the week");
            },
            Violation::UnknownEvent(t, e) => {
                push_text(&mut v, "Unknown event at ");
                push_number(&mut v, t);
                push_text(&mut v, ": Event(");
                push_number(&mut v, e.0);
                push_text(&mut v, ")");
            },
            Violation::UnknownRoom(t, r) => {
                push_text(&mut v, "Unknown room at ");
                push_number(&mut v, t);
                push_text(&mut v, ": Room(");
                push_number(&mut v, r.0);
                push_text(&mut v, ")");
            },
            Violation::MultipleEvent(e) => {
                push_text(&mut v, "Multiple event: Event(");
                push_number(&mut v, e.0);
                push_text(&mut v, ")");
            },
            Violation::MissingEvent(e) => {
                push_text(&mut v, "Some events missing: Event(");
                push_number(&mut v, e.0);
                push_text(&mut v, ")");
            },
            Violation::RoomConflict(t, e1, e2, r) => {
                push_text(&mut v, "Room conflict at ");
                push_number(&mut v, t);
                push_text(&mut v, ": Event(");
                push_number(&mut v, e1.0);
                push_text(&mut v, ") Event(");
                push_number(&mut v, e2.0);
                push_text(&mut v, ") for Room(");
                push_number(&mut v, r.0);
                push_text(&mut v, ")");
            },
            Violation::WrongRoomKind(t, e, r) => {
                push_text(&mut v, "Wrong kind of room at ");
                push_number(&mut v, t);
                push_text(&mut v, ": Event(");
                push_number(&mut v, e.0);
                push_text(&mut v, ") in Room(");
                push_number(&mut v, r.0);
                push_text(&mut v, ")");
            },
            Violation::PeopleConflict(t, e1, e2) => {
                push_text(&mut v, "People conflict at ");
                push_number(&mut v, t);
                push_text(&mut v, ": Event(");
                push_number(&mut v, e1.0);
                push_text(&mut v, ") Event(");
                push_number(&mut v, e2.0);
                push_text(&mut v, ")");
            },
            Violation::ExcessEvents(k, day, n, m) => {
                push_text(&mut v, "Excess num of EventKind(");
                push_number(&mut v, k.0);
                push_text(&mut v, ") on day ");
                push_number(&mut v, day);
                push_text(&mut v, ": ");
                push_number(&mut v, n);
                push_text(&mut v, " > ");
                push_number(&mut v, m);
            },
        }
        assert(v@ =~= message_text(*self));
        crate::project::table::text_of(&v)
    }
}

} // verus!
