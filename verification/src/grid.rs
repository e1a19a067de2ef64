//! The mathematical model of a timetable and the hard constraints on it.
//!
//! A grid has one slot per time slot of the week; a slot is the sequence of
//! `(event, room)` pairs scheduled at that time.

use crate::project::{Event, EventKind, Project, Room};
use vstd::prelude::*;

verus! {

/// What is scheduled at one time: `(event, room)` pairs.
pub type Slot = Seq<(Event, Room)>;

/// A timetable: one slot per time slot of the week.
pub type Grid = Seq<Slot>;

/// The grid that a vector of vectors stands for.
pub open spec fn grid_of(tm: Seq<Vec<(Event, Room)>>) -> Grid {
    Seq::new(tm.len(), |t: int| tm[t]@)
}

/// Event `e` is scheduled somewhere in `g`.
pub open spec fn occurs(g: Grid, e: Event) -> bool {
    exists|t: int, i: int| 0 <= t < g.len() && 0 <= i < g[t].len() && (#[trigger] g[t][i]).0 == e
}

/// Number of pairs in `s` whose event is `e`.
pub open spec fn count_event(s: Slot, e: Event) -> nat
    decreases s.len(),
{
    if s.len() == 0 {
        0
    } else {
        count_event(s.drop_last(), e) + if s.last().0 == e {
            1nat
        } else {
            0nat
        }
    }
}

/// Number of times that `e` is scheduled in the first `hi` slots of `g`.
pub open spec fn occurrences(g: Grid, e: Event, hi: int) -> nat
    decreases hi,
{
    if hi <= 0 {
        0
    } else {
        occurrences(g, e, hi - 1) + count_event(g[hi - 1], e)
    }
}

/// Number of pairs in the slots `lo..hi` of `g`.
pub open spec fn placed(g: Grid, lo: int, hi: int) -> nat
    decreases hi - lo,
{
    if hi <= lo {
        0
    } else {
        placed(g, lo, hi - 1) + g[hi - 1].len()
    }
}

/// Number of events of kind `k` in `s`.
pub open spec fn count_kind(p: &Project, s: Slot, k: EventKind) -> nat
    decreases s.len(),
{
    if s.len() == 0 {
        0
    } else {
        count_kind(p, s.drop_last(), k) + if p.events.spec_kind(s.last().0) == k {
            1nat
        } else {
            0nat
        }
    }
}

/// Number of events of kind `k` in the slots `lo..hi` of `g`.
pub open spec fn count_kind_slots(p: &Project, g: Grid, lo: int, hi: int, k: EventKind) -> nat
    decreases hi - lo,
{
    if hi <= lo {
        0
    } else {
        count_kind_slots(p, g, lo, hi - 1, k) + count_kind(p, g[hi - 1], k)
    }
}

/// Number of events of kind `k` that `g` schedules on day `d`.
pub open spec fn day_count(p: &Project, g: Grid, d: int, k: EventKind) -> nat {
    count_kind_slots(
        p,
        g,
        d * p.config.slots_per_day,
        d * p.config.slots_per_day + p.config.slots_per_day,
        k,
    )
}

/// Every event of `g` is an event of the project.
pub open spec fn events_known(g: Grid, p: &Project) -> bool {
    forall|t: int, i: int|
        0 <= t < g.len() && 0 <= i < g[t].len() ==> (#[trigger] g[t][i]).0.0 < p.events.spec_len()
}

/// The grid has one slot for each slot of the week, names events of the
/// project only, and holds no more pairs than a machine word counts.
pub open spec fn countable(g: Grid, p: &Project) -> bool {
    &&& g.len() == p.config.num_slots
    &&& events_known(g, p)
    &&& placed(g, 0, g.len() as int) <= usize::MAX
}

/// The grid covers the week and names known events and rooms only.
pub open spec fn in_range(g: Grid, p: &Project) -> bool {
    &&& g.len() == p.config.num_slots
    &&& forall|t: int, i: int|
        0 <= t < g.len() && 0 <= i < g[t].len() ==> (#[trigger] g[t][i]).0.0 < p.events.spec_len()
            && g[t][i].1.0 < p.rooms.spec_len()
}

/// No room is used twice at one time.
pub open spec fn slot_rooms_unique(s: Slot) -> bool {
    forall|i: int, j: int| 0 <= i < j < s.len() ==> (#[trigger] s[i]).1 != (#[trigger] s[j]).1
}

/// No two events at one time share an attendee.
pub open spec fn slot_people_unique(p: &Project, s: Slot) -> bool {
    forall|i: int, j: int|
        0 <= i < j < s.len() ==> !p.events.conflict((#[trigger] s[i]).0, (#[trigger] s[j]).0)
}

/// Room uniqueness: within a slot, every room appears at most once.
pub open spec fn rooms_unique(g: Grid) -> bool {
    forall|t: int| 0 <= t < g.len() ==> slot_rooms_unique(#[trigger] g[t])
}

/// Room-kind match: every event is in a room of the kind it needs.
pub open spec fn room_kinds_match(g: Grid, p: &Project) -> bool {
    forall|t: int, i: int|
        0 <= t < g.len() && 0 <= i < g[t].len() ==> p.rooms.spec_room_kind((#[trigger] g[t][i]).1)
            == p.events.spec_room_kind(g[t][i].0)
}

/// Person uniqueness: within a slot, no two events share an attendee.
pub open spec fn people_unique(g: Grid, p: &Project) -> bool {
    forall|t: int| 0 <= t < g.len() ==> slot_people_unique(p, #[trigger] g[t])
}

/// Daily cap: on no day are there more events of a kind than the cap of the
/// events of that kind allows.
pub open spec fn caps_respected(g: Grid, p: &Project) -> bool {
    forall|e: Event, d: int|
        e.0 < p.events.spec_len() && 0 <= d < p.config.days ==> #[trigger] day_count(
            p,
            g,
            d,
            p.events.spec_kind(e),
        ) <= p.events.spec_max_per_day(e)
}

/// No event is scheduled twice.
pub open spec fn no_event_twice(g: Grid) -> bool {
    forall|t: int, i: int, u: int, j: int|
        0 <= t < g.len() && 0 <= i < g[t].len() && 0 <= u < g.len() && 0 <= j < g[u].len() && (
        #[trigger] g[t][i]).0 == (#[trigger] g[u][j]).0 ==> t == u && i == j
}

/// Every event of the project is scheduled.
pub open spec fn all_scheduled(g: Grid, p: &Project) -> bool {
    forall|e: Event| e.0 < p.events.spec_len() ==> occurs(g, e)
}

/// Known events and rooms, none of the events twice, and the constraints
/// on rooms, kinds of room and people among those that are scheduled.
pub open spec fn orderly(g: Grid, p: &Project) -> bool {
    &&& in_range(g, p)
    &&& rooms_unique(g)
    &&& room_kinds_match(g, p)
    &&& people_unique(g, p)
    &&& no_event_twice(g)
}

/// What holds of every timetable under construction: an orderly timetable
/// that respects the daily caps.
pub open spec fn consistent(g: Grid, p: &Project) -> bool {
    orderly(g, p) && caps_respected(g, p)
}

/// Every daily cap allows one event at least.
pub open spec fn caps_positive(p: &Project) -> bool {
    forall|e: Event| e.0 < p.events.spec_len() ==> #[trigger] p.events.spec_max_per_day(e) > 0
}

/// The daily cap of `e`, taken as one where it is zero.
pub open spec fn lenient_cap(p: &Project, e: Event) -> int {
    if p.events.spec_max_per_day(e) == 0 {
        1
    } else {
        p.events.spec_max_per_day(e) as int
    }
}

/// The daily caps are respected, a cap of zero taken as one.
pub open spec fn caps_lenient(g: Grid, p: &Project) -> bool {
    forall|e: Event, d: int|
        e.0 < p.events.spec_len() && 0 <= d < p.config.days ==> #[trigger] day_count(
            p,
            g,
            d,
            p.events.spec_kind(e),
        ) <= lenient_cap(p, e)
}

/// An orderly timetable that schedules every event and respects the daily
/// caps, a cap of zero taken as one.
pub open spec fn feasible_leniently(g: Grid, p: &Project) -> bool {
    orderly(g, p) && caps_lenient(g, p) && all_scheduled(g, p)
}

/// Where every daily cap allows one event at least, nothing is lenient.
pub proof fn lemma_lenient(g: Grid, p: &Project)
    requires
        caps_positive(p),
    ensures
        caps_lenient(g, p) == caps_respected(g, p),
        feasible_leniently(g, p) == feasible(g, p),
{
    assert forall|e: Event| e.0 < p.events.spec_len() implies lenient_cap(p, e)
        == #[trigger] p.events.spec_max_per_day(e) by {}
    if caps_lenient(g, p) {
        assert forall|e: Event, d: int|
            e.0 < p.events.spec_len() && 0 <= d < p.config.days implies #[trigger] day_count(
            p,
            g,
            d,
            p.events.spec_kind(e),
        ) <= p.events.spec_max_per_day(e) by {
            assert(day_count(p, g, d, p.events.spec_kind(e)) <= lenient_cap(p, e));
        }
    }
    if caps_respected(g, p) {
        assert forall|e: Event, d: int|
            e.0 < p.events.spec_len() && 0 <= d < p.config.days implies #[trigger] day_count(
            p,
            g,
            d,
            p.events.spec_kind(e),
        ) <= lenient_cap(p, e) by {
            assert(day_count(p, g, d, p.events.spec_kind(e)) <= p.events.spec_max_per_day(e));
        }
    }
}

/// All hard constraints: a consistent timetable that schedules every event.
pub open spec fn feasible(g: Grid, p: &Project) -> bool {
    consistent(g, p) && all_scheduled(g, p)
}

/// Pair `(e, r)` cannot join slot `s`: its room is taken, or an event of the
/// slot shares an attendee with `e`.
pub open spec fn blocked(p: &Project, s: Slot, e: Event, r: Room) -> bool {
    exists|i: int| 0 <= i < s.len() && ((#[trigger] s[i]).1 == r || p.events.conflict(e, s[i].0))
}

/// `g` without the pair at position `i` of slot `t`.
pub open spec fn remove_at(g: Grid, t: int, i: int) -> Grid {
    g.update(t, g[t].remove(i))
}

/// `g` with the pair `x` added at the end of slot `t`.
pub open spec fn place(g: Grid, t: int, x: (Event, Room)) -> Grid {
    g.update(t, g[t].push(x))
}


/// Adding a pair to a slot adds one to the count of its event's kind.
pub proof fn lemma_count_kind_push(p: &Project, s: Slot, x: (Event, Room), k: EventKind)
    ensures
        count_kind(p, s.push(x), k) == count_kind(p, s, k) + if p.events.spec_kind(x.0) == k {
            1nat
        } else {
            0nat
        },
{
    assert(s.push(x).drop_last() == s);
    assert(s.push(x).last() == x);
}

/// Removing a pair from a slot takes one from the count of its event's kind.
pub proof fn lemma_count_kind_remove(p: &Project, s: Slot, i: int, k: EventKind)
    requires
        0 <= i < s.len(),
    ensures
        count_kind(p, s, k) == count_kind(p, s.remove(i), k) + if p.events.spec_kind(s[i].0)
            == k {
            1nat
        } else {
            0nat
        },
    decreases s.len(),
{
    if i == s.len() - 1 {
        assert(s.remove(i) == s.drop_last());
    } else {
        lemma_count_kind_remove(p, s.drop_last(), i, k);
        assert(s.remove(i).drop_last() == s.drop_last().remove(i));
        assert(s.remove(i).last() == s.last());
    }
}

/// No more events of a kind than pairs.
pub proof fn lemma_count_kind_bound(p: &Project, s: Slot, k: EventKind)
    ensures
        count_kind(p, s, k) <= s.len(),
    decreases s.len(),
{
    if s.len() > 0 {
        lemma_count_kind_bound(p, s.drop_last(), k);
    }
}

/// No more events of a kind in a range of slots than pairs.
pub proof fn lemma_count_slots_bound(p: &Project, g: Grid, lo: int, hi: int, k: EventKind)
    ensures
        count_kind_slots(p, g, lo, hi, k) <= placed(g, lo, hi),
    decreases hi - lo,
{
    if hi > lo {
        lemma_count_slots_bound(p, g, lo, hi - 1, k);
        lemma_count_kind_bound(p, g[hi - 1], k);
    }
}

/// A range of slots holds no more pairs than a range around it.
pub proof fn lemma_placed_monotone(g: Grid, lo: int, hi: int, lo2: int, hi2: int)
    requires
        lo2 <= lo,
        hi <= hi2,
    ensures
        placed(g, lo, hi) <= placed(g, lo2, hi2),
    decreases hi2 - lo2,
{
    if hi <= lo {
    } else if hi < hi2 {
        lemma_placed_monotone(g, lo, hi, lo2, hi2 - 1);
    } else if lo2 < lo {
        lemma_placed_split(g, lo2, lo, hi);
    }
}

/// The pairs of two adjoining ranges add up.
pub proof fn lemma_placed_split(g: Grid, lo: int, mid: int, hi: int)
    requires
        lo <= mid <= hi,
    ensures
        placed(g, lo, hi) == placed(g, lo, mid) + placed(g, mid, hi),
    decreases hi - mid,
{
    if mid < hi {
        lemma_placed_split(g, lo, mid, hi - 1);
    }
}

/// Replacing slot `t` changes the count of a range by the difference of the
/// two slots' counts if the range holds `t`, and not at all otherwise.
pub proof fn lemma_count_slots_update(
    p: &Project,
    g: Grid,
    lo: int,
    hi: int,
    t: int,
    s2: Slot,
    k: EventKind,
)
    requires
        0 <= lo,
        hi <= g.len(),
        0 <= t < g.len(),
    ensures
        count_kind_slots(p, g.update(t, s2), lo, hi, k) + (if lo <= t < hi {
            count_kind(p, g[t], k)
        } else {
            0nat
        }) == count_kind_slots(p, g, lo, hi, k) + (if lo <= t < hi {
            count_kind(p, s2, k)
        } else {
            0nat
        }),
    decreases hi - lo,
{
    if hi > lo {
        lemma_count_slots_update(p, g, lo, hi - 1, t, s2, k);
    }
}

/// Slot `t` lies in day `d` exactly if it lies in the day's range of slots.
pub proof fn lemma_day_range(spd: int, d: int, t: int)
    requires
        spd > 0,
        0 <= t,
    ensures
        (d * spd <= t < d * spd + spd) <==> t / spd == d,
{
    vstd::arithmetic::div_mod::lemma_fundamental_div_mod(t, spd);
    vstd::arithmetic::div_mod::lemma_mod_bound(t, spd);
    let q = t / spd;
    assert((d * spd <= t < d * spd + spd) ==> q == d) by (nonlinear_arith)
        requires
            spd > 0,
            t == spd * q + t % spd,
            0 <= t % spd < spd,
    ;
    assert(q == d ==> (d * spd <= t < d * spd + spd)) by (nonlinear_arith)
        requires
            spd > 0,
            t == spd * q + t % spd,
            0 <= t % spd < spd,
    ;
}

/// The slots of a day of the grid are slots of the grid.
pub proof fn lemma_day_within(spd: int, days: int, d: int)
    requires
        spd > 0,
        0 <= d < days,
    ensures
        0 <= d * spd,
        d * spd + spd <= spd * days,
{
    assert(0 <= d * spd && d * spd + spd <= spd * days) by (nonlinear_arith)
        requires
            spd > 0,
            0 <= d < days,
    ;
}

/// A slot of the grid lies in a day of the grid.
pub proof fn lemma_day_of_slot(spd: int, days: int, t: int)
    requires
        spd > 0,
        0 <= t < spd * days,
    ensures
        0 <= t / spd < days,
{
    vstd::arithmetic::div_mod::lemma_fundamental_div_mod(t, spd);
    vstd::arithmetic::div_mod::lemma_mod_bound(t, spd);
    let q = t / spd;
    assert(0 <= q < days) by (nonlinear_arith)
        requires
            spd > 0,
            0 <= t < spd * days,
            t == spd * q + t % spd,
            0 <= t % spd < spd,
    ;
}

/// Replacing slot `t` changes the count of day `d` by the difference of the
/// two slots' counts if `t` lies in `d`, and not at all otherwise.
pub proof fn lemma_day_count_update(p: &Project, g: Grid, d: int, t: int, s2: Slot, k: EventKind)
    requires
        p.config.wf(),
        g.len() == p.config.num_slots,
        0 <= d < p.config.days,
        0 <= t < g.len(),
    ensures
        day_count(p, g.update(t, s2), d, k) + (if p.config.day_of(t) == d {
            count_kind(p, g[t], k)
        } else {
            0nat
        }) == day_count(p, g, d, k) + (if p.config.day_of(t) == d {
            count_kind(p, s2, k)
        } else {
            0nat
        }),
{
    let spd = p.config.slots_per_day as int;
    lemma_day_within(spd, p.config.days as int, d);
    lemma_day_range(spd, d, t);
    lemma_count_slots_update(p, g, d * spd, d * spd + spd, t, s2, k);
}

/// Taking a pair out of a consistent timetable leaves it consistent; the
/// event is then scheduled nowhere, every other event as before, and the
/// counts of its day go down by one for its kind.
pub proof fn lemma_remove_at(g: Grid, p: &Project, t: int, i: int)
    requires
        p.wf(),
        consistent(g, p),
        0 <= t < g.len(),
        0 <= i < g[t].len(),
    ensures
        consistent(remove_at(g, t, i), p),
        !occurs(remove_at(g, t, i), g[t][i].0),
        forall|e: Event| e != g[t][i].0 ==> (occurs(remove_at(g, t, i), e) <==> occurs(g, e)),
        forall|d: int, k: EventKind|
            0 <= d < p.config.days ==> #[trigger] day_count(p, g, d, k) == day_count(
                p,
                remove_at(g, t, i),
                d,
                k,
            ) + if p.config.day_of(t) == d && p.events.spec_kind(g[t][i].0) == k {
                1nat
            } else {
                0nat
            },
{
    let h = remove_at(g, t, i);
    lemma_remove_at_orderly(g, p, t, i);
    assert(caps_respected(h, p)) by {
        assert forall|e: Event, d: int|
            e.0 < p.events.spec_len() && 0 <= d < p.config.days implies #[trigger] day_count(
            p,
            h,
            d,
            p.events.spec_kind(e),
        ) <= p.events.spec_max_per_day(e) by {
            assert(day_count(p, g, d, p.events.spec_kind(e)) <= p.events.spec_max_per_day(e));
        }
    }
}

/// Taking a pair out of an orderly timetable leaves it orderly; the event
/// is then scheduled nowhere, every other event as before, and the counts
/// of its day go down by one for its kind.
pub proof fn lemma_remove_at_orderly(g: Grid, p: &Project, t: int, i: int)
    requires
        p.wf(),
        orderly(g, p),
        0 <= t < g.len(),
        0 <= i < g[t].len(),
    ensures
        orderly(remove_at(g, t, i), p),
        !occurs(remove_at(g, t, i), g[t][i].0),
        forall|e: Event| e != g[t][i].0 ==> (occurs(remove_at(g, t, i), e) <==> occurs(g, e)),
        forall|d: int, k: EventKind|
            0 <= d < p.config.days ==> #[trigger] day_count(p, g, d, k) == day_count(
                p,
                remove_at(g, t, i),
                d,
                k,
            ) + if p.config.day_of(t) == d && p.events.spec_kind(g[t][i].0) == k {
                1nat
            } else {
                0nat
            },
{
    let h = remove_at(g, t, i);
    let x = g[t][i];
    assert forall|u: int, j: int| 0 <= u < h.len() && 0 <= j < h[u].len() implies exists|j0: int|
        0 <= j0 < g[u].len() && #[trigger] h[u][j] == g[u][j0] && (u == t ==> j0 != i) && (u == t
            ==> (j0 == j || j0 == j + 1) && (j < i ==> j0 == j) && (j >= i ==> j0 == j + 1)) && (u
            != t ==> j0 == j) by {
        if u == t {
            if j < i {
                assert(h[u][j] == g[u][j]);
            } else {
                assert(h[u][j] == g[u][j + 1]);
            }
        } else {
            assert(h[u][j] == g[u][j]);
        }
    }
    assert(in_range(h, p)) by {
        assert forall|u: int, j: int| 0 <= u < h.len() && 0 <= j < h[u].len() implies (
        #[trigger] h[u][j]).0.0 < p.events.spec_len() && h[u][j].1.0 < p.rooms.spec_len() by {
            let j0 = if u == t && j >= i {
                j + 1
            } else {
                j
            };
            assert(h[u][j] == g[u][j0]);
        }
    }
    assert(rooms_unique(h)) by {
        assert forall|u: int| 0 <= u < h.len() implies slot_rooms_unique(#[trigger] h[u]) by {
            assert(slot_rooms_unique(g[u]));
            if u == t {
                assert forall|a: int, b: int| 0 <= a < b < h[u].len() implies (#[trigger] h[u][a]).1
                    != (#[trigger] h[u][b]).1 by {
                    let a0 = if a >= i {
                        a + 1
                    } else {
                        a
                    };
                    let b0 = if b >= i {
                        b + 1
                    } else {
                        b
                    };
                    assert(h[u][a] == g[u][a0] && h[u][b] == g[u][b0]);
                }
            }
        }
    }
    assert(people_unique(h, p)) by {
        assert forall|u: int| 0 <= u < h.len() implies slot_people_unique(p, #[trigger] h[u]) by {
            assert(slot_people_unique(p, g[u]));
            if u == t {
                assert forall|a: int, b: int| 0 <= a < b < h[u].len() implies !p.events.conflict(
                    (#[trigger] h[u][a]).0,
                    (#[trigger] h[u][b]).0,
                ) by {
                    let a0 = if a >= i {
                        a + 1
                    } else {
                        a
                    };
                    let b0 = if b >= i {
                        b + 1
                    } else {
                        b
                    };
                    assert(h[u][a] == g[u][a0] && h[u][b] == g[u][b0]);
                }
            }
        }
    }
    assert(room_kinds_match(h, p)) by {
        assert forall|u: int, j: int|
            0 <= u < h.len() && 0 <= j < h[u].len() implies p.rooms.spec_room_kind(
            (#[trigger] h[u][j]).1,
        ) == p.events.spec_room_kind(h[u][j].0) by {
            let j0 = if u == t && j >= i {
                j + 1
            } else {
                j
            };
            assert(h[u][j] == g[u][j0]);
        }
    }
    assert(no_event_twice(h)) by {
        assert forall|u: int, a: int, v: int, b: int|
            0 <= u < h.len() && 0 <= a < h[u].len() && 0 <= v < h.len() && 0 <= b < h[v].len() && (
            #[trigger] h[u][a]).0 == (#[trigger] h[v][b]).0 implies u == v && a == b by {
            let a0 = if u == t && a >= i {
                a + 1
            } else {
                a
            };
            let b0 = if v == t && b >= i {
                b + 1
            } else {
                b
            };
            assert(h[u][a] == g[u][a0] && h[v][b] == g[v][b0]);
        }
    }
    assert(!occurs(h, x.0)) by {
        if occurs(h, x.0) {
            let (u, j) = choose|u: int, j: int|
                0 <= u < h.len() && 0 <= j < h[u].len() && (#[trigger] h[u][j]).0 == x.0;
            let j0 = if u == t && j >= i {
                j + 1
            } else {
                j
            };
            assert(h[u][j] == g[u][j0]);
            assert(g[u][j0].0 == g[t][i].0);
        }
    }
    assert forall|e: Event| e != x.0 implies (occurs(h, e) <==> occurs(g, e)) by {
        if occurs(h, e) {
            let (u, j) = choose|u: int, j: int|
                0 <= u < h.len() && 0 <= j < h[u].len() && (#[trigger] h[u][j]).0 == e;
            let j0 = if u == t && j >= i {
                j + 1
            } else {
                j
            };
            assert(h[u][j] == g[u][j0]);
            assert(g[u][j0].0 == e);
        }
        if occurs(g, e) {
            let (u, j0) = choose|u: int, j0: int|
                0 <= u < g.len() && 0 <= j0 < g[u].len() && (#[trigger] g[u][j0]).0 == e;
            let j = if u == t && j0 > i {
                j0 - 1
            } else {
                j0
            };
            assert(h[u][j] == g[u][j0]);
            assert(h[u][j].0 == e);
        }
    }
    assert forall|d: int, k: EventKind| 0 <= d < p.config.days implies #[trigger] day_count(
        p,
        g,
        d,
        k,
    ) == day_count(p, h, d, k) + if p.config.day_of(t) == d && p.events.spec_kind(x.0) == k {
        1nat
    } else {
        0nat
    } by {
        lemma_day_count_update(p, g, d, t, g[t].remove(i), k);
        lemma_count_kind_remove(p, g[t], i, k);
    }
}

/// A slot in the opposite order holds as many events of a kind.
pub proof fn lemma_count_kind_reverse(p: &Project, s: Slot, k: EventKind)
    ensures
        count_kind(p, s.reverse(), k) == count_kind(p, s, k),
    decreases s.len(),
{
    if s.len() > 0 {
        let init = s.drop_last();
        let r = s.reverse();
        lemma_count_kind_reverse(p, init, k);
        lemma_count_kind_remove(p, r, 0, k);
        assert(r.remove(0) =~= init.reverse());
        assert(r[0] == s.last());
    }
}

/// `g` with slot `t` in the opposite order.
pub open spec fn turned(g: Grid, t: int) -> Grid {
    g.update(t, g[t].reverse())
}

/// Turning a slot round leaves an orderly timetable orderly, and changes
/// neither which events are scheduled nor the counts of any day.
pub proof fn lemma_turned(g: Grid, p: &Project, t: int)
    requires
        p.wf(),
        orderly(g, p),
        0 <= t < g.len(),
    ensures
        orderly(turned(g, t), p),
        forall|e: Event| occurs(turned(g, t), e) <==> occurs(g, e),
        forall|d: int, k: EventKind|
            0 <= d < p.config.days ==> #[trigger] day_count(p, turned(g, t), d, k) == day_count(
                p,
                g,
                d,
                k,
            ),
{
    let h = turned(g, t);
    let n = g[t].len() as int;
    assert forall|u: int, j: int| 0 <= u < h.len() && 0 <= j < h[u].len() implies #[trigger] h[u][j]
        == g[u][if u == t {
        n - 1 - j
    } else {
        j
    }] by {}
    assert(in_range(h, p)) by {
        assert forall|u: int, j: int| 0 <= u < h.len() && 0 <= j < h[u].len() implies (
        #[trigger] h[u][j]).0.0 < p.events.spec_len() && h[u][j].1.0 < p.rooms.spec_len() by {
            let j0 = if u == t {
                n - 1 - j
            } else {
                j
            };
            assert(h[u][j] == g[u][j0]);
        }
    }
    assert(room_kinds_match(h, p)) by {
        assert forall|u: int, j: int|
            0 <= u < h.len() && 0 <= j < h[u].len() implies p.rooms.spec_room_kind(
            (#[trigger] h[u][j]).1,
        ) == p.events.spec_room_kind(h[u][j].0) by {
            let j0 = if u == t {
                n - 1 - j
            } else {
                j
            };
            assert(h[u][j] == g[u][j0]);
        }
    }
    assert(rooms_unique(h)) by {
        assert forall|u: int| 0 <= u < h.len() implies slot_rooms_unique(#[trigger] h[u]) by {
            assert(slot_rooms_unique(g[u]));
            if u == t {
                assert forall|a: int, b: int| 0 <= a < b < h[u].len() implies (#[trigger] h[u][a]).1
                    != (#[trigger] h[u][b]).1 by {
                    assert(h[u][a] == g[u][n - 1 - a] && h[u][b] == g[u][n - 1 - b]);
                    assert(g[u][n - 1 - b].1 != g[u][n - 1 - a].1);
                }
            }
        }
    }
    assert(people_unique(h, p)) by {
        assert forall|u: int| 0 <= u < h.len() implies slot_people_unique(p, #[trigger] h[u]) by {
            assert(slot_people_unique(p, g[u]));
            if u == t {
                assert forall|a: int, b: int| 0 <= a < b < h[u].len() implies !p.events.conflict(
                    (#[trigger] h[u][a]).0,
                    (#[trigger] h[u][b]).0,
                ) by {
                    assert(h[u][a] == g[u][n - 1 - a] && h[u][b] == g[u][n - 1 - b]);
                    assert(!p.events.conflict(g[u][n - 1 - b].0, g[u][n - 1 - a].0));
                    p.events.lemma_conflict_symmetric(g[u][n - 1 - b].0, g[u][n - 1 - a].0);
                }
            }
        }
    }
    assert(no_event_twice(h)) by {
        assert forall|u: int, a: int, v: int, b: int|
            0 <= u < h.len() && 0 <= a < h[u].len() && 0 <= v < h.len() && 0 <= b < h[v].len() && (
            #[trigger] h[u][a]).0 == (#[trigger] h[v][b]).0 implies u == v && a == b by {
            let a0 = if u == t {
                n - 1 - a
            } else {
                a
            };
            let b0 = if v == t {
                n - 1 - b
            } else {
                b
            };
            assert(h[u][a] == g[u][a0] && h[v][b] == g[v][b0]);
        }
    }
    assert forall|e: Event| occurs(h, e) <==> occurs(g, e) by {
        if occurs(h, e) {
            let (u, j) = choose|u: int, j: int|
                0 <= u < h.len() && 0 <= j < h[u].len() && (#[trigger] h[u][j]).0 == e;
            let j0 = if u == t {
                n - 1 - j
            } else {
                j
            };
            assert(h[u][j] == g[u][j0]);
            assert(g[u][j0].0 == e);
        }
        if occurs(g, e) {
            let (u, j0) = choose|u: int, j0: int|
                0 <= u < g.len() && 0 <= j0 < g[u].len() && (#[trigger] g[u][j0]).0 == e;
            let j = if u == t {
                n - 1 - j0
            } else {
                j0
            };
            assert(h[u][j] == g[u][j0]);
            assert(h[u][j].0 == e);
        }
    }
    assert forall|d: int, k: EventKind| 0 <= d < p.config.days implies #[trigger] day_count(
        p,
        h,
        d,
        k,
    ) == day_count(p, g, d, k) by {
        lemma_day_count_update(p, g, d, t, g[t].reverse(), k);
        lemma_count_kind_reverse(p, g[t], k);
    }
}

/// Adding a pair to a consistent timetable leaves it consistent if the
/// event is known and not yet scheduled, the room is known and of the kind
/// the event needs, the slot does not block the pair, and the day has room
/// for one more event of the kind. The event is then scheduled, every other
/// event as before, and the counts of the day go up by one for its kind.
pub proof fn lemma_place(g: Grid, p: &Project, t: int, x: (Event, Room))
    requires
        p.wf(),
        consistent(g, p),
        0 <= t < g.len(),
        x.0.0 < p.events.spec_len(),
        x.1.0 < p.rooms.spec_len(),
        !occurs(g, x.0),
        p.rooms.spec_room_kind(x.1) == p.events.spec_room_kind(x.0),
        !blocked(p, g[t], x.0, x.1),
        day_count(p, g, p.config.day_of(t), p.events.spec_kind(x.0)) < p.events.spec_max_per_day(
            x.0,
        ),
    ensures
        consistent(place(g, t, x), p),
        forall|e: Event| occurs(place(g, t, x), e) <==> occurs(g, e) || e == x.0,
        forall|d: int, k: EventKind|
            0 <= d < p.config.days ==> #[trigger] day_count(p, place(g, t, x), d, k) == day_count(
                p,
                g,
                d,
                k,
            ) + if p.config.day_of(t) == d && p.events.spec_kind(x.0) == k {
                1nat
            } else {
                0nat
            },
{
    let h = place(g, t, x);
    lemma_place_orderly(g, p, t, x);
    assert(caps_respected(h, p)) by {
        p.events.lemma_wf();
        assert forall|e: Event, d: int|
            e.0 < p.events.spec_len() && 0 <= d < p.config.days implies #[trigger] day_count(
            p,
            h,
            d,
            p.events.spec_kind(e),
        ) <= p.events.spec_max_per_day(e) by {
            assert(day_count(p, g, d, p.events.spec_kind(e)) <= p.events.spec_max_per_day(e));
        }
    }
}

/// Adding a pair to an orderly timetable leaves it orderly if the event is
/// known and not yet scheduled, the room is known and of the kind the
/// event needs, and the slot does not block the pair. The event is then
/// scheduled, every other event as before, and the counts of the day go up
/// by one for its kind.
pub proof fn lemma_place_orderly(g: Grid, p: &Project, t: int, x: (Event, Room))
    requires
        p.wf(),
        orderly(g, p),
        0 <= t < g.len(),
        x.0.0 < p.events.spec_len(),
        x.1.0 < p.rooms.spec_len(),
        !occurs(g, x.0),
        p.rooms.spec_room_kind(x.1) == p.events.spec_room_kind(x.0),
        !blocked(p, g[t], x.0, x.1),
    ensures
        orderly(place(g, t, x), p),
        forall|e: Event| occurs(place(g, t, x), e) <==> occurs(g, e) || e == x.0,
        forall|d: int, k: EventKind|
            0 <= d < p.config.days ==> #[trigger] day_count(p, place(g, t, x), d, k) == day_count(
                p,
                g,
                d,
                k,
            ) + if p.config.day_of(t) == d && p.events.spec_kind(x.0) == k {
                1nat
            } else {
                0nat
            },
{
    let h = place(g, t, x);
    let last = g[t].len() as int;
    assert(h[t][last] == x);
    assert forall|u: int, j: int|
        0 <= u < h.len() && 0 <= j < h[u].len() && !(u == t && j == last) implies #[trigger] h[u][j]
        == g[u][j] by {}
    assert(in_range(h, p)) by {
        assert forall|u: int, j: int| 0 <= u < h.len() && 0 <= j < h[u].len() implies (
        #[trigger] h[u][j]).0.0 < p.events.spec_len() && h[u][j].1.0 < p.rooms.spec_len() by {
            if !(u == t && j == last) {
                assert(h[u][j] == g[u][j]);
            }
        }
    }
    assert(room_kinds_match(h, p)) by {
        assert forall|u: int, j: int|
            0 <= u < h.len() && 0 <= j < h[u].len() implies p.rooms.spec_room_kind(
            (#[trigger] h[u][j]).1,
        ) == p.events.spec_room_kind(h[u][j].0) by {
            if !(u == t && j == last) {
                assert(h[u][j] == g[u][j]);
            }
        }
    }
    assert(rooms_unique(h)) by {
        assert forall|u: int| 0 <= u < h.len() implies slot_rooms_unique(#[trigger] h[u]) by {
            assert(slot_rooms_unique(g[u]));
            if u == t {
                assert forall|a: int, b: int| 0 <= a < b < h[u].len() implies (#[trigger] h[u][a]).1
                    != (#[trigger] h[u][b]).1 by {
                    assert(h[u][a] == g[u][a]);
                    if b == last {
                        assert(g[t][a].1 != x.1);
                    } else {
                        assert(h[u][b] == g[u][b]);
                    }
                }
            }
        }
    }
    assert(people_unique(h, p)) by {
        assert forall|u: int| 0 <= u < h.len() implies slot_people_unique(p, #[trigger] h[u]) by {
            assert(slot_people_unique(p, g[u]));
            if u == t {
                assert forall|a: int, b: int| 0 <= a < b < h[u].len() implies !p.events.conflict(
                    (#[trigger] h[u][a]).0,
                    (#[trigger] h[u][b]).0,
                ) by {
                    assert(h[u][a] == g[u][a]);
                    if b == last {
                        assert(!p.events.conflict(x.0, g[t][a].0));
                        p.events.lemma_conflict_symmetric(x.0, g[t][a].0);
                    } else {
                        assert(h[u][b] == g[u][b]);
                    }
                }
            }
        }
    }
    assert(no_event_twice(h)) by {
        assert forall|u: int, a: int, v: int, b: int|
            0 <= u < h.len() && 0 <= a < h[u].len() && 0 <= v < h.len() && 0 <= b < h[v].len() && (
            #[trigger] h[u][a]).0 == (#[trigger] h[v][b]).0 implies u == v && a == b by {
            if u == t && a == last {
                if !(v == t && b == last) {
                    assert(h[v][b] == g[v][b]);
                    assert(g[v][b].0 == x.0);
                }
            } else {
                assert(h[u][a] == g[u][a]);
                if v == t && b == last {
                    assert(g[u][a].0 == x.0);
                } else {
                    assert(h[v][b] == g[v][b]);
                }
            }
        }
    }
    assert forall|e: Event| occurs(h, e) <==> occurs(g, e) || e == x.0 by {
        if occurs(h, e) && e != x.0 {
            let (u, j) = choose|u: int, j: int|
                0 <= u < h.len() && 0 <= j < h[u].len() && (#[trigger] h[u][j]).0 == e;
            assert(h[u][j] == g[u][j]);
            assert(g[u][j].0 == e);
        }
        if occurs(g, e) {
            let (u, j) = choose|u: int, j: int|
                0 <= u < g.len() && 0 <= j < g[u].len() && (#[trigger] g[u][j]).0 == e;
            assert(h[u][j] == g[u][j]);
            assert(h[u][j].0 == e);
        }
        if e == x.0 {
            assert(h[t][last].0 == e);
        }
    }
    assert forall|d: int, k: EventKind| 0 <= d < p.config.days implies #[trigger] day_count(
        p,
        h,
        d,
        k,
    ) == day_count(p, g, d, k) + if p.config.day_of(t) == d && p.events.spec_kind(x.0) == k {
        1nat
    } else {
        0nat
    } by {
        lemma_day_count_update(p, g, d, t, g[t].push(x), k);
        lemma_count_kind_push(p, g[t], x, k);
    }
}

} // verus!
