//! Greedy room: for one person, one kind of room and one day, the slots in
//! which the person is in such a room exchange what they hold, so that the
//! person's walk through the rooms gets shorter.

use crate::grid::{all_scheduled, caps_respected, day_count, feasible, in_range, lemma_day_count_update, lemma_day_range, lemma_day_within, no_event_twice, occurs, people_unique, room_kinds_match, rooms_unique, slot_people_unique, slot_rooms_unique, Grid};
use crate::neighborhoods::all_feasible;
use crate::project::{Event, Person, Project, Room, RoomKind};
use crate::solution::Solution;
use crate::tsp::{solve, stops_known};
use crate::utils::lemma_same_items;
use vstd::prelude::*;

verus! {

/// `g` with what slot `a` holds and what slot `b` holds exchanged.
pub open spec fn swap_slots(g: Grid, a: int, b: int) -> Grid {
    g.update(a, g[b]).update(b, g[a])
}

/// `h` is `g` with the slots of day `d` rearranged: outside the day the two
/// agree, and every slot of the day holds in `h` what some slot of the day
/// holds in `g`.
pub open spec fn same_day_slots(g: Grid, p: &Project, h: Grid, d: int) -> bool {
    &&& h.len() == g.len()
    &&& forall|t: int|
        0 <= t < g.len() && p.config.day_of(t) != d ==> #[trigger] h[t] == g[t]
    &&& forall|t: int|
        0 <= t < g.len() && p.config.day_of(t) == d ==> from_day(g, p, d, #[trigger] h[t])
}

/// Some slot of day `d` holds `s` in `g`.
pub open spec fn from_day(g: Grid, p: &Project, d: int, s: crate::grid::Slot) -> bool {
    exists|u: int| 0 <= u < g.len() && p.config.day_of(u) == d && #[trigger] g[u] == s
}

/// `h` is `g` with the slots of one day rearranged.
pub open spec fn is_rearrangement(g: Grid, p: &Project, h: Grid) -> bool {
    exists|d: int| 0 <= d < p.config.days && #[trigger] same_day_slots(g, p, h, d)
}

/// `h` is `g` after a greedy-room move along the stops `to`: the slots of
/// the stops, all of day `d`, have taken what the slots of `from` held,
/// where `from` has the stops of `to` in an order whose closed walking tour
/// is no longer.
pub open spec fn greedy_move(
    g: Grid,
    p: &Project,
    h: Grid,
    d: int,
    to: Seq<(usize, Room)>,
    from: Seq<(usize, Room)>,
) -> bool {
    &&& 0 <= d < p.config.days
    &&& stops_of_day(p, to, d, g.len() as int)
    &&& from.to_multiset() == to.to_multiset()
    &&& crate::tsp::tour_length(p, from) <= crate::tsp::tour_length(p, to)
    &&& rearranged(g, h, to, from)
    &&& same_day_slots(g, p, h, d)
}


/// Exchanging what two slots of one day hold keeps a feasible timetable
/// feasible.
pub proof fn lemma_swap_slots(g: Grid, p: &Project, a: int, b: int)
    requires
        p.wf(),
        feasible(g, p),
        0 <= a < g.len(),
        0 <= b < g.len(),
        p.config.day_of(a) == p.config.day_of(b),
    ensures
        feasible(swap_slots(g, a, b), p),
{
    let h = swap_slots(g, a, b);
    let src = |t: int|
        if t == a {
            b
        } else if t == b {
            a
        } else {
            t
        };
    assert forall|t: int| 0 <= t < h.len() implies #[trigger] h[t] == g[src(t)] by {}
    assert(in_range(h, p)) by {
        assert forall|t: int, i: int| 0 <= t < h.len() && 0 <= i < h[t].len() implies (
        #[trigger] h[t][i]).0.0 < p.events.spec_len() && h[t][i].1.0 < p.rooms.spec_len() by {
            assert(h[t][i] == g[src(t)][i]);
        }
    }
    assert(rooms_unique(h)) by {
        assert forall|t: int| 0 <= t < h.len() implies slot_rooms_unique(#[trigger] h[t]) by {
            assert(slot_rooms_unique(g[src(t)]));
        }
    }
    assert(people_unique(h, p)) by {
        assert forall|t: int| 0 <= t < h.len() implies slot_people_unique(p, #[trigger] h[t]) by {
            assert(slot_people_unique(p, g[src(t)]));
        }
    }
    assert(room_kinds_match(h, p)) by {
        assert forall|t: int, i: int|
            0 <= t < h.len() && 0 <= i < h[t].len() implies p.rooms.spec_room_kind(
            (#[trigger] h[t][i]).1,
        ) == p.events.spec_room_kind(h[t][i].0) by {
            assert(h[t][i] == g[src(t)][i]);
        }
    }
    assert(no_event_twice(h)) by {
        assert forall|t: int, i: int, u: int, j: int|
            0 <= t < h.len() && 0 <= i < h[t].len() && 0 <= u < h.len() && 0 <= j < h[u].len() && (
            #[trigger] h[t][i]).0 == (#[trigger] h[u][j]).0 implies t == u && i == j by {
            assert(h[t][i] == g[src(t)][i]);
            assert(h[u][j] == g[src(u)][j]);
        }
    }
    assert(all_scheduled(h, p)) by {
        assert forall|e: Event| e.0 < p.events.spec_len() implies occurs(h, e) by {
            assert(occurs(g, e));
            let (t, i) = choose|t: int, i: int|
                0 <= t < g.len() && 0 <= i < g[t].len() && (#[trigger] g[t][i]).0 == e;
            assert(h[src(t)][i] == g[t][i]);
            assert(h[src(t)][i].0 == e);
        }
    }
    assert(caps_respected(h, p)) by {
        assert forall|e: Event, d: int|
            e.0 < p.events.spec_len() && 0 <= d < p.config.days implies #[trigger] day_count(
            p,
            h,
            d,
            p.events.spec_kind(e),
        ) <= p.events.spec_max_per_day(e) by {
            let k = p.events.spec_kind(e);
            let g1 = g.update(a, g[b]);
            lemma_day_count_update(p, g, d, a, g[b], k);
            lemma_day_count_update(p, g1, d, b, g[a], k);
            assert(g1[b] == g[b] || a == b);
            assert(day_count(p, h, d, k) == day_count(p, g, d, k));
        }
    }
}

/// A rearrangement of the slots of a day, made of another one.
proof fn lemma_swap_keeps_day(g: Grid, p: &Project, h: Grid, d: int, a: int, b: int)
    requires
        same_day_slots(g, p, h, d),
        0 <= a < g.len(),
        0 <= b < g.len(),
        p.config.day_of(a) == d,
        p.config.day_of(b) == d,
    ensures
        same_day_slots(g, p, swap_slots(h, a, b), d),
{
    let h2 = swap_slots(h, a, b);
    assert forall|t: int| 0 <= t < g.len() && p.config.day_of(t) == d implies from_day(
        g,
        p,
        d,
        #[trigger] h2[t],
    ) by {
        if t == b {
            assert(from_day(g, p, d, h[a]));
        } else if t == a {
            assert(from_day(g, p, d, h[b]));
        } else {
            assert(from_day(g, p, d, h[t]));
        }
    }
}

/// The slots named in `to` take what the slots named in `from` held, stop
/// by stop; no other slot changes.
pub open spec fn rearranged(g: Grid, h: Grid, to: Seq<(usize, Room)>, from: Seq<(usize, Room)>) -> bool {
    &&& h.len() == g.len()
    &&& forall|k: int| 0 <= k < to.len() ==> h[(#[trigger] to[k]).0 as int] == g[from[k].0 as int]
    &&& forall|t: int|
        0 <= t < g.len() && (forall|k: int| 0 <= k < to.len() ==> (#[trigger] to[k]).0 != t)
            ==> #[trigger] h[t] == g[t]
}

/// The stops of `to` are slots of day `d`, in ascending order.
pub open spec fn stops_of_day(p: &Project, to: Seq<(usize, Room)>, d: int, slots: int) -> bool {
    &&& forall|k: int|
        0 <= k < to.len() ==> (#[trigger] to[k]).0 < slots && p.config.day_of(to[k].0 as int) == d
    &&& forall|k: int, l: int| 0 <= k < l < to.len() ==> (#[trigger] to[k]).0 < (#[trigger] to[l]).0
}

/// Some stop of `to` is at slot `t`.
pub open spec fn at_stop(to: Seq<(usize, Room)>, t: int) -> bool {
    exists|q: int| 0 <= q < to.len() && (#[trigger] to[q]).0 == t
}

/// While the slots are rearranged, `src` names for every stop of `to` the
/// slot of `g` whose pairs the stop's slot holds in `h`; every stop's slot is
/// named once; and the other slots hold what they held.
#[verifier::opaque]
pub open spec fn tracks(g: Grid, h: Grid, to: Seq<(usize, Room)>, src: Seq<usize>) -> bool {
    &&& src.len() == to.len()
    &&& h.len() == g.len()
    &&& forall|q: int| 0 <= q < to.len() ==> src.contains((#[trigger] to[q]).0)
    &&& forall|i: int| 0 <= i < src.len() ==> at_stop(to, #[trigger] src[i] as int)
    &&& forall|i: int| 0 <= i < to.len() ==> h[(#[trigger] to[i]).0 as int] == g[src[i] as int]
    &&& forall|t: int| 0 <= t < g.len() && !at_stop(to, t) ==> #[trigger] h[t] == g[t]
}

/// An exchange between the slots of two stops keeps the record right.
proof fn lemma_tracks_swap(
    g: Grid,
    h: Grid,
    p: &Project,
    to: Seq<(usize, Room)>,
    src: Seq<usize>,
    d: int,
    k: int,
    j: int,
)
    requires
        tracks(g, h, to, src),
        stops_of_day(p, to, d, g.len() as int),
        0 <= k < j < to.len(),
    ensures
        tracks(
            g,
            swap_slots(h, to[k].0 as int, to[j].0 as int),
            to,
            src.update(k, src[j]).update(j, src[k]),
        ),
{
    reveal(tracks);
    let a = to[k].0 as int;
    let b = to[j].0 as int;
    let h2 = swap_slots(h, a, b);
    let src2 = src.update(k, src[j]).update(j, src[k]);
    assert(to[k].0 < to[j].0);
    assert forall|q: int| 0 <= q < to.len() implies src2.contains((#[trigger] to[q]).0) by {
        assert(src.contains(to[q].0));
        let w = choose|w: int| 0 <= w < src.len() && src[w] == to[q].0;
        if w == k {
            assert(src2[j] == to[q].0);
        } else if w == j {
            assert(src2[k] == to[q].0);
        } else {
            assert(src2[w] == to[q].0);
        }
    }
    assert forall|i: int| 0 <= i < src2.len() implies at_stop(to, #[trigger] src2[i] as int) by {
        if i == k {
            assert(at_stop(to, src[j] as int));
        } else if i == j {
            assert(at_stop(to, src[k] as int));
        } else {
            assert(at_stop(to, src[i] as int));
        }
    }
    assert forall|i: int| 0 <= i < to.len() implies h2[(#[trigger] to[i]).0 as int] == g[src2[i] as int] by {
        if i == k {
            assert(h[to[j].0 as int] == g[src[j] as int]);
        } else if i == j {
            assert(h[to[k].0 as int] == g[src[k] as int]);
        } else {
            if i < k {
                assert(to[i].0 < to[k].0);
            } else {
                assert(to[k].0 < to[i].0);
            }
            if i < j {
                assert(to[i].0 < to[j].0);
            } else {
                assert(to[j].0 < to[i].0);
            }
            assert(h[to[i].0 as int] == g[src[i] as int]);
        }
    }
    assert forall|t: int| 0 <= t < g.len() && !at_stop(to, t) implies #[trigger] h2[t]
        == g[t] by {
        assert(to[k].0 != t);
        assert(to[j].0 != t);
        assert(h[t] == g[t]);
    }
}

/// At the start every stop's slot holds its own pairs.
proof fn lemma_tracks_start(g: Grid, to: Seq<(usize, Room)>, src: Seq<usize>)
    requires
        src.len() == to.len(),
        forall|k: int| 0 <= k < to.len() ==> src[k] == (#[trigger] to[k]).0,
    ensures
        tracks(g, g, to, src),
{
    reveal(tracks);
    assert forall|q: int| 0 <= q < to.len() implies src.contains((#[trigger] to[q]).0) by {
        assert(src[q] == to[q].0);
    }
    assert forall|i: int| 0 <= i < src.len() implies at_stop(to, #[trigger] src[i] as int) by {
        assert(to[i].0 == src[i]);
    }
}

/// `from` has the stops of `to`, and no two of them at one slot.
#[verifier::opaque]
pub open spec fn reorders(from: Seq<(usize, Room)>, to: Seq<(usize, Room)>) -> bool {
    &&& from.len() == to.len()
    &&& forall|x: (usize, Room)| from.contains(x) <==> to.contains(x)
    &&& forall|i: int, j: int|
        0 <= i < from.len() && 0 <= j < from.len() && i != j ==> (#[trigger] from[i]).0 != (
        #[trigger] from[j]).0
}

/// The stops of `from` are at different slots where they are the stops of
/// `to`, reordered.
proof fn lemma_from_distinct(p: &Project, to: Seq<(usize, Room)>, from: Seq<(usize, Room)>, d: int, slots: int)
    requires
        stops_of_day(p, to, d, slots),
        from.to_multiset() == to.to_multiset(),
    ensures
        from.len() == to.len(),
        reorders(from, to),
{
    reveal(reorders);
    lemma_same_items(from, to);
    assert(to.no_duplicates()) by {
        assert forall|i: int, j: int| 0 <= i < to.len() && 0 <= j < to.len() && i != j implies to[i]
            != to[j] by {
            if i < j {
                assert(to[i].0 < to[j].0);
            } else {
                assert(to[j].0 < to[i].0);
            }
        }
    }
    to.lemma_multiset_has_no_duplicates();
    from.lemma_multiset_has_no_duplicates_conv();
    assert forall|i: int, j: int| 0 <= i < from.len() && 0 <= j < from.len() && i != j implies (
    #[trigger] from[i]).0 != (#[trigger] from[j]).0 by {
        assert(from.contains(from[i]) && from.contains(from[j]));
        let a = choose|a: int| 0 <= a < to.len() && to[a] == from[i];
        let b = choose|b: int| 0 <= b < to.len() && to[b] == from[j];
        if a < b {
            assert(to[a].0 < to[b].0);
        } else if b < a {
            assert(to[b].0 < to[a].0);
        } else {
            assert(from[i] == from[j]);
        }
    }
}

/// The slot that is wanted next is named at or behind position `k`.
proof fn lemma_wanted_ahead(
    g: Grid,
    h: Grid,
    to: Seq<(usize, Room)>,
    from: Seq<(usize, Room)>,
    src: Seq<usize>,
    k: int,
)
    requires
        tracks(g, h, to, src),
        reorders(from, to),
        0 <= k < to.len(),
        forall|i: int| 0 <= i < k ==> src[i] == (#[trigger] from[i]).0,
    ensures
        src.len() == to.len(),
        exists|w: int| k <= w < src.len() && src[w] == from[k].0,
{
    reveal(reorders);
    reveal(tracks);
    assert(from.contains(from[k]));
    let q = choose|q: int| 0 <= q < to.len() && to[q] == from[k];
    assert(src.contains(to[q].0));
    let w = choose|w: int| 0 <= w < src.len() && src[w] == to[q].0;
    if w < k {
        assert(src[w] == from[w].0);
        assert(from[w].0 != from[k].0);
    }
    assert(k <= w < src.len() && src[w] == from[k].0);
}

/// When every stop's slot holds what the arrangement wants, the slots are
/// rearranged.
proof fn lemma_tracks_done(
    g: Grid,
    h: Grid,
    to: Seq<(usize, Room)>,
    from: Seq<(usize, Room)>,
    src: Seq<usize>,
)
    requires
        tracks(g, h, to, src),
        from.len() == to.len(),
        forall|i: int| 0 <= i < to.len() ==> src[i] == (#[trigger] from[i]).0,
    ensures
        rearranged(g, h, to, from),
{
    reveal(tracks);
    assert forall|k: int| 0 <= k < to.len() implies h[(#[trigger] to[k]).0 as int]
        == g[from[k].0 as int] by {
        assert(src[k] == from[k].0);
    }
    assert forall|t: int|
        0 <= t < g.len() && (forall|k: int| 0 <= k < to.len() ==> (#[trigger] to[k]).0 != t) implies #[trigger] h[t]
        == g[t] by {
        if at_stop(to, t) {
            let q = choose|q: int| 0 <= q < to.len() && (#[trigger] to[q]).0 == t;
            assert(to[q].0 != t);
        }
    }
}

/// Moves what the slots of `from` hold to the slots of `to`, stop by stop,
/// by exchanges between two slots.
fn rearrange(
    xx: &mut Solution,
    project: &Project,
    to: &Vec<(usize, Room)>,
    from: &Vec<(usize, Room)>,
    Ghost(d): Ghost<int>,
)
    requires
        project.wf(),
        feasible(old(xx).grid(), project),
        0 <= d < project.config.days,
        stops_of_day(project, to@, d, old(xx).grid().len() as int),
        from@.to_multiset() == to@.to_multiset(),
    ensures
        feasible(final(xx).grid(), project),
        same_day_slots(old(xx).grid(), project, final(xx).grid(), d),
        rearranged(old(xx).grid(), final(xx).grid(), to@, from@),
        final(xx).counts() == old(xx).counts(),
{
    let ghost g = xx.grid();
    let m = to.len();
    proof {
        lemma_from_distinct(project, to@, from@, d, g.len() as int);
    }
    let mut src: Vec<usize> = Vec::new();
    let mut i: usize = 0;
    while i < m
        invariant
            i <= m,
            m == to.len(),
            src.len() == i,
            forall|k: int| 0 <= k < i ==> src[k] == (#[trigger] to[k]).0,
        decreases m - i,
    {
        src.push(to[i].0);
        i += 1;
    }
    proof {
        lemma_tracks_start(g, to@, src@);
        assert(same_day_slots(g, project, g, d)) by {
            assert forall|t: int|
                0 <= t < g.len() && project.config.day_of(t) == d implies from_day(
                g,
                project,
                d,
                #[trigger] g[t],
            ) by {}
        }
    }
    let mut k: usize = 0;
    while k < m
        invariant
            k <= m,
            m == to.len(),
            m == from.len(),
            project.wf(),
            0 <= d < project.config.days,
            xx.counts() == old(xx).counts(),
            feasible(xx.grid(), project),
            same_day_slots(g, project, xx.grid(), d),
            stops_of_day(project, to@, d, g.len() as int),
            reorders(from@, to@),
            tracks(g, xx.grid(), to@, src@),
            src.len() == m,
            forall|i: int| 0 <= i < k ==> src[i] == (#[trigger] from[i]).0,
        decreases m - k,
    {
        let want = from[k].0;
        let mut j: usize = k;
        while j < m && src[j] != want
            invariant
                k <= j <= m,
                src.len() == m,
                forall|i: int| k <= i < j ==> src[i] != want,
            decreases m - j,
        {
            j += 1;
        }
        proof {
            lemma_wanted_ahead(g, xx.grid(), to@, from@, src@, k as int);
        }
        if j < m && j != k {
            let ghost cur = xx.grid();
            let ghost before = src@;
            let a = to[k].0;
            let b = to[j].0;
            proof {
                lemma_swap_slots(cur, project, a as int, b as int);
                lemma_swap_keeps_day(g, project, cur, d, a as int, b as int);
                lemma_tracks_swap(g, cur, project, to@, before, d, k as int, j as int);
            }
            xx.swap_slots(a, b);
            let sk = src[k];
            let sj = src[j];
            src[k] = sj;
            src[j] = sk;
            assert(src@ =~= before.update(k as int, before[j as int]).update(
                j as int,
                before[k as int],
            ));
        }
        k += 1;
    }
    proof {
        lemma_tracks_done(g, xx.grid(), to@, from@, src@);
    }
}


/// For every event, whether `person` attends it in a room of kind `kind`.
pub open spec fn marks(p: &Project, person: Person, kind: RoomKind) -> Seq<bool> {
    Seq::new(
        p.events.spec_len(),
        |e: int|
            p.people.spec_attended(person).contains(Event(e as usize))
                && p.events.spec_room_kind(Event(e as usize)) == kind,
    )
}

/// The position of the first pair among the first `n` of `s` whose event is
/// marked, or -1.
pub open spec fn marked_at(s: crate::grid::Slot, flags: Seq<bool>, n: int) -> int
    decreases n,
{
    if n <= 0 {
        -1
    } else if marked_at(s, flags, n - 1) >= 0 {
        marked_at(s, flags, n - 1)
    } else if flags[s[n - 1].0.0 as int] {
        n - 1
    } else {
        -1
    }
}

/// The stops in the slots `lo..hi`: for every slot that holds a marked
/// event, the slot and the room of the first such event.
pub open spec fn stops_in(g: Grid, flags: Seq<bool>, lo: int, hi: int) -> Seq<(usize, Room)>
    decreases hi - lo,
{
    if hi <= lo {
        Seq::empty()
    } else {
        let head = stops_in(g, flags, lo, hi - 1);
        let i = marked_at(g[hi - 1], flags, g[hi - 1].len() as int);
        if i >= 0 {
            head.push(((hi - 1) as usize, g[hi - 1][i].1))
        } else {
            head
        }
    }
}

/// The rooms of the first `n` stops, each once, in the order in which the
/// stops come to them.
pub open spec fn rooms_seen(stops: Seq<(usize, Room)>, n: int) -> Seq<Room>
    decreases n,
{
    if n <= 0 {
        Seq::empty()
    } else if rooms_seen(stops, n - 1).contains(stops[n - 1].1) {
        rooms_seen(stops, n - 1)
    } else {
        rooms_seen(stops, n - 1).push(stops[n - 1].1)
    }
}

/// Number of different rooms among the stops.
pub open spec fn different(stops: Seq<(usize, Room)>) -> nat {
    rooms_seen(stops, stops.len() as int).len()
}

/// The stops of person `a` in rooms of the kind with position `b` among the
/// kinds in use, on day `d`.
pub open spec fn the_stops(g: Grid, p: &Project, a: int, b: int, d: int) -> Seq<(usize, Room)> {
    stops_in(
        g,
        marks(p, Person(a as usize), p.rooms.spec_kinds()[b]),
        d * p.config.slots_per_day,
        d * p.config.slots_per_day + p.config.slots_per_day,
    )
}

/// Person `a`, the kind of room at position `b` and day `d` are of the
/// project, and the person is in three different rooms of that kind at
/// least on that day.
pub open spec fn wanted(g: Grid, p: &Project, a: int, b: int, d: int) -> bool {
    &&& 0 <= a < p.people.spec_len()
    &&& 0 <= b < p.rooms.spec_kinds().len()
    &&& 0 <= d < p.config.days
    &&& different(the_stops(g, p, a, b, d)) > 2
}

/// `h` is `g` after a greedy-room move along the stops `to` of day `d`.
pub open spec fn moved_along(g: Grid, p: &Project, h: Grid, d: int, to: Seq<(usize, Room)>) -> bool {
    exists|from: Seq<(usize, Room)>| #[trigger] greedy_move(g, p, h, d, to, from)
}

/// `h` is `g` after the greedy-room move for some person, kind of room
/// and day on which the person is in three different rooms of that kind at
/// least.
pub open spec fn is_greedy_move(g: Grid, p: &Project, h: Grid) -> bool {
    exists|a: int, b: int, d: int| #[trigger]
        wanted(g, p, a, b, d) && moved_along(g, p, h, d, the_stops(g, p, a, b, d))
}

/// Some candidate of `out` is the greedy-room move for person `a`, the kind
/// of room at position `b` and day `d`.
pub open spec fn served(out: Seq<Solution>, g: Grid, p: &Project, a: int, b: int, d: int) -> bool {
    exists|k: int|
        0 <= k < out.len() && moved_along(g, p, (#[trigger] out[k]).grid(), d, the_stops(g, p, a, b, d))
}

/// `(a, b, d)` comes before `(a2, b2, d2)`.
pub open spec fn sooner(a: int, b: int, d: int, a2: int, b2: int, d2: int) -> bool {
    a < a2 || (a == a2 && (b < b2 || (b == b2 && d < d2)))
}

/// Every move that is wanted for a person, a kind and a day before
/// `(a2, b2, d2)` is among `out`.
pub open spec fn covered(out: Seq<Solution>, g: Grid, p: &Project, a2: int, b2: int, d2: int) -> bool {
    forall|a: int, b: int, d: int|
        sooner(a, b, d, a2, b2, d2) && #[trigger] wanted(g, p, a, b, d) ==> served(out, g, p, a, b, d)
}

proof fn lemma_covered_push(out: Seq<Solution>, y: Solution, g: Grid, p: &Project, a2: int, b2: int, d2: int)
    requires
        covered(out, g, p, a2, b2, d2),
    ensures
        covered(out.push(y), g, p, a2, b2, d2),
{
    assert forall|a: int, b: int, d: int|
        sooner(a, b, d, a2, b2, d2) && #[trigger] wanted(g, p, a, b, d) implies served(
        out.push(y),
        g,
        p,
        a,
        b,
        d,
    ) by {
        let k = choose|k: int|
            0 <= k < out.len() && moved_along(
                g,
                p,
                (#[trigger] out[k]).grid(),
                d,
                the_stops(g, p, a, b, d),
            );
        assert(out.push(y)[k] == out[k]);
    }
}

/// Once a marked pair is found, it stays the first.
proof fn lemma_marked_stays(s: crate::grid::Slot, flags: Seq<bool>, i: int, n: int)
    requires
        0 <= i < n,
        marked_at(s, flags, i + 1) == i,
    ensures
        marked_at(s, flags, n) == i,
    decreases n,
{
    if n > i + 1 {
        lemma_marked_stays(s, flags, i, n - 1);
    }
}

/// For every event, whether `person` attends it in a room of kind `kind`.
pub fn attended_in_kind(project: &Project, person: Person, kind: RoomKind) -> (flags: Vec<bool>)
    requires
        project.wf(),
        person.0 < project.people.spec_len(),
    ensures
        flags@ == marks(project, person, kind),
{
    let n = project.events.len();
    let mut flags: Vec<bool> = Vec::new();
    let mut e: usize = 0;
    while e < n
        invariant
            e <= n,
            flags.len() == e,
            forall|x: int| 0 <= x < e ==> !flags[x],
        decreases n - e,
    {
        flags.push(false);
        e += 1;
    }
    let attended = project.people.events_attended_by(person);
    let mut i: usize = 0;
    while i < attended.len()
        invariant
            i <= attended.len(),
            project.wf(),
            person.0 < project.people.spec_len(),
            attended@ == project.people.spec_attended(person),
            n == project.events.spec_len(),
            flags.len() == n,
            forall|e: int|
                0 <= e < n ==> (#[trigger] flags[e] <==> attended@.take(i as int).contains(
                    Event(e as usize),
                ) && project.events.spec_room_kind(Event(e as usize)) == kind),
        decreases attended.len() - i,
    {
        let ev = attended[i];
        assert(project.people.spec_attended(person)[i as int].0 < n);
        let ghost before = flags@;
        if project.events.room_kind(&ev) == kind {
            flags[ev.0] = true;
        }
        proof {
            let prev = attended@.take(i as int);
            let next = attended@.take(i + 1);
            assert(next =~= prev.push(ev));
            assert forall|e: int| 0 <= e < n implies (#[trigger] flags[e] <==> next.contains(
                Event(e as usize),
            ) && project.events.spec_room_kind(Event(e as usize)) == kind) by {
                let x = Event(e as usize);
                if prev.contains(x) {
                    let w = choose|w: int| 0 <= w < prev.len() && prev[w] == x;
                    assert(next[w] == x);
                }
                if next.contains(x) {
                    let w = choose|w: int| 0 <= w < next.len() && next[w] == x;
                    if w < prev.len() {
                        assert(prev[w] == x);
                    } else {
                        assert(x == ev);
                    }
                }
                if x == ev {
                    assert(next[i as int] == x);
                    assert(Event(ev.0 as int as usize) == ev);
                }
            }
        }
        i += 1;
    }
    assert(attended@.take(attended.len() as int) =~= attended@);
    assert(flags@ =~= marks(project, person, kind));
    flags
}

/// Whether `rooms` holds `room`.
fn knows_room(rooms: &Vec<Room>, room: Room) -> (found: bool)
    ensures
        found == rooms@.contains(room),
{
    let mut i: usize = 0;
    while i < rooms.len()
        invariant
            i <= rooms.len(),
            forall|j: int| 0 <= j < i ==> rooms[j] != room,
        decreases rooms.len() - i,
    {
        if rooms[i] == room {
            return true;
        }
        i += 1;
    }
    false
}

/// The stops of the person's day: for every slot of day `day` in which an
/// event marked in `flags` is scheduled, the slot and the room of the first
/// such event; and the number of different rooms among them.
fn stops_of(s: &Solution, project: &Project, flags: &Vec<bool>, day: usize) -> (r: (
    Vec<(usize, Room)>,
    usize,
))
    requires
        project.wf(),
        in_range(s.grid(), project),
        flags.len() == project.events.spec_len(),
        day < project.config.days,
    ensures
        r.0@ == stops_in(
            s.grid(),
            flags@,
            day * project.config.slots_per_day,
            day * project.config.slots_per_day + project.config.slots_per_day,
        ),
        r.1 == different(r.0@),
        stops_of_day(project, r.0@, day as int, s.grid().len() as int),
        stops_known(project, r.0@),
{
    let ghost g = s.grid();
    let spd = project.config.slots_per_day;
    proof {
        lemma_day_within(spd as int, project.config.days as int, day as int);
    }
    let lo = day * spd;
    let hi = lo + spd;
    let mut stops: Vec<(usize, Room)> = Vec::new();
    let mut rooms: Vec<Room> = Vec::new();
    let mut t: usize = lo;
    while t < hi
        invariant
            lo <= t <= hi,
            hi <= g.len(),
            lo == day * spd,
            hi == lo + spd,
            spd == project.config.slots_per_day,
            spd > 0,
            g == s.grid(),
            in_range(g, project),
            flags.len() == project.events.spec_len(),
            stops@ == stops_in(g, flags@, lo as int, t as int),
            rooms@ == rooms_seen(stops@, stops.len() as int),
            stops_known(project, stops@),
            forall|k: int|
                0 <= k < stops.len() ==> (#[trigger] stops[k]).0 < t && project.config.day_of(
                    stops[k].0 as int,
                ) == day,
            forall|k: int, l: int|
                0 <= k < l < stops.len() ==> (#[trigger] stops[k]).0 < (#[trigger] stops[l]).0,
        decreases hi - t,
    {
        let slot = s.events_in_slot(t);
        let mut i: usize = 0;
        let mut found = false;
        let ghost head = stops@;
        while i < slot.len() && !found
            invariant
                i <= slot.len(),
                lo <= t < hi,
                hi <= g.len(),
                slot@ == g[t as int],
                in_range(g, project),
                flags.len() == project.events.spec_len(),
                !found ==> marked_at(slot@, flags@, i as int) == -1,
                found ==> i > 0 && marked_at(slot@, flags@, i as int) == i - 1,
            decreases slot.len() - i + if found {
                0int
            } else {
                1int
            },
        {
            let (e, r) = slot[i];
            assert(g[t as int][i as int].0.0 < project.events.spec_len());
            if flags[e.0] {
                found = true;
            }
            i += 1;
        }
        proof {
            if found {
                lemma_marked_stays(slot@, flags@, i - 1, slot.len() as int);
                lemma_day_range(spd as int, day as int, t as int);
            }
        }
        if found {
            let r = slot[i - 1].1;
            assert(g[t as int][i - 1].1.0 < project.rooms.spec_len());
            let ghost seen = rooms@;
            if !knows_room(&rooms, r) {
                rooms.push(r);
            }
            stops.push((t, r));
            proof {
                let n = stops.len() as int;
                assert(stops@.drop_last() =~= head);
                assert(rooms_seen(stops@, n - 1) == rooms_seen(head, n - 1)) by {
                    lemma_rooms_seen_prefix(stops@, head, n - 1);
                }
            }
        }
        t += 1;
    }
    (stops, rooms.len())
}

/// The rooms of the first stops depend on those stops only.
proof fn lemma_rooms_seen_prefix(a: Seq<(usize, Room)>, b: Seq<(usize, Room)>, n: int)
    requires
        0 <= n <= a.len(),
        n <= b.len(),
        forall|i: int| 0 <= i < n ==> a[i] == b[i],
    ensures
        rooms_seen(a, n) == rooms_seen(b, n),
    decreases n,
{
    if n > 0 {
        lemma_rooms_seen_prefix(a, b, n - 1);
    }
}

/// A copy of a list of stops.
fn copy_stops(stops: &Vec<(usize, Room)>) -> (r: Vec<(usize, Room)>)
    ensures
        r@ == stops@,
{
    let mut r: Vec<(usize, Room)> = Vec::new();
    let mut i: usize = 0;
    while i < stops.len()
        invariant
            i <= stops.len(),
            r@ == stops@.take(i as int),
        decreases stops.len() - i,
    {
        r.push(stops[i]);
        i += 1;
    }
    r
}

/// For every person, every kind of room and every day on which the person
/// is in three different rooms of that kind at least: the timetable in which
/// the slots of those events have exchanged what they hold, in an order of
/// the rooms that the tour solver gives, whose closed walking tour is no
/// longer. There is one candidate for each of them and no other, and every
/// candidate is feasible.
pub fn neighborhoods(s: Solution, project: &Project) -> (out: Vec<Solution>)
    requires
        project.wf(),
        feasible(s.grid(), project),
    ensures
        all_feasible(out@, project),
        forall|k: int|
            0 <= k < out.len() ==> is_rearrangement(s.grid(), project, (#[trigger] out[k]).grid()),
        forall|k: int|
            0 <= k < out.len() ==> is_greedy_move(s.grid(), project, (#[trigger] out[k]).grid()),
        forall|a: int, b: int, d: int| #[trigger]
            wanted(s.grid(), project, a, b, d) ==> served(out@, s.grid(), project, a, b, d),
{
    let ghost g = s.grid();
    let persons = project.people.iter_all();
    let kinds = project.rooms.iter_kinds();
    let days = project.config.days;
    let mut out: Vec<Solution> = Vec::new();
    let mut a: usize = 0;
    while a < persons.len()
        invariant
            a <= persons.len(),
            project.wf(),
            feasible(g, project),
            g == s.grid(),
            days == project.config.days,
            kinds@ == project.rooms.spec_kinds(),
            persons.len() == project.people.spec_len(),
            forall|i: int| 0 <= i < persons.len() ==> persons[i] == Person(i as usize),
            all_feasible(out@, project),
            forall|k: int| 0 <= k < out.len() ==> is_rearrangement(g, project, (#[trigger] out[k]).grid()),
            forall|k: int| 0 <= k < out.len() ==> is_greedy_move(g, project, (#[trigger] out[k]).grid()),
            covered(out@, g, project, a as int, 0, 0),
        decreases persons.len() - a,
    {
        let person = persons[a];
        let mut b: usize = 0;
        while b < kinds.len()
            invariant
                b <= kinds.len(),
                a < persons.len(),
                project.wf(),
                feasible(g, project),
                g == s.grid(),
                days == project.config.days,
                kinds@ == project.rooms.spec_kinds(),
                persons.len() == project.people.spec_len(),
                person == Person(a as usize),
                all_feasible(out@, project),
                forall|k: int|
                    0 <= k < out.len() ==> is_rearrangement(g, project, (#[trigger] out[k]).grid()),
                forall|k: int|
                    0 <= k < out.len() ==> is_greedy_move(g, project, (#[trigger] out[k]).grid()),
                covered(out@, g, project, a as int, b as int, 0),
            decreases kinds.len() - b,
        {
            let flags = attended_in_kind(project, person, kinds[b]);
            let mut day: usize = 0;
            while day < days
                invariant
                    day <= days,
                    a < persons.len(),
                    b < kinds.len(),
                    project.wf(),
                    feasible(g, project),
                    g == s.grid(),
                    days == project.config.days,
                    kinds@ == project.rooms.spec_kinds(),
                    persons.len() == project.people.spec_len(),
                    person == Person(a as usize),
                    flags@ == marks(project, person, kinds[b as int]),
                    all_feasible(out@, project),
                    forall|k: int|
                        0 <= k < out.len() ==> is_rearrangement(
                            g,
                            project,
                            (#[trigger] out[k]).grid(),
                        ),
                    forall|k: int|
                        0 <= k < out.len() ==> is_greedy_move(
                            g,
                            project,
                            (#[trigger] out[k]).grid(),
                        ),
                    covered(out@, g, project, a as int, b as int, day as int),
                decreases days - day,
            {
                let ghost before = out@;
                assert(flags.len() == project.events.spec_len());
                let (to_be_rearranged, different) = stops_of(&s, project, &flags, day);
                assert(to_be_rearranged@ == the_stops(g, project, a as int, b as int, day as int));
                if different > 2 {
                    let room_arrangement = solve(copy_stops(&to_be_rearranged), project);
                    let mut xx = s.duplicate();
                    rearrange(&mut xx, project, &to_be_rearranged, &room_arrangement, Ghost(day as int));
                    proof {
                        assert(same_day_slots(g, project, xx.grid(), day as int));
                        assert(is_rearrangement(g, project, xx.grid()));
                        assert(greedy_move(
                            g,
                            project,
                            xx.grid(),
                            day as int,
                            to_be_rearranged@,
                            room_arrangement@,
                        ));
                        assert(moved_along(g, project, xx.grid(), day as int, to_be_rearranged@));
                        assert(wanted(g, project, a as int, b as int, day as int));
                        assert(is_greedy_move(g, project, xx.grid()));
                        lemma_covered_push(before, xx, g, project, a as int, b as int, day as int);
                        assert(before.push(xx)[before.len() as int].grid() == xx.grid());
                        assert(served(before.push(xx), g, project, a as int, b as int, day as int));
                    }
                    out.push(xx);
                }
                proof {
                    assert forall|a2: int, b2: int, d2: int|
                        sooner(a2, b2, d2, a as int, b as int, day + 1) && #[trigger] wanted(
                            g,
                            project,
                            a2,
                            b2,
                            d2,
                        ) implies served(out@, g, project, a2, b2, d2) by {
                        if a2 == a && b2 == b && d2 == day {
                        } else {
                            assert(sooner(a2, b2, d2, a as int, b as int, day as int));
                        }
                    }
                }
                day += 1;
            }
            proof {
                assert forall|a2: int, b2: int, d2: int|
                    sooner(a2, b2, d2, a as int, b + 1, 0) && #[trigger] wanted(
                        g,
                        project,
                        a2,
                        b2,
                        d2,
                    ) implies served(out@, g, project, a2, b2, d2) by {
                    assert(sooner(a2, b2, d2, a as int, b as int, days as int));
                }
            }
            b += 1;
        }
        proof {
            assert forall|a2: int, b2: int, d2: int|
                sooner(a2, b2, d2, a + 1, 0, 0) && #[trigger] wanted(
                    g,
                    project,
                    a2,
                    b2,
                    d2,
                ) implies served(out@, g, project, a2, b2, d2) by {
                assert(sooner(a2, b2, d2, a as int, kinds.len() as int, 0));
            }
        }
        a += 1;
    }
    proof {
        assert forall|a2: int, b2: int, d2: int| #[trigger]
            wanted(g, project, a2, b2, d2) implies served(out@, g, project, a2, b2, d2) by {
            assert(sooner(a2, b2, d2, persons.len() as int, 0, 0));
        }
    }
    out
}

} // verus!
