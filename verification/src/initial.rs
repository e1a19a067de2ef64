//! The initial solver: an ejection-chain search for a feasible timetable.

use crate::grid::{
    blocked, caps_lenient, caps_positive, count_kind, count_kind_slots, day_count, feasible,
    feasible_leniently, grid_of, lemma_count_kind_push, lemma_count_slots_update, lemma_day_of_slot,
    lemma_day_range, lemma_day_within, lemma_lenient, lemma_place_orderly, lemma_remove_at_orderly,
    lemma_turned, lenient_cap, occurs, orderly, place, remove_at, turned, Grid, Slot,
};
use crate::project::{Event, EventKind, Project, Room};
use crate::random::shuffle;
use crate::solution::{copy_timemap, same_timemap, TIMEMAP};
use crate::utils::lemma_same_items;
use itertools::Itertools;
use std::collections::VecDeque;
use std::ops::Range;
use vstd::prelude::*;

verus! {

/// The model of a timetable under construction: what is scheduled, and the
/// events that wait to be scheduled, the next one last.
pub struct Draft {
    pub grid: Grid,
    pub eject: Seq<Event>,
}

/// A timetable under construction.
#[derive(Debug)]
pub struct InitialSolution {
    events: TIMEMAP,
    eject_list: Vec<Event>,
}

/// A draft is sound: the timetable is orderly and respects the daily caps,
/// a cap of zero taken as one, and every event of the project is either
/// scheduled or waiting, and waits once at most.
pub open spec fn sound(d: Draft, p: &Project) -> bool {
    &&& orderly(d.grid, p)
    &&& caps_lenient(d.grid, p)
    &&& d.eject.no_duplicates()
    &&& forall|i: int| 0 <= i < d.eject.len() ==> (#[trigger] d.eject[i]).0 < p.events.spec_len()
    &&& forall|e: Event| e.0 < p.events.spec_len() ==> occurs(d.grid, e) != d.eject.contains(e)
}

/// A draft is sound but for the event `e_in`, which is neither scheduled
/// nor waiting.
pub open spec fn sound_but(d: Draft, p: &Project, e_in: Event) -> bool {
    &&& orderly(d.grid, p)
    &&& caps_lenient(d.grid, p)
    &&& d.eject.no_duplicates()
    &&& forall|i: int| 0 <= i < d.eject.len() ==> (#[trigger] d.eject[i]).0 < p.events.spec_len()
    &&& forall|e: Event|
        e.0 < p.events.spec_len() && e != e_in ==> occurs(d.grid, e) != d.eject.contains(e)
    &&& e_in.0 < p.events.spec_len()
    &&& !occurs(d.grid, e_in)
    &&& !d.eject.contains(e_in)
}

/// The pair `x` collides with the pair `(e_in, r_in)`: it uses the room, or
/// its event shares an attendee with `e_in`.
pub open spec fn clashes(p: &Project, x: (Event, Room), e_in: Event, r_in: Room) -> bool {
    x.1 == r_in || p.events.conflict(e_in, x.0)
}

/// Walks the pairs `rem` of a slot, the last pair first: a pair that
/// collides with `(e_in, r_in)` is evicted (its event joins `ej`), the
/// others are kept (they join `kept`, so that the slot comes out in the
/// opposite order).
pub open spec fn walk_clashes(
    p: &Project,
    kept: Slot,
    rem: Slot,
    ej: Seq<Event>,
    e_in: Event,
    r_in: Room,
) -> (Slot, Seq<Event>)
    decreases rem.len(),
{
    if rem.len() == 0 {
        (kept, ej)
    } else if clashes(p, rem.last(), e_in, r_in) {
        walk_clashes(p, kept, rem.drop_last(), ej.push(rem.last().0), e_in, r_in)
    } else {
        walk_clashes(p, kept.push(rem.last()), rem.drop_last(), ej, e_in, r_in)
    }
}

/// Walks the pairs `rem` of a slot, the last pair first, with a budget `b`
/// of events of kind `k` that may stay: an event of that kind stays while
/// the budget lasts and uses one unit of it; once the budget is used up, it
/// is evicted. Gives the pairs kept, in the order of the walk, the waiting
/// events and the budget left.
pub open spec fn walk_cap(p: &Project, kept: Slot, rem: Slot, ej: Seq<Event>, k: EventKind, b: nat) -> (
    Slot,
    Seq<Event>,
    nat,
)
    decreases rem.len(),
{
    if rem.len() == 0 {
        (kept, ej, b)
    } else if p.events.spec_kind(rem.last().0) != k {
        walk_cap(p, kept.push(rem.last()), rem.drop_last(), ej, k, b)
    } else if b == 0 {
        walk_cap(p, kept, rem.drop_last(), ej.push(rem.last().0), k, b)
    } else {
        walk_cap(p, kept.push(rem.last()), rem.drop_last(), ej, k, (b - 1) as nat)
    }
}

/// Walks the slots `lo..hi` in order, each with `walk_cap`, the budget
/// passing from slot to slot.
pub open spec fn walk_day(p: &Project, d: Draft, lo: int, hi: int, k: EventKind, b: nat) -> Draft
    decreases hi - lo,
{
    if lo >= hi {
        d
    } else {
        let w = walk_cap(p, Seq::empty(), d.grid[lo], d.eject, k, b);
        walk_day(p, Draft { grid: d.grid.update(lo, w.0), eject: w.1 }, lo + 1, hi, k, w.2)
    }
}

/// The draft that scheduling the last waiting event of `d` in slot `t` and
/// room `r_in` makes: first the pairs of slot `t` that collide with it are
/// evicted; then the day of `t` is walked and events of its kind are evicted
/// as far as, with it, they would exceed the daily cap; then it joins slot
/// `t`. Evicted events wait again.
pub open spec fn candidate(p: &Project, d: Draft, t: int, r_in: Room) -> Draft {
    let e_in = d.eject.last();
    let w = walk_clashes(p, Seq::empty(), d.grid[t], d.eject.drop_last(), e_in, r_in);
    let d1 = Draft { grid: d.grid.update(t, w.0), eject: w.1 };
    let lo = p.config.day_of(t) * p.config.slots_per_day;
    let d2 = walk_day(
        p,
        d1,
        lo,
        lo + p.config.slots_per_day,
        p.events.spec_kind(e_in),
        (lenient_cap(p, e_in) - 1) as nat,
    );
    Draft { grid: place(d2.grid, t, (e_in, r_in)), eject: d2.eject }
}

/// Every slot paired with every room, slot by slot.
pub open spec fn product(slots: int, rooms: Seq<Room>) -> Seq<(usize, Room)> {
    Seq::new(
        (slots * rooms.len()) as nat,
        |c: int| ((c / (rooms.len() as int)) as usize, rooms[c % (rooms.len() as int)]),
    )
}

/// The best of the first `c` candidates: the one with the fewest waiting
/// events, the first of them where several have as few. `None` where `c`
/// is zero.
pub open spec fn best_of(p: &Project, d: Draft, pairs: Seq<(usize, Room)>, c: int) -> Option<Draft>
    decreases c,
{
    if c <= 0 {
        None
    } else {
        let next = candidate(p, d, pairs[c - 1].0 as int, pairs[c - 1].1);
        match best_of(p, d, pairs, c - 1) {
            None => Some(next),
            Some(b) => if next.eject.len() < b.eject.len() {
                Some(next)
            } else {
                Some(b)
            },
        }
    }
}

/// The local best of `d`: the best candidate over all slots and all rooms of
/// the kind that the last waiting event needs; `d` itself where there is no
/// candidate.
pub open spec fn local_best(p: &Project, d: Draft) -> Draft {
    let pairs = product(
        p.config.num_slots as int,
        p.rooms.spec_rooms_with_kind(p.events.spec_room_kind(d.eject.last())),
    );
    match best_of(p, d, pairs, pairs.len() as int) {
        None => d,
        Some(b) => b,
    }
}

/// The slot `t` paired with every room. This is
/// `itertools::Itertools::cartesian_product` of the one slot with the rooms,
/// collected: the pairs come in the order of `rooms`.
#[verifier::external_body]
fn slot_room_pairs(t: usize, rooms: &Vec<Room>) -> (pairs: Vec<(usize, Room)>)
    ensures
        pairs@ == Seq::new(rooms@.len(), |j: int| (t, rooms@[j])),
{
    std::iter::once(t).cartesian_product(rooms.iter().copied()).collect()
}


/// Evicting a scheduled event keeps a draft sound but for `e_in`.
pub proof fn lemma_evict(d: Draft, p: &Project, e_in: Event, u: int, i: int)
    requires
        p.wf(),
        sound_but(d, p, e_in),
        0 <= u < d.grid.len(),
        0 <= i < d.grid[u].len(),
    ensures
        sound_but(
            Draft { grid: remove_at(d.grid, u, i), eject: d.eject.push(d.grid[u][i].0) },
            p,
            e_in,
        ),
{
    let ev = d.grid[u][i].0;
    let g2 = remove_at(d.grid, u, i);
    let ej2 = d.eject.push(ev);
    lemma_remove_at_orderly(d.grid, p, u, i);
    assert(caps_lenient(g2, p)) by {
        assert forall|e: Event, day: int|
            e.0 < p.events.spec_len() && 0 <= day < p.config.days implies #[trigger] day_count(
            p,
            g2,
            day,
            p.events.spec_kind(e),
        ) <= lenient_cap(p, e) by {
            assert(day_count(p, d.grid, day, p.events.spec_kind(e)) <= lenient_cap(p, e));
        }
    }
    assert(occurs(d.grid, ev));
    assert(ev != e_in);
    assert(!d.eject.contains(ev));
    assert(ej2.no_duplicates()) by {
        assert forall|a: int, b: int| 0 <= a < ej2.len() && 0 <= b < ej2.len() && a != b implies ej2[a]
            != ej2[b] by {
            if a < d.eject.len() && b < d.eject.len() {
                assert(d.eject[a] != d.eject[b]);
            } else if a < d.eject.len() {
                assert(d.eject.contains(d.eject[a]));
            } else {
                assert(d.eject.contains(d.eject[b]));
            }
        }
    }
    assert forall|x: Event| ej2.contains(x) <==> d.eject.contains(x) || x == ev by {
        if ej2.contains(x) {
            let a = choose|a: int| 0 <= a < ej2.len() && ej2[a] == x;
            if a < d.eject.len() {
                assert(d.eject[a] == x);
            }
        }
        if d.eject.contains(x) {
            let a = choose|a: int| 0 <= a < d.eject.len() && d.eject[a] == x;
            assert(ej2[a] == x);
        }
        if x == ev {
            assert(ej2[d.eject.len() as int] == x);
        }
    }
    assert forall|a: int| 0 <= a < ej2.len() implies (#[trigger] ej2[a]).0 < p.events.spec_len() by {
        if a < d.eject.len() {
            assert(ej2[a] == d.eject[a]);
        }
    }
}

/// Turning a slot round keeps a draft sound but for `e_in`.
pub proof fn lemma_turn(d: Draft, p: &Project, e_in: Event, t: int)
    requires
        p.wf(),
        sound_but(d, p, e_in),
        0 <= t < d.grid.len(),
    ensures
        sound_but(Draft { grid: turned(d.grid, t), eject: d.eject }, p, e_in),
{
    let h = turned(d.grid, t);
    lemma_turned(d.grid, p, t);
    assert(caps_lenient(h, p)) by {
        assert forall|e: Event, day: int|
            e.0 < p.events.spec_len() && 0 <= day < p.config.days implies #[trigger] day_count(
            p,
            h,
            day,
            p.events.spec_kind(e),
        ) <= lenient_cap(p, e) by {
            assert(day_count(p, d.grid, day, p.events.spec_kind(e)) <= lenient_cap(p, e));
        }
    }
}

impl InitialSolution {
    /// The draft that this timetable under construction stands for.
    pub closed spec fn draft(&self) -> Draft {
        Draft { grid: grid_of(self.events@), eject: self.eject_list@ }
    }

    /// An empty timetable with one slot for each slot of `slots`, and all of
    /// `all_events` waiting, in a random order.
    pub fn new(all_events: Vec<Event>, slots: Range<usize>) -> (s: Self)
        ensures
            s.draft().grid.len() == if slots.end >= slots.start {
                slots.end - slots.start
            } else {
                0
            },
            forall|t: int| 0 <= t < s.draft().grid.len() ==> (#[trigger] s.draft().grid[t]).len() == 0,
            s.draft().eject.to_multiset() == all_events@.to_multiset(),
    {
        let mut all_events = all_events;
        let n = if slots.end >= slots.start {
            slots.end - slots.start
        } else {
            0
        };
        let mut events: TIMEMAP = Vec::new();
        let mut t: usize = 0;
        while t < n
            invariant
                t <= n,
                events.len() == t,
                forall|u: int| 0 <= u < events.len() ==> (#[trigger] events[u])@.len() == 0,
            decreases n - t,
        {
            events.push(Vec::new());
            t += 1;
        }
        shuffle(&mut all_events);
        InitialSolution { events, eject_list: all_events }
    }

    /// Number of events that wait to be scheduled.
    pub fn unassigned(&self) -> (n: usize)
        ensures
            n == self.draft().eject.len(),
    {
        self.eject_list.len()
    }

    /// A copy of this timetable under construction.
    pub fn duplicate(&self) -> (s: Self)
        ensures
            s.draft() == self.draft(),
    {
        let events = copy_timemap(&self.events);
        let mut eject_list: Vec<Event> = Vec::new();
        let mut i: usize = 0;
        while i < self.eject_list.len()
            invariant
                i <= self.eject_list.len(),
                eject_list@ == self.eject_list@.take(i as int),
            decreases self.eject_list.len() - i,
        {
            eject_list.push(self.eject_list[i]);
            i += 1;
        }
        assert(eject_list@ == self.eject_list@);
        InitialSolution { events, eject_list }
    }

    /// The timetable, without the waiting events.
    pub fn into_events(self) -> (tm: TIMEMAP)
        ensures
            grid_of(tm@) == self.draft().grid,
    {
        self.events
    }

    /// The timetable.
    pub fn events(&self) -> (tm: &TIMEMAP)
        ensures
            grid_of(tm@) == self.draft().grid,
    {
        &self.events
    }

    /// The event that is scheduled next: the last that waits.
    pub fn next_event(&self) -> (e: Event)
        requires
            self.draft().eject.len() > 0,
        ensures
            e == self.draft().eject.last(),
    {
        self.eject_list[self.eject_list.len() - 1]
    }

    /// Evicts the pairs of slot `t` that collide with `(e_in, r_in)`, the
    /// last pair first; the pairs that stay come out in the opposite order.
    fn evict_clashes(&mut self, project: &Project, t: usize, e_in: Event, r_in: Room)
        requires
            project.wf(),
            sound_but(old(self).draft(), project, e_in),
            t < old(self).draft().grid.len(),
        ensures
            sound_but(final(self).draft(), project, e_in),
            final(self).draft().grid == old(self).draft().grid.update(
                t as int,
                final(self).draft().grid[t as int],
            ),
            (final(self).draft().grid[t as int], final(self).draft().eject) == walk_clashes(
                project,
                Seq::empty(),
                old(self).draft().grid[t as int],
                old(self).draft().eject,
                e_in,
                r_in,
            ),
            forall|j: int|
                0 <= j < final(self).draft().grid[t as int].len() ==> !clashes(
                    project,
                    #[trigger] final(self).draft().grid[t as int][j],
                    e_in,
                    r_in,
                ),
    {
        let ghost d0 = self.draft();
        let mut kept: Vec<(Event, Room)> = Vec::new();
        let mut i: usize = self.events[t].len();
        assert(d0.grid[t as int].take(i as int) =~= d0.grid[t as int]);
        assert(d0.grid[t as int].skip(i as int).reverse() =~= Seq::empty());
        assert(d0.grid =~= d0.grid.update(t as int, d0.grid[t as int]));
        while i > 0
            invariant
                project.wf(),
                t < self.draft().grid.len(),
                self.draft().grid.len() == d0.grid.len(),
                self.events.len() == d0.grid.len(),
                i <= self.draft().grid[t as int].len(),
                self.events[t as int]@ == self.draft().grid[t as int],
                sound_but(self.draft(), project, e_in),
                self.draft().grid == d0.grid.update(t as int, self.draft().grid[t as int]),
                kept@ == self.draft().grid[t as int].skip(i as int).reverse(),
                walk_clashes(
                    project,
                    kept@,
                    self.draft().grid[t as int].take(i as int),
                    self.draft().eject,
                    e_in,
                    r_in,
                ) == walk_clashes(
                    project,
                    Seq::empty(),
                    d0.grid[t as int],
                    d0.eject,
                    e_in,
                    r_in,
                ),
                forall|j: int|
                    i <= j < self.draft().grid[t as int].len() ==> !clashes(
                        project,
                        #[trigger] self.draft().grid[t as int][j],
                        e_in,
                        r_in,
                    ),
            decreases i,
        {
            let ghost d = self.draft();
            let ghost slot = d.grid[t as int];
            i -= 1;
            let (e, r) = self.events[t][i];
            assert(slot[i as int] == (e, r));
            assert(slot[i as int].0.0 < project.events.spec_len());
            proof {
                assert(slot.take(i + 1).last() == slot[i as int]);
                assert(slot.take(i + 1).drop_last() =~= slot.take(i as int));
            }
            if r == r_in || project.events.have_people_conflict(e_in, e) {
                self.events[t].remove(i);
                self.eject_list.push(e);
                proof {
                    lemma_evict(d, project, e_in, t as int, i as int);
                    let d2 = self.draft();
                    assert(d2.grid =~= remove_at(d.grid, t as int, i as int));
                    assert(d2.eject == d.eject.push(e));
                    assert(d2.grid[t as int].take(i as int) =~= slot.take(i as int));
                    assert(d2.grid[t as int].skip(i as int) =~= slot.skip(i + 1));
                    assert(d2.grid =~= d0.grid.update(t as int, d2.grid[t as int]));
                    assert forall|j: int| i <= j < d2.grid[t as int].len() implies !clashes(
                        project,
                        #[trigger] d2.grid[t as int][j],
                        e_in,
                        r_in,
                    ) by {
                        assert(d2.grid[t as int][j] == slot[j + 1]);
                    }
                }
            } else {
                kept.push((e, r));
                proof {
                    assert(slot.skip(i as int).reverse() =~= slot.skip(i + 1).reverse().push(
                        slot[i as int],
                    ));
                }
            }
        }
        proof {
            let slot = self.draft().grid[t as int];
            assert(slot.take(0).len() == 0);
            assert(slot.skip(0) =~= slot);
            lemma_turn(self.draft(), project, e_in, t as int);
        }
        let ghost d = self.draft();
        self.events[t] = kept;
        proof {
            let d2 = self.draft();
            let slot = d.grid[t as int];
            assert(d2.grid =~= turned(d.grid, t as int));
            assert(d2.grid =~= d0.grid.update(t as int, d2.grid[t as int]));
            assert forall|j: int| 0 <= j < d2.grid[t as int].len() implies !clashes(
                project,
                #[trigger] d2.grid[t as int][j],
                e_in,
                r_in,
            ) by {
                assert(d2.grid[t as int][j] == slot[slot.len() - 1 - j]);
            }
        }
    }

    /// Walks slot `tt`, the last pair first, with a budget of events of kind
    /// `k` that may stay, and evicts those of that kind that come when the
    /// budget is used up; the pairs that stay come out in the opposite order.
    fn evict_over_cap(
        &mut self,
        project: &Project,
        tt: usize,
        e_in: Event,
        k: EventKind,
        budget: usize,
    ) -> (left: usize)
        requires
            project.wf(),
            sound_but(old(self).draft(), project, e_in),
            tt < old(self).draft().grid.len(),
        ensures
            sound_but(final(self).draft(), project, e_in),
            final(self).draft().grid == old(self).draft().grid.update(
                tt as int,
                final(self).draft().grid[tt as int],
            ),
            (final(self).draft().grid[tt as int], final(self).draft().eject, left as nat)
                == walk_cap(
                project,
                Seq::empty(),
                old(self).draft().grid[tt as int],
                old(self).draft().eject,
                k,
                budget as nat,
            ),
            count_kind(project, final(self).draft().grid[tt as int], k) + left == budget,
            forall|j: int|
                0 <= j < final(self).draft().grid[tt as int].len() ==> old(
                    self,
                ).draft().grid[tt as int].contains(#[trigger] final(self).draft().grid[tt as int][j]),
    {
        let ghost d0 = self.draft();
        let mut left = budget;
        let mut kept: Vec<(Event, Room)> = Vec::new();
        let mut i: usize = self.events[tt].len();
        assert(d0.grid[tt as int].take(i as int) =~= d0.grid[tt as int]);
        assert(d0.grid[tt as int].skip(i as int).reverse() =~= Seq::empty());
        assert(d0.grid =~= d0.grid.update(tt as int, d0.grid[tt as int]));
        while i > 0
            invariant
                project.wf(),
                tt < self.draft().grid.len(),
                self.draft().grid.len() == d0.grid.len(),
                self.events.len() == d0.grid.len(),
                i <= self.draft().grid[tt as int].len(),
                self.events[tt as int]@ == self.draft().grid[tt as int],
                sound_but(self.draft(), project, e_in),
                self.draft().grid == d0.grid.update(tt as int, self.draft().grid[tt as int]),
                kept@ == self.draft().grid[tt as int].skip(i as int).reverse(),
                walk_cap(
                    project,
                    kept@,
                    self.draft().grid[tt as int].take(i as int),
                    self.draft().eject,
                    k,
                    left as nat,
                ) == walk_cap(
                    project,
                    Seq::empty(),
                    d0.grid[tt as int],
                    d0.eject,
                    k,
                    budget as nat,
                ),
                count_kind(project, kept@, k) + left == budget,
                forall|j: int|
                    0 <= j < self.draft().grid[tt as int].len() ==> d0.grid[tt as int].contains(
                        #[trigger] self.draft().grid[tt as int][j],
                    ),
            decreases i,
        {
            let ghost d = self.draft();
            let ghost slot = d.grid[tt as int];
            i -= 1;
            let (e, r) = self.events[tt][i];
            assert(slot[i as int] == (e, r));
            assert(slot[i as int].0.0 < project.events.spec_len());
            proof {
                assert(slot.take(i + 1).last() == slot[i as int]);
                assert(slot.take(i + 1).drop_last() =~= slot.take(i as int));
            }
            let same = project.events.kind(&e) == k;
            if same && left == 0 {
                self.events[tt].remove(i);
                self.eject_list.push(e);
                proof {
                    lemma_evict(d, project, e_in, tt as int, i as int);
                    let d2 = self.draft();
                    assert(d2.grid =~= remove_at(d.grid, tt as int, i as int));
                    assert(d2.eject == d.eject.push(e));
                    assert(d2.grid[tt as int].take(i as int) =~= slot.take(i as int));
                    assert(d2.grid[tt as int].skip(i as int) =~= slot.skip(i + 1));
                    assert(d2.grid =~= d0.grid.update(tt as int, d2.grid[tt as int]));
                    assert forall|j: int|
                        0 <= j < d2.grid[tt as int].len() implies d0.grid[tt as int].contains(
                        #[trigger] d2.grid[tt as int][j],
                    ) by {
                        let j0 = if j < i {
                            j
                        } else {
                            j + 1
                        };
                        assert(d2.grid[tt as int][j] == slot[j0]);
                    }
                }
            } else {
                proof {
                    lemma_count_kind_push(project, kept@, slot[i as int], k);
                    assert(slot.skip(i as int).reverse() =~= slot.skip(i + 1).reverse().push(
                        slot[i as int],
                    ));
                }
                kept.push((e, r));
                if same {
                    left = left - 1;
                }
            }
        }
        proof {
            let slot = self.draft().grid[tt as int];
            assert(slot.take(0).len() == 0);
            assert(slot.skip(0) =~= slot);
            lemma_turn(self.draft(), project, e_in, tt as int);
        }
        let ghost d = self.draft();
        self.events[tt] = kept;
        proof {
            let d2 = self.draft();
            let slot = d.grid[tt as int];
            assert(d2.grid =~= turned(d.grid, tt as int));
            assert(d2.grid =~= d0.grid.update(tt as int, d2.grid[tt as int]));
            assert forall|j: int|
                0 <= j < d2.grid[tt as int].len() implies d0.grid[tt as int].contains(
                #[trigger] d2.grid[tt as int][j],
            ) by {
                assert(d2.grid[tt as int][j] == slot[slot.len() - 1 - j]);
            }
        }
        left
    }
}


/// A slot none of whose pairs collides with `(e_in, r_in)` does not block it.
proof fn lemma_calm_slot(p: &Project, s: Slot, e_in: Event, r_in: Room)
    requires
        forall|j: int| 0 <= j < s.len() ==> !clashes(p, #[trigger] s[j], e_in, r_in),
    ensures
        !blocked(p, s, e_in, r_in),
{
    if blocked(p, s, e_in, r_in) {
        let i = choose|i: int|
            0 <= i < s.len() && ((#[trigger] s[i]).1 == r_in || p.events.conflict(e_in, s[i].0));
        assert(clashes(p, s[i], e_in, r_in));
    }
}

/// The draft that scheduling the next event of `x` in slot `t` and room
/// `r_in` makes. It is sound.
pub fn make_candidate(project: &Project, x: &InitialSolution, t: usize, r_in: Room) -> (r:
    InitialSolution)
    requires
        project.wf(),
        sound(x.draft(), project),
        x.draft().eject.len() > 0,
        t < project.config.num_slots,
        r_in.0 < project.rooms.spec_len(),
        project.rooms.spec_room_kind(r_in) == project.events.spec_room_kind(
            x.draft().eject.last(),
        ),
    ensures
        r.draft() == candidate(project, x.draft(), t as int, r_in),
        sound(r.draft(), project),
{
    let ghost d = x.draft();
    let mut xx = x.duplicate();
    let e_in = xx.eject_list.pop().unwrap();
    let ghost d0 = xx.draft();
    proof {
        assert(d0.eject == d.eject.drop_last());
        assert(d0.grid == d.grid);
        assert(d.eject[d.eject.len() - 1] == e_in);
        assert(d.eject.contains(e_in));
        assert(!d0.eject.contains(e_in)) by {
            if d0.eject.contains(e_in) {
                let a = choose|a: int| 0 <= a < d0.eject.len() && d0.eject[a] == e_in;
                assert(d.eject[a] == d.eject[d.eject.len() - 1]);
            }
        }
        assert forall|e: Event| e != e_in implies (d0.eject.contains(e) <==> d.eject.contains(e)) by {
            if d0.eject.contains(e) {
                let a = choose|a: int| 0 <= a < d0.eject.len() && d0.eject[a] == e;
                assert(d.eject[a] == e);
            }
            if d.eject.contains(e) {
                let a = choose|a: int| 0 <= a < d.eject.len() && d.eject[a] == e;
                assert(d0.eject[a] == e);
            }
        }
        assert(d0.eject.no_duplicates());
        assert forall|i: int| 0 <= i < d0.eject.len() implies (#[trigger] d0.eject[i]).0
            < project.events.spec_len() by {
            assert(d0.eject[i] == d.eject[i]);
        }
        assert(sound_but(d0, project, e_in));
    }
    xx.evict_clashes(project, t, e_in, r_in);
    let ghost d1 = xx.draft();
    let spd = project.config.slots_per_day;
    let day = project.config.slots_to_day(t);
    proof {
        lemma_day_of_slot(spd as int, project.config.days as int, t as int);
        lemma_day_within(spd as int, project.config.days as int, day as int);
        lemma_day_range(spd as int, day as int, t as int);
    }
    let lo = day * spd;
    let hi = lo + spd;
    let k = project.events.kind(&e_in);
    let cap = project.events.max_per_day(&e_in);
    let b0 = if cap > 0 {
        cap - 1
    } else {
        0
    };
    let mut b = b0;
    let mut tt = lo;
    while tt < hi
        invariant
            lo <= tt <= hi,
            lo <= t < hi,
            hi <= project.config.num_slots,
            project.wf(),
            xx.draft().grid.len() == project.config.num_slots,
            sound_but(xx.draft(), project, e_in),
            walk_day(project, xx.draft(), tt as int, hi as int, k, b as nat) == walk_day(
                project,
                d1,
                lo as int,
                hi as int,
                k,
                b0 as nat,
            ),
            count_kind_slots(project, xx.draft().grid, lo as int, tt as int, k) + b == b0,
            forall|j: int|
                0 <= j < xx.draft().grid[t as int].len() ==> !clashes(
                    project,
                    #[trigger] xx.draft().grid[t as int][j],
                    e_in,
                    r_in,
                ),
        decreases hi - tt,
    {
        let ghost dd = xx.draft();
        let left = xx.evict_over_cap(project, tt, e_in, k, b);
        proof {
            let dn = xx.draft();
            let w = walk_cap(project, Seq::empty(), dd.grid[tt as int], dd.eject, k, b as nat);
            assert(w == (dn.grid[tt as int], dn.eject, left as nat));
            assert(dn == Draft { grid: dd.grid.update(tt as int, w.0), eject: w.1 });
            lemma_count_slots_update(
                project,
                dd.grid,
                lo as int,
                tt as int,
                tt as int,
                dn.grid[tt as int],
                k,
            );
            assert forall|j: int| 0 <= j < dn.grid[t as int].len() implies !clashes(
                project,
                #[trigger] dn.grid[t as int][j],
                e_in,
                r_in,
            ) by {
                if tt == t {
                    let y = dn.grid[t as int][j];
                    assert(dd.grid[t as int].contains(y));
                    let a = choose|a: int| 0 <= a < dd.grid[t as int].len() && dd.grid[t as int][a] == y;
                    assert(!clashes(project, dd.grid[t as int][a], e_in, r_in));
                } else {
                    assert(dn.grid[t as int] == dd.grid[t as int]);
                }
            }
        }
        b = left;
        tt += 1;
    }
    let ghost d2 = xx.draft();
    proof {
        assert(d2 == walk_day(project, d1, lo as int, hi as int, k, b0 as nat));
        assert(day_count(project, d2.grid, day as int, k) + b == b0);
        lemma_calm_slot(project, d2.grid[t as int], e_in, r_in);
        lemma_place_orderly(d2.grid, project, t as int, (e_in, r_in));
        let h = place(d2.grid, t as int, (e_in, r_in));
        project.events.lemma_wf();
        assert(caps_lenient(h, project)) by {
            assert forall|e: Event, dd: int|
                e.0 < project.events.spec_len() && 0 <= dd < project.config.days implies #[trigger] day_count(
                project,
                h,
                dd,
                project.events.spec_kind(e),
            ) <= lenient_cap(project, e) by {
                assert(day_count(project, d2.grid, dd, project.events.spec_kind(e)) <= lenient_cap(
                    project,
                    e,
                ));
            }
        }
    }
    xx.events[t].push((e_in, r_in));
    proof {
        let d3 = xx.draft();
        assert(d3.grid =~= place(d2.grid, t as int, (e_in, r_in)));
        assert(d3.eject == d2.eject);
        assert(d3 == candidate(project, d, t as int, r_in));
    }
    xx
}

/// The local best of `x`: the next waiting event is scheduled in every slot
/// and every room of the kind it needs, and the draft with the fewest waiting
/// events wins, the first of them where several have as few. Where the
/// event can go nowhere, the result is `x`. The result is sound.
pub fn find_local_best(project: &Project, x: &InitialSolution) -> (r: InitialSolution)
    requires
        project.wf(),
        sound(x.draft(), project),
        x.draft().eject.len() > 0,
    ensures
        r.draft() == local_best(project, x.draft()),
        sound(r.draft(), project),
{
    let ghost d = x.draft();
    let e_in = x.next_event();
    assert(d.eject[d.eject.len() - 1].0 < project.events.spec_len());
    let rooms = project.rooms.rooms_with_kind(&project.events.room_kind(&e_in));
    let slots = project.config.num_slots;
    let ghost all = product(slots as int, rooms@);
    let ghost width = rooms.len() as int;
    let mut best: Option<InitialSolution> = None;
    let mut t: usize = 0;
    assert(0 * width == 0);
    while t < slots
        invariant
            t <= slots,
            project.wf(),
            d == x.draft(),
            sound(d, project),
            d.eject.len() > 0,
            e_in == d.eject.last(),
            slots == project.config.num_slots,
            width == rooms.len(),
            all == product(slots as int, rooms@),
            forall|i: int|
                0 <= i < rooms.len() ==> (#[trigger] rooms[i]).0 < project.rooms.spec_len()
                    && project.rooms.spec_room_kind(rooms[i]) == project.events.spec_room_kind(
                    e_in,
                ),
            best is None <==> best_of(project, d, all, t * width) is None,
            best is Some ==> best.unwrap().draft() == best_of(project, d, all, t * width).unwrap()
                && sound(best.unwrap().draft(), project),
        decreases slots - t,
    {
        let pairs = slot_room_pairs(t, &rooms);
        let mut j: usize = 0;
        while j < pairs.len()
            invariant
                j <= pairs.len(),
                t < slots,
                project.wf(),
                d == x.draft(),
                sound(d, project),
                d.eject.len() > 0,
                e_in == d.eject.last(),
                slots == project.config.num_slots,
                width == rooms.len(),
                all == product(slots as int, rooms@),
                pairs@ == Seq::new(rooms@.len(), |k: int| (t, rooms@[k])),
                forall|i: int|
                    0 <= i < rooms.len() ==> (#[trigger] rooms[i]).0 < project.rooms.spec_len()
                        && project.rooms.spec_room_kind(rooms[i])
                        == project.events.spec_room_kind(e_in),
                best is None <==> best_of(project, d, all, t * width + j) is None,
                best is Some ==> best.unwrap().draft() == best_of(
                    project,
                    d,
                    all,
                    t * width + j,
                ).unwrap() && sound(best.unwrap().draft(), project),
            decreases pairs.len() - j,
        {
            proof {
                lemma_product_at(slots as int, rooms@, t as int, j as int);
            }
            let (slot, r_in) = pairs[j];
            let next = make_candidate(project, x, slot, r_in);
            best = match best {
                None => Some(next),
                Some(b) => if next.unassigned() < b.unassigned() {
                    Some(next)
                } else {
                    Some(b)
                },
            };
            j += 1;
        }
        assert((t + 1) * width == t * width + width) by (nonlinear_arith);
        t += 1;
    }
    assert(all.len() == slots * width) by {
        assert(0 <= slots * width) by (nonlinear_arith)
            requires
                0 <= slots,
                0 <= width,
        ;
    }
    match best {
        None => x.duplicate(),
        Some(b) => b,
    }
}

/// Position `t * rooms + j` of `product` names slot `t` and room `j`.
proof fn lemma_product_at(slots: int, rooms: Seq<Room>, t: int, j: int)
    requires
        0 <= t < slots,
        0 <= j < rooms.len(),
        slots <= usize::MAX,
    ensures
        0 <= t * rooms.len() + j < product(slots, rooms).len(),
        product(slots, rooms)[t * rooms.len() + j] == (t as usize, rooms[j]),
{
    let w = rooms.len() as int;
    let c = t * w + j;
    assert(0 <= c < slots * w) by (nonlinear_arith)
        requires
            0 <= t < slots,
            0 <= j < w,
            c == t * w + j,
    ;
    vstd::arithmetic::div_mod::lemma_fundamental_div_mod_converse(c, w, t, j);
}

/// The tabu queue after `g` has joined it: where the queue was full, its
/// oldest entry has left.
pub open spec fn remember(tabu: Seq<Grid>, g: Grid, size: nat) -> Seq<Grid> {
    if tabu.len() == size && tabu.len() > 0 {
        tabu.skip(1).push(g)
    } else {
        tabu.push(g)
    }
}

/// The tabu search from the draft `d`: `None` after `iters` local steps
/// without success. A step computes the local best; with no event waiting
/// there, that is the result; otherwise the search goes on from it and
/// remembers it, unless its timetable is in the tabu queue: then the search
/// stays where it is.
pub open spec fn tabu_run(p: &Project, d: Draft, tabu: Seq<Grid>, size: nat, iters: nat) -> Option<
    Grid,
>
    decreases iters,
{
    if d.eject.len() == 0 {
        Some(d.grid)
    } else if iters == 0 {
        None
    } else {
        let lb = local_best(p, d);
        if lb.eject.len() == 0 {
            Some(lb.grid)
        } else if tabu.contains(lb.grid) {
            tabu_run(p, d, tabu, size, (iters - 1) as nat)
        } else {
            tabu_run(p, lb, remember(tabu, lb.grid, size), size, (iters - 1) as nat)
        }
    }
}

/// The constructive search from the draft `d`: `None` after `iters` local
/// steps without success. A step computes the local best, which is the
/// result with no event waiting there, and where the search goes on
/// otherwise.
pub open spec fn constructive_run(p: &Project, d: Draft, iters: nat) -> Option<Grid>
    decreases iters,
{
    if d.eject.len() == 0 {
        Some(d.grid)
    } else if iters == 0 {
        None
    } else {
        let lb = local_best(p, d);
        if lb.eject.len() == 0 {
            Some(lb.grid)
        } else {
            constructive_run(p, lb, (iters - 1) as nat)
        }
    }
}

/// What holds of a timetable that a search gives: it is feasible, a daily
/// cap of zero taken as one, since the search schedules an event whatever
/// its cap; so it is feasible where every cap allows one event at least.
pub open spec fn settled(g: Grid, p: &Project) -> bool {
    feasible_leniently(g, p) && (caps_positive(p) ==> feasible(g, p))
}

/// A sound draft with no event waiting is settled.
pub proof fn lemma_done(d: Draft, p: &Project)
    requires
        sound(d, p),
        d.eject.len() == 0,
    ensures
        settled(d.grid, p),
{
    assert forall|e: Event| e.0 < p.events.spec_len() implies occurs(d.grid, e) by {
        assert(!d.eject.contains(e));
    }
    if caps_positive(p) {
        lemma_lenient(d.grid, p);
    }
}

/// The timetables of a tabu queue.
pub open spec fn grids(tabu: Seq<TIMEMAP>) -> Seq<Grid> {
    Seq::new(tabu.len(), |i: int| grid_of(tabu[i]@))
}

/// Whether the tabu queue holds the timetable `tm`.
fn tabu_holds(tabu: &VecDeque<TIMEMAP>, tm: &TIMEMAP) -> (found: bool)
    ensures
        found == grids(tabu@).contains(grid_of(tm@)),
{
    let mut i: usize = 0;
    while i < tabu.len()
        invariant
            i <= tabu.len(),
            forall|j: int| 0 <= j < i ==> grids(tabu@)[j] != grid_of(tm@),
        decreases tabu.len() - i,
    {
        if same_timemap(&tabu[i], tm) {
            assert(grids(tabu@)[i as int] == grid_of(tm@));
            return true;
        }
        i += 1;
    }
    false
}

/// The tabu search from `x`, for `max_iter_initial` local steps at most, with
/// a tabu queue of `tabu_size` timetables. A result is settled.
pub fn tabu_search(project: &Project, x: InitialSolution) -> (r: Option<TIMEMAP>)
    requires
        project.wf(),
        sound(x.draft(), project),
    ensures
        r is Some <==> tabu_run(
            project,
            x.draft(),
            Seq::empty(),
            project.config.tabu_size as nat,
            project.config.max_iter_initial as nat,
        ) is Some,
        r is Some ==> Some(grid_of(r.unwrap()@)) == tabu_run(
            project,
            x.draft(),
            Seq::empty(),
            project.config.tabu_size as nat,
            project.config.max_iter_initial as nat,
        ) && settled(grid_of(r.unwrap()@), project),
{
    let ghost d0 = x.draft();
    let size = project.config.tabu_size;
    let iters = project.config.max_iter_initial;
    let mut cur = x;
    if cur.unassigned() == 0 {
        proof {
            lemma_done(cur.draft(), project);
        }
        return Some(cur.into_events());
    }
    let mut tabu: VecDeque<TIMEMAP> = VecDeque::new();
    assert(grids(tabu@) =~= Seq::<Grid>::empty());
    let mut it: usize = 0;
    while it < iters
        invariant
            it <= iters,
            project.wf(),
            iters == project.config.max_iter_initial,
            size == project.config.tabu_size,
            d0 == x.draft(),
            sound(cur.draft(), project),
            cur.draft().eject.len() > 0,
            tabu_run(project, cur.draft(), grids(tabu@), size as nat, (iters - it) as nat)
                == tabu_run(project, d0, Seq::empty(), size as nat, iters as nat),
        decreases iters - it,
    {
        let local_best = find_local_best(project, &cur);
        if local_best.unassigned() == 0 {
            proof {
                lemma_done(local_best.draft(), project);
            }
            return Some(local_best.into_events());
        }
        if !tabu_holds(&tabu, local_best.events()) {
            let ghost before = grids(tabu@);
            if tabu.len() == size {
                let _ = tabu.pop_front();
                assert(before.len() > 0 ==> grids(tabu@) =~= before.skip(1));
                assert(before.len() == 0 ==> grids(tabu@) =~= before);
            }
            let ghost mid = grids(tabu@);
            tabu.push_back(copy_timemap(local_best.events()));
            assert(grids(tabu@) =~= mid.push(local_best.draft().grid));
            cur = local_best;
        }
        it += 1;
    }
    None
}

/// The constructive search from `x`, for `max_iter_initial` local steps at
/// most. A result is settled.
pub fn constructive_search(project: &Project, x: InitialSolution) -> (r: Option<TIMEMAP>)
    requires
        project.wf(),
        sound(x.draft(), project),
    ensures
        r is Some <==> constructive_run(
            project,
            x.draft(),
            project.config.max_iter_initial as nat,
        ) is Some,
        r is Some ==> Some(grid_of(r.unwrap()@)) == constructive_run(
            project,
            x.draft(),
            project.config.max_iter_initial as nat,
        ) && settled(grid_of(r.unwrap()@), project),
{
    let ghost d0 = x.draft();
    let iters = project.config.max_iter_initial;
    let mut cur = x;
    if cur.unassigned() == 0 {
        proof {
            lemma_done(cur.draft(), project);
        }
        return Some(cur.into_events());
    }
    let mut it: usize = 0;
    while it < iters
        invariant
            it <= iters,
            project.wf(),
            iters == project.config.max_iter_initial,
            d0 == x.draft(),
            sound(cur.draft(), project),
            cur.draft().eject.len() > 0,
            constructive_run(project, cur.draft(), (iters - it) as nat) == constructive_run(
                project,
                d0,
                iters as nat,
            ),
        decreases iters - it,
    {
        let local_best = find_local_best(project, &cur);
        if local_best.unassigned() == 0 {
            proof {
                lemma_done(local_best.draft(), project);
            }
            return Some(local_best.into_events());
        }
        cur = local_best;
        it += 1;
    }
    None
}


/// The draft that a search starts from: nothing is scheduled and every event
/// of the project waits once.
pub open spec fn fresh(d: Draft, p: &Project) -> bool {
    &&& d.grid.len() == p.config.num_slots
    &&& forall|t: int| 0 <= t < d.grid.len() ==> (#[trigger] d.grid[t]).len() == 0
    &&& d.eject.no_duplicates()
    &&& forall|e: Event| d.eject.contains(e) <==> e.0 < p.events.spec_len()
}

/// A grid of empty slots holds no event of any kind.
proof fn lemma_empty_counts(p: &Project, g: Grid, lo: int, hi: int, k: EventKind)
    requires
        0 <= lo,
        hi <= g.len(),
        forall|t: int| 0 <= t < g.len() ==> (#[trigger] g[t]).len() == 0,
    ensures
        count_kind_slots(p, g, lo, hi, k) == 0,
    decreases hi - lo,
{
    if hi > lo {
        lemma_empty_counts(p, g, lo, hi - 1, k);
        assert(g[hi - 1].len() == 0);
    }
}

/// A fresh draft is sound.
pub proof fn lemma_fresh_sound(d: Draft, p: &Project)
    requires
        p.wf(),
        fresh(d, p),
    ensures
        sound(d, p),
{
    let g = d.grid;
    assert forall|e: Event| !occurs(g, e) by {
        if occurs(g, e) {
            let (t, i) = choose|t: int, i: int|
                0 <= t < g.len() && 0 <= i < g[t].len() && (#[trigger] g[t][i]).0 == e;
            assert(g[t].len() == 0);
        }
    }
    assert(caps_lenient(g, p)) by {
        assert forall|e: Event, day: int|
            e.0 < p.events.spec_len() && 0 <= day < p.config.days implies #[trigger] day_count(
            p,
            g,
            day,
            p.events.spec_kind(e),
        ) <= lenient_cap(p, e) by {
            lemma_day_within(p.config.slots_per_day as int, p.config.days as int, day);
            lemma_empty_counts(
                p,
                g,
                day * p.config.slots_per_day,
                day * p.config.slots_per_day + p.config.slots_per_day,
                p.events.spec_kind(e),
            );
        }
    }
    assert forall|i: int| 0 <= i < d.eject.len() implies (#[trigger] d.eject[i]).0
        < p.events.spec_len() by {
        assert(d.eject.contains(d.eject[i]));
    }
}

/// A fresh timetable under construction, the events waiting in a random
/// order.
pub fn start(project: &Project) -> (x: InitialSolution)
    requires
        project.wf(),
    ensures
        fresh(x.draft(), project),
        sound(x.draft(), project),
{
    let all = project.events.iter_all();
    let ghost listed = all@;
    let x = InitialSolution::new(all, project.config.iter_slots());
    proof {
        let d = x.draft();
        assert(listed.no_duplicates());
        lemma_same_items(d.eject, listed);
        assert forall|e: Event| listed.contains(e) <==> e.0 < project.events.spec_len() by {
            if e.0 < project.events.spec_len() {
                assert(listed[e.0 as int] == e);
            }
        }
        listed.lemma_multiset_has_no_duplicates();
        d.eject.lemma_multiset_has_no_duplicates_conv();
        lemma_fresh_sound(d, project);
    }
    x
}

/// The tabu search from a fresh draft, the events waiting in a random order.
/// A result is settled: a feasible timetable, where every daily cap allows
/// one event at least. There is one exactly if the search from that draft
/// succeeds, as there is where the project has no event.
pub fn find_initial_solution_tabu(project: &Project) -> (r: Option<TIMEMAP>)
    requires
        project.wf(),
    ensures
        r is Some ==> settled(grid_of(r.unwrap()@), project),
        project.events.spec_len() == 0 ==> r is Some,
        attempted(
            project,
            Method::Tabu,
            match r {
                Some(tm) => Some(grid_of(tm@)),
                None => None,
            },
        ),
{
    let x = start(project);
    let ghost d = x.draft();
    proof {
        if project.events.spec_len() == 0 {
            if d.eject.len() > 0 {
                assert(d.eject.contains(d.eject[0]));
            }
        }
    }
    let r = tabu_search(project, x);
    assert(fresh(d, project) && outcome(project, Method::Tabu, d) == match r {
        Some(tm) => Some(grid_of(tm@)),
        None => None::<Grid>,
    });
    r
}

/// The constructive search from a fresh draft, the events waiting in a
/// random order. A result is settled: a feasible timetable, where every
/// daily cap allows one event at least. There is one exactly if the search
/// from that draft succeeds, as there is where the project has no event.
pub fn find_initial_solution_constructive(project: &Project) -> (r: Option<TIMEMAP>)
    requires
        project.wf(),
    ensures
        r is Some ==> settled(grid_of(r.unwrap()@), project),
        project.events.spec_len() == 0 ==> r is Some,
        attempted(
            project,
            Method::Constructive,
            match r {
                Some(tm) => Some(grid_of(tm@)),
                None => None,
            },
        ),
{
    let x = start(project);
    let ghost d = x.draft();
    proof {
        if project.events.spec_len() == 0 {
            if d.eject.len() > 0 {
                assert(d.eject.contains(d.eject[0]));
            }
        }
    }
    let r = constructive_search(project, x);
    assert(fresh(d, project) && outcome(project, Method::Constructive, d) == match r {
        Some(tm) => Some(grid_of(tm@)),
        None => None::<Grid>,
    });
    r
}

/// The project names a method of search that there is not.
#[derive(Debug, Clone, Copy, PartialEq, Eq, Structural)]
pub struct InvalidMethod;

/// The method of search that the project names.
#[derive(Debug, Clone, Copy, PartialEq, Eq, Structural)]
pub enum Method {
    Tabu,
    Constructive,
}

/// The method that `name` names: `tabu` or `constructive`.
pub fn method_of(name: &String) -> (m: Option<Method>)
    ensures
        m == method_named(name@),
{
    let tabu = "tabu".to_owned();
    let constructive = "constructive".to_owned();
    if *name == tabu {
        Some(Method::Tabu)
    } else if *name == constructive {
        Some(Method::Constructive)
    } else {
        None
    }
}

/// What the search of method `m` gives from the draft `d`.
pub open spec fn outcome(p: &Project, m: Method, d: Draft) -> Option<Grid> {
    match m {
        Method::Tabu => tabu_run(
            p,
            d,
            Seq::empty(),
            p.config.tabu_size as nat,
            p.config.max_iter_initial as nat,
        ),
        Method::Constructive => constructive_run(p, d, p.config.max_iter_initial as nat),
    }
}

/// The search of method `m` gives `r` from some fresh draft.
pub open spec fn attempted(p: &Project, m: Method, r: Option<Grid>) -> bool {
    exists|d: Draft| #[trigger] fresh(d, p) && outcome(p, m, d) == r
}

/// The method that the text `name` names.
pub open spec fn method_named(name: Seq<char>) -> Option<Method> {
    if name == "tabu"@ {
        Some(Method::Tabu)
    } else if name == "constructive"@ {
        Some(Method::Constructive)
    } else {
        None
    }
}

/// Runs the search that the project names, `initial_attempts` times at most,
/// each from a fresh draft, and returns the first result. A result is a
/// settled timetable (feasible, where every daily cap allows one event at
/// least) that the search gives from some fresh draft; where
/// there is none although an attempt was made, the search fails from some
/// fresh draft.
pub fn find_initial_solution(project: &Project) -> (r: Result<Option<TIMEMAP>, InvalidMethod>)
    requires
        project.wf(),
    ensures
        r is Err <==> method_named(project.config.initial_method@) is None,
        r matches Ok(Some(tm)) ==> settled(grid_of(tm@), project) && attempted(
            project,
            method_named(project.config.initial_method@).unwrap(),
            Some(grid_of(tm@)),
        ),
        r matches Ok(None) ==> project.config.initial_attempts == 0 || attempted(
            project,
            method_named(project.config.initial_method@).unwrap(),
            None,
        ),
        r is Ok && project.config.initial_attempts == 0 ==> r == Ok::<
            Option<TIMEMAP>,
            InvalidMethod,
        >(None),
        r is Ok && project.config.initial_attempts > 0 && project.events.spec_len() == 0 ==> (
        r matches Ok(Some(_))),
{
    let method = match method_of(&project.config.initial_method) {
        None => {
            return Err(InvalidMethod);
        },
        Some(m) => m,
    };
    let attempts = project.config.initial_attempts;
    let mut i: usize = 0;
    while i < attempts
        invariant
            i <= attempts,
            project.wf(),
            attempts == project.config.initial_attempts,
            method_named(project.config.initial_method@) == Some(method),
            i > 0 ==> project.events.spec_len() != 0,
            i > 0 ==> attempted(project, method, None),
        decreases attempts - i,
    {
        let found = match method {
            Method::Tabu => find_initial_solution_tabu(project),
            Method::Constructive => find_initial_solution_constructive(project),
        };
        match found {
            Some(s) => {
                return Ok(Some(s));
            },
            None => {},
        }
        i += 1;
    }
    Ok(None)
}

} // verus!
