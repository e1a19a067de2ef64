//! A timetable with its cached counts of events per day and kind.

use crate::grid::{blocked, countable, count_kind, count_kind_slots, day_count, grid_of, lemma_count_kind_bound, lemma_count_slots_bound, lemma_day_within, lemma_placed_monotone, lemma_placed_split, place, placed, remove_at, Grid};
use crate::random::shuffle;
use crate::project::{Event, EventKind, Project, Room};
use vstd::prelude::*;

verus! {

/// One vector of `(event, room)` pairs per slot of the week.
pub type TIMEMAP = Vec<Vec<(Event, Room)>>;

/// A timetable and, per day and kind of event, a count that `fill_counter`
/// brings up to date.
#[derive(Debug)]
pub struct Solution {
    events: TIMEMAP,
    counter: Vec<Vec<usize>>,
}

/// The pairs of the slots `lo..hi` of `g`, slot by slot, each with its slot.
pub open spec fn entries(g: Grid, lo: int, hi: int) -> Seq<(usize, Event, Room)>
    decreases hi - lo,
{
    if hi <= lo {
        Seq::empty()
    } else {
        entries(g, lo, hi - 1) + Seq::new(
            g[hi - 1].len(),
            |i: int| ((hi - 1) as usize, g[hi - 1][i].0, g[hi - 1][i].1),
        )
    }
}

/// Every element of `entries` is a pair of the grid with its slot.
pub proof fn lemma_entries_member(g: Grid, lo: int, hi: int, x: (usize, Event, Room))
    requires
        0 <= lo,
        hi <= usize::MAX,
        entries(g, lo, hi).contains(x),
    ensures
        lo <= x.0 < hi,
        g[x.0 as int].contains((x.1, x.2)),
    decreases hi - lo,
{
    if hi > lo {
        let head = entries(g, lo, hi - 1);
        let tail = Seq::new(
            g[hi - 1].len(),
            |i: int| ((hi - 1) as usize, g[hi - 1][i].0, g[hi - 1][i].1),
        );
        let w = choose|w: int| 0 <= w < (head + tail).len() && (head + tail)[w] == x;
        if w < head.len() {
            assert(head[w] == x);
            lemma_entries_member(g, lo, hi - 1, x);
        } else {
            let i = w - head.len();
            assert(tail[i] == x);
            assert(g[hi - 1][i] == (x.1, x.2));
        }
    }
}

/// Every pair of the slots `lo..hi` is an element of `entries`.
pub proof fn lemma_entries_has(g: Grid, lo: int, hi: int, t: int, i: int)
    requires
        lo <= t < hi,
        0 <= i < g[t].len(),
    ensures
        entries(g, lo, hi).contains((t as usize, g[t][i].0, g[t][i].1)),
    decreases hi - lo,
{
    let head = entries(g, lo, hi - 1);
    let tail = Seq::new(
        g[hi - 1].len(),
        |i: int| ((hi - 1) as usize, g[hi - 1][i].0, g[hi - 1][i].1),
    );
    let x = (t as usize, g[t][i].0, g[t][i].1);
    if t == hi - 1 {
        assert((head + tail)[head.len() + i] == x);
    } else {
        lemma_entries_has(g, lo, hi - 1, t, i);
        let w = choose|w: int| 0 <= w < head.len() && head[w] == x;
        assert((head + tail)[w] == x);
    }
}

/// The position of the first pair of `slot` whose event is `e`.
pub fn find_event(slot: &Vec<(Event, Room)>, e: Event) -> (found: Option<usize>)
    ensures
        found is None <==> forall|j: int| 0 <= j < slot.len() ==> (#[trigger] slot[j]).0 != e,
        found is Some ==> {
            let i = found.unwrap();
            &&& i < slot.len()
            &&& slot[i as int].0 == e
            &&& forall|j: int| 0 <= j < i ==> (#[trigger] slot[j]).0 != e
        },
{
    let mut i: usize = 0;
    while i < slot.len()
        invariant
            i <= slot.len(),
            forall|j: int| 0 <= j < i ==> (#[trigger] slot[j]).0 != e,
        decreases slot.len() - i,
    {
        if slot[i].0 == e {
            return Some(i);
        }
        i += 1;
    }
    None
}

/// `g` with the slots `lo..hi` emptied.
pub open spec fn cleared(g: Grid, lo: int, hi: int) -> Grid {
    Seq::new(
        g.len(),
        |t: int|
            if lo <= t < hi {
                Seq::empty()
            } else {
                g[t]
            },
    )
}

/// A copy of a slot.
pub fn copy_slot(slot: &Vec<(Event, Room)>) -> (r: Vec<(Event, Room)>)
    ensures
        r@ == slot@,
{
    let mut r: Vec<(Event, Room)> = Vec::new();
    let mut i: usize = 0;
    while i < slot.len()
        invariant
            i <= slot.len(),
            r@ == slot@.take(i as int),
        decreases slot.len() - i,
    {
        r.push(slot[i]);
        i += 1;
    }
    r
}

/// A copy of a timetable.
pub fn copy_timemap(tm: &TIMEMAP) -> (r: TIMEMAP)
    ensures
        grid_of(r@) == grid_of(tm@),
{
    let mut r: TIMEMAP = Vec::new();
    let mut t: usize = 0;
    while t < tm.len()
        invariant
            t <= tm.len(),
            r.len() == t,
            forall|u: int| 0 <= u < t ==> (#[trigger] r[u])@ == tm[u]@,
        decreases tm.len() - t,
    {
        r.push(copy_slot(&tm[t]));
        t += 1;
    }
    assert(grid_of(r@) =~= grid_of(tm@));
    r
}

/// Whether two timetables hold the same pairs in the same order.
pub fn same_timemap(a: &TIMEMAP, b: &TIMEMAP) -> (same: bool)
    ensures
        same == (grid_of(a@) == grid_of(b@)),
{
    if a.len() != b.len() {
        assert(grid_of(a@).len() != grid_of(b@).len());
        return false;
    }
    let mut t: usize = 0;
    while t < a.len()
        invariant
            t <= a.len(),
            a.len() == b.len(),
            forall|u: int| 0 <= u < t ==> (#[trigger] a[u])@ == b[u]@,
        decreases a.len() - t,
    {
        if a[t].len() != b[t].len() {
            assert(grid_of(a@)[t as int].len() != grid_of(b@)[t as int].len());
            return false;
        }
        let mut i: usize = 0;
        while i < a[t].len()
            invariant
                t < a.len(),
                a.len() == b.len(),
                i <= a[t as int].len(),
                a[t as int].len() == b[t as int].len(),
                forall|j: int| 0 <= j < i ==> a[t as int][j] == b[t as int][j],
            decreases a[t as int].len() - i,
        {
            let x = a[t][i];
            let y = b[t][i];
            if x.0 != y.0 || x.1 != y.1 {
                assert(grid_of(a@)[t as int][i as int] != grid_of(b@)[t as int][i as int]);
                return false;
            }
            i += 1;
        }
        assert(a[t as int]@ =~= b[t as int]@);
        t += 1;
    }
    assert(grid_of(a@) =~= grid_of(b@));
    true
}

impl Solution {
    /// The timetable.
    pub closed spec fn grid(&self) -> Grid {
        grid_of(self.events@)
    }

    /// The cached counts, one row per day and one entry per kind.
    pub closed spec fn counts(&self) -> Seq<Seq<usize>> {
        Seq::new(self.counter@.len(), |d: int| self.counter@[d]@)
    }

    /// The cached counts are those of the timetable: one row per day of the
    /// grid, one entry per kind, each the number of events of that kind that
    /// the timetable schedules on that day.
    pub open spec fn counter_filled(&self, p: &Project) -> bool {
        &&& self.counts().len() == p.config.days
        &&& forall|d: int|
            0 <= d < p.config.days ==> (#[trigger] self.counts()[d]).len()
                == p.events.spec_kinds_len()
        &&& forall|d: int, k: int|
            0 <= d < p.config.days && 0 <= k < p.events.spec_kinds_len()
                ==> #[trigger] self.counts()[d][k] == day_count(
                p,
                self.grid(),
                d,
                EventKind(k as usize),
            )
    }

    /// A solution that holds `events`, with no counts yet.
    pub fn new(events: TIMEMAP) -> (s: Solution)
        ensures
            s.grid() == grid_of(events@),
            s.counts().len() == 0,
    {
        Solution { events, counter: Vec::new() }
    }

    /// A copy of this solution.
    pub fn duplicate(&self) -> (s: Solution)
        ensures
            s.grid() == self.grid(),
            s.counts() == self.counts(),
    {
        let events = copy_timemap(&self.events);
        let mut counter: Vec<Vec<usize>> = Vec::new();
        let mut d: usize = 0;
        while d < self.counter.len()
            invariant
                d <= self.counter.len(),
                counter.len() == d,
                forall|c: int| 0 <= c < d ==> (#[trigger] counter[c])@ == self.counter[c]@,
            decreases self.counter.len() - d,
        {
            let row = &self.counter[d];
            let mut copy: Vec<usize> = Vec::new();
            let mut k: usize = 0;
            while k < row.len()
                invariant
                    k <= row.len(),
                    copy@ == row@.take(k as int),
                decreases row.len() - k,
            {
                copy.push(row[k]);
                k += 1;
            }
            counter.push(copy);
            d += 1;
        }
        let s = Solution { events, counter };
        assert(s.counts() =~= self.counts());
        s
    }

    /// Every pair of the timetable with its slot, slot by slot.
    pub fn iter_all(&self) -> (all: Vec<(usize, Event, Room)>)
        ensures
            all@ == entries(self.grid(), 0, self.grid().len() as int),
    {
        let mut all: Vec<(usize, Event, Room)> = Vec::new();
        let mut t: usize = 0;
        while t < self.events.len()
            invariant
                t <= self.events.len(),
                all@ == entries(self.grid(), 0, t as int),
            decreases self.events.len() - t,
        {
            let slot = &self.events[t];
            let ghost head = all@;
            let mut i: usize = 0;
            while i < slot.len()
                invariant
                    i <= slot.len(),
                    t < self.events.len(),
                    slot@ == self.grid()[t as int],
                    all@ == head + Seq::new(i as nat, |j: int| (t, slot@[j].0, slot@[j].1)),
                decreases slot.len() - i,
            {
                all.push((t, slot[i].0, slot[i].1));
                assert(all@ =~= head + Seq::new(
                    (i + 1) as nat,
                    |j: int| (t, slot@[j].0, slot@[j].1),
                ));
                i += 1;
            }
            assert(all@ =~= entries(self.grid(), 0, t + 1));
            t += 1;
        }
        all
    }

    /// Every pair of the timetable with its slot, in a random order.
    pub fn iter_all_shuffle(&self) -> (all: Vec<(usize, Event, Room)>)
        ensures
            all@.to_multiset() == entries(self.grid(), 0, self.grid().len() as int).to_multiset(),
    {
        let mut all = self.iter_all();
        shuffle(&mut all);
        all
    }

    /// Takes the pair at position `i` of slot `t` out of the timetable. The
    /// counts are not brought up to date.
    pub fn take_out(&mut self, t: usize, i: usize) -> (x: (Event, Room))
        requires
            t < old(self).grid().len(),
            i < old(self).grid()[t as int].len(),
        ensures
            x == old(self).grid()[t as int][i as int],
            final(self).grid() == remove_at(old(self).grid(), t as int, i as int),
            final(self).counts() == old(self).counts(),
    {
        let ghost before = *self;
        let x = self.events[t].remove(i);
        proof {
            assert(self.counts() =~= before.counts());
            assert(self.grid() =~= remove_at(before.grid(), t as int, i as int));
        }
        x
    }

    /// Adds the pair `x` at the end of slot `t`. The counts are not brought
    /// up to date.
    pub fn put_in(&mut self, t: usize, x: (Event, Room))
        requires
            t < old(self).grid().len(),
        ensures
            final(self).grid() == place(old(self).grid(), t as int, x),
            final(self).counts() == old(self).counts(),
    {
        let ghost before = *self;
        self.events[t].push(x);
        proof {
            assert(self.counts() =~= before.counts());
            assert(self.grid() =~= place(before.grid(), t as int, x));
        }
    }

    /// Exchanges the pairs of slot `a` with those of slot `b`. The counts
    /// are not brought up to date.
    pub fn swap_slots(&mut self, a: usize, b: usize)
        requires
            a < old(self).grid().len(),
            b < old(self).grid().len(),
        ensures
            final(self).grid() == old(self).grid().update(
                a as int,
                old(self).grid()[b as int],
            ).update(b as int, old(self).grid()[a as int]),
            final(self).counts() == old(self).counts(),
    {
        if a == b {
            assert(self.grid() =~= self.grid().update(a as int, self.grid()[b as int]).update(
                b as int,
                self.grid()[a as int],
            ));
            return;
        }
        let ghost before = *self;
        let mut held: Vec<(Event, Room)> = Vec::new();
        std::mem::swap(&mut held, &mut self.events[a]);
        std::mem::swap(&mut held, &mut self.events[b]);
        std::mem::swap(&mut held, &mut self.events[a]);
        proof {
            assert(self.counts() =~= before.counts());
            assert(self.grid() =~= before.grid().update(a as int, before.grid()[b as int]).update(
                b as int,
                before.grid()[a as int],
            ));
        }
    }

    /// The timetable.
    pub fn inner(&self) -> (tm: &TIMEMAP)
        ensures
            grid_of(tm@) == self.grid(),
    {
        &self.events
    }

    /// The timetable, without the counts.
    pub fn into_inner(self) -> (tm: TIMEMAP)
        ensures
            grid_of(tm@) == self.grid(),
    {
        self.events
    }

    /// Brings the cached counts up to date with the timetable, which covers
    /// the week, names known events and holds no more pairs than a machine
    /// word counts (`countable`).
    pub fn fill_counter(&mut self, project: &Project)
        requires
            project.wf(),
            countable(old(self).grid(), project),
        ensures
            final(self).grid() == old(self).grid(),
            final(self).counter_filled(project),
    {
        let days = project.config.days;
        let kinds = project.events.kinds_len();
        let spd = project.config.slots_per_day;
        let ghost g = self.grid();
        let mut counter: Vec<Vec<usize>> = Vec::new();
        let mut day: usize = 0;
        while day < days
            invariant
                day <= days,
                project.wf(),
                days == project.config.days,
                kinds == project.events.spec_kinds_len(),
                spd == project.config.slots_per_day,
                g == self.grid(),
                g == grid_of(self.events@),
                countable(g, project),
                counter.len() == day,
                forall|d: int| 0 <= d < day ==> (#[trigger] counter[d]).len() == kinds,
                forall|d: int, k: int|
                    0 <= d < day && 0 <= k < kinds ==> #[trigger] counter[d][k] == day_count(
                        project,
                        g,
                        d,
                        EventKind(k as usize),
                    ),
            decreases days - day,
        {
            proof {
                lemma_day_within(spd as int, days as int, day as int);
            }
            let begin = day * spd;
            let end = begin + spd;
            let mut row: Vec<usize> = Vec::new();
            let mut k: usize = 0;
            while k < kinds
                invariant
                    k <= kinds,
                    row.len() == k,
                    forall|c: int| 0 <= c < k ==> row[c] == 0,
                decreases kinds - k,
            {
                row.push(0);
                k += 1;
            }
            let mut t: usize = begin;
            while t < end
                invariant
                    begin <= t <= end,
                    end <= g.len(),
                    project.wf(),
                    kinds == project.events.spec_kinds_len(),
                    g == grid_of(self.events@),
                    countable(g, project),
                    row.len() == kinds,
                    forall|c: int|
                        0 <= c < kinds ==> #[trigger] row[c] == count_kind_slots(
                            project,
                            g,
                            begin as int,
                            t as int,
                            EventKind(c as usize),
                        ),
                decreases end - t,
            {
                let slot = &self.events[t];
                let ghost base = row@;
                let mut i: usize = 0;
                while i < slot.len()
                    invariant
                        i <= slot.len(),
                        begin <= t < end,
                        end <= g.len(),
                        project.wf(),
                        kinds == project.events.spec_kinds_len(),
                        g == grid_of(self.events@),
                        countable(g, project),
                        slot@ == g[t as int],
                        row.len() == kinds,
                        base.len() == kinds,
                        forall|c: int|
                            0 <= c < kinds ==> #[trigger] base[c] == count_kind_slots(
                                project,
                                g,
                                begin as int,
                                t as int,
                                EventKind(c as usize),
                            ),
                        forall|c: int|
                            0 <= c < kinds ==> #[trigger] row[c] == base[c] + count_kind(
                                project,
                                slot@.take(i as int),
                                EventKind(c as usize),
                            ),
                    decreases slot.len() - i,
                {
                    assert(g[t as int][i as int].0.0 < project.events.spec_len());
                    let kind = project.events.kind(&slot[i].0);
                    proof {
                        let next = slot@.take(i + 1);
                        assert(next.drop_last() == slot@.take(i as int));
                        assert(next.last() == slot@[i as int]);
                        // the count stays below the number of pairs of the timetable
                        lemma_count_slots_bound(project, g, begin as int, t as int, kind);
                        lemma_count_kind_bound(project, next, kind);
                        lemma_placed_split(g, begin as int, t as int, t + 1);
                        lemma_placed_monotone(g, begin as int, t + 1, 0, g.len() as int);
                        assert(placed(g, t as int, t + 1) == g[t as int].len()) by {
                            assert(placed(g, t as int, t as int) == 0);
                        }
                        assert(EventKind(kind.0 as int as usize) == kind);
                    }
                    let ghost before = row@;
                    row[kind.0] = row[kind.0] + 1;
                    assert forall|c: int| 0 <= c < kinds implies #[trigger] row[c] == base[c]
                        + count_kind(project, slot@.take(i + 1), EventKind(c as usize)) by {
                        assert(slot@.take(i + 1).drop_last() == slot@.take(i as int));
                        if c != kind.0 {
                            assert(EventKind(c as usize) != kind);
                        }
                    }
                    i += 1;
                }
                assert(slot@.take(slot.len() as int) == slot@);
                t += 1;
            }
            counter.push(row);
            day += 1;
        }
        self.counter = counter;
        assert(self.grid() == g);
    }

    /// The cached count of events of kind `kind` on day `day`.
    pub fn same_kind_events(&self, day: usize, kind: EventKind) -> (n: usize)
        requires
            day < self.counts().len(),
            kind.0 < self.counts()[day as int].len(),
        ensures
            n == self.counts()[day as int][kind.0 as int],
    {
        self.counter[day][kind.0]
    }

    /// The pairs of slot `t`.
    pub fn events_in_slot(&self, t: usize) -> (slot: &Vec<(Event, Room)>)
        requires
            t < self.grid().len(),
        ensures
            slot@ == self.grid()[t as int],
    {
        &self.events[t]
    }

    /// The pairs of slot `t`, to be changed in place. The counts are not
    /// brought up to date with the change.
    pub fn events_in_slot_mut(&mut self, t: usize) -> (slot: &mut Vec<(Event, Room)>)
        requires
            t < old(self).grid().len(),
        ensures
            slot@ == old(self).grid()[t as int],
            final(self).grid() == old(self).grid().update(t as int, final(slot)@),
            final(self).counts() == old(self).counts(),
    {
        &mut self.events[t]
    }

    /// The pairs of the slots of day `day`, slot by slot, each with its slot.
    pub fn events_of_day(&self, day: usize, project: &Project) -> (events: Vec<
        (usize, Event, Room),
    >)
        requires
            (day + 1) * project.config.slots_per_day <= self.grid().len(),
        ensures
            events@ == entries(
                self.grid(),
                day * project.config.slots_per_day,
                (day + 1) * project.config.slots_per_day,
            ),
    {
        let spd = project.config.slots_per_day;
        assert((day + 1) * spd == day * spd + spd) by (nonlinear_arith);
        assert(self.grid().len() == self.events.len());
        let begin = day * spd;
        let end = begin + spd;
        let mut events: Vec<(usize, Event, Room)> = Vec::new();
        let mut t: usize = begin;
        while t < end
            invariant
                begin <= t <= end,
                end <= self.grid().len(),
                self.grid().len() == self.events.len(),
                events@ == entries(self.grid(), begin as int, t as int),
            decreases end - t,
        {
            let slot = &self.events[t];
            let ghost head = events@;
            let mut i: usize = 0;
            while i < slot.len()
                invariant
                    i <= slot.len(),
                    t < self.grid().len(),
                    slot@ == self.grid()[t as int],
                    events@ == head + Seq::new(i as nat, |j: int| (t, slot@[j].0, slot@[j].1)),
                decreases slot.len() - i,
            {
                events.push((t, slot[i].0, slot[i].1));
                assert(events@ =~= head + Seq::new(
                    (i + 1) as nat,
                    |j: int| (t, slot@[j].0, slot@[j].1),
                ));
                i += 1;
            }
            assert(events@ =~= entries(self.grid(), begin as int, t + 1));
            t += 1;
        }
        events
    }

    /// Takes the pairs of slot `t` out of the timetable.
    pub fn events_in_slot_drain(&mut self, t: usize) -> (slot: Vec<(Event, Room)>)
        requires
            t < old(self).grid().len(),
        ensures
            slot@ == old(self).grid()[t as int],
            final(self).grid() == old(self).grid().update(t as int, Seq::empty()),
            final(self).counts() == old(self).counts(),
    {
        let mut slot: Vec<(Event, Room)> = Vec::new();
        let ghost before = *self;
        std::mem::swap(&mut slot, &mut self.events[t]);
        proof {
            assert(self.counts() =~= before.counts());
            assert(self.grid() =~= before.grid().update(t as int, Seq::empty()));
        }
        slot
    }

    /// Takes the pairs of the slots of day `day` out of the timetable, and
    /// returns them slot by slot, each with its slot.
    pub fn events_of_day_drain(&mut self, day: usize, project: &Project) -> (events: Vec<
        (usize, Event, Room),
    >)
        requires
            (day + 1) * project.config.slots_per_day <= old(self).grid().len(),
        ensures
            events@ == entries(
                old(self).grid(),
                day * project.config.slots_per_day,
                (day + 1) * project.config.slots_per_day,
            ),
            final(self).grid() == cleared(
                old(self).grid(),
                day * project.config.slots_per_day,
                (day + 1) * project.config.slots_per_day,
            ),
            final(self).counts() == old(self).counts(),
    {
        let spd = project.config.slots_per_day;
        assert((day + 1) * spd == day * spd + spd) by (nonlinear_arith);
        assert(self.grid().len() == self.events.len());
        let begin = day * spd;
        let end = begin + spd;
        let ghost g = self.grid();
        let mut events: Vec<(usize, Event, Room)> = Vec::new();
        let mut t: usize = begin;
        while t < end
            invariant
                begin <= t <= end,
                end <= g.len(),
                g == old(self).grid(),
                self.grid() == cleared(g, begin as int, t as int),
                self.counts() == old(self).counts(),
                events@ == entries(g, begin as int, t as int),
            decreases end - t,
        {
            let slot = self.events_in_slot_drain(t);
            let ghost head = events@;
            let mut i: usize = 0;
            while i < slot.len()
                invariant
                    i <= slot.len(),
                    t < g.len(),
                    slot@ == g[t as int],
                    events@ == head + Seq::new(i as nat, |j: int| (t, slot@[j].0, slot@[j].1)),
                decreases slot.len() - i,
            {
                events.push((t, slot[i].0, slot[i].1));
                assert(events@ =~= head + Seq::new(
                    (i + 1) as nat,
                    |j: int| (t, slot@[j].0, slot@[j].1),
                ));
                i += 1;
            }
            assert(events@ =~= entries(g, begin as int, t + 1));
            assert(self.grid() =~= cleared(g, begin as int, t + 1));
            t += 1;
        }
        events
    }

    /// Whether the pair `(e, r)` cannot join slot `t`: the room is taken
    /// there, or an event there shares an attendee with `e`.
    pub fn event_can_not_fit_in(&self, e: &Event, r: &Room, t: usize, project: &Project) -> (b:
        bool)
        requires
            project.wf(),
            t < self.grid().len(),
            e.0 < project.events.spec_len(),
            forall|i: int|
                0 <= i < self.grid()[t as int].len() ==> (#[trigger] self.grid()[t as int][i]).0.0
                    < project.events.spec_len(),
        ensures
            b == blocked(project, self.grid()[t as int], *e, *r),
    {
        let slot = self.events_in_slot(t);
        let mut i: usize = 0;
        while i < slot.len()
            invariant
                i <= slot.len(),
                project.wf(),
                e.0 < project.events.spec_len(),
                slot@ == self.grid()[t as int],
                forall|j: int| 0 <= j < slot.len() ==> (#[trigger] slot[j]).0.0 < project.events.spec_len(),
                forall|j: int|
                    0 <= j < i ==> (#[trigger] slot[j]).1 != *r && !project.events.conflict(
                        *e,
                        slot[j].0,
                    ),
            decreases slot.len() - i,
        {
            let (e2, r2) = slot[i];
            if r2 == *r {
                return true;
            }
            if project.events.have_people_conflict(*e, e2) {
                return true;
            }
            i += 1;
        }
        false
    }
}

} // verus!
