//! Events, their kinds and who attends them.

use crate::project::people::{People, Person};
use crate::project::rooms::{RoomKind, Rooms};
use crate::random::shuffle;
use crate::utils::{code_of, distinct, int_encode, lemma_code_of, lemma_distinct_keeps, lookup, texts};
use vstd::prelude::*;

verus! {

/// Daily cap of a kind of event when the input names none.
pub fn default_max_per_day() -> (n: usize)
    ensures
        n == 2,
{
    2
}

/// One occurrence to be scheduled, by position in the list of events.
#[derive(Debug, Clone, Copy, PartialEq, Eq, Hash, Structural)]
pub struct Event(pub usize);

/// A kind of event, by its code.
#[derive(Debug, Clone, Copy, PartialEq, Eq, Hash, Structural)]
pub struct EventKind(pub usize);

/// A kind of event as the input names it: it is scheduled `num_per_week`
/// times, at most `max_per_day` times a day, in a room of kind `room_kind`.
#[derive(Debug)]
pub struct RawEvent {
    pub name: String,
    pub num_per_week: usize,
    pub max_per_day: usize,
    pub room_kind: String,
}

/// Why a list of kinds of event was rejected.
#[derive(Debug, Clone, Copy, PartialEq, Eq, Structural)]
pub enum EventsError {
    /// The entry at this position asks for a kind of room that no room has.
    UnknownRoomKind(usize),
    /// The entries at these two positions have one name and two daily caps.
    CapMismatch(usize, usize),
}

/// The events of a project.
#[derive(Debug)]
pub struct Events {
    kinds: Vec<EventKind>,
    max_per_day: Vec<usize>,
    room_kind: Vec<RoomKind>,
    kind_names: Vec<String>,
    attendees: Vec<Vec<Person>>,
}

/// What an event is scheduled by: its kind, its daily cap, its kind of room.
pub type Traits = (EventKind, usize, RoomKind);

/// The names of the entries of the input.
pub open spec fn raw_names(raw: Seq<RawEvent>) -> Seq<Seq<char>> {
    Seq::new(raw.len(), |i: int| raw[i].name@)
}

/// The traits that entry `i` of the input gives to each of its events.
pub open spec fn raw_traits(raw: Seq<RawEvent>, rooms: &Rooms, i: int) -> Traits {
    (
        EventKind(code_of(distinct(raw_names(raw)), raw[i].name@).unwrap() as usize),
        raw[i].max_per_day,
        RoomKind(code_of(rooms.spec_kind_names(), raw[i].room_kind@).unwrap() as usize),
    )
}

/// The events of the first `n` entries of the input, entry by entry.
pub open spec fn expanded(raw: Seq<RawEvent>, rooms: &Rooms, n: int) -> Seq<Traits>
    decreases n,
{
    if n <= 0 {
        Seq::empty()
    } else {
        expanded(raw, rooms, n - 1) + Seq::new(
            raw[n - 1].num_per_week as nat,
            |k: int| raw_traits(raw, rooms, n - 1),
        )
    }
}

/// The input passes the checks of `parse_events`.
pub open spec fn events_input_ok(raw: Seq<RawEvent>, rooms: &Rooms) -> bool {
    events_fit(raw, rooms.spec_kind_names())
}

/// The kinds of event fit the kinds of room that `room_table` codes: every
/// kind names a kind of room that has a code, and has one daily cap only.
pub open spec fn events_fit(raw: Seq<RawEvent>, room_table: Seq<Seq<char>>) -> bool {
    &&& forall|i: int|
        0 <= i < raw.len() ==> code_of(room_table, (#[trigger] raw[i]).room_kind@) is Some
    &&& forall|i: int, j: int|
        0 <= i < raw.len() && 0 <= j < raw.len() && (#[trigger] raw[i]).name@ == (
        #[trigger] raw[j]).name@ ==> raw[i].max_per_day == raw[j].max_per_day
}

impl Events {
    /// Number of events.
    pub closed spec fn spec_len(&self) -> nat {
        self.max_per_day.len() as nat
    }

    /// Kind of event `e`.
    pub closed spec fn spec_kind(&self, e: Event) -> EventKind {
        self.kinds[e.0 as int]
    }

    /// Daily cap of event `e`.
    pub closed spec fn spec_max_per_day(&self, e: Event) -> usize {
        self.max_per_day[e.0 as int]
    }

    /// Kind of room that event `e` needs.
    pub closed spec fn spec_room_kind(&self, e: Event) -> RoomKind {
        self.room_kind[e.0 as int]
    }

    /// The people who attend event `e`.
    pub closed spec fn spec_attendees(&self, e: Event) -> Seq<Person> {
        self.attendees[e.0 as int]@
    }

    /// The table that codes the kind names.
    pub closed spec fn spec_kind_names(&self) -> Seq<Seq<char>> {
        texts(self.kind_names@)
    }

    /// Number of codes of kinds; every kind's code is below it.
    pub open spec fn spec_kinds_len(&self) -> nat {
        self.spec_kind_names().len()
    }

    /// The traits of every event, in order.
    pub open spec fn spec_traits(&self) -> Seq<Traits> {
        Seq::new(
            self.spec_len(),
            |e: int|
                (
                    self.spec_kind(Event(e as usize)),
                    self.spec_max_per_day(Event(e as usize)),
                    self.spec_room_kind(Event(e as usize)),
                ),
        )
    }

    /// Some person attends both events.
    pub open spec fn conflict(&self, e1: Event, e2: Event) -> bool {
        exists|p: Person|
            self.spec_attendees(e1).contains(p) && self.spec_attendees(e2).contains(p)
    }

    /// One kind, cap, kind of room and list of attendees per event; every
    /// kind has a code name; events of one kind have one cap; and the code of
    /// a kind's name is that kind.
    pub closed spec fn wf(&self) -> bool {
        &&& self.kinds.len() == self.max_per_day.len()
        &&& self.room_kind.len() == self.max_per_day.len()
        &&& self.attendees.len() == self.max_per_day.len()
        &&& forall|e: int|
            0 <= e < self.kinds.len() ==> (#[trigger] self.kinds[e]).0 < self.kind_names.len()
        &&& forall|a: int, b: int|
            0 <= a < self.kinds.len() && 0 <= b < self.kinds.len() && self.kinds[a]
                == self.kinds[b] ==> self.max_per_day[a] == self.max_per_day[b]
        &&& forall|c: int|
            0 <= c < self.kind_names.len() ==> code_of(
                texts(self.kind_names@),
                #[trigger] texts(self.kind_names@)[c],
            ) == Some(c)
    }

    /// What `wf` gives of each event.
    pub proof fn lemma_wf(&self)
        requires
            self.wf(),
        ensures
            forall|e: Event|
                e.0 < self.spec_len() ==> (#[trigger] self.spec_kind(e)).0 < self.spec_kinds_len(),
            forall|a: Event, b: Event|
                a.0 < self.spec_len() && b.0 < self.spec_len() && self.spec_kind(a)
                    == self.spec_kind(b) ==> self.spec_max_per_day(a) == self.spec_max_per_day(b),
            forall|c: int|
                0 <= c < self.spec_kinds_len() ==> code_of(
                    self.spec_kind_names(),
                    #[trigger] self.spec_kind_names()[c],
                ) == Some(c),
    {
    }

    /// Conflict is symmetric.
    pub proof fn lemma_conflict_symmetric(&self, e1: Event, e2: Event)
        ensures
            self.conflict(e1, e2) == self.conflict(e2, e1),
    {
        if self.conflict(e1, e2) {
            let p = choose|p: Person|
                self.spec_attendees(e1).contains(p) && self.spec_attendees(e2).contains(p);
            assert(self.spec_attendees(e2).contains(p) && self.spec_attendees(e1).contains(p));
        }
        if self.conflict(e2, e1) {
            let p = choose|p: Person|
                self.spec_attendees(e2).contains(p) && self.spec_attendees(e1).contains(p);
            assert(self.spec_attendees(e1).contains(p) && self.spec_attendees(e2).contains(p));
        }
    }

    /// The kind that `name` is the code name of, if any.
    pub fn kind_name_to_id(&self, name: &str) -> (k: Option<EventKind>)
        ensures
            k is Some <==> code_of(self.spec_kind_names(), name@) is Some,
            k matches Some(kind) ==> code_of(self.spec_kind_names(), name@) == Some(
                kind.0 as int,
            ),
    {
        match lookup(&self.kind_names, name) {
            Some(i) => Some(EventKind(i)),
            None => None,
        }
    }

    /// The events of kind `kind`, in ascending order.
    pub fn events_with_kind(&self, kind: EventKind) -> (events: Vec<Event>)
        requires
            self.wf(),
        ensures
            forall|i: int|
                0 <= i < events.len() ==> (#[trigger] events[i]).0 < self.spec_len()
                    && self.spec_kind(events[i]) == kind,
            forall|i: int, j: int| 0 <= i < j < events.len() ==> events[i].0 < events[j].0,
            forall|e: Event|
                e.0 < self.spec_len() && self.spec_kind(e) == kind ==> events@.contains(e),
    {
        let mut events: Vec<Event> = Vec::new();
        let mut i: usize = 0;
        while i < self.kinds.len()
            invariant
                i <= self.kinds.len(),
                self.kinds.len() == self.max_per_day.len(),
                forall|k: int|
                    0 <= k < events.len() ==> (#[trigger] events[k]).0 < i
                        && self.kinds[events[k].0 as int] == kind,
                forall|k: int, j: int| 0 <= k < j < events.len() ==> events[k].0 < events[j].0,
                forall|e: Event| e.0 < i && self.kinds[e.0 as int] == kind ==> events@.contains(e),
            decreases self.kinds.len() - i,
        {
            if self.kinds[i] == kind {
                let ghost before = events@;
                events.push(Event(i));
                assert forall|e: Event|
                    e.0 < i + 1 && self.kinds[e.0 as int] == kind implies events@.contains(e) by {
                    if e.0 < i {
                        assert(before.contains(e));
                        let k = choose|k: int| 0 <= k < before.len() && before[k] == e;
                        assert(events@[k] == e);
                    } else {
                        assert(events@[events.len() - 1] == e);
                    }
                }
            }
            i += 1;
        }
        events
    }

    /// The events that need a room of kind `kind`, in ascending order.
    pub fn events_with_room_kind(&self, kind: RoomKind) -> (events: Vec<Event>)
        requires
            self.wf(),
        ensures
            forall|i: int|
                0 <= i < events.len() ==> (#[trigger] events[i]).0 < self.spec_len()
                    && self.spec_room_kind(events[i]) == kind,
            forall|i: int, j: int| 0 <= i < j < events.len() ==> events[i].0 < events[j].0,
            forall|e: Event|
                e.0 < self.spec_len() && self.spec_room_kind(e) == kind ==> events@.contains(e),
    {
        let mut events: Vec<Event> = Vec::new();
        let mut i: usize = 0;
        while i < self.room_kind.len()
            invariant
                i <= self.room_kind.len(),
                self.room_kind.len() == self.max_per_day.len(),
                forall|k: int|
                    0 <= k < events.len() ==> (#[trigger] events[k]).0 < i
                        && self.room_kind[events[k].0 as int] == kind,
                forall|k: int, j: int| 0 <= k < j < events.len() ==> events[k].0 < events[j].0,
                forall|e: Event|
                    e.0 < i && self.room_kind[e.0 as int] == kind ==> events@.contains(e),
            decreases self.room_kind.len() - i,
        {
            if self.room_kind[i] == kind {
                let ghost before = events@;
                events.push(Event(i));
                assert forall|e: Event|
                    e.0 < i + 1 && self.room_kind[e.0 as int] == kind implies events@.contains(
                    e,
                ) by {
                    if e.0 < i {
                        assert(before.contains(e));
                        let k = choose|k: int| 0 <= k < before.len() && before[k] == e;
                        assert(events@[k] == e);
                    } else {
                        assert(events@[events.len() - 1] == e);
                    }
                }
            }
            i += 1;
        }
        events
    }

    /// Kind of room that `event` needs.
    pub fn room_kind(&self, event: &Event) -> (k: RoomKind)
        requires
            self.wf(),
            event.0 < self.spec_len(),
        ensures
            k == self.spec_room_kind(*event),
    {
        self.room_kind[event.0]
    }

    /// Kind of `event`.
    pub fn kind(&self, event: &Event) -> (k: EventKind)
        requires
            self.wf(),
            event.0 < self.spec_len(),
        ensures
            k == self.spec_kind(*event),
            k.0 < self.spec_kinds_len(),
    {
        self.kinds[event.0]
    }

    /// Name of the kind of `event`.
    pub fn kind_name(&self, event: &Event) -> (name: &str)
        requires
            self.wf(),
            event.0 < self.spec_len(),
        ensures
            name@ == self.spec_kind_names()[self.spec_kind(*event).0 as int],
    {
        self.kind_names[self.kinds[event.0].0].as_str()
    }

    /// Daily cap of `event`.
    pub fn max_per_day(&self, event: &Event) -> (m: usize)
        requires
            self.wf(),
            event.0 < self.spec_len(),
        ensures
            m == self.spec_max_per_day(*event),
    {
        self.max_per_day[event.0]
    }

    /// Number of codes of kinds; every kind's code is below it.
    pub fn kinds_len(&self) -> (n: usize)
        ensures
            n == self.spec_kinds_len(),
    {
        self.kind_names.len()
    }

    /// Number of events.
    pub fn len(&self) -> (n: usize)
        ensures
            n == self.spec_len(),
    {
        self.max_per_day.len()
    }

    /// All events, in ascending order.
    pub fn iter_all(&self) -> (events: Vec<Event>)
        ensures
            events.len() == self.spec_len(),
            forall|i: int| 0 <= i < events.len() ==> events[i] == Event(i as usize),
    {
        let mut events: Vec<Event> = Vec::new();
        let mut i: usize = 0;
        while i < self.max_per_day.len()
            invariant
                i <= self.max_per_day.len(),
                events.len() == i,
                forall|k: int| 0 <= k < events.len() ==> events[k] == Event(k as usize),
            decreases self.max_per_day.len() - i,
        {
            events.push(Event(i));
            i += 1;
        }
        events
    }

    /// Sets the attendees of every event from the events that each person
    /// attends: afterwards `p` attends `e` exactly if `e` is on the list of `p`.
    pub fn fill_attendees(&mut self, people: &People)
        requires
            old(self).wf(),
            people.wf(),
            people.within(old(self).spec_len()),
        ensures
            final(self).wf(),
            final(self).spec_len() == old(self).spec_len(),
            final(self).spec_kind_names() == old(self).spec_kind_names(),
            final(self).spec_traits() == old(self).spec_traits(),
            forall|e: Event|
                e.0 < old(self).spec_len() ==> {
                    &&& final(self).spec_kind(e) == old(self).spec_kind(e)
                    &&& final(self).spec_max_per_day(e) == old(self).spec_max_per_day(e)
                    &&& final(self).spec_room_kind(e) == old(self).spec_room_kind(e)
                },
            forall|e: Event, p: Person|
                e.0 < old(self).spec_len() ==> (#[trigger] final(self).spec_attendees(e).contains(
                    p,
                ) <==> p.0 < people.spec_len() && people.spec_attended(p).contains(e)),
    {
        let n = self.max_per_day.len();
        let mut attendees: Vec<Vec<Person>> = Vec::new();
        let mut e: usize = 0;
        while e < n
            invariant
                e <= n,
                attendees.len() == e,
                forall|k: int| 0 <= k < e ==> (#[trigger] attendees[k])@.len() == 0,
            decreases n - e,
        {
            attendees.push(Vec::new());
            e += 1;
        }
        let m = people.len();
        let mut i: usize = 0;
        while i < m
            invariant
                i <= m,
                m == people.spec_len(),
                people.wf(),
                people.within(n as nat),
                attendees.len() == n,
                forall|k: int, p: Person|
                    0 <= k < n ==> (#[trigger] attendees[k]@.contains(p) <==> p.0 < i
                        && people.spec_attended(p).contains(Event(k as usize))),
            decreases m - i,
        {
            let attended = people.events_attended_by(Person(i));
            let mut j: usize = 0;
            while j < attended.len()
                invariant
                    j <= attended.len(),
                    i < m,
                    attended@ == people.spec_attended(Person(i)),
                    people.within(n as nat),
                    m == people.spec_len(),
                    attendees.len() == n,
                    forall|k: int, p: Person|
                        0 <= k < n ==> (#[trigger] attendees[k]@.contains(p) <==> (p.0 < i
                            && people.spec_attended(p).contains(Event(k as usize))) || (p.0 == i
                            && exists|a: int| 0 <= a < j && attended[a] == Event(k as usize))),
                decreases attended.len() - j,
            {
                let ev = attended[j];
                assert(ev.0 < n) by {
                    assert(people.spec_attended(Person(i))[j as int].0 < n);
                }
                let ghost before = attendees@;
                let ghost row = attendees[ev.0 as int]@;
                attendees[ev.0].push(Person(i));
                assert forall|k: int, p: Person| 0 <= k < n implies (#[trigger] attendees[k]@.contains(
                    p,
                ) <==> (p.0 < i && people.spec_attended(p).contains(Event(k as usize))) || (p.0
                    == i && exists|a: int| 0 <= a < j + 1 && attended[a] == Event(k as usize))) by {
                    if k == ev.0 {
                        assert(attendees[k]@ == row.push(Person(i)));
                        if attendees[k]@.contains(p) {
                            let w = choose|w: int| 0 <= w < attendees[k]@.len() && attendees[k]@[w] == p;
                            if w < row.len() {
                                assert(row[w] == p);
                                assert(before[k]@.contains(p));
                            } else {
                                assert(attended[j as int] == Event(k as usize));
                            }
                        }
                        if before[k]@.contains(p) {
                            let w = choose|w: int| 0 <= w < row.len() && row[w] == p;
                            assert(attendees[k]@[w] == p);
                        }
                        if p == Person(i) {
                            assert(attendees[k]@[row.len() as int] == p);
                        }
                    } else {
                        assert(attendees[k] == before[k]);
                        if exists|a: int| 0 <= a < j + 1 && attended[a] == Event(k as usize) {
                            let a = choose|a: int| 0 <= a < j + 1 && attended[a] == Event(k as usize);
                            assert(a < j);
                        }
                    }
                }
                j += 1;
            }
            assert forall|k: int, p: Person| 0 <= k < n implies (#[trigger] attendees[k]@.contains(
                p,
            ) <==> p.0 < i + 1 && people.spec_attended(p).contains(Event(k as usize))) by {
                if p.0 == i {
                    assert(p == Person(i));
                    if people.spec_attended(p).contains(Event(k as usize)) {
                        let a = choose|a: int|
                            0 <= a < attended.len() && attended[a] == Event(k as usize);
                        assert(0 <= a < j && attended[a] == Event(k as usize));
                    }
                }
            }
            i += 1;
        }
        self.attendees = attendees;
        assert(final(self).spec_traits() =~= old(self).spec_traits());
        assert forall|e: Event, p: Person| e.0 < old(self).spec_len() implies (
        #[trigger] self.spec_attendees(e).contains(p) <==> p.0 < people.spec_len()
            && people.spec_attended(p).contains(e)) by {
            assert(Event(e.0 as int as usize) == e);
            assert(attendees[e.0 as int]@.contains(p) <==> p.0 < m && people.spec_attended(
                p,
            ).contains(Event(e.0 as int as usize)));
        }
    }

    /// The people who attend event `e`.
    pub fn event_attendees(&self, e: Event) -> (people: &Vec<Person>)
        requires
            self.wf(),
            e.0 < self.spec_len(),
        ensures
            people@ == self.spec_attendees(e),
    {
        &self.attendees[e.0]
    }

    /// Whether some person attends both events.
    pub fn have_people_conflict(&self, e1: Event, e2: Event) -> (b: bool)
        requires
            self.wf(),
            e1.0 < self.spec_len(),
            e2.0 < self.spec_len(),
        ensures
            b == self.conflict(e1, e2),
    {
        let a = self.event_attendees(e1);
        let b = self.event_attendees(e2);
        let mut i: usize = 0;
        while i < a.len()
            invariant
                i <= a.len(),
                a@ == self.spec_attendees(e1),
                b@ == self.spec_attendees(e2),
                forall|x: int, y: int| 0 <= x < i && 0 <= y < b.len() ==> a[x] != b[y],
            decreases a.len() - i,
        {
            let mut j: usize = 0;
            while j < b.len()
                invariant
                    i < a.len(),
                    j <= b.len(),
                    a@ == self.spec_attendees(e1),
                    b@ == self.spec_attendees(e2),
                    forall|x: int, y: int| 0 <= x < i && 0 <= y < b.len() ==> a[x] != b[y],
                    forall|y: int| 0 <= y < j ==> a[i as int] != b[y],
                decreases b.len() - j,
            {
                if a[i] == b[j] {
                    assert(a@.contains(a[i as int]) && b@.contains(a[i as int]));
                    return true;
                }
                j += 1;
            }
            i += 1;
        }
        assert(!self.conflict(e1, e2)) by {
            if self.conflict(e1, e2) {
                let p = choose|p: Person|
                    self.spec_attendees(e1).contains(p) && self.spec_attendees(e2).contains(p);
                let x = choose|x: int| 0 <= x < a.len() && a[x] == p;
                let y = choose|y: int| 0 <= y < b.len() && b[y] == p;
                assert(a[x] != b[y]);
            }
        }
        false
    }
}


/// Every element of `expanded` is the traits of some entry of the input.
pub proof fn lemma_expanded_elem(raw: Seq<RawEvent>, rooms: &Rooms, n: int, x: Traits)
    requires
        0 <= n <= raw.len(),
        expanded(raw, rooms, n).contains(x),
    ensures
        exists|i: int| 0 <= i < n && x == raw_traits(raw, rooms, i),
    decreases n,
{
    if n > 0 {
        let head = expanded(raw, rooms, n - 1);
        let tail = Seq::new(raw[n - 1].num_per_week as nat, |k: int| raw_traits(raw, rooms, n - 1));
        let w = choose|w: int| 0 <= w < (head + tail).len() && (head + tail)[w] == x;
        if w < head.len() {
            assert(head[w] == x);
            lemma_expanded_elem(raw, rooms, n - 1, x);
        } else {
            assert(tail[w - head.len()] == x);
            assert(x == raw_traits(raw, rooms, n - 1));
        }
    }
}

/// What is built from an input that passes the checks: the kinds are
/// coded by the names of the entries, each once, in the order in which they
/// first come; the events are those that the entries expand to, in some
/// order; and every event needs a kind of room that some room has.
pub open spec fn events_built(events: &Events, raw: Seq<RawEvent>, rooms: &Rooms) -> bool {
    &&& events.wf()
    &&& events.spec_kind_names() == distinct(raw_names(raw))
    &&& events.spec_traits().to_multiset() == expanded(raw, rooms, raw.len() as int).to_multiset()
    &&& forall|e: Event|
        e.0 < events.spec_len() ==> rooms.has_room_of_kind(#[trigger] events.spec_room_kind(e))
}

/// What the error `e` says of an input that is rejected, `room_table`
/// coding the kinds of room.
pub open spec fn events_rejected(e: EventsError, raw: Seq<RawEvent>, room_table: Seq<Seq<char>>) -> bool {
    match e {
        EventsError::UnknownRoomKind(i) => i < raw.len() && code_of(
            room_table,
            raw[i as int].room_kind@,
        ) is None,
        EventsError::CapMismatch(i, j) => {
            &&& i < raw.len()
            &&& j < raw.len()
            &&& raw[i as int].name@ == raw[j as int].name@
            &&& raw[i as int].max_per_day != raw[j as int].max_per_day
        },
    }
}

/// Builds the events: each entry of the input is expanded to `num_per_week`
/// events with its traits, kinds are coded by `int_encode` over the names, and
/// the events are numbered in a random order. Nobody attends them yet.
#[verifier::loop_isolation(false)]
pub fn parse_events(raw: &Vec<RawEvent>, rooms: &Rooms) -> (r: Result<Events, EventsError>)
    requires
        rooms.wf(),
    ensures
        r is Ok <==> events_input_ok(raw@, rooms),
        match r {
            Ok(events) => {
                &&& events_built(&events, raw@, rooms)
                &&& forall|e: Event|
                    e.0 < events.spec_len() ==> (#[trigger] events.spec_attendees(e)).len() == 0
            },
            Err(e) => events_rejected(e, raw@, rooms.spec_kind_names()),
        },
{
    let n = raw.len();
    let mut keys: Vec<String> = Vec::new();
    let mut room_kinds: Vec<RoomKind> = Vec::new();
    let mut i: usize = 0;
    while i < n
        invariant
            i <= n,
            keys.len() == i,
            room_kinds.len() == i,
            texts(keys@) == raw_names(raw@).take(i as int),
            forall|k: int|
                0 <= k < i ==> code_of(rooms.spec_kind_names(), (#[trigger] raw[k]).room_kind@)
                    == Some(room_kinds[k].0 as int),
        decreases n - i,
    {
        match rooms.kind_name_to_id(raw[i].room_kind.as_str()) {
            None => {
                return Err(EventsError::UnknownRoomKind(i));
            },
            Some(k) => {
                room_kinds.push(k);
            },
        }
        let key = raw[i].name.clone();
        assert(key@ == raw[i as int].name@);
        keys.push(key);
        assert(texts(keys@) =~= raw_names(raw@).take(i + 1));
        i += 1;
    }
    assert(raw_names(raw@).take(n as int) == raw_names(raw@));
    let mut i: usize = 0;
    while i < n
        invariant
            i <= n,
            forall|a: int, b: int|
                0 <= a < i && 0 <= b < n && (#[trigger] raw[a]).name@ == (#[trigger] raw[b]).name@
                    ==> raw[a].max_per_day == raw[b].max_per_day,
        decreases n - i,
    {
        let mut j: usize = 0;
        while j < n
            invariant
                i < n,
                j <= n,
                forall|b: int|
                    0 <= b < j && raw[i as int].name@ == (#[trigger] raw[b]).name@
                        ==> raw[i as int].max_per_day == raw[b].max_per_day,
            decreases n - j,
        {
            if raw[i].name == raw[j].name && raw[i].max_per_day != raw[j].max_per_day {
                return Err(EventsError::CapMismatch(i, j));
            }
            j += 1;
        }
        i += 1;
    }
    assert(events_input_ok(raw@, rooms)) by {
        assert forall|a: int, b: int|
            0 <= a < raw.len() && 0 <= b < raw.len() && (#[trigger] raw[a]).name@ == (
            #[trigger] raw[b]).name@ implies raw[a].max_per_day == raw[b].max_per_day by {}
    }
    let kind_names = int_encode(keys);
    let ghost table = texts(kind_names@);
    let mut list: Vec<Traits> = Vec::new();
    let mut i: usize = 0;
    while i < n
        invariant
            i <= n,
            list@ == expanded(raw@, rooms, i as int),
        decreases n - i,
    {
        proof {
            lemma_distinct_keeps(raw_names(raw@), i as int);
            assert(raw_names(raw@)[i as int] == raw[i as int].name@);
        }
        match lookup(&kind_names, raw[i].name.as_str()) {
            None => {
                assert(false);
            },
            Some(code) => {
                let traits = (EventKind(code), raw[i].max_per_day, room_kinds[i]);
                assert(traits == raw_traits(raw@, rooms, i as int));
                let ghost head = list@;
                let mut c: usize = 0;
                while c < raw[i].num_per_week
                    invariant
                        c <= raw[i as int].num_per_week,
                        list@ == head + Seq::new(c as nat, |k: int| traits),
                    decreases raw[i as int].num_per_week - c,
                {
                    list.push(traits);
                    assert(list@ =~= head + Seq::new((c + 1) as nat, |k: int| traits));
                    c += 1;
                }
                assert(list@ =~= expanded(raw@, rooms, i + 1));
            },
        }
        i += 1;
    }
    let ghost ordered = list@;
    shuffle(&mut list);
    proof {
        ordered.to_multiset_ensures();
        list@.to_multiset_ensures();
    }
    let total = list.len();
    let mut kinds: Vec<EventKind> = Vec::new();
    let mut max_per_day: Vec<usize> = Vec::new();
    let mut room_kind: Vec<RoomKind> = Vec::new();
    let mut attendees: Vec<Vec<Person>> = Vec::new();
    let mut e: usize = 0;
    while e < total
        invariant
            e <= total,
            kinds.len() == e,
            max_per_day.len() == e,
            room_kind.len() == e,
            attendees.len() == e,
            forall|k: int|
                0 <= k < e ==> (kinds[k], max_per_day[k], room_kind[k]) == #[trigger] list[k],
            forall|k: int| 0 <= k < e ==> (#[trigger] attendees[k])@.len() == 0,
        decreases total - e,
    {
        let t = list[e];
        kinds.push(t.0);
        max_per_day.push(t.1);
        room_kind.push(t.2);
        attendees.push(Vec::new());
        e += 1;
    }
    proof {
        assert forall|k: int| 0 <= k < total implies exists|i: int|
            0 <= i < n && #[trigger] list[k] == raw_traits(raw@, rooms, i) by {
            assert(list@.contains(list[k]));
            assert(ordered.to_multiset().count(list[k]) > 0);
            assert(ordered.contains(list[k]));
            lemma_expanded_elem(raw@, rooms, n as int, list[k]);
        }
        assert forall|k: int| 0 <= k < total implies (#[trigger] kinds[k]).0 < kind_names.len() by {
            let i = choose|i: int| 0 <= i < n && list[k] == raw_traits(raw@, rooms, i);
            lemma_distinct_keeps(raw_names(raw@), i);
            lemma_code_of(table, raw_names(raw@)[i]);
        }
        assert forall|a: int, b: int|
            0 <= a < total && 0 <= b < total && kinds[a] == kinds[b] implies max_per_day[a]
            == max_per_day[b] by {
            let i = choose|i: int| 0 <= i < n && list[a] == raw_traits(raw@, rooms, i);
            let j = choose|j: int| 0 <= j < n && list[b] == raw_traits(raw@, rooms, j);
            lemma_distinct_keeps(raw_names(raw@), i);
            lemma_distinct_keeps(raw_names(raw@), j);
            lemma_code_of(table, raw_names(raw@)[i]);
            lemma_code_of(table, raw_names(raw@)[j]);
            assert(raw[i].name@ == raw[j].name@);
        }
    }
    proof {
        assert forall|k: int| 0 <= k < total implies rooms.has_room_of_kind(
            #[trigger] room_kind[k],
        ) by {
            let i = choose|i: int| 0 <= i < n && list[k] == raw_traits(raw@, rooms, i);
            rooms.lemma_named_kind_in_use(raw[i].room_kind@);
        }
    }
    let events = Events { kinds, max_per_day, room_kind, kind_names, attendees };
    assert(events.spec_traits() =~= list@);
    Ok(events)
}

} // verus!
