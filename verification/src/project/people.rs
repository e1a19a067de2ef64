//! People and the events each of them attends.

use crate::project::events::{Event, Events};
use crate::utils::code_of;
use vstd::prelude::*;

verus! {

/// A person, by position in the list of people.
#[derive(Debug, Clone, Copy, PartialEq, Eq, Hash, Structural)]
pub struct Person(pub usize);

/// A person as the input names them: the kinds of event they attend.
#[derive(Debug)]
pub struct RawPerson {
    pub name: String,
    pub attend: Vec<String>,
}

/// Why a list of people was rejected.
#[derive(Debug, Clone, Copy, PartialEq, Eq, Structural)]
pub enum PeopleError {
    /// The person at the first position attends the kind at the second
    /// position of their list, which no event has.
    UnknownKind(usize, usize),
}

/// The people of a project.
#[derive(Debug)]
pub struct People {
    events_attended: Vec<Vec<Event>>,
    names: Vec<String>,
}

/// Person `raw` names the kind of event `e` among those they attend.
pub open spec fn names_kind_of(events: &Events, raw: &RawPerson, e: Event) -> bool {
    exists|k: int|
        0 <= k < raw.attend.len() && code_of(events.spec_kind_names(), #[trigger] raw.attend[k]@)
            == Some(events.spec_kind(e).0 as int)
}

/// Every kind that every person names has a code in `event_table`.
pub open spec fn people_fit(raw: Seq<RawPerson>, event_table: Seq<Seq<char>>) -> bool {
    forall|p: int, k: int|
        0 <= p < raw.len() && 0 <= k < raw[p].attend.len() ==> code_of(
            event_table,
            #[trigger] raw[p].attend[k]@,
        ) is Some
}

/// Every kind that `raw` names is the kind name of some code.
pub open spec fn kinds_known(events: &Events, raw: &RawPerson) -> bool {
    forall|k: int|
        0 <= k < raw.attend.len() ==> code_of(events.spec_kind_names(), #[trigger] raw.attend[k]@)
            is Some
}

impl People {
    /// Number of people.
    pub closed spec fn spec_len(&self) -> nat {
        self.names.len() as nat
    }

    /// The events that `p` attends.
    pub closed spec fn spec_attended(&self, p: Person) -> Seq<Event> {
        self.events_attended[p.0 as int]@
    }

    /// Name of `p`.
    pub closed spec fn spec_name(&self, p: Person) -> Seq<char> {
        self.names[p.0 as int]@
    }

    /// One list of events per person, none naming an event twice.
    pub closed spec fn wf(&self) -> bool {
        &&& self.events_attended.len() == self.names.len()
        &&& forall|p: int, i: int, j: int|
            0 <= p < self.names.len() && 0 <= i < j < self.events_attended[p].len()
                ==> self.events_attended[p][i] != self.events_attended[p][j]
    }

    /// Every attended event is one of the first `n` events.
    pub open spec fn within(&self, n: nat) -> bool {
        forall|p: Person, i: int|
            p.0 < self.spec_len() && 0 <= i < self.spec_attended(p).len() ==> (
            #[trigger] self.spec_attended(p)[i]).0 < n
    }

    /// The events that `p` attends.
    pub fn events_attended_by(&self, p: Person) -> (events: &Vec<Event>)
        requires
            self.wf(),
            p.0 < self.spec_len(),
        ensures
            events@ == self.spec_attended(p),
    {
        &self.events_attended[p.0]
    }

    /// Number of people.
    pub fn len(&self) -> (n: usize)
        ensures
            n == self.spec_len(),
    {
        self.names.len()
    }

    /// Name of `p`.
    pub fn name(&self, p: Person) -> (name: &str)
        requires
            self.wf(),
            p.0 < self.spec_len(),
        ensures
            name@ == self.spec_name(p),
    {
        self.names[p.0].as_str()
    }

    /// All people, in ascending order.
    pub fn iter_all(&self) -> (people: Vec<Person>)
        ensures
            people.len() == self.spec_len(),
            forall|i: int| 0 <= i < people.len() ==> people[i] == Person(i as usize),
    {
        let mut people: Vec<Person> = Vec::new();
        let mut i: usize = 0;
        while i < self.names.len()
            invariant
                i <= self.names.len(),
                people.len() == i,
                forall|k: int| 0 <= k < people.len() ==> people[k] == Person(k as usize),
            decreases self.names.len() - i,
        {
            people.push(Person(i));
            i += 1;
        }
        people
    }
}

/// Whether `events` holds `e`.
pub fn contains_event(events: &Vec<Event>, e: Event) -> (found: bool)
    ensures
        found == events@.contains(e),
{
    let mut i: usize = 0;
    while i < events.len()
        invariant
            i <= events.len(),
            forall|j: int| 0 <= j < i ==> events[j] != e,
        decreases events.len() - i,
    {
        if events[i] == e {
            return true;
        }
        i += 1;
    }
    false
}

/// What is built from an input that passes the checks: the people are
/// those of the input, in its order, under their names, and each attends
/// exactly the events of the kinds that they name.
pub open spec fn people_built(people: &People, raw: Seq<RawPerson>, events: &Events) -> bool {
    &&& people.wf()
    &&& people.within(events.spec_len())
    &&& people.spec_len() == raw.len()
    &&& forall|p: Person| p.0 < raw.len() ==> #[trigger] people.spec_name(p) == raw[p.0 as int].name@
    &&& forall|p: Person, e: Event|
        p.0 < raw.len() ==> (#[trigger] people.spec_attended(p).contains(e) <==> e.0
            < events.spec_len() && names_kind_of(events, &raw[p.0 as int], e))
}

/// What the error `e` says of an input that is rejected, `kind_names`
/// coding the kinds of event.
pub open spec fn people_rejected(e: PeopleError, raw: Seq<RawPerson>, kind_names: Seq<Seq<char>>) -> bool {
    match e {
        PeopleError::UnknownKind(p, k) => {
            &&& p < raw.len()
            &&& k < raw[p as int].attend.len()
            &&& code_of(kind_names, raw[p as int].attend[k as int]@) is None
        },
    }
}

/// Builds the people: each attends every event of every kind they name.
pub fn parse_people(raw: &Vec<RawPerson>, events: &Events) -> (r: Result<People, PeopleError>)
    requires
        events.wf(),
    ensures
        r is Ok <==> forall|p: int| 0 <= p < raw.len() ==> kinds_known(events, #[trigger] &raw[p]),
        r is Ok <==> people_fit(raw@, events.spec_kind_names()),
        match r {
            Ok(people) => people_built(&people, raw@, events),
            Err(e) => people_rejected(e, raw@, events.spec_kind_names()),
        },
{
    let mut events_attended: Vec<Vec<Event>> = Vec::new();
    let mut names: Vec<String> = Vec::new();
    let mut p: usize = 0;
    while p < raw.len()
        invariant
            p <= raw.len(),
            events.wf(),
            events_attended.len() == p,
            names.len() == p,
            forall|q: int| 0 <= q < p ==> kinds_known(events, #[trigger] &raw[q]),
            forall|q: int| 0 <= q < p ==> (#[trigger] names[q])@ == raw[q].name@,
            forall|q: int, i: int, j: int|
                0 <= q < p && 0 <= i < j < events_attended[q].len() ==> events_attended[q][i]
                    != events_attended[q][j],
            forall|q: int, i: int|
                0 <= q < p && 0 <= i < events_attended[q].len() ==> (
                #[trigger] events_attended[q][i]).0 < events.spec_len(),
            forall|q: int, e: Event|
                0 <= q < p ==> (#[trigger] events_attended[q]@.contains(e) <==> e.0
                    < events.spec_len() && names_kind_of(events, &raw[q], e)),
        decreases raw.len() - p,
    {
        let person = &raw[p];
        let mut attended: Vec<Event> = Vec::new();
        let mut k: usize = 0;
        while k < person.attend.len()
            invariant
                k <= person.attend.len(),
                events.wf(),
                person == &raw[p as int],
                p < raw.len(),
                forall|i: int, j: int| 0 <= i < j < attended.len() ==> attended[i] != attended[j],
                forall|i: int| 0 <= i < attended.len() ==> (#[trigger] attended[i]).0 < events.spec_len(),
                forall|c: int|
                    0 <= c < k ==> code_of(events.spec_kind_names(), #[trigger] person.attend[c]@)
                        is Some,
                forall|e: Event|
                    #[trigger] attended@.contains(e) <==> e.0 < events.spec_len() && exists|c: int|
                        0 <= c < k && code_of(
                            events.spec_kind_names(),
                            #[trigger] person.attend[c]@,
                        ) == Some(events.spec_kind(e).0 as int),
            decreases person.attend.len() - k,
        {
            match events.kind_name_to_id(person.attend[k].as_str()) {
                None => {
                    assert(!kinds_known(events, &raw[p as int]));
                    return Err(PeopleError::UnknownKind(p, k));
                },
                Some(kind) => {
                    let of_kind = events.events_with_kind(kind);
                    let ghost before = attended@;
                    let mut i: usize = 0;
                    while i < of_kind.len()
                        invariant
                            i <= of_kind.len(),
                            forall|a: int, b: int|
                                0 <= a < b < attended.len() ==> attended[a] != attended[b],
                            forall|a: int|
                                0 <= a < attended.len() ==> (#[trigger] attended[a]).0
                                    < events.spec_len(),
                            forall|a: int|
                                0 <= a < of_kind.len() ==> (#[trigger] of_kind[a]).0
                                    < events.spec_len(),
                            forall|e: Event|
                                #[trigger] attended@.contains(e) <==> before.contains(e) || exists|
                                    a: int,
                                | 0 <= a < i && of_kind[a] == e,
                        decreases of_kind.len() - i,
                    {
                        let e = of_kind[i];
                        let ghost prev = attended@;
                        if !contains_event(&attended, e) {
                            attended.push(e);
                            assert forall|x: Event| #[trigger]
                                attended@.contains(x) <==> before.contains(x) || exists|a: int|
                                    0 <= a < i + 1 && of_kind[a] == x by {
                                if attended@.contains(x) {
                                    let w = choose|w: int| 0 <= w < attended.len() && attended[w] == x;
                                    if w < prev.len() {
                                        assert(prev[w] == x);
                                        assert(prev.contains(x));
                                    } else {
                                        assert(of_kind[i as int] == x);
                                    }
                                }
                                if prev.contains(x) {
                                    let w = choose|w: int| 0 <= w < prev.len() && prev[w] == x;
                                    assert(attended@[w] == x);
                                }
                                if x == e {
                                    assert(attended@[attended.len() - 1] == x);
                                }
                            }
                        } else {
                            assert forall|x: Event| #[trigger]
                                attended@.contains(x) <==> before.contains(x) || exists|a: int|
                                    0 <= a < i + 1 && of_kind[a] == x by {
                                if exists|a: int| 0 <= a < i + 1 && of_kind[a] == x {
                                    let a = choose|a: int| 0 <= a < i + 1 && of_kind[a] == x;
                                    if a == i {
                                        assert(attended@.contains(x));
                                    }
                                }
                            }
                        }
                        i += 1;
                    }
                    assert forall|e: Event| #[trigger]
                        attended@.contains(e) <==> e.0 < events.spec_len() && exists|c: int|
                            0 <= c < k + 1 && code_of(
                                events.spec_kind_names(),
                                #[trigger] person.attend[c]@,
                            ) == Some(events.spec_kind(e).0 as int) by {
                        let here = e.0 < events.spec_len() && events.spec_kind(e) == kind;
                        if here {
                            assert(of_kind@.contains(e));
                            let a = choose|a: int| 0 <= a < of_kind.len() && of_kind[a] == e;
                            assert(attended@.contains(e));
                            assert(code_of(events.spec_kind_names(), person.attend[k as int]@)
                                == Some(events.spec_kind(e).0 as int));
                        }
                        if attended@.contains(e) && !before.contains(e) {
                            let a = choose|a: int| 0 <= a < of_kind.len() && of_kind[a] == e;
                            assert(here);
                        }
                        if e.0 < events.spec_len() && exists|c: int|
                            0 <= c < k + 1 && code_of(
                                events.spec_kind_names(),
                                #[trigger] person.attend[c]@,
                            ) == Some(events.spec_kind(e).0 as int) {
                            let c = choose|c: int|
                                0 <= c < k + 1 && code_of(
                                    events.spec_kind_names(),
                                    #[trigger] person.attend[c]@,
                                ) == Some(events.spec_kind(e).0 as int);
                            if c == k {
                                assert(here);
                            } else {
                                assert(before.contains(e));
                            }
                        }
                    }
                },
            }
            k += 1;
        }
        assert(kinds_known(events, &raw[p as int]));
        assert forall|e: Event| #[trigger]
            attended@.contains(e) <==> e.0 < events.spec_len() && names_kind_of(
                events,
                &raw[p as int],
                e,
            ) by {}
        names.push(person.name.clone());
        events_attended.push(attended);
        p += 1;
    }
    assert(people_fit(raw@, events.spec_kind_names())) by {
        assert forall|p: int, k: int|
            0 <= p < raw.len() && 0 <= k < raw[p].attend.len() implies code_of(
            events.spec_kind_names(),
            #[trigger] raw[p].attend[k]@,
        ) is Some by {
            assert(kinds_known(events, &raw[p]));
        }
    }
    Ok(People { events_attended, names })
}

} // verus!
