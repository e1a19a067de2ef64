//! The immutable description of a timetabling problem.

pub mod config;
pub mod events;
pub mod people;
pub mod rooms;
pub mod table;

pub use config::{default_initial_attempts, default_tabu_size, Config};
pub use events::{
    default_max_per_day, parse_events, Event, EventKind, Events, EventsError, RawEvent,
};
pub use people::{parse_people, People, PeopleError, Person, RawPerson};
pub use rooms::{parse_rooms, Room, RoomKind, Rooms, RoomsError};

use vstd::prelude::*;

verus! {

/// Why the parts of a project were rejected.
#[derive(Debug, Clone, Copy, PartialEq, Eq, Structural)]
pub enum ProjectError {
    /// A day has no slot, or the number of slots is not the product of the
    /// grid's two dimensions.
    Grid,
    Rooms(RoomsError),
    Events(EventsError),
    People(PeopleError),
}

/// A timetabling problem: the grid, the rooms, the events and the people.
#[derive(Debug)]
pub struct Project {
    pub config: Config,
    pub rooms: Rooms,
    pub events: Events,
    pub people: People,
}

/// The table that codes the kinds of room: the kind names of the rooms of
/// the left column, each once, in the order in which they first come.
pub open spec fn room_table(name_to_kind: Seq<(String, String)>, names_col: Seq<String>) -> Seq<
    Seq<char>,
> {
    crate::utils::distinct(
        rooms::kind_texts(name_to_kind, crate::utils::texts(names_col)),
    )
}

impl Project {
    /// The parts are consistent, each by itself and with the others: every
    /// person attends known events only, every event needs a kind of room
    /// that some room has, and a person attends an event exactly if the event
    /// is attended by the person.
    pub open spec fn wf(&self) -> bool {
        &&& self.config.wf()
        &&& self.rooms.wf()
        &&& self.events.wf()
        &&& self.people.wf()
        &&& self.people.within(self.events.spec_len())
        &&& forall|e: Event|
            e.0 < self.events.spec_len() ==> self.rooms.has_room_of_kind(
                #[trigger] self.events.spec_room_kind(e),
            )
        &&& forall|e: Event, p: Person|
            e.0 < self.events.spec_len() ==> (#[trigger] self.events.spec_attendees(e).contains(p)
                <==> p.0 < self.people.spec_len() && self.people.spec_attended(p).contains(e))
    }

    /// Builds a project from its parts as the input gives them: the grid and
    /// tunables, the mapping of room names to kind names, the distance table
    /// (header row, left column, numbers), the kinds of event and the people.
    /// The parts are built as `parse_rooms`, `parse_events` and `parse_people`
    /// build them, and every event is attended by the people who attend it.
    /// The first part that is rejected, in that order, gives the error, which
    /// says of the input what that part's own error says.
    pub fn parse(
        config: Config,
        name_to_kind: &Vec<(String, String)>,
        names_row: Vec<String>,
        names_col: Vec<String>,
        mat: Vec<Vec<i32>>,
        raw_events: &Vec<RawEvent>,
        raw_people: &Vec<RawPerson>,
    ) -> (r: Result<Project, ProjectError>)
        ensures
            match r {
                Ok(project) => {
                    &&& project.wf()
                    &&& project.config == config
                    &&& rooms::rooms_built(
                        &project.rooms,
                        name_to_kind@,
                        names_row@,
                        names_col@,
                        mat@,
                    )
                    &&& events::events_built(&project.events, raw_events@, &project.rooms)
                    &&& people::people_built(&project.people, raw_people@, &project.events)
                },
                Err(ProjectError::Grid) => !config.wf(),
                Err(ProjectError::Rooms(e)) => rooms::rooms_rejected(
                    e,
                    name_to_kind@,
                    names_row@,
                    names_col@,
                    mat@,
                ),
                Err(ProjectError::Events(e)) => events::events_rejected(
                    e,
                    raw_events@,
                    room_table(name_to_kind@, names_col@),
                ),
                Err(ProjectError::People(e)) => people::people_rejected(
                    e,
                    raw_people@,
                    crate::utils::distinct(events::raw_names(raw_events@)),
                ),
            },
            r is Ok <==> config.wf() && rooms::rooms_input_ok(
                name_to_kind@,
                names_row@,
                names_col@,
                mat@,
            ) && events::events_fit(raw_events@, room_table(name_to_kind@, names_col@))
                && people::people_fit(
                raw_people@,
                crate::utils::distinct(events::raw_names(raw_events@)),
            ),
            r matches Err(ProjectError::Grid) <==> !config.wf(),
            r matches Err(ProjectError::Rooms(_)) <==> config.wf() && !rooms::rooms_input_ok(
                name_to_kind@,
                names_row@,
                names_col@,
                mat@,
            ),
            r matches Err(ProjectError::Events(_)) <==> config.wf() && rooms::rooms_input_ok(
                name_to_kind@,
                names_row@,
                names_col@,
                mat@,
            ) && !events::events_fit(raw_events@, room_table(name_to_kind@, names_col@)),
            r matches Err(ProjectError::People(_)) <==> config.wf() && rooms::rooms_input_ok(
                name_to_kind@,
                names_row@,
                names_col@,
                mat@,
            ) && events::events_fit(raw_events@, room_table(name_to_kind@, names_col@))
                && !people::people_fit(
                raw_people@,
                crate::utils::distinct(events::raw_names(raw_events@)),
            ),
    {
        if config.slots_per_day == 0 {
            return Err(ProjectError::Grid);
        }
        match config.slots_per_day.checked_mul(config.days) {
            None => {
                return Err(ProjectError::Grid);
            },
            Some(product) => {
                if product != config.num_slots {
                    return Err(ProjectError::Grid);
                }
            },
        }
        let rooms = match parse_rooms(name_to_kind, names_row, names_col, mat) {
            Err(e) => {
                return Err(ProjectError::Rooms(e));
            },
            Ok(rooms) => rooms,
        };
        let mut events = match parse_events(raw_events, &rooms) {
            Err(e) => {
                return Err(ProjectError::Events(e));
            },
            Ok(events) => events,
        };
        let people = match parse_people(raw_people, &events) {
            Err(e) => {
                return Err(ProjectError::People(e));
            },
            Ok(people) => people,
        };
        let ghost unfilled = events;
        events.fill_attendees(&people);
        proof {
            assert forall|p: Person, e: Event| p.0 < raw_people.len() implies (
            #[trigger] people.spec_attended(p).contains(e) <==> e.0 < events.spec_len()
                && people::names_kind_of(&events, &raw_people[p.0 as int], e)) by {
                if e.0 < events.spec_len() {
                    assert(events.spec_kind(e) == unfilled.spec_kind(e));
                    assert(people::names_kind_of(&events, &raw_people[p.0 as int], e)
                        == people::names_kind_of(&unfilled, &raw_people[p.0 as int], e));
                }
            }
        }
        Ok(Project { config, rooms, events, people })
    }
}

} // verus!
