use timetabling::criteria::{
    event_time_distance, events_distance, events_of_kinds, room_distance,
};
use timetabling::initial::{
    find_initial_solution, find_initial_solution_constructive, find_initial_solution_tabu,
    find_local_best, make_candidate, start, InitialSolution, InvalidMethod,
};
use timetabling::neighborhoods::{greedy_room, relocation, swap};
use timetabling::optimize::{collect_neighborhoods, optimize, History, NEIGHBORHOODS};
use timetabling::project::{
    parse_events, parse_people, parse_rooms, Config, Event, EventKind, EventsError, PeopleError,
    Person, Project, ProjectError, RawEvent, RawPerson, Room, RoomKind, RoomsError,
};
use timetabling::project::table::{
    cells_of, parse_number, read_table, space, split_at, trimmed, TableError,
};
use timetabling::solution::{same_timemap, Solution, TIMEMAP};
use timetabling::tsp::{
    calculate_total_distance, calculate_total_distance_proj, exchange_if_shorter, solve,
};
use timetabling::utils::{int_encode, lookup};
use timetabling::validity::Violation;

fn text(x: &str) -> String {
    x.to_string()
}

fn room_names() -> Vec<String> {
    vec![text("A1"), text("A2"), text("A3"), text("A4"), text("L1"), text("L2")]
}

fn room_kinds() -> Vec<(String, String)> {
    vec![
        (text("A1"), text("hall")),
        (text("A2"), text("hall")),
        (text("A3"), text("hall")),
        (text("A4"), text("hall")),
        (text("L1"), text("lab")),
        (text("L2"), text("lab")),
    ]
}

fn distances() -> Vec<Vec<i32>> {
    vec![
        vec![0, 1, 5, 9, 4, 6],
        vec![1, 0, 2, 7, 3, 5],
        vec![5, 2, 0, 3, 8, 2],
        vec![9, 7, 3, 0, 6, 1],
        vec![4, 3, 8, 6, 0, 7],
        vec![6, 5, 2, 1, 7, 0],
    ]
}

fn raw_events() -> Vec<RawEvent> {
    vec![
        RawEvent { name: text("math"), num_per_week: 5, max_per_day: 2, room_kind: text("hall") },
        RawEvent { name: text("physics"), num_per_week: 4, max_per_day: 1, room_kind: text("hall") },
        RawEvent { name: text("chemistry"), num_per_week: 3, max_per_day: 2, room_kind: text("lab") },
        RawEvent { name: text("history"), num_per_week: 4, max_per_day: 2, room_kind: text("hall") },
        RawEvent { name: text("biology"), num_per_week: 3, max_per_day: 1, room_kind: text("lab") },
        RawEvent { name: text("art"), num_per_week: 4, max_per_day: 2, room_kind: text("hall") },
    ]
}

fn raw_people() -> Vec<RawPerson> {
    vec![
        RawPerson { name: text("ann"), attend: vec![text("math"), text("physics"), text("art")] },
        RawPerson { name: text("bob"), attend: vec![text("math"), text("chemistry")] },
        RawPerson { name: text("cid"), attend: vec![text("history"), text("biology"), text("art")] },
        RawPerson { name: text("dee"), attend: vec![text("physics"), text("history")] },
        RawPerson { name: text("eve"), attend: vec![text("art"), text("math"), text("history")] },
    ]
}

fn grid_config() -> Config {
    let mut config = Config::new(7, 5).unwrap();
    config.max_iter_initial = 5000;
    config.max_iter = 10;
    config.population_size = 20;
    config.expected_graded_num = 100;
    config.history_size = 100;
    config
}

fn demo() -> Project {
    Project::parse(
        grid_config(),
        &room_kinds(),
        room_names(),
        room_names(),
        distances(),
        &raw_events(),
        &raw_people(),
    )
    .unwrap()
}

fn demo_solution(project: &Project) -> Solution {
    for _ in 0..5 {
        if let Some(s) = find_initial_solution_tabu(project) {
            let mut s = Solution::new(s);
            s.fill_counter(project);
            return s;
        }
    }
    panic!("no initial solution");
}

#[test]
fn test_basic_arithmetics() {
    let c = Config::new(10, 5).unwrap();
    assert!(c.slots_of_day(1).contains(&10));
    assert!(c.slots_of_day(1).contains(&19));
    assert!(!c.slots_of_day(1).contains(&20));
}

#[test]
fn test_slots_of_day_has_slots_per_day_slots() {
    let c = Config::new(7, 5).unwrap();
    for d in 0..5 {
        assert_eq!(c.slots_of_day(d).len(), 7);
        assert_eq!(c.slots_of_day(d).start, d * 7);
    }
    assert_eq!(c.iter_slots(), 0..35);
    assert_eq!(c.days(), 0..5);
    assert_eq!(c.slots_to_day(20), 2);
    assert_eq!(c.offset_in_day(20), 6);
    assert_eq!(c.slots_of_same_day(20), 14..21);
}

#[test]
fn test_config_new_rejects_empty_days_and_overflow() {
    assert!(Config::new(0, 5).is_none());
    assert!(Config::new(usize::MAX, 2).is_none());
    let c = Config::new(3, 0).unwrap();
    assert_eq!(c.num_slots, 0);
    assert_eq!(c.tabu_size, 20);
    assert_eq!(c.initial_attempts, 3);
    assert_eq!(c.initial_method, "tabu");
}

#[test]
fn test_int_encode_codes_by_first_occurrence() {
    let table = int_encode(vec![text("a"), text("a"), text("b"), text("a"), text("c"), text("c")]);
    assert_eq!(table, vec![text("a"), text("b"), text("c")]);
    assert_eq!(lookup(&table, "a"), Some(0));
    assert_eq!(lookup(&table, "b"), Some(1));
    assert_eq!(lookup(&table, "c"), Some(2));
    assert_eq!(lookup(&table, "d"), None);
    let again = int_encode(vec![text("a"), text("b"), text("a")]);
    assert_eq!(again.len(), 2);
    assert_eq!(lookup(&again, "a"), Some(0));
    assert_eq!(lookup(&again, "b"), Some(1));
    assert!(int_encode(vec![]).is_empty());
}

#[test]
fn test_kinds_are_coded_densely() {
    // rooms of the kinds hall, lab, hall; events named a, b, a with one cap
    let rooms = parse_rooms(
        &vec![(text("X"), text("hall")), (text("Y"), text("lab")), (text("Z"), text("hall"))],
        vec![text("X"), text("Y"), text("Z")],
        vec![text("X"), text("Y"), text("Z")],
        vec![vec![0, 1, 2], vec![1, 0, 3], vec![2, 3, 0]],
    )
    .unwrap();
    assert_eq!(rooms.iter_kinds(), vec![RoomKind(0), RoomKind(1)]);
    assert_eq!(rooms.room_kind(&Room(2)), RoomKind(0));
    assert_eq!(rooms.kind_name_to_id("hall"), Some(RoomKind(0)));
    assert_eq!(rooms.kind_name_to_id("lab"), Some(RoomKind(1)));
    let raw = vec![
        RawEvent { name: text("a"), num_per_week: 1, max_per_day: 2, room_kind: text("hall") },
        RawEvent { name: text("b"), num_per_week: 1, max_per_day: 2, room_kind: text("lab") },
        RawEvent { name: text("a"), num_per_week: 2, max_per_day: 2, room_kind: text("hall") },
    ];
    let events = parse_events(&raw, &rooms).unwrap();
    assert_eq!(events.kinds_len(), 2);
    assert_eq!(events.kind_name_to_id("a"), Some(EventKind(0)));
    assert_eq!(events.kind_name_to_id("b"), Some(EventKind(1)));
    assert_eq!(events.events_with_kind(EventKind(0)).len(), 3);
    assert_eq!(events.events_with_kind(EventKind(1)).len(), 1);
}

#[test]
fn test_parse_rooms() {
    let rooms = parse_rooms(&room_kinds(), room_names(), room_names(), distances()).unwrap();
    assert_eq!(rooms.len(), 6);
    assert_eq!(rooms.distance(&Room(0), &Room(3)), 9);
    assert_eq!(rooms.distance(&Room(3), &Room(0)), 9);
    for a in 0..6 {
        assert_eq!(rooms.distance(&Room(a), &Room(a)), 0);
        for b in 0..6 {
            assert!(rooms.distance(&Room(a), &Room(b)) >= 0);
            assert_eq!(rooms.distance(&Room(a), &Room(b)), rooms.distance(&Room(b), &Room(a)));
        }
    }
    assert_eq!(rooms.room_name(&Room(4)), "L1");
    assert_eq!(rooms.kind_name_to_id("hall"), Some(RoomKind(0)));
    assert_eq!(rooms.kind_name_to_id("lab"), Some(RoomKind(1)));
    assert_eq!(rooms.kind_name_to_id("gym"), None);
    assert_eq!(rooms.room_kind(&Room(1)), RoomKind(0));
    assert_eq!(rooms.room_kind(&Room(5)), RoomKind(1));
    assert_eq!(rooms.rooms_with_kind(&RoomKind(0)), vec![Room(0), Room(1), Room(2), Room(3)]);
    assert_eq!(rooms.rooms_with_kind(&RoomKind(1)), vec![Room(4), Room(5)]);
    assert_eq!(rooms.iter_kinds(), vec![RoomKind(0), RoomKind(1)]);
    assert_eq!(rooms.iter_all().len(), 6);
}

#[test]
fn test_parse_rooms_errors() {
    let mut other = room_names();
    other[2] = text("B7");
    assert_eq!(
        parse_rooms(&room_kinds(), room_names(), other, distances()).err(),
        Some(RoomsError::HeaderMismatch)
    );
    let mut kinds = room_kinds();
    kinds.remove(3);
    assert_eq!(
        parse_rooms(&kinds, room_names(), room_names(), distances()).err(),
        Some(RoomsError::MissingKind(3))
    );
    let mut ragged = distances();
    ragged[1].pop();
    assert_eq!(
        parse_rooms(&room_kinds(), room_names(), room_names(), ragged).err(),
        Some(RoomsError::NotSquare)
    );
    let mut skew = distances();
    skew[1][4] = 11;
    assert_eq!(
        parse_rooms(&room_kinds(), room_names(), room_names(), skew).err(),
        Some(RoomsError::Asymmetric(1, 4))
    );
    let mut below = distances();
    below[2][5] = -2;
    below[5][2] = -2;
    assert_eq!(
        parse_rooms(&room_kinds(), room_names(), room_names(), below).err(),
        Some(RoomsError::BadDistance(2, 5))
    );
    let mut off = distances();
    off[3][3] = 1;
    assert_eq!(
        parse_rooms(&room_kinds(), room_names(), room_names(), off).err(),
        Some(RoomsError::BadDistance(3, 3))
    );
}

#[test]
fn test_parse_events_expands_and_codes() {
    let rooms = parse_rooms(&room_kinds(), room_names(), room_names(), distances()).unwrap();
    let events = parse_events(&raw_events(), &rooms).unwrap();
    assert_eq!(events.len(), 23);
    assert_eq!(events.kinds_len(), 6);
    assert_eq!(events.iter_all().len(), 23);
    assert_eq!(events.kind_name_to_id("math"), Some(EventKind(0)));
    assert_eq!(events.kind_name_to_id("art"), Some(EventKind(5)));
    assert_eq!(events.kind_name_to_id("music"), None);
    let wanted = [5, 4, 3, 4, 3, 4];
    let caps = [2, 1, 2, 2, 1, 2];
    let room_kinds = [0, 0, 1, 0, 1, 0];
    for k in 0..6 {
        let of_kind = events.events_with_kind(EventKind(k));
        assert_eq!(of_kind.len(), wanted[k]);
        for e in of_kind {
            assert_eq!(events.kind(&e), EventKind(k));
            assert_eq!(events.max_per_day(&e), caps[k]);
            assert_eq!(events.room_kind(&e), RoomKind(room_kinds[k]));
            assert_eq!(events.kind_name(&e), raw_events()[k].name);
        }
    }
    assert_eq!(events.events_with_room_kind(RoomKind(1)).len(), 6);
    assert_eq!(events.events_with_room_kind(RoomKind(0)).len(), 17);
}

#[test]
fn test_parse_events_errors() {
    let rooms = parse_rooms(&room_kinds(), room_names(), room_names(), distances()).unwrap();
    let mut raw = raw_events();
    raw[2].room_kind = text("gym");
    assert_eq!(parse_events(&raw, &rooms).err(), Some(EventsError::UnknownRoomKind(2)));
    // a cap of zero is no error
    let mut raw = raw_events();
    raw[4].max_per_day = 0;
    let events = parse_events(&raw, &rooms).unwrap();
    let mut without = 0;
    for e in 0..events.len() {
        if events.max_per_day(&Event(e)) == 0 {
            without += 1;
        }
    }
    assert_eq!(without, raw[4].num_per_week);
    let mut raw = raw_events();
    raw[3].name = text("math");
    raw[3].max_per_day = 3;
    assert_eq!(parse_events(&raw, &rooms).err(), Some(EventsError::CapMismatch(0, 3)));
}

#[test]
fn test_parse_people_and_attendees_are_inverse() {
    let project = demo();
    assert_eq!(project.people.len(), 5);
    assert_eq!(project.people.name(Person(1)), "bob");
    for p in project.people.iter_all() {
        for e in project.events.iter_all() {
            let attends = project.people.events_attended_by(p).contains(&e);
            let attended = project.events.event_attendees(e).contains(&p);
            assert_eq!(attends, attended);
            let kind = project.events.kind(&e).0;
            let named = raw_people()[p.0].attend.contains(&raw_events()[kind].name);
            assert_eq!(attends, named);
        }
    }
    let math = project.events.events_with_kind(EventKind(0));
    let chem = project.events.events_with_kind(EventKind(2));
    let bio = project.events.events_with_kind(EventKind(4));
    assert!(project.events.have_people_conflict(math[0], chem[0]));
    assert!(project.events.have_people_conflict(math[0], math[1]));
    assert!(!project.events.have_people_conflict(math[0], bio[0]));
}

#[test]
fn test_parse_people_unknown_kind() {
    let rooms = parse_rooms(&room_kinds(), room_names(), room_names(), distances()).unwrap();
    let events = parse_events(&raw_events(), &rooms).unwrap();
    let mut raw = raw_people();
    raw[2].attend[1] = text("music");
    assert_eq!(parse_people(&raw, &events).err(), Some(PeopleError::UnknownKind(2, 1)));
}

#[test]
fn test_project_parse_errors() {
    let mut config = grid_config();
    config.num_slots = 34;
    let r = Project::parse(
        config,
        &room_kinds(),
        room_names(),
        room_names(),
        distances(),
        &raw_events(),
        &raw_people(),
    );
    assert_eq!(r.err(), Some(ProjectError::Grid));
    let mut skew = distances();
    skew[0][1] = 2;
    let r = Project::parse(
        grid_config(),
        &room_kinds(),
        room_names(),
        room_names(),
        skew,
        &raw_events(),
        &raw_people(),
    );
    assert_eq!(r.err(), Some(ProjectError::Rooms(RoomsError::Asymmetric(0, 1))));
    let mut raw = raw_events();
    raw[0].room_kind = text("gym");
    let r = Project::parse(
        grid_config(),
        &room_kinds(),
        room_names(),
        room_names(),
        distances(),
        &raw,
        &raw_people(),
    );
    assert_eq!(r.err(), Some(ProjectError::Events(EventsError::UnknownRoomKind(0))));
    let mut raw = raw_people();
    raw[0].attend[0] = text("music");
    let r = Project::parse(
        grid_config(),
        &room_kinds(),
        room_names(),
        room_names(),
        distances(),
        &raw_events(),
        &raw,
    );
    assert_eq!(r.err(), Some(ProjectError::People(PeopleError::UnknownKind(0, 0))));
}

#[test]
fn test_counter() {
    let proj = demo();

    let mut dummy_events = vec![];

    let test_kind = EventKind(1);

    let test_event = proj.events.events_with_kind(test_kind).into_iter().next().unwrap();

    dummy_events.push(vec![(test_event, Room(0))]);
    dummy_events.push(vec![]);
    dummy_events.push(vec![]);
    dummy_events.push(vec![]);
    dummy_events.push(vec![(test_event, Room(0))]);
    dummy_events.push(vec![]);
    dummy_events.push(vec![(test_event, Room(0))]);

    for _ in 0..(proj.config.iter_slots().len() - dummy_events.len()) {
        dummy_events.push(vec![]);
    }

    let mut sol = Solution::new(dummy_events);

    sol.fill_counter(&proj);

    assert_eq!(sol.same_kind_events(0, test_kind), 3);

    sol.events_of_day_drain(0, &proj);

    assert_eq!(sol.events_of_day_drain(0, &proj).len(), 0);
}

#[test]
fn test_counter_correctness_on_grid_of_seven_by_five() {
    let proj = demo();
    let kind = EventKind(3);
    let of_kind = proj.events.events_with_kind(kind);
    let mut tm: TIMEMAP = vec![vec![]; 35];
    tm[0].push((of_kind[0], Room(0)));
    tm[4].push((of_kind[1], Room(1)));
    tm[6].push((of_kind[2], Room(2)));
    let mut sol = Solution::new(tm);
    sol.fill_counter(&proj);
    assert_eq!(sol.same_kind_events(0, kind), 3);
    assert_eq!(sol.same_kind_events(1, kind), 0);
    for d in 0..5 {
        for k in 0..6 {
            let mut n = 0;
            for (_, e, _) in sol.events_of_day(d, &proj) {
                if proj.events.kind(&e) == EventKind(k) {
                    n += 1;
                }
            }
            assert_eq!(sol.same_kind_events(d, EventKind(k)), n);
        }
    }
}

#[test]
fn test_solution_accessors() {
    let tm: TIMEMAP = vec![
        vec![(Event(2), Room(1)), (Event(0), Room(0))],
        vec![],
        vec![(Event(1), Room(1))],
    ];
    let mut sol = Solution::new(tm.clone());
    assert_eq!(sol.inner(), &tm);
    assert_eq!(
        sol.iter_all(),
        vec![(0, Event(2), Room(1)), (0, Event(0), Room(0)), (2, Event(1), Room(1))]
    );
    assert_eq!(sol.events_in_slot(0), &vec![(Event(2), Room(1)), (Event(0), Room(0))]);
    sol.events_in_slot_mut(1).push((Event(7), Room(3)));
    assert_eq!(sol.events_in_slot(1), &vec![(Event(7), Room(3))]);
    assert_eq!(sol.events_in_slot_drain(0), vec![(Event(2), Room(1)), (Event(0), Room(0))]);
    assert!(sol.events_in_slot(0).is_empty());
    let copy = sol.duplicate();
    assert!(same_timemap(copy.inner(), sol.inner()));
    assert_eq!(sol.take_out(1, 0), (Event(7), Room(3)));
    sol.put_in(0, (Event(7), Room(3)));
    sol.swap_slots(0, 2);
    assert_eq!(
        sol.into_inner(),
        vec![vec![(Event(1), Room(1))], vec![], vec![(Event(7), Room(3))]]
    );
    assert_eq!(optimize(tm.clone()), tm);
}

#[test]
fn test_iter_all_shuffle_keeps_the_entries_and_reorders_them() {
    let project = demo();
    let sol = demo_solution(&project);
    let mut ordered = sol.iter_all();
    let mut reordered = false;
    for _ in 0..20 {
        let mut shuffled = sol.iter_all_shuffle();
        if shuffled != ordered {
            reordered = true;
        }
        shuffled.sort_by_key(|x| (x.0, x.1 .0, x.2 .0));
        ordered.sort_by_key(|x| (x.0, x.1 .0, x.2 .0));
        assert_eq!(shuffled, ordered);
        ordered = sol.iter_all();
    }
    assert!(reordered);
}

#[test]
fn test_events_of_day_drain_twice_is_empty() {
    let project = demo();
    let mut sol = demo_solution(&project);
    for d in 0..5 {
        let listed = sol.events_of_day(d, &project);
        let drained = sol.events_of_day_drain(d, &project);
        assert_eq!(listed, drained);
        assert!(sol.events_of_day_drain(d, &project).is_empty());
        assert!(sol.events_of_day(d, &project).is_empty());
    }
    assert!(sol.iter_all().is_empty());
}

#[test]
fn test_event_can_not_fit_in() {
    let project = demo();
    let math = project.events.events_with_kind(EventKind(0));
    let chem = project.events.events_with_kind(EventKind(2));
    let bio = project.events.events_with_kind(EventKind(4));
    let mut tm: TIMEMAP = vec![vec![]; 35];
    tm[3].push((math[0], Room(0)));
    let sol = Solution::new(tm);
    assert!(sol.event_can_not_fit_in(&bio[0], &Room(0), 3, &project));
    assert!(sol.event_can_not_fit_in(&chem[0], &Room(4), 3, &project));
    assert!(!sol.event_can_not_fit_in(&bio[0], &Room(4), 3, &project));
    assert!(!sol.event_can_not_fit_in(&chem[0], &Room(0), 4, &project));
}

#[test]
fn test_is_valid_reports_each_violation() {
    let project = demo();
    let good = demo_solution(&project).into_inner();
    assert_eq!(Solution::new(good.clone()).is_valid(&project), Ok(()));

    let mut short = good.clone();
    short.pop();
    assert_eq!(Solution::new(short).is_valid(&project), Err(Violation::Shape));

    let mut tm = good.clone();
    tm[5].push((Event(99), Room(0)));
    assert_eq!(
        Solution::new(tm).is_valid(&project),
        Err(Violation::UnknownEvent(5, Event(99)))
    );

    let (t, e, r) = Solution::new(good.clone()).iter_all()[0];
    let mut tm = good.clone();
    tm[t][0] = (e, Room(77));
    assert_eq!(Solution::new(tm).is_valid(&project), Err(Violation::UnknownRoom(t, Room(77))));

    let mut tm = good.clone();
    let other = if t == 34 { 0 } else { 34 };
    tm[other].push((e, r));
    assert_eq!(Solution::new(tm).is_valid(&project), Err(Violation::MultipleEvent(e)));

    let mut tm = good.clone();
    tm[t].remove(0);
    assert_eq!(Solution::new(tm).is_valid(&project), Err(Violation::MissingEvent(e)));
}

#[test]
fn test_is_valid_reports_conflicts_and_caps() {
    let project = demo();
    let bio = project.events.events_with_kind(EventKind(4));
    let chem = project.events.events_with_kind(EventKind(2));
    let math = project.events.events_with_kind(EventKind(0));
    let good = demo_solution(&project).into_inner();
    let strip = |tm: &TIMEMAP, events: &[Event]| -> TIMEMAP {
        tm.iter()
            .map(|slot| slot.iter().filter(|(e, _)| !events.contains(e)).cloned().collect())
            .collect()
    };

    // two events that share nobody, in one room
    let mut tm = strip(&good, &[bio[0], math[0]]);
    tm[0].clear();
    let mut moved = vec![];
    for (e, r) in good[0].iter() {
        if *e != bio[0] && *e != math[0] {
            moved.push((*e, *r));
        }
    }
    let base = strip(&good, &[bio[0], math[0]]);
    let _ = moved;
    let mut tm = base.clone();
    let mut free = 0;
    while !tm[free].is_empty() {
        free += 1;
    }
    tm[free].push((bio[0], Room(4)));
    tm[free].push((math[0], Room(4)));
    assert_eq!(
        Solution::new(tm).is_valid(&project),
        Err(Violation::RoomConflict(free, bio[0], math[0], Room(4)))
    );

    // a room of the wrong kind
    let mut tm = base.clone();
    tm[free].push((bio[0], Room(4)));
    tm[free].push((math[0], Room(5)));
    assert_eq!(
        Solution::new(tm).is_valid(&project),
        Err(Violation::WrongRoomKind(free, math[0], Room(5)))
    );

    // two events that share an attendee, at one time
    let base = strip(&good, &[chem[0], math[0]]);
    let mut free = 0;
    while !base[free].is_empty() {
        free += 1;
    }
    let mut tm = base.clone();
    tm[free].push((chem[0], Room(4)));
    tm[free].push((math[0], Room(0)));
    assert_eq!(
        Solution::new(tm).is_valid(&project),
        Err(Violation::PeopleConflict(free, chem[0], math[0]))
    );
}

#[test]
fn test_is_valid_reports_excess() {
    // nobody attends anything, so that only the cap can fail
    let raw = vec![RawEvent {
        name: text("solo"),
        num_per_week: 3,
        max_per_day: 2,
        room_kind: text("hall"),
    }];
    let project = Project::parse(
        grid_config(),
        &room_kinds(),
        room_names(),
        room_names(),
        distances(),
        &raw,
        &vec![],
    )
    .unwrap();
    let mut tm: TIMEMAP = vec![vec![]; 35];
    tm[7].push((Event(0), Room(0)));
    tm[8].push((Event(1), Room(0)));
    tm[9].push((Event(2), Room(0)));
    assert_eq!(
        Solution::new(tm.clone()).is_valid(&project),
        Err(Violation::ExcessEvents(EventKind(0), 1, 3, 2))
    );
    let moved = tm[9].pop().unwrap();
    tm[14].push(moved);
    assert_eq!(Solution::new(tm).is_valid(&project), Ok(()));
}

#[test]
fn test_find_initial_solution_tabu() {
    let project = demo();

    for _ in 0..5 {
        if let Some(s) = find_initial_solution_tabu(&project) {
            Solution::new(s).is_valid(&project).unwrap();
            return;
        }
    }

    panic!("find_initial_solution_tabu failed")
}

#[test]
fn test_find_initial_solution_constructive() {
    let project = demo();

    for _ in 0..5 {
        if let Some(s) = find_initial_solution_constructive(&project) {
            Solution::new(s).is_valid(&project).unwrap();
            return;
        }
    }

    panic!("find_initial_solution_constructive failed")
}

#[test]
fn test_find_initial_solution_methods_and_attempts() {
    let mut project = demo();
    let s = find_initial_solution(&project).unwrap().unwrap();
    assert_eq!(Solution::new(s).is_valid(&project), Ok(()));
    project.config.initial_method = text("constructive");
    let s = find_initial_solution(&project).unwrap().unwrap();
    assert_eq!(Solution::new(s).is_valid(&project), Ok(()));
    project.config.initial_method = text("annealing");
    assert_eq!(find_initial_solution(&project), Err(InvalidMethod));
    project.config.initial_method = text("tabu");
    project.config.initial_attempts = 0;
    assert_eq!(find_initial_solution(&project), Ok(None));
    project.config.initial_attempts = 2;
    project.config.max_iter_initial = 0;
    assert_eq!(find_initial_solution(&project), Ok(None));
}

#[test]
fn test_trivial_project_is_solved_in_one_step() {
    let mut config = Config::new(1, 1).unwrap();
    config.max_iter_initial = 1;
    config.initial_attempts = 1;
    let project = Project::parse(
        config,
        &vec![(text("R"), text("room"))],
        vec![text("R")],
        vec![text("R")],
        vec![vec![0]],
        &vec![RawEvent {
            name: text("only"),
            num_per_week: 1,
            max_per_day: 1,
            room_kind: text("room"),
        }],
        &vec![RawPerson { name: text("one"), attend: vec![text("only")] }],
    )
    .unwrap();
    let tm = find_initial_solution(&project).unwrap().unwrap();
    assert_eq!(tm, vec![vec![(Event(0), Room(0))]]);
    let mut s = Solution::new(tm.clone());
    assert_eq!(s.is_valid(&project), Ok(()));
    for i in 0..NEIGHBORHOODS {
        assert!(collect_neighborhoods(i, s.duplicate(), &project).is_empty());
    }
    assert_eq!(find_initial_solution_constructive(&project), Some(tm));
}

#[test]
fn test_event_with_a_cap_of_zero_is_scheduled_all_the_same() {
    let mut config = Config::new(1, 1).unwrap();
    config.max_iter_initial = 1;
    config.initial_attempts = 1;
    let project = Project::parse(
        config,
        &vec![(text("R"), text("room"))],
        vec![text("R")],
        vec![text("R")],
        vec![vec![0]],
        &vec![RawEvent {
            name: text("only"),
            num_per_week: 1,
            max_per_day: 0,
            room_kind: text("room"),
        }],
        &vec![],
    )
    .unwrap();
    assert_eq!(project.events.max_per_day(&Event(0)), 0);
    let tm = find_initial_solution(&project).unwrap().unwrap();
    assert_eq!(tm, vec![vec![(Event(0), Room(0))]]);
    assert_eq!(find_initial_solution_constructive(&project), Some(tm.clone()));
    assert_eq!(
        Solution::new(tm).is_valid(&project),
        Err(Violation::ExcessEvents(EventKind(0), 0, 1, 0))
    );
}

#[test]
fn test_empty_eject_list_is_success() {
    let mut config = Config::new(2, 2).unwrap();
    config.max_iter_initial = 0;
    let project = Project::parse(
        config,
        &vec![(text("R"), text("room"))],
        vec![text("R")],
        vec![text("R")],
        vec![vec![0]],
        &vec![],
        &vec![],
    )
    .unwrap();
    let x = start(&project);
    assert_eq!(x.unassigned(), 0);
    let empty: TIMEMAP = vec![vec![]; 4];
    assert_eq!(find_initial_solution_tabu(&project), Some(empty.clone()));
    assert_eq!(find_initial_solution_constructive(&project), Some(empty));
}

#[test]
fn test_local_best_evicts_and_prefers_the_first_of_the_best() {
    // two halls, two slots on one day; all events attended by one person
    let mut config = Config::new(2, 1).unwrap();
    config.max_iter_initial = 10;
    let project = Project::parse(
        config,
        &vec![(text("H1"), text("hall")), (text("H2"), text("hall"))],
        vec![text("H1"), text("H2")],
        vec![text("H1"), text("H2")],
        vec![vec![0, 3], vec![3, 0]],
        &vec![RawEvent {
            name: text("talk"),
            num_per_week: 3,
            max_per_day: 2,
            room_kind: text("hall"),
        }],
        &vec![RawPerson { name: text("one"), attend: vec![text("talk")] }],
    )
    .unwrap();
    let x = InitialSolution::new(vec![Event(0), Event(1), Event(2)], 0..2);
    assert_eq!(x.unassigned(), 3);
    let next = x.next_event();
    // nothing is scheduled: every candidate leaves two events waiting, and
    // the first slot with the first room wins
    let best = find_local_best(&project, &x);
    assert_eq!(best.unassigned(), 2);
    assert_eq!(best.events(), &vec![vec![(next, Room(0))], vec![]]);
    // the candidate for the second slot and the second room
    let other = make_candidate(&project, &x, 1, Room(1));
    assert_eq!(other.events(), &vec![vec![], vec![(next, Room(1))]]);
    // from there the second event fits in the other slot
    let second = best.next_event();
    let best2 = find_local_best(&project, &best);
    assert_eq!(best2.unassigned(), 1);
    assert_eq!(best2.events(), &vec![vec![(next, Room(0))], vec![(second, Room(0))]]);
    // the third collides by person in each slot: in the first slot it
    // takes the place of the event there, which waits again
    let third = best2.next_event();
    let best3 = find_local_best(&project, &best2);
    assert_eq!(best3.unassigned(), 1);
    assert_eq!(best3.next_event(), next);
    assert_eq!(best3.events(), &vec![vec![(third, Room(0))], vec![(second, Room(0))]]);
    assert_eq!(find_initial_solution_tabu(&project), None);
}

#[test]
fn test_candidate_evicts_over_the_daily_cap() {
    // nobody attends; a cap of two on a day of three slots
    let mut config = Config::new(3, 1).unwrap();
    config.max_iter_initial = 10;
    let project = Project::parse(
        config,
        &room_kinds(),
        room_names(),
        room_names(),
        distances(),
        &vec![RawEvent {
            name: text("talk"),
            num_per_week: 3,
            max_per_day: 2,
            room_kind: text("hall"),
        }],
        &vec![],
    )
    .unwrap();
    let x = InitialSolution::new(vec![Event(0), Event(1), Event(2)], 0..3);
    let first = x.next_event();
    let x = make_candidate(&project, &x, 0, Room(0));
    let second = x.next_event();
    let x = make_candidate(&project, &x, 1, Room(0));
    assert_eq!(x.unassigned(), 1);
    let third = x.next_event();
    // one event of the kind may stay with the new one: the first that the
    // walk through the day meets
    let y = make_candidate(&project, &x, 2, Room(1));
    assert_eq!(y.unassigned(), 1);
    assert_eq!(y.next_event(), second);
    assert_eq!(y.events(), &vec![vec![(first, Room(0))], vec![], vec![(third, Room(1))]]);
    // in the room of the first it takes its place, and the second stays
    let z = make_candidate(&project, &x, 0, Room(0));
    assert_eq!(z.unassigned(), 1);
    assert_eq!(z.next_event(), first);
    assert_eq!(z.events(), &vec![vec![(third, Room(0))], vec![(second, Room(0))], vec![]]);
    assert_eq!(find_initial_solution_tabu(&project), None);
}

#[test]
fn test_walks_meet_the_last_pair_of_a_slot_first() {
    // three halls, two slots on one day, nobody attends; a cap of two
    let halls = vec![text("H1"), text("H2"), text("H3")];
    let project = Project::parse(
        Config::new(2, 1).unwrap(),
        &vec![
            (text("H1"), text("hall")),
            (text("H2"), text("hall")),
            (text("H3"), text("hall")),
        ],
        halls.clone(),
        halls.clone(),
        vec![vec![0, 1, 1], vec![1, 0, 1], vec![1, 1, 0]],
        &vec![RawEvent {
            name: text("talk"),
            num_per_week: 3,
            max_per_day: 2,
            room_kind: text("hall"),
        }],
        &vec![],
    )
    .unwrap();
    let x = InitialSolution::new(vec![Event(0), Event(1), Event(2)], 0..2);
    let a = x.next_event();
    let x = make_candidate(&project, &x, 0, Room(0));
    let b = x.next_event();
    let x = make_candidate(&project, &x, 0, Room(1));
    assert_eq!(x.events(), &vec![vec![(a, Room(0)), (b, Room(1))], vec![]]);
    let c = x.next_event();
    // one event of the kind may stay with the new one: the walk through the
    // first slot meets the last pair first, which stays
    let y = make_candidate(&project, &x, 1, Room(2));
    assert_eq!(y.events(), &vec![vec![(b, Room(1))], vec![(c, Room(2))]]);
    assert_eq!(y.unassigned(), 1);
    assert_eq!(y.next_event(), a);
}

#[test]
fn test_colliding_pairs_leave_a_slot_last_pair_first() {
    // one slot; the third kind shares a person with each of the other two
    let halls = vec![text("H1"), text("H2"), text("H3")];
    let mut raw = vec![];
    for k in ["ka", "kb", "kc"] {
        raw.push(RawEvent {
            name: text(k),
            num_per_week: 1,
            max_per_day: 1,
            room_kind: text("hall"),
        });
    }
    let project = Project::parse(
        Config::new(1, 1).unwrap(),
        &vec![
            (text("H1"), text("hall")),
            (text("H2"), text("hall")),
            (text("H3"), text("hall")),
        ],
        halls.clone(),
        halls.clone(),
        vec![vec![0, 1, 1], vec![1, 0, 1], vec![1, 1, 0]],
        &raw,
        &vec![
            RawPerson { name: text("one"), attend: vec![text("ka"), text("kc")] },
            RawPerson { name: text("two"), attend: vec![text("kb"), text("kc")] },
        ],
    )
    .unwrap();
    // the events wait in a random order: start again until the event that
    // collides with both others waits longest
    for _ in 0..1000 {
        let x = InitialSolution::new(vec![Event(0), Event(1), Event(2)], 0..1);
        let a = x.next_event();
        if project.events.kind_name(&a) == "kc" {
            continue;
        }
        let x = make_candidate(&project, &x, 0, Room(0));
        let b = x.next_event();
        if project.events.kind_name(&b) == "kc" {
            continue;
        }
        let x = make_candidate(&project, &x, 0, Room(1));
        assert_eq!(x.events(), &vec![vec![(a, Room(0)), (b, Room(1))]]);
        let c = x.next_event();
        // both pairs collide with the third event: the last pair leaves
        // first, so that the first pair's event waits last and is scheduled
        // next
        let y = make_candidate(&project, &x, 0, Room(2));
        assert_eq!(y.events(), &vec![vec![(c, Room(2))]]);
        assert_eq!(y.unassigned(), 2);
        assert_eq!(y.next_event(), a);
        let z = make_candidate(&project, &y, 0, Room(0));
        assert_eq!(z.events(), &vec![vec![(a, Room(0))]]);
        assert_eq!(z.next_event(), c);
        assert_eq!(z.unassigned(), 2);
        return;
    }
    panic!("the event that collides never waited longest");
}

#[test]
fn test_relocation() {
    let proj = demo();

    let sol = demo_solution(&proj);

    let solutions: Vec<Solution> = relocation::neighborhoods(sol, &proj);

    assert!(!solutions.is_empty());

    for mut s in solutions {
        s.is_valid(&proj).unwrap();
    }
}

#[test]
fn test_relocate_and_back_gives_the_same_slots() {
    let proj = demo();
    let sol = demo_solution(&proj);
    let (t, e, r) = sol.iter_all()[0];
    let t2 = if t == 0 { 1 } else { 0 };
    let mut moved = sol.duplicate();
    let x = moved.take_out(t, 0);
    assert_eq!(x, (e, r));
    moved.put_in(t2, x);
    let last = moved.events_in_slot(t2).len() - 1;
    let y = moved.take_out(t2, last);
    moved.put_in(t, y);
    for u in 0..35 {
        let mut a = moved.events_in_slot(u).clone();
        let mut b = sol.events_in_slot(u).clone();
        a.sort_by_key(|x| x.0 .0);
        b.sort_by_key(|x| x.0 .0);
        assert_eq!(a, b);
    }
}

#[test]
fn test_swap() {
    let proj = demo();

    let sol = demo_solution(&proj);

    let mut solutions: Vec<Solution> = vec![];
    solutions.extend(swap::time_and_room(sol.duplicate(), &proj));
    solutions.extend(swap::time_only(sol.duplicate(), &proj));
    solutions.extend(swap::room_only(sol, &proj));

    assert!(!solutions.is_empty());

    for mut s in solutions {
        s.is_valid(&proj).unwrap();
    }
}

#[test]
fn test_swap_room_only_respects_kinds() {
    let proj = demo();
    let sol = demo_solution(&proj);
    let before = sol.iter_all();
    let out = swap::room_only(sol, &proj);
    assert!(!out.is_empty());
    let mut cross = 0;
    for s in out.iter() {
        for (t, e, r) in s.iter_all() {
            if proj.rooms.room_kind(&r) != proj.events.room_kind(&e) {
                cross += 1;
            }
            let was = before.iter().find(|x| x.1 == e).unwrap();
            assert_eq!(was.0, t);
            assert_eq!(proj.rooms.room_kind(&was.2), proj.rooms.room_kind(&r));
        }
    }
    assert_eq!(cross, 0);
}

#[test]
fn test_swap_time_only_keeps_rooms() {
    let proj = demo();
    let sol = demo_solution(&proj);
    let before = sol.iter_all();
    let out = swap::time_only(sol, &proj);
    for s in out.iter() {
        let mut moved = 0;
        for (t, e, r) in s.iter_all() {
            let was = before.iter().find(|x| x.1 == e).unwrap();
            assert_eq!(was.2, r);
            if was.0 != t {
                moved += 1;
            }
        }
        assert!(moved == 0 || moved == 2);
    }
}

#[test]
fn test_greedy_room() {
    let project = demo();

    let solution = demo_solution(&project);

    let v: Vec<Solution> = greedy_room::neighborhoods(solution, &project);

    for mut e in v {
        e.is_valid(&project).unwrap();
    }
}

#[test]
fn test_greedy_room_rearranges_the_slots_of_a_day() {
    // one person, in a different hall in every slot of the only day
    let mut config = Config::new(4, 1).unwrap();
    config.max_iter_initial = 100;
    let project = Project::parse(
        config,
        &room_kinds(),
        room_names(),
        room_names(),
        distances(),
        &vec![RawEvent {
            name: text("walk"),
            num_per_week: 4,
            max_per_day: 4,
            room_kind: text("hall"),
        }],
        &vec![RawPerson { name: text("one"), attend: vec![text("walk")] }],
    )
    .unwrap();
    // a tour that the micro-solver can shorten: A1, A4, A2, A3
    let tm: TIMEMAP = vec![
        vec![(Event(0), Room(0))],
        vec![(Event(1), Room(3))],
        vec![(Event(2), Room(1))],
        vec![(Event(3), Room(2))],
    ];
    let mut sol = Solution::new(tm.clone());
    assert_eq!(sol.is_valid(&project), Ok(()));
    let out = greedy_room::neighborhoods(sol, &project);
    assert_eq!(out.len(), 1);
    let mut candidate = out.into_iter().next().unwrap();
    assert_eq!(candidate.is_valid(&project), Ok(()));
    let stops = |tm: &TIMEMAP| -> Vec<(usize, Room)> {
        tm.iter().enumerate().map(|(t, slot)| (t, slot[0].1)).collect()
    };
    let before = calculate_total_distance_proj(&stops(&tm), &project);
    let after = calculate_total_distance_proj(&stops(candidate.inner()), &project);
    assert_eq!(before, 9 + 7 + 2 + 5);
    assert!(after < before);
    let mut held: Vec<(Event, Room)> = candidate.iter_all().iter().map(|x| (x.1, x.2)).collect();
    held.sort_by_key(|x| x.0 .0);
    assert_eq!(
        held,
        vec![(Event(0), Room(0)), (Event(1), Room(3)), (Event(2), Room(1)), (Event(3), Room(2))]
    );
}

#[test]
fn test_feasibility_across_neighborhoods() {
    let project = demo();
    let solution = demo_solution(&project);
    let mut total = 0;
    for i in 0..NEIGHBORHOODS {
        for mut candidate in collect_neighborhoods(i, solution.duplicate(), &project) {
            assert_eq!(candidate.is_valid(&project), Ok(()));
            total += 1;
        }
    }
    assert!(total > 0);
}

#[test]
fn test_tour_length_and_solve() {
    let project = demo();
    let path = vec![(0, Room(0)), (1, Room(3)), (2, Room(1)), (3, Room(2))];
    assert_eq!(calculate_total_distance_proj(&path, &project), 23);
    assert_eq!(calculate_total_distance_proj(&vec![], &project), 0);
    assert_eq!(calculate_total_distance_proj(&vec![(5, Room(2))], &project), 0);
    assert_eq!(calculate_total_distance(&vec![0, 3, 1, 2], &distances()), 23);
    assert_eq!(calculate_total_distance(&vec![0, 1, 2, 3], &distances()), 1 + 2 + 3 + 9);
    let solved = solve(path.clone(), &project);
    assert_eq!(solved.len(), 4);
    let mut a = solved.clone();
    a.sort_by_key(|x| x.0);
    assert_eq!(a, path);
    // the shortest closed tours through the four halls have length 15
    assert_eq!(calculate_total_distance_proj(&solved, &project), 15);
    assert!(solve(vec![], &project).is_empty());
}

#[test]
fn test_history_observe_and_trim() {
    let a: TIMEMAP = vec![vec![(Event(0), Room(0))], vec![]];
    let b: TIMEMAP = vec![vec![], vec![(Event(0), Room(0))]];
    let c: TIMEMAP = vec![vec![(Event(0), Room(1))], vec![]];
    let mut history = History::new();
    assert_eq!(history.len(), 0);
    assert!(history.insert(a.clone()));
    assert!(!history.insert(a.clone()));
    assert!(history.contains(&a));
    assert!(!history.contains(&b));
    let frontline = vec![
        Solution::new(a.clone()),
        Solution::new(b.clone()),
        Solution::new(c.clone()),
        Solution::new(b.clone()),
    ];
    let counts = history.observe(&frontline, &vec![0, 3, 3, 1]);
    assert_eq!(counts, vec![0, 0, 0, 2, 0]);
    assert_eq!(history.len(), 3);
    history.trim(3);
    assert_eq!(history.len(), 3);
    history.trim(2);
    assert_eq!(history.len(), 1);
    assert!(history.contains(&a) || history.contains(&b) || history.contains(&c));
}

fn chars(x: &str) -> Vec<char> {
    x.chars().collect()
}

#[test]
fn test_parse_number() {
    assert_eq!(parse_number(&chars("0")), Some(0));
    assert_eq!(parse_number(&chars("17")), Some(17));
    assert_eq!(parse_number(&chars("+17")), Some(17));
    assert_eq!(parse_number(&chars("-17")), Some(-17));
    assert_eq!(parse_number(&chars("007")), Some(7));
    assert_eq!(parse_number(&chars("2147483647")), Some(i32::MAX));
    assert_eq!(parse_number(&chars("-2147483648")), Some(i32::MIN));
    assert_eq!(parse_number(&chars("2147483648")), None);
    assert_eq!(parse_number(&chars("-2147483649")), None);
    assert_eq!(parse_number(&chars("99999999999999999999")), None);
    assert_eq!(parse_number(&chars("")), None);
    assert_eq!(parse_number(&chars("-")), None);
    assert_eq!(parse_number(&chars("+")), None);
    assert_eq!(parse_number(&chars("1x")), None);
    assert_eq!(parse_number(&chars(" 1")), None);
    assert_eq!(parse_number(&chars("1.5")), None);
    for x in ["0", "5", "-5", "+12", "2147483647", "-2147483648", "2147483648", "a", "", "--1"] {
        assert_eq!(parse_number(&chars(x)), x.parse::<i32>().ok());
    }
}

#[test]
fn test_split_and_trim() {
    assert_eq!(split_at(&chars("a,b,,c"), ','), vec![chars("a"), chars("b"), chars(""), chars("c")]);
    assert_eq!(split_at(&chars(""), ','), vec![chars("")]);
    assert_eq!(split_at(&chars(","), ','), vec![chars(""), chars("")]);
    assert_eq!(trimmed(&chars("  a b\t\r")), chars("a b"));
    assert_eq!(trimmed(&chars(" \u{a0}\n")), chars(""));
    assert_eq!(trimmed(&chars("x")), chars("x"));
    assert_eq!(cells_of(&chars(" a , ,b,")), vec![chars("a"), chars("b")]);
    for x in ["  a b\t\r", "", " ", "abc", "\u{2003}x y\u{2003}"] {
        assert_eq!(trimmed(&chars(x)), chars(x.trim()));
    }
}

#[test]
fn test_read_table() {
    let text = "A1, A2 ,L1\r\n\r\nA1, 0, 3, 4\n A2,3,0,+5\n\nL1,4,5,0\n";
    let table = read_table(&chars(text)).unwrap();
    assert_eq!(table.names_row, vec![text_of("A1"), text_of("A2"), text_of("L1")]);
    assert_eq!(table.names_col, vec![text_of("A1"), text_of("A2"), text_of("L1")]);
    assert_eq!(table.mat, vec![vec![0, 3, 4], vec![3, 0, 5], vec![4, 5, 0]]);
    let rooms = parse_rooms(
        &vec![
            (text_of("A1"), text_of("hall")),
            (text_of("A2"), text_of("hall")),
            (text_of("L1"), text_of("lab")),
        ],
        table.names_row,
        table.names_col,
        table.mat,
    )
    .unwrap();
    assert_eq!(rooms.distance(&Room(1), &Room(2)), 5);

    let empty = read_table(&chars(" \n\n")).unwrap();
    assert!(empty.names_row.is_empty() && empty.names_col.is_empty() && empty.mat.is_empty());
    assert_eq!(
        read_table(&chars("A,B\nA,0,x\nB,1,0")).err(),
        Some(TableError::BadNumber(0, 1))
    );
    assert_eq!(
        read_table(&chars("A,B\nA,0,1\nB,1,99999999999")).err(),
        Some(TableError::BadNumber(1, 1))
    );
    assert_eq!(read_table(&chars("A,B\nA,0,1\n , ,\nB,1,0")).err(), Some(TableError::EmptyRow(1)));
}

fn text_of(x: &str) -> String {
    x.to_string()
}

#[test]
fn test_room_distance_sums_the_walks() {
    // one person in a hall in every slot of two days
    let mut config = Config::new(3, 2).unwrap();
    config.max_iter_initial = 100;
    let project = Project::parse(
        config,
        &room_kinds(),
        room_names(),
        room_names(),
        distances(),
        &vec![
            RawEvent { name: text("walk"), num_per_week: 5, max_per_day: 3, room_kind: text("hall") },
            RawEvent { name: text("lab"), num_per_week: 1, max_per_day: 3, room_kind: text("lab") },
        ],
        &vec![
            RawPerson { name: text("one"), attend: vec![text("walk"), text("lab")] },
            RawPerson { name: text("two"), attend: vec![text("lab")] },
        ],
    )
    .unwrap();
    let walk = project.events.events_with_kind(EventKind(0));
    let lab = project.events.events_with_kind(EventKind(1));
    let tm: TIMEMAP = vec![
        vec![(walk[0], Room(0))],
        vec![(walk[1], Room(3))],
        vec![(walk[2], Room(1))],
        vec![(walk[3], Room(2))],
        vec![(lab[0], Room(4))],
        vec![(walk[4], Room(0))],
    ];
    let s = Solution::new(tm);
    // day 0: A1 -> A4 -> A2 is 9 + 7; day 1: A3 -> A1 is 5, the lab between
    // them is of another kind
    assert_eq!(room_distance(&s, &project), 9 + 7 + 5);
    let all = events_of_kinds(&project, &vec![text("walk"), text("lab")]).unwrap();
    assert!(all.iter().all(|x| *x));
    let halls = events_of_kinds(&project, &vec![text("walk")]).unwrap();
    assert_eq!(halls.iter().filter(|x| **x).count(), 5);
    assert!(!halls[lab[0].0]);
    assert_eq!(events_of_kinds(&project, &vec![text("walk"), text("music")]), None);
    // gaps of one slot: two on day 0 and two on day 1
    assert_eq!(events_distance(&s, &project, &all, true), 4);
    assert_eq!(events_distance(&s, &project, &all, false), 4);
    // the halls of day 1 are two slots apart
    assert_eq!(events_distance(&s, &project, &halls, false), 1 + 1 + 4);
    // squared distances from slot 1: slots 0, 1, 2, 3, 5
    assert_eq!(event_time_distance(&s, &project, &halls, 1), 1 + 0 + 1 + 4 + 16);
    let empty = Solution::new(vec![vec![]; 6]);
    assert_eq!(room_distance(&empty, &project), 0);
    assert_eq!(events_distance(&empty, &project, &all, true), 0);
}

#[test]
fn test_events_distance_skips_gaps_within_one_event() {
    let mut config = Config::new(4, 1).unwrap();
    config.max_iter_initial = 10;
    let project = Project::parse(
        config,
        &room_kinds(),
        room_names(),
        room_names(),
        distances(),
        &vec![RawEvent { name: text("a"), num_per_week: 2, max_per_day: 4, room_kind: text("hall") }],
        &vec![],
    )
    .unwrap();
    let flags = events_of_kinds(&project, &vec![text("a")]).unwrap();
    // an event that is written twice: the gap between its two entries
    // counts only where gaps within one event count
    let tm: TIMEMAP = vec![
        vec![(Event(0), Room(0))],
        vec![],
        vec![(Event(0), Room(1))],
        vec![(Event(1), Room(0))],
    ];
    let s = Solution::new(tm);
    assert_eq!(events_distance(&s, &project, &flags, true), 1);
    assert_eq!(events_distance(&s, &project, &flags, false), 4 + 1);
}

#[test]
fn test_criterion_room_distance() {
    // one person, in a different hall in every slot of the only day; the
    // halls lie on a ring, with a short cut between the first and the third
    let mut config = Config::new(4, 1).unwrap();
    config.max_iter_initial = 100;
    let ring = vec![
        vec![0, 10, 1, 10, 4, 6],
        vec![10, 0, 10, 25, 3, 5],
        vec![1, 10, 0, 10, 8, 2],
        vec![10, 25, 10, 0, 6, 1],
        vec![4, 3, 8, 6, 0, 7],
        vec![6, 5, 2, 1, 7, 0],
    ];
    let project = Project::parse(
        config,
        &room_kinds(),
        room_names(),
        room_names(),
        ring,
        &vec![RawEvent {
            name: text("walk"),
            num_per_week: 4,
            max_per_day: 4,
            room_kind: text("hall"),
        }],
        &vec![RawPerson { name: text("one"), attend: vec![text("walk")] }],
    )
    .unwrap();
    let weight: f32 = 1.0;
    let s = Solution::new(vec![
        vec![(Event(0), Room(3))],
        vec![(Event(1), Room(2))],
        vec![(Event(2), Room(0))],
        vec![(Event(3), Room(1))],
    ]);
    let original_score = -(room_distance(&s, &project) as f32) * weight;
    assert_eq!(original_score, -21.0);

    let v: Vec<Solution> = greedy_room::neighborhoods(s, &project);

    let mut min_score = original_score;
    for s in v.iter().take(10) {
        let score = -(room_distance(s, &project) as f32) * weight;
        min_score = min_score.min(score);
    }

    assert_ne!(min_score, original_score);
    assert_eq!(min_score, -30.0);
}

#[test]
fn test_exchange_stays_only_where_the_tour_gets_shorter() {
    let project = demo();
    // A1, A4, A2, A3: a closed tour of 9 + 7 + 2 + 5
    let path = vec![(0, Room(0)), (1, Room(3)), (2, Room(1)), (3, Room(2))];
    // positions 1 and 2: A1, A2, A4, A3 has 1 + 7 + 3 + 5
    let better = exchange_if_shorter(path.clone(), &project, 1, 2);
    assert_eq!(better, vec![(0, Room(0)), (2, Room(1)), (1, Room(3)), (3, Room(2))]);
    assert_eq!(calculate_total_distance_proj(&better, &project), 16);
    // the draws are taken modulo the number of stops
    assert_eq!(exchange_if_shorter(path.clone(), &project, 5, 10), better);
    // a stop exchanged with itself
    assert_eq!(exchange_if_shorter(path.clone(), &project, 2, 2), path);
    // positions 0 and 1 of the better path: A2, A1, A4, A3 has 1 + 9 + 3 + 2
    let best = exchange_if_shorter(better, &project, 0, 1);
    assert_eq!(best, vec![(2, Room(1)), (0, Room(0)), (1, Room(3)), (3, Room(2))]);
    assert_eq!(calculate_total_distance_proj(&best, &project), 15);
    // no tour through the four halls is shorter: every exchange is undone
    for a in 0..4 {
        for b in 0..4 {
            assert_eq!(exchange_if_shorter(best.clone(), &project, a, b), best);
        }
    }
    // positions 0 and 3 of the first path: A3, A4, A2, A1 has 3 + 7 + 1 + 5,
    // as long as the tour with the positions 1 and 2 exchanged
    let other = exchange_if_shorter(path.clone(), &project, 0, 3);
    assert_eq!(other, vec![(3, Room(2)), (1, Room(3)), (2, Room(1)), (0, Room(0))]);
    assert!(exchange_if_shorter(vec![], &project, 3, 4).is_empty());
}

#[test]
fn test_is_valid_fills_the_counts_before_it_reports() {
    let project = demo();
    let good = demo_solution(&project).into_inner();
    let (t, e, _) = Solution::new(good.clone()).iter_all()[0];
    let mut tm = good.clone();
    tm[t].remove(0);
    let mut s = Solution::new(tm);
    assert_eq!(s.is_valid(&project), Err(Violation::MissingEvent(e)));
    let kind = project.events.kind(&e);
    let mut total = 0;
    for d in 0..5 {
        total += s.same_kind_events(d, kind);
    }
    assert_eq!(total + 1, project.events.events_with_kind(kind).len());
}

#[test]
fn test_space_is_the_white_space_of_std() {
    let mut spaces = 0;
    for code in 0..0x11_0000u32 {
        if let Some(c) = char::from_u32(code) {
            assert_eq!(space(c), c.is_whitespace());
            if space(c) {
                spaces += 1;
            }
        }
    }
    assert_eq!(spaces, 25);
    assert_eq!(trimmed(&chars("a")), chars("a"));
}

#[test]
fn test_violation_messages() {
    assert_eq!(Violation::Shape.message(), "The timetable does not cover the week");
    assert_eq!(Violation::MultipleEvent(Event(0)).message(), "Multiple event: Event(0)");
    assert_eq!(Violation::MissingEvent(Event(17)).message(), "Some events missing: Event(17)");
    assert_eq!(
        Violation::UnknownEvent(3, Event(1024)).message(),
        "Unknown event at 3: Event(1024)"
    );
    assert_eq!(Violation::UnknownRoom(10, Room(99)).message(), "Unknown room at 10: Room(99)");
    assert_eq!(
        Violation::RoomConflict(12, Event(5), Event(60), Room(7)).message(),
        "Room conflict at 12: Event(5) Event(60) for Room(7)"
    );
    assert_eq!(
        Violation::WrongRoomKind(0, Event(9), Room(10)).message(),
        "Wrong kind of room at 0: Event(9) in Room(10)"
    );
    assert_eq!(
        Violation::PeopleConflict(34, Event(100), Event(2)).message(),
        "People conflict at 34: Event(100) Event(2)"
    );
    assert_eq!(
        Violation::ExcessEvents(EventKind(1), 4, 3, 2).message(),
        "Excess num of EventKind(1) on day 4: 3 > 2"
    );
    assert_eq!(
        Violation::MultipleEvent(Event(usize::MAX)).message(),
        format!("Multiple event: Event({})", usize::MAX)
    );
}
