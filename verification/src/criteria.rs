//! The whole-number cores of the soft criteria: sums of walking distances
//! and of squared gaps between slots.

use crate::grid::{in_range, lemma_day_within, lemma_placed_monotone, lemma_placed_split, placed, Grid};
use crate::neighborhoods::greedy_room::{attended_in_kind, marks};
use crate::project::{Event, Person, Project, Room};
use crate::solution::{entries, Solution};
use crate::utils::code_of;
use vstd::prelude::*;

verus! {

/// For every event, whether its kind is named by one of the first `m` names.
pub open spec fn named(p: &Project, names: Seq<String>, m: int) -> Seq<bool> {
    Seq::new(
        p.events.spec_len(),
        |e: int|
            exists|c: int|
                0 <= c < m && code_of(p.events.spec_kind_names(), (#[trigger] names[c])@) == Some(
                    p.events.spec_kind(Event(e as usize)).0 as int,
                ),
    )
}

/// Marks the events of the kinds that `names` names. `None` where a name is
/// the name of no kind.
pub fn events_of_kinds(project: &Project, names: &Vec<String>) -> (r: Option<Vec<bool>>)
    requires
        project.wf(),
    ensures
        r is Some <==> forall|c: int|
            0 <= c < names.len() ==> code_of(project.events.spec_kind_names(), (#[trigger] names[c])@)
                is Some,
        r is Some ==> r.unwrap()@ == named(project, names@, names.len() as int),
{
    let n = project.events.len();
    let mut flags: Vec<bool> = Vec::new();
    let mut e: usize = 0;
    while e < n
        invariant
            e <= n,
            flags.len() == e,
            forall|x: int| 0 <= x < e ==> !flags[x],
        decreases n - e,
    {
        flags.push(false);
        e += 1;
    }
    assert(flags@ =~= named(project, names@, 0));
    let mut c: usize = 0;
    while c < names.len()
        invariant
            c <= names.len(),
            project.wf(),
            n == project.events.spec_len(),
            flags.len() == n,
            forall|k: int|
                0 <= k < c ==> code_of(project.events.spec_kind_names(), (#[trigger] names[k])@)
                    is Some,
            flags@ == named(project, names@, c as int),
        decreases names.len() - c,
    {
        match project.events.kind_name_to_id(names[c].as_str()) {
            None => {
                return None;
            },
            Some(kind) => {
                let ghost before = flags@;
                let mut e: usize = 0;
                while e < n
                    invariant
                        e <= n,
                        project.wf(),
                        n == project.events.spec_len(),
                        flags.len() == n,
                        forall|x: int|
                            0 <= x < n ==> #[trigger] flags[x] == (before[x] || (x < e
                                && project.events.spec_kind(Event(x as usize)) == kind)),
                    decreases n - e,
                {
                    if project.events.kind(&Event(e)) == kind {
                        flags[e] = true;
                    }
                    e += 1;
                }
                proof {
                    let after = named(project, names@, c + 1);
                    assert forall|x: int| 0 <= x < n implies flags[x] == after[x] by {
                        let k = project.events.spec_kind(Event(x as usize));
                        if before[x] {
                            let w = choose|w: int|
                                0 <= w < c && code_of(
                                    project.events.spec_kind_names(),
                                    (#[trigger] names[w])@,
                                ) == Some(k.0 as int);
                            assert(0 <= w < c + 1);
                        }
                        if k == kind {
                            assert(code_of(project.events.spec_kind_names(), names[c as int]@)
                                == Some(k.0 as int));
                        }
                        if after[x] {
                            let w = choose|w: int|
                                0 <= w < c + 1 && code_of(
                                    project.events.spec_kind_names(),
                                    (#[trigger] names[w])@,
                                ) == Some(k.0 as int);
                            if w < c {
                                assert(before[x]);
                            } else {
                                assert(k.0 == kind.0);
                            }
                        }
                    }
                    assert(flags@ =~= after);
                }
            },
        }
        c += 1;
    }
    Some(flags)
}

/// The walk through the first `n` entries of a day: the sum of the
/// distances from each marked entry's room to the next marked entry's, and
/// the room of the last marked entry.
pub open spec fn room_walk(p: &Project, day: Seq<(usize, Event, Room)>, flags: Seq<bool>, n: int) -> (
    int,
    Option<Room>,
)
    decreases n,
{
    if n <= 0 {
        (0, None)
    } else {
        let prev = room_walk(p, day, flags, n - 1);
        let (_, e, r) = day[n - 1];
        if flags[e.0 as int] {
            (
                prev.0 + match prev.1 {
                    Some(last) => p.rooms.spec_distance(last, r),
                    None => 0,
                },
                Some(r),
            )
        } else {
            prev
        }
    }
}

/// The entries of day `d` of the timetable `g`.
pub open spec fn day_entries(p: &Project, g: Grid, d: int) -> Seq<(usize, Event, Room)> {
    entries(g, d * p.config.slots_per_day, d * p.config.slots_per_day + p.config.slots_per_day)
}

/// What person `a` walks between rooms of the kind at position `b` on the
/// first `days` days.
pub open spec fn walked_days(p: &Project, g: Grid, a: int, b: int, days: int) -> int
    decreases days,
{
    if days <= 0 {
        0
    } else {
        let day = day_entries(p, g, days - 1);
        walked_days(p, g, a, b, days - 1) + room_walk(
            p,
            day,
            marks(p, Person(a as usize), p.rooms.spec_kinds()[b]),
            day.len() as int,
        ).0
    }
}

/// What person `a` walks between rooms of the first `kinds` kinds in the week.
pub open spec fn walked_kinds(p: &Project, g: Grid, a: int, kinds: int) -> int
    decreases kinds,
{
    if kinds <= 0 {
        0
    } else {
        walked_kinds(p, g, a, kinds - 1) + walked_days(p, g, a, kinds - 1, p.config.days as int)
    }
}

/// What the first `people` persons walk in the week: for every person,
/// every kind of room and every day, the distances between the rooms of
/// that kind in which the person is, one after the other.
pub open spec fn walked(p: &Project, g: Grid, people: int) -> int
    decreases people,
{
    if people <= 0 {
        0
    } else {
        walked(p, g, people - 1) + walked_kinds(
            p,
            g,
            people - 1,
            p.rooms.spec_kinds().len() as int,
        )
    }
}

/// The entries of a range of slots are as many as its pairs, and every one
/// names a slot of the range and a pair of that slot.
pub proof fn lemma_entries(g: Grid, lo: int, hi: int)
    requires
        0 <= lo <= hi <= g.len(),
        hi <= usize::MAX,
    ensures
        entries(g, lo, hi).len() == placed(g, lo, hi),
        forall|i: int|
            0 <= i < entries(g, lo, hi).len() ==> lo <= (#[trigger] entries(g, lo, hi)[i]).0 < hi
                && g[entries(g, lo, hi)[i].0 as int].contains(
                (entries(g, lo, hi)[i].1, entries(g, lo, hi)[i].2),
            ),
    decreases hi - lo,
{
    if hi > lo {
        lemma_entries(g, lo, hi - 1);
        let head = entries(g, lo, hi - 1);
        let all = entries(g, lo, hi);
        assert forall|i: int| 0 <= i < all.len() implies lo <= (#[trigger] all[i]).0 < hi && g[all[i].0 as int].contains(
            (all[i].1, all[i].2),
        ) by {
            if i < head.len() {
                assert(all[i] == head[i]);
            } else {
                let j = i - head.len();
                assert(g[hi - 1][j] == (all[i].1, all[i].2));
            }
        }
    }
}

/// What one person walks on one day between the rooms of one kind.
fn walk_of_day(day: &Vec<(usize, Event, Room)>, project: &Project, flags: &Vec<bool>) -> (total:
    i128)
    requires
        project.wf(),
        flags.len() == project.events.spec_len(),
        forall|i: int|
            0 <= i < day.len() ==> (#[trigger] day[i]).1.0 < project.events.spec_len()
                && day[i].2.0 < project.rooms.spec_len(),
    ensures
        total == room_walk(project, day@, flags@, day.len() as int).0,
        -(day.len() * 0x8000_0000) <= total <= day.len() * 0x8000_0000,
{
    let mut total: i128 = 0;
    let mut last_room: Option<Room> = None;
    let mut i: usize = 0;
    while i < day.len()
        invariant
            i <= day.len(),
            project.wf(),
            flags.len() == project.events.spec_len(),
            forall|k: int|
                0 <= k < day.len() ==> (#[trigger] day[k]).1.0 < project.events.spec_len()
                    && day[k].2.0 < project.rooms.spec_len(),
            (total as int, last_room) == room_walk(project, day@, flags@, i as int),
            last_room matches Some(r) ==> r.0 < project.rooms.spec_len(),
            -(i * 0x8000_0000) <= total <= i * 0x8000_0000,
        decreases day.len() - i,
    {
        let (_, e, r) = day[i];
        if flags[e.0] {
            match last_room {
                Some(last_r) => {
                    total = total + project.rooms.distance(&last_r, &r) as i128;
                },
                None => {},
            }
            last_room = Some(r);
        }
        i += 1;
    }
    total
}

/// The timetable and the project are small enough for the sums of the
/// criteria: the people, the kinds of room and the pairs of the timetable
/// multiply to a number that fits 64 bits, and the slots are fewer than
/// 2^32.
pub open spec fn summable(g: Grid, p: &Project) -> bool {
    &&& p.people.spec_len() * p.rooms.spec_kinds().len() * placed(g, 0, g.len() as int)
        <= 0xffff_ffff_ffff_ffff
    &&& placed(g, 0, g.len() as int) <= usize::MAX
    &&& p.config.num_slots <= 0xffff_ffff
}

/// The pairs of a day are no more than those of the week.
proof fn lemma_day_placed(g: Grid, p: &Project, d: int)
    requires
        p.config.wf(),
        g.len() == p.config.num_slots,
        0 <= d < p.config.days,
    ensures
        0 <= d * p.config.slots_per_day,
        d * p.config.slots_per_day + p.config.slots_per_day <= g.len(),
        day_entries(p, g, d).len() <= placed(g, 0, g.len() as int),
        forall|i: int|
            0 <= i < day_entries(p, g, d).len() ==> (#[trigger] day_entries(p, g, d)[i]).0 < g.len()
                && g[day_entries(p, g, d)[i].0 as int].contains(
                (day_entries(p, g, d)[i].1, day_entries(p, g, d)[i].2),
            ),
{
    let spd = p.config.slots_per_day as int;
    lemma_day_within(spd, p.config.days as int, d);
    lemma_entries(g, d * spd, d * spd + spd);
    lemma_placed_monotone(g, d * spd, d * spd + spd, 0, g.len() as int);
}

/// The walking distance of the week: for every person, every kind of room
/// and every day, the sum of the distances between the rooms of that kind
/// in which the person is, one after the other.
pub fn room_distance(s: &Solution, project: &Project) -> (score: i128)
    requires
        project.wf(),
        in_range(s.grid(), project),
        summable(s.grid(), project),
    ensures
        score == walked(project, s.grid(), project.people.spec_len() as int),
{
    let ghost g = s.grid();
    let ghost cap = placed(g, 0, g.len() as int) * 0x8000_0000;
    let persons = project.people.iter_all();
    let kinds = project.rooms.iter_kinds();
    let days = project.config.days;
    let mut score: i128 = 0;
    let mut a: usize = 0;
    while a < persons.len()
        invariant
            a <= persons.len(),
            project.wf(),
            in_range(g, project),
            summable(g, project),
            g == s.grid(),
            cap == placed(g, 0, g.len() as int) * 0x8000_0000,
            days == project.config.days,
            kinds@ == project.rooms.spec_kinds(),
            persons.len() == project.people.spec_len(),
            forall|i: int| 0 <= i < persons.len() ==> persons[i] == Person(i as usize),
            score == walked(project, g, a as int),
            -(a * kinds.len() * cap) <= score <= a * kinds.len() * cap,
        decreases persons.len() - a,
    {
        let person = persons[a];
        let mut of_person: i128 = 0;
        let mut b: usize = 0;
        while b < kinds.len()
            invariant
                b <= kinds.len(),
                a < persons.len(),
                project.wf(),
                in_range(g, project),
                summable(g, project),
                g == s.grid(),
                cap == placed(g, 0, g.len() as int) * 0x8000_0000,
                days == project.config.days,
                kinds@ == project.rooms.spec_kinds(),
                persons.len() == project.people.spec_len(),
                person == Person(a as usize),
                of_person == walked_kinds(project, g, a as int, b as int),
                -(b * cap) <= of_person <= b * cap,
            decreases kinds.len() - b,
        {
            let flags = attended_in_kind(project, person, kinds[b]);
            let mut of_kind: i128 = 0;
            let ghost mut seen: int = 0;
            let mut day: usize = 0;
            while day < days
                invariant
                    day <= days,
                    project.wf(),
                    in_range(g, project),
                    summable(g, project),
                    g == s.grid(),
                    cap == placed(g, 0, g.len() as int) * 0x8000_0000,
                    days == project.config.days,
                    flags@ == marks(project, Person(a as usize), project.rooms.spec_kinds()[b as int]),
                    of_kind == walked_days(project, g, a as int, b as int, day as int),
                    0 <= day * project.config.slots_per_day <= g.len(),
                    seen == placed(g, 0, day * project.config.slots_per_day),
                    0 <= seen <= placed(g, 0, g.len() as int),
                    -(seen * 0x8000_0000) <= of_kind <= seen * 0x8000_0000,
                decreases days - day,
            {
                proof {
                    lemma_day_placed(g, project, day as int);
                    let spd = project.config.slots_per_day as int;
                    lemma_placed_split(g, 0, day * spd, day * spd + spd);
                    lemma_placed_monotone(g, 0, day * spd + spd, 0, g.len() as int);
                    lemma_entries(g, day * spd, day * spd + spd);
                    assert((day + 1) * spd == day * spd + spd) by (nonlinear_arith);
                }
                let entries = s.events_of_day(day, project);
                assert forall|i: int| 0 <= i < entries.len() implies (#[trigger] entries[i]).1.0
                    < project.events.spec_len() && entries[i].2.0 < project.rooms.spec_len() by {
                    let x = entries[i];
                    let w = choose|w: int|
                        0 <= w < g[x.0 as int].len() && g[x.0 as int][w] == (x.1, x.2);
                    assert(g[x.0 as int][w].0.0 < project.events.spec_len());
                }
                let d = walk_of_day(&entries, project, &flags);
                proof {
                    seen = seen + entries.len();
                    assert(seen * 0x8000_0000 <= cap) by (nonlinear_arith)
                        requires
                            0 <= seen <= placed(g, 0, g.len() as int),
                            cap == placed(g, 0, g.len() as int) * 0x8000_0000,
                    ;
                    assert(cap <= 0xffff_ffff_ffff_ffff * 0x8000_0000) by (nonlinear_arith)
                        requires
                            cap == placed(g, 0, g.len() as int) * 0x8000_0000,
                            placed(g, 0, g.len() as int) <= 0xffff_ffff_ffff_ffff,
                    ;
                }
                of_kind = of_kind + d;
                day += 1;
            }
            proof {
                assert(-cap <= of_kind <= cap) by (nonlinear_arith)
                    requires
                        -(seen * 0x8000_0000) <= of_kind <= seen * 0x8000_0000,
                        0 <= seen <= placed(g, 0, g.len() as int),
                        cap == placed(g, 0, g.len() as int) * 0x8000_0000,
                ;
                assert((b + 1) * cap == b * cap + cap) by (nonlinear_arith);
                lemma_sum_fits(
                    project.people.spec_len() as int,
                    kinds.len() as int,
                    placed(g, 0, g.len() as int) as int,
                    a as int,
                    b as int,
                );
            }
            of_person = of_person + of_kind;
            b += 1;
        }
        proof {
            lemma_total_fits(
                project.people.spec_len() as int,
                kinds.len() as int,
                placed(g, 0, g.len() as int) as int,
                a as int,
            );
            assert((a + 1) * kinds.len() * cap == a * kinds.len() * cap + kinds.len() * cap)
                by (nonlinear_arith);
        }
        score = score + of_person;
        a += 1;
    }
    score
}

/// A partial sum over the kinds of one person stays within 95 bits.
proof fn lemma_sum_fits(people: int, kinds: int, pairs: int, a: int, b: int)
    requires
        0 <= a < people,
        0 <= b < kinds,
        0 <= pairs,
        people * kinds * pairs <= 0xffff_ffff_ffff_ffff,
    ensures
        (b + 1) * (pairs * 0x8000_0000) <= 0xffff_ffff_ffff_ffff * 0x8000_0000,
{
    assert((b + 1) * pairs <= people * kinds * pairs) by (nonlinear_arith)
        requires
            0 <= a < people,
            0 <= b < kinds,
            0 <= pairs,
    ;
    assert((b + 1) * (pairs * 0x8000_0000) == ((b + 1) * pairs) * 0x8000_0000)
        by (nonlinear_arith);
}

/// A partial sum over the people stays within 95 bits.
proof fn lemma_total_fits(people: int, kinds: int, pairs: int, a: int)
    requires
        0 <= a < people,
        0 <= kinds,
        0 <= pairs,
        people * kinds * pairs <= 0xffff_ffff_ffff_ffff,
    ensures
        (a + 1) * kinds * (pairs * 0x8000_0000) <= 0xffff_ffff_ffff_ffff * 0x8000_0000,
        0 <= a * kinds * (pairs * 0x8000_0000),
        0 <= kinds * (pairs * 0x8000_0000),
{
    assert((a + 1) * kinds * pairs <= people * kinds * pairs) by (nonlinear_arith)
        requires
            0 <= a < people,
            0 <= kinds,
            0 <= pairs,
    ;
    assert((a + 1) * kinds * (pairs * 0x8000_0000) == ((a + 1) * kinds * pairs) * 0x8000_0000)
        by (nonlinear_arith);
    assert(0 <= a * kinds * (pairs * 0x8000_0000)) by (nonlinear_arith)
        requires
            0 <= a,
            0 <= kinds,
            0 <= pairs,
    ;
    assert(0 <= kinds * (pairs * 0x8000_0000)) by (nonlinear_arith)
        requires
            0 <= kinds,
            0 <= pairs,
    ;
}

/// The walk through the first `n` entries of a day: the sum of the squared
/// gaps, in slots, from each marked entry to the next marked entry, and the
/// slot and event of the last marked entry. Where `other_only` holds, a gap
/// between two entries of one event does not count.
pub open spec fn gap_walk(day: Seq<(usize, Event, Room)>, flags: Seq<bool>, other_only: bool, n: int) -> (
    int,
    Option<(usize, Event)>,
)
    decreases n,
{
    if n <= 0 {
        (0, None)
    } else {
        let prev = gap_walk(day, flags, other_only, n - 1);
        let (t, e, _) = day[n - 1];
        if flags[e.0 as int] {
            (
                prev.0 + match prev.1 {
                    Some((t_l, e_l)) => if other_only && e_l == e {
                        0
                    } else {
                        (t - t_l) * (t - t_l)
                    },
                    None => 0,
                },
                Some((t, e)),
            )
        } else {
            prev
        }
    }
}

/// The sum of the squared gaps of the first `days` days.
pub open spec fn gaps(p: &Project, g: Grid, flags: Seq<bool>, other_only: bool, days: int) -> int
    decreases days,
{
    if days <= 0 {
        0
    } else {
        let day = day_entries(p, g, days - 1);
        gaps(p, g, flags, other_only, days - 1) + gap_walk(
            day,
            flags,
            other_only,
            day.len() as int,
        ).0
    }
}

/// The sum, over the first `n` entries of a day, of the squared distances in
/// slots of the marked entries from the slot `time`.
pub open spec fn offsets_of_day(day: Seq<(usize, Event, Room)>, flags: Seq<bool>, time: int, n: int) -> int
    decreases n,
{
    if n <= 0 {
        0
    } else {
        let (t, e, _) = day[n - 1];
        offsets_of_day(day, flags, time, n - 1) + if flags[e.0 as int] {
            (t - time) * (t - time)
        } else {
            0
        }
    }
}

/// The sum of the squared distances from the slot `time` over the first
/// `days` days.
pub open spec fn offsets(p: &Project, g: Grid, flags: Seq<bool>, time: int, days: int) -> int
    decreases days,
{
    if days <= 0 {
        0
    } else {
        let day = day_entries(p, g, days - 1);
        offsets(p, g, flags, time, days - 1) + offsets_of_day(day, flags, time, day.len() as int)
    }
}

/// The square of the distance between two slots below 2^32.
fn squared_gap(a: usize, b: usize) -> (sq: u128)
    requires
        a <= 0xffff_ffff,
        b <= 0xffff_ffff,
    ensures
        sq == (a - b) * (a - b),
        sq <= 0xffff_fffe_0000_0001,
{
    let gap: u128 = if a >= b {
        (a - b) as u128
    } else {
        (b - a) as u128
    };
    assert(gap * gap == (a - b) * (a - b) && gap * gap <= 0xffff_fffe_0000_0001)
        by (nonlinear_arith)
        requires
            0 <= gap <= 0xffff_ffff,
            gap == a - b || gap == b - a,
    ;
    gap * gap
}

/// The squared gaps of one day.
fn gaps_of_day(day: &Vec<(usize, Event, Room)>, flags: &Vec<bool>, other_only: bool) -> (total:
    u128)
    requires
        forall|i: int|
            0 <= i < day.len() ==> (#[trigger] day[i]).1.0 < flags.len() && day[i].0 <= 0xffff_ffff,
        day.len() <= usize::MAX,
    ensures
        total == gap_walk(day@, flags@, other_only, day.len() as int).0,
        total <= day.len() * 0xffff_fffe_0000_0001,
{
    let mut total: u128 = 0;
    let mut last: Option<(usize, Event)> = None;
    let mut i: usize = 0;
    while i < day.len()
        invariant
            i <= day.len(),
            forall|k: int|
                0 <= k < day.len() ==> (#[trigger] day[k]).1.0 < flags.len() && day[k].0
                    <= 0xffff_ffff,
            (total as int, last) == gap_walk(day@, flags@, other_only, i as int),
            last matches Some(x) ==> x.0 <= 0xffff_ffff,
            total <= i * 0xffff_fffe_0000_0001,
        decreases day.len() - i,
    {
        let (t, e, _) = day[i];
        if flags[e.0] {
            match last {
                Some((t_l, e_l)) => {
                    if !(other_only && e_l == e) {
                        total = total + squared_gap(t, t_l);
                    }
                },
                None => {},
            }
            last = Some((t, e));
        }
        i += 1;
    }
    total
}

/// The squared offsets of one day.
fn offsets_in_day(day: &Vec<(usize, Event, Room)>, flags: &Vec<bool>, time: usize) -> (total: u128)
    requires
        time <= 0xffff_ffff,
        forall|i: int|
            0 <= i < day.len() ==> (#[trigger] day[i]).1.0 < flags.len() && day[i].0 <= 0xffff_ffff,
    ensures
        total == offsets_of_day(day@, flags@, time as int, day.len() as int),
        total <= day.len() * 0xffff_fffe_0000_0001,
{
    let mut total: u128 = 0;
    let mut i: usize = 0;
    while i < day.len()
        invariant
            i <= day.len(),
            time <= 0xffff_ffff,
            forall|k: int|
                0 <= k < day.len() ==> (#[trigger] day[k]).1.0 < flags.len() && day[k].0
                    <= 0xffff_ffff,
            total == offsets_of_day(day@, flags@, time as int, i as int),
            total <= i * 0xffff_fffe_0000_0001,
        decreases day.len() - i,
    {
        let (t, e, _) = day[i];
        if flags[e.0] {
            total = total + squared_gap(t, time);
        }
        i += 1;
    }
    total
}

/// The entries of day `day`, with what the sums need of them.
fn entries_of(s: &Solution, project: &Project, day: usize) -> (r: Vec<(usize, Event, Room)>)
    requires
        project.wf(),
        in_range(s.grid(), project),
        summable(s.grid(), project),
        day < project.config.days,
    ensures
        r@ == day_entries(project, s.grid(), day as int),
        r.len() == placed(
            s.grid(),
            day * project.config.slots_per_day,
            day * project.config.slots_per_day + project.config.slots_per_day,
        ),
        forall|i: int|
            0 <= i < r.len() ==> (#[trigger] r[i]).1.0 < project.events.spec_len() && r[i].2.0
                < project.rooms.spec_len() && r[i].0 <= 0xffff_ffff,
{
    let ghost g = s.grid();
    proof {
        lemma_day_placed(g, project, day as int);
        let spd = project.config.slots_per_day as int;
        lemma_entries(g, day * spd, day * spd + spd);
        assert((day + 1) * spd == day * spd + spd) by (nonlinear_arith);
    }
    let r = s.events_of_day(day, project);
    assert forall|i: int| 0 <= i < r.len() implies (#[trigger] r[i]).1.0
        < project.events.spec_len() && r[i].2.0 < project.rooms.spec_len() && r[i].0
        <= 0xffff_ffff by {
        let x = r[i];
        let w = choose|w: int| 0 <= w < g[x.0 as int].len() && g[x.0 as int][w] == (x.1, x.2);
        assert(g[x.0 as int][w].0.0 < project.events.spec_len());
    }
    r
}

/// The sum over the days of the week of the squared gaps, in slots, between
/// each marked event and the marked event that follows it on the day. Where
/// `other_only` holds, a gap between two entries of one event does not
/// count.
pub fn events_distance(s: &Solution, project: &Project, flags: &Vec<bool>, other_only: bool) -> (score:
    u128)
    requires
        project.wf(),
        in_range(s.grid(), project),
        summable(s.grid(), project),
        flags.len() == project.events.spec_len(),
    ensures
        score == gaps(project, s.grid(), flags@, other_only, project.config.days as int),
{
    let ghost g = s.grid();
    let days = project.config.days;
    let mut score: u128 = 0;
    let ghost mut seen: int = 0;
    let mut day: usize = 0;
    while day < days
        invariant
            day <= days,
            project.wf(),
            in_range(g, project),
            summable(g, project),
            g == s.grid(),
            days == project.config.days,
            flags.len() == project.events.spec_len(),
            score == gaps(project, g, flags@, other_only, day as int),
            0 <= day * project.config.slots_per_day <= g.len(),
            seen == placed(g, 0, day * project.config.slots_per_day),
            0 <= seen <= placed(g, 0, g.len() as int),
            score <= seen * 0xffff_fffe_0000_0001,
        decreases days - day,
    {
        proof {
            lemma_day_placed(g, project, day as int);
            let spd = project.config.slots_per_day as int;
            lemma_placed_split(g, 0, day * spd, day * spd + spd);
            lemma_placed_monotone(g, 0, day * spd + spd, 0, g.len() as int);
            assert((day + 1) * spd == day * spd + spd) by (nonlinear_arith);
        }
        let entries = entries_of(s, project, day);
        let d = gaps_of_day(&entries, flags, other_only);
        proof {
            seen = seen + entries.len();
        }
        score = score + d;
        day += 1;
    }
    score
}

/// The sum over the week of the squared distances, in slots, of the marked
/// events from the slot `time`.
pub fn event_time_distance(s: &Solution, project: &Project, flags: &Vec<bool>, time: usize) -> (score:
    u128)
    requires
        project.wf(),
        in_range(s.grid(), project),
        summable(s.grid(), project),
        flags.len() == project.events.spec_len(),
        time <= 0xffff_ffff,
    ensures
        score == offsets(project, s.grid(), flags@, time as int, project.config.days as int),
{
    let ghost g = s.grid();
    let days = project.config.days;
    let mut score: u128 = 0;
    let ghost mut seen: int = 0;
    let mut day: usize = 0;
    while day < days
        invariant
            day <= days,
            project.wf(),
            in_range(g, project),
            summable(g, project),
            g == s.grid(),
            days == project.config.days,
            flags.len() == project.events.spec_len(),
            time <= 0xffff_ffff,
            score == offsets(project, g, flags@, time as int, day as int),
            0 <= day * project.config.slots_per_day <= g.len(),
            seen == placed(g, 0, day * project.config.slots_per_day),
            0 <= seen <= placed(g, 0, g.len() as int),
            score <= seen * 0xffff_fffe_0000_0001,
        decreases days - day,
    {
        proof {
            lemma_day_placed(g, project, day as int);
            let spd = project.config.slots_per_day as int;
            lemma_placed_split(g, 0, day * spd, day * spd + spd);
            lemma_placed_monotone(g, 0, day * spd + spd, 0, g.len() as int);
            assert((day + 1) * spd == day * spd + spd) by (nonlinear_arith);
        }
        let entries = entries_of(s, project, day);
        let d = offsets_in_day(&entries, flags, time);
        proof {
            seen = seen + entries.len();
        }
        score = score + d;
        day += 1;
    }
    score
}

} // verus!
