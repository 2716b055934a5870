//! The events and persons of one schedule, and its time map.
//!
//! Identifiers are the `guid`s of the source format, as their 128-bit value.
use std::collections::HashMap;
use vstd::prelude::*;

use super::links::labels_sorted;
use crate::DateTime;

verus! {

broadcast use vstd::std_specs::hash::group_hash_axioms;

#[derive(Clone, Copy, Debug, PartialEq, Eq, PartialOrd, Ord, Hash, Structural)]
pub struct EventId(pub u128);

#[derive(Clone, Copy, Debug, PartialEq, Eq, PartialOrd, Ord, Hash, Structural)]
pub struct PersonId(pub u128);

/// One talk or session.
#[derive(Clone, Debug, PartialEq, Eq)]
pub struct Event {
    pub id: EventId,
    pub start: DateTime,
    /// Length in seconds, never negative in a schedule.
    pub duration: i64,
    pub title: String,
    pub subtitle: String,
    pub abstract_text: String,
    pub description: String,
    pub room: String,
    pub track: String,
    pub event_type: String,
    pub language: String,
    pub url: String,
    pub feedback_url: Option<String>,
    /// Displayed text and URL of each link, each text once, ordered by the text.
    pub links: Vec<(String, String)>,
    /// The speakers, in the order of the source.
    pub persons: Vec<PersonId>,
}

#[derive(Clone, Debug, PartialEq, Eq, Hash)]
pub struct Person {
    pub id: PersonId,
    pub name: String,
}

impl Event {
    /// The instant (in Unix seconds) at which the event is over.
    pub open spec fn end_unix(self) -> int {
        self.start.unix + self.duration
    }

    /// The end instant can be represented.
    pub open spec fn end_fits(self) -> bool {
        i64::MIN <= self.end_unix() <= i64::MAX
    }

    /// Start plus duration, in the offset of the start.
    pub fn end(&self) -> (r: DateTime)
        requires
            self.end_fits(),
        ensures
            r.unix == self.end_unix(),
            r.offset == self.start.offset,
    {
        DateTime { unix: self.start.unix + self.duration, offset: self.start.offset }
    }
}

/// One entry of the time map: a start instant and the events that begin then, in the order
/// in which they were added.
pub type Row = (i64, Seq<EventId>);

/// The time map's rows as plain sequences.
pub open spec fn rows_view(rows: Seq<(i64, Vec<EventId>)>) -> Seq<Row> {
    rows.map_values(|r: (i64, Vec<EventId>)| (r.0, r.1@))
}

/// How many rows have a key below `to` (or at most `to`, where `inclusive`).
pub open spec fn rank(rows: Seq<Row>, to: i64, inclusive: bool) -> nat
    decreases rows.len(),
{
    if rows.len() == 0 {
        0
    } else {
        let last = rows.last().0;
        rank(rows.drop_last(), to, inclusive) + if last < to || (inclusive && last == to) {
            1nat
        } else {
            0nat
        }
    }
}

/// Rows are strictly ordered by their key.
pub open spec fn rows_sorted(rows: Seq<Row>) -> bool {
    forall|i: int, j: int| 0 <= i < j < rows.len() ==> rows[i].0 < rows[j].0
}

/// The index of the row that lies `n` rows away from instant `to`: later rows for a positive
/// `n`, earlier ones for a negative `n`, and the row of `to` itself for zero. `None` where no
/// such row exists.
pub open spec fn relative_index(rows: Seq<Row>, n: int, to: i64) -> Option<int> {
    let t = if n > 0 {
        rank(rows, to, true) + n - 1
    } else if n < 0 {
        rank(rows, to, false) + n
    } else {
        rank(rows, to, false) as int
    };
    if 0 <= t < rows.len() && (n != 0 || rows[t].0 == to) {
        Some(t)
    } else {
        None
    }
}

/// In sorted rows, the rank is the index that splits the rows below `to` from the others.
pub proof fn lemma_rank_split(rows: Seq<Row>, to: i64, inclusive: bool, i: int)
    requires
        0 <= i <= rows.len(),
        forall|j: int|
            0 <= j < i ==> #[trigger] rows[j].0 < to || (inclusive && rows[j].0 == to),
        forall|j: int|
            i <= j < rows.len() ==> !(#[trigger] rows[j].0 < to || (inclusive && rows[j].0 == to)),
    ensures
        rank(rows, to, inclusive) == i,
    decreases rows.len(),
{
    if rows.len() > 0 {
        let d = rows.drop_last();
        if i == rows.len() {
            assert(rows[i - 1].0 < to || (inclusive && rows[i - 1].0 == to));
            lemma_rank_split(d, to, inclusive, i - 1);
        } else {
            assert(!(rows[rows.len() - 1].0 < to || (inclusive && rows[rows.len() - 1].0 == to)));
            lemma_rank_split(d, to, inclusive, i);
        }
    }
}

/// The rows list exactly the entries of `times`, ordered by key.
pub open spec fn rows_match(rows: Seq<Row>, times: Map<i64, Seq<EventId>>) -> bool {
    &&& rows_sorted(rows)
    &&& forall|i: int|
        0 <= i < rows.len() ==> times.contains_key(#[trigger] rows[i].0) && rows[i].1 == times[rows[i].0]
    &&& forall|t: i64| #[trigger]
        times.contains_key(t) ==> exists|i: int| 0 <= i < rows.len() && #[trigger] rows[i].0 == t
}

/// `times` with `id` added at the end of the events that start at `key`.
pub open spec fn add_time(times: Map<i64, Seq<EventId>>, key: i64, id: EventId) -> Map<
    i64,
    Seq<EventId>,
> {
    times.insert(
        key,
        if times.contains_key(key) {
            times[key].push(id)
        } else {
            seq![id]
        },
    )
}

/// `m` with the persons of `ps` added in order, a later one replacing an earlier one of the
/// same identifier.
pub open spec fn add_persons(m: Map<u128, Person>, ps: Seq<Person>) -> Map<u128, Person>
    decreases ps.len(),
{
    if ps.len() == 0 {
        m
    } else {
        add_persons(m, ps.drop_last()).insert(ps.last().id.0, ps.last())
    }
}

/// In sorted rows, the row of a row's own key is that row.
pub proof fn lemma_row_of_key(rows: Seq<Row>, t: int)
    requires
        rows_sorted(rows),
        0 <= t < rows.len(),
    ensures
        rank(rows, rows[t].0, false) == t,
{
    let key = rows[t].0;
    assert forall|j: int| 0 <= j < t implies #[trigger] rows[j].0 < key || (false && rows[j].0
        == key) by {
        assert(rows[j].0 < rows[t].0);
    }
    assert forall|j: int| t <= j < rows.len() implies !(#[trigger] rows[j].0 < key || (false
        && rows[j].0 == key)) by {
        if j > t {
            assert(rows[t].0 < rows[j].0);
        }
    }
    lemma_rank_split(rows, key, false, t);
}

/// Every event of a schedule lasts a non-negative time and ends at its start plus its
/// duration, which can be represented.
pub proof fn lemma_event_span(s: ScheduleView, id: u128)
    requires
        s.wf(),
        s.events.contains_key(id),
    ensures
        s.events[id].duration >= 0,
        s.events[id].end_unix() == s.events[id].start.unix + s.events[id].duration,
        s.events[id].end_fits(),
{
}

/// Zero rows away from a row's own key is that row; one row before the first row is
/// nothing.
pub proof fn lemma_relative_bounds(s: ScheduleView, t: int)
    requires
        s.wf(),
        0 <= t < s.rows.len(),
    ensures
        relative_index(s.rows, 0, s.rows[t].0) == Some(t),
        relative_index(s.rows, -1, s.rows[0].0) is None,
{
    lemma_row_of_key(s.rows, t);
    lemma_row_of_key(s.rows, 0);
}

/// A selection: the start instant of a row and an index into the events of that row.
#[derive(Clone, Copy, Debug, PartialEq, Eq, Structural)]
pub struct TimeCoord {
    pub row: i64,
    pub idx: usize,
}

/// The contents of a [`Schedule`].
pub struct ScheduleView {
    pub events: Map<u128, Event>,
    pub persons: Map<u128, Person>,
    pub rows: Seq<Row>,
}

impl ScheduleView {
    /// The index of the row whose key is `at`, where there is one.
    pub open spec fn row_of(self, at: i64) -> int {
        rank(self.rows, at, false) as int
    }

    /// Some row starts at `at`.
    pub open spec fn has_row(self, at: i64) -> bool {
        let i = self.row_of(at);
        0 <= i < self.rows.len() && self.rows[i].0 == at
    }

    /// `c` names an existing row and an event within it.
    pub open spec fn valid_coord(self, c: TimeCoord) -> bool {
        &&& self.has_row(c.row)
        &&& c.idx < self.rows[self.row_of(c.row)].1.len()
    }

    /// The event that a valid coordinate names.
    pub open spec fn event_at(self, c: TimeCoord) -> Event {
        self.events[self.rows[self.row_of(c.row)].1[c.idx as int].0]
    }

    /// `id` stands in the time map.
    pub open spec fn listed(self, id: EventId) -> bool {
        exists|i: int, k: int|
            0 <= i < self.rows.len() && 0 <= k < self.rows[i].1.len() && #[trigger] self.rows[i].1[k]
                == id
    }

    /// The invariant of a schedule.
    pub open spec fn wf(self) -> bool {
        &&& rows_sorted(self.rows)
        &&& forall|i: int| 0 <= i < self.rows.len() ==> #[trigger] self.rows[i].1.len() > 0
        &&& forall|i: int, p: int, q: int|
            0 <= i < self.rows.len() && 0 <= p < q < self.rows[i].1.len() ==> #[trigger] self.rows[i].1[p]
                != #[trigger] self.rows[i].1[q]
        &&& forall|i: int, k: int|
            0 <= i < self.rows.len() && 0 <= k < self.rows[i].1.len() ==> {
                let id = #[trigger] self.rows[i].1[k];
                &&& self.events.contains_key(id.0)
                &&& self.events[id.0].start.unix == self.rows[i].0
            }
        &&& forall|id: u128| #[trigger]
            self.events.contains_key(id) ==> {
                let e = self.events[id];
                &&& e.id.0 == id
                &&& self.listed(e.id)
                &&& e.duration >= 0
                &&& e.end_fits()
                &&& labels_sorted(e.links@)
                &&& forall|p: int|
                    0 <= p < e.persons.len() ==> self.persons.contains_key(
                        #[trigger] e.persons@[p].0,
                    )
            }
        &&& forall|id: u128| #[trigger]
            self.persons.contains_key(id) ==> self.persons[id].id.0 == id
    }
}

/// All events and persons of one schedule, and the time map over its events.
#[derive(Clone, Debug)]
pub struct Schedule {
    events: HashMap<u128, Event>,
    persons: HashMap<u128, Person>,
    time_map: Vec<(i64, Vec<EventId>)>,
}

impl View for Schedule {
    type V = ScheduleView;

    closed spec fn view(&self) -> ScheduleView {
        ScheduleView {
            events: self.events@,
            persons: self.persons@,
            rows: rows_view(self.time_map@),
        }
    }
}

impl Default for Schedule {
    fn default() -> (r: Schedule)
        ensures
            r@.wf(),
            r@.events == Map::<u128, Event>::empty(),
            r@.persons == Map::<u128, Person>::empty(),
            r@.rows == Seq::<Row>::empty(),
    {
        Schedule::new()
    }
}

impl Schedule {
    /// An empty schedule.
    pub fn new() -> (r: Schedule)
        ensures
            r@.wf(),
            r@.events == Map::<u128, Event>::empty(),
            r@.persons == Map::<u128, Person>::empty(),
            r@.rows == Seq::<Row>::empty(),
    {
        let r = Schedule { events: HashMap::new(), persons: HashMap::new(), time_map: Vec::new() };
        assert(rows_view(r.time_map@) =~= Seq::<Row>::empty());
        r
    }

    /// Adds `event`, whose speakers are `persons`, unless an event of its identifier is
    /// there already. `times` is what the time map lists.
    pub(crate) fn insert(
        &mut self,
        event: Event,
        persons: Vec<Person>,
        Ghost(times): Ghost<Map<i64, Seq<EventId>>>,
    )
        requires
            rows_match(old(self)@.rows, times),
        ensures
            old(self)@.events.contains_key(event.id.0) ==> final(self)@ == old(self)@,
            !old(self)@.events.contains_key(event.id.0) ==> {
                &&& final(self)@.events == old(self)@.events.insert(event.id.0, event)
                &&& final(self)@.persons == add_persons(old(self)@.persons, persons@)
                &&& rows_match(final(self)@.rows, add_time(times, event.start.unix, event.id))
            },
    {
        if self.events.contains_key(&event.id.0) {
            return ;
        }
        let ghost old_rows = self@.rows;
        let key = event.start.unix;
        let id = event.id;
        let i = self.rank(key, false);
        if i < self.time_map.len() && self.time_map[i].0 == key {
            let mut row = self.time_map.remove(i);
            row.1.push(id);
            self.time_map.insert(i, row);
            proof {
                let new_rows = self@.rows;
                assert(times.contains_key(key));
                assert(new_rows =~= old_rows.update(i as int, (key, old_rows[i as int].1.push(id))));
                let t2 = add_time(times, key, id);
                assert forall|a: int, b: int| 0 <= a < b < new_rows.len() implies new_rows[a].0
                    < new_rows[b].0 by {
                    assert(old_rows[a].0 < old_rows[b].0);
                }
                assert forall|a: int| 0 <= a < new_rows.len() implies t2.contains_key(
                    #[trigger] new_rows[a].0,
                ) && new_rows[a].1 == t2[new_rows[a].0] by {
                    assert(times.contains_key(old_rows[a].0));
                    if a != i {
                        assert(old_rows[a].0 != key) by {
                            if a < i {
                                assert(old_rows[a].0 < old_rows[i as int].0);
                            } else {
                                assert(old_rows[i as int].0 < old_rows[a].0);
                            }
                        }
                    }
                }
                assert forall|t: i64| #[trigger] t2.contains_key(t) implies exists|a: int|
                    0 <= a < new_rows.len() && #[trigger] new_rows[a].0 == t by {
                    if t != key {
                        assert(times.contains_key(t));
                        let a = choose|a: int| 0 <= a < old_rows.len() && #[trigger] old_rows[a].0 == t;
                        assert(new_rows[a].0 == t);
                    } else {
                        assert(new_rows[i as int].0 == t);
                    }
                }
            }
        } else {
            let ids: Vec<EventId> = vec![id];
            self.time_map.insert(i, (key, ids));
            proof {
                let new_rows = self@.rows;
                assert(ids@ =~= seq![id]);
                assert(new_rows =~= old_rows.insert(i as int, (key, seq![id])));
                assert forall|a: int| 0 <= a < old_rows.len() implies #[trigger] old_rows[a].0
                    != key by {
                    if a > i {
                        assert(old_rows[i as int].0 < old_rows[a].0);
                    }
                }
                assert(!times.contains_key(key)) by {
                    if times.contains_key(key) {
                        let a = choose|a: int| 0 <= a < old_rows.len() && #[trigger] old_rows[a].0 == key;
                    }
                }
                let t2 = add_time(times, key, id);
                assert forall|a: int, b: int| 0 <= a < b < new_rows.len() implies new_rows[a].0
                    < new_rows[b].0 by {
                    if b < i {
                        assert(old_rows[a].0 < old_rows[b].0);
                    } else if b == i {
                    } else if a < i {
                        assert(old_rows[a].0 < key);
                        assert(old_rows[b - 1].0 >= key);
                    } else if a == i {
                        assert(old_rows[b - 1].0 >= key);
                    } else {
                        assert(old_rows[a - 1].0 < old_rows[b - 1].0);
                    }
                }
                assert forall|a: int| 0 <= a < new_rows.len() implies t2.contains_key(
                    #[trigger] new_rows[a].0,
                ) && new_rows[a].1 == t2[new_rows[a].0] by {
                    if a < i {
                        assert(times.contains_key(old_rows[a].0));
                    } else if a > i {
                        assert(new_rows[a] == old_rows[a - 1]);
                        assert(times.contains_key(old_rows[a - 1].0));
                    }
                }
                assert forall|t: i64| #[trigger] t2.contains_key(t) implies exists|a: int|
                    0 <= a < new_rows.len() && #[trigger] new_rows[a].0 == t by {
                    if t != key {
                        assert(times.contains_key(t));
                        let a = choose|a: int| 0 <= a < old_rows.len() && #[trigger] old_rows[a].0 == t;
                        if a < i {
                            assert(new_rows[a].0 == t);
                        } else {
                            assert(new_rows[a + 1].0 == t);
                        }
                    } else {
                        assert(new_rows[i as int].0 == t);
                    }
                }
            }
        }
        assert(rows_match(self@.rows, add_time(times, key, id)));
        self.events.insert(id.0, event);
        let ghost mid = self@;
        let ghost start_persons = self@.persons;
        let ghost ps = persons@;
        let mut source = persons;
        let mut k: usize = 0;
        assert(source@.len() == source.len());
        while source.len() > 0
            invariant
                ps.len() <= usize::MAX,
                k + source@.len() == ps.len(),
                source@ == ps.skip(k as int),
                self@.persons == add_persons(start_persons, ps.take(k as int)),
                self@.rows == mid.rows,
                self@.events == mid.events,
            decreases source@.len(),
        {
            let p = source.remove(0);
            assert(p == ps[k as int]);
            assert(ps.take(k + 1).drop_last() =~= ps.take(k as int));
            self.persons.insert(p.id.0, p);
            k = k + 1;
            assert(source@ =~= ps.skip(k as int));
        }
        assert(ps.take(k as int) =~= ps);
    }

    /// A schedule of one event starting at `start`, with two speakers, to look at the
    /// views without a schedule file.
    pub fn placeholder(start: DateTime) -> (r: Schedule)
        requires
            start.unix + 3 * 30 * 60 <= i64::MAX,
        ensures
            r@.wf(),
            r@.rows == seq![(start.unix, seq![EventId(0)])],
            r@.events.dom() == set![0u128],
            r@.events[0].start == start,
            r@.events[0].duration == 3 * 30 * 60,
            r@.events[0].persons@ == seq![PersonId(0), PersonId(u128::MAX)],
            r@.persons.dom() == set![0u128, u128::MAX],
    {
        let person_id = PersonId(0);
        let person = Person {
            id: person_id,
            name: String::from_str("Semi-non-professional yak shaver"),
        };
        let another_person_id = PersonId(u128::MAX);
        let another_person = Person {
            id: another_person_id,
            name: String::from_str("Completely inaccurate fractal"),
        };
        let event_id = EventId(0);
        let event = Event {
            id: event_id,
            start,
            duration: 3 * 30 * 60,
            title: String::from_str("Shaving yaks"),
            subtitle: String::from_str("Important. I think."),
            abstract_text: String::from_str(
                "We shave yaks, which is somewhat common in software development.",
            ),
            description: String::from_str(LOREM_IPSUM),
            room: String::from_str("Somewhere I belong"),
            track: String::from_str("Science"),
            event_type: String::from_str("lecture"),
            language: String::from_str("en"),
            url: String::from_str("https://example.com"),
            feedback_url: Some(String::from_str("https://example.com")),
            links: Vec::new(),
            persons: vec![person_id, another_person_id],
        };
        let mut schedule = Schedule::new();
        let persons = vec![person, another_person];
        let ghost ps = persons@;
        schedule.insert(event, persons, Ghost(Map::empty()));
        proof {
            let s = schedule@;
            let times = add_time(Map::empty(), start.unix, event_id);
            assert(times.contains_key(start.unix));
            let i = choose|i: int| 0 <= i < s.rows.len() && #[trigger] s.rows[i].0 == start.unix;
            assert forall|a: int| 0 <= a < s.rows.len() implies #[trigger] s.rows[a].0 == start.unix by {
                assert(times.contains_key(s.rows[a].0));
            }
            if s.rows.len() > 1 {
                assert(s.rows[0].0 < s.rows[1].0);
            }
            assert(s.rows[0].1 == times[start.unix]);
            assert(s.rows =~= seq![(start.unix, seq![EventId(0)])]);
            assert(ps.len() == 2);
            assert(ps[0].id == PersonId(0) && ps[1].id == PersonId(u128::MAX));
            assert(ps.drop_last().drop_last() =~= Seq::<Person>::empty());
            assert(ps.drop_last().last() == ps[0]);
            assert(add_persons(Map::empty(), ps.drop_last().drop_last()) == Map::<u128, Person>::empty());
            assert(add_persons(Map::empty(), ps.drop_last()) =~= Map::<u128, Person>::empty().insert(
                0,
                ps[0],
            ));
            assert(s.persons =~= Map::<u128, Person>::empty().insert(0, ps[0]).insert(u128::MAX, ps[1]));
            assert(s.events.dom() =~= set![0u128]);
            assert(s.persons.dom() =~= set![0u128, u128::MAX]);
            assert(s.listed(EventId(0))) by {
                assert(s.rows[0].1[0] == EventId(0));
            }
            assert(s.wf());
        }
        schedule
    }

    /// The time map, ordered by start instant.
    pub fn time_map(&self) -> (r: &Vec<(i64, Vec<EventId>)>)
        ensures
            rows_view(r@) == self@.rows,
    {
        &self.time_map
    }

    /// The event with the earliest start, the first one added among equals; `None` for a
    /// schedule without events.
    pub fn first(&self) -> (r: Option<&Event>)
        requires
            self@.wf(),
        ensures
            r is None <==> self@.events.dom().is_empty(),
            r is None <==> self@.rows.len() == 0,
            r matches Some(e) ==> *e == self@.events[self@.rows[0].1[0].0],
            r matches Some(e) ==> forall|id: u128| #[trigger]
                self@.events.contains_key(id) ==> e.start.unix <= self@.events[id].start.unix,
    {
        if self.time_map.len() == 0 {
            proof {
                if !self@.events.dom().is_empty() {
                    let id = self@.events.dom().choose();
                    assert(self@.events.contains_key(id));
                    assert(self@.listed(self@.events[id].id));
                }
            }
            return None;
        }
        let ids = &self.time_map[0].1;
        assert(self@.rows[0].1.len() > 0);
        let e = self.resolve_event(&ids[0]);
        proof {
            assert(self@.events.contains_key(self@.rows[0].1[0].0));
            assert forall|id: u128| #[trigger] self@.events.contains_key(id) implies e.start.unix
                <= self@.events[id].start.unix by {
                assert(self@.listed(self@.events[id].id));
                let (i, k) = choose|i: int, k: int|
                    0 <= i < self@.rows.len() && 0 <= k < self@.rows[i].1.len()
                        && #[trigger] self@.rows[i].1[k] == self@.events[id].id;
                assert(self@.rows[i].1[k] == self@.events[id].id);
                if i > 0 {
                    assert(self@.rows[0].0 < self@.rows[i].0);
                }
            }
            assert(self@.events.dom().contains(self@.rows[0].1[0].0));
        }
        Some(e)
    }

    /// The event of the given identifier, which must be one of this schedule.
    pub fn resolve_event(&self, id: &EventId) -> (r: &Event)
        requires
            self@.events.contains_key(id.0),
        ensures
            *r == self@.events[id.0],
    {
        self.events.get(&id.0).unwrap()
    }

    /// The person of the given identifier, which must be one of this schedule.
    pub fn resolve_person(&self, id: &PersonId) -> (r: &Person)
        requires
            self@.persons.contains_key(id.0),
        ensures
            *r == self@.persons[id.0],
    {
        self.persons.get(&id.0).unwrap()
    }

    /// The index of the first row whose key is not below `to` (or not above it, where
    /// `inclusive`).
    fn rank(&self, to: i64, inclusive: bool) -> (r: usize)
        requires
            rows_sorted(self@.rows),
        ensures
            r == rank(self@.rows, to, inclusive),
            r <= self@.rows.len(),
            forall|j: int|
                0 <= j < r ==> #[trigger] self@.rows[j].0 < to || (inclusive && self@.rows[j].0
                    == to),
            forall|j: int|
                r <= j < self@.rows.len() ==> !(#[trigger] self@.rows[j].0 < to || (inclusive
                    && self@.rows[j].0 == to)),
    {
        let len = self.time_map.len();
        let mut i: usize = 0;
        while i < len && (self.time_map[i].0 < to || (inclusive && self.time_map[i].0 == to))
            invariant
                i <= len,
                len == self@.rows.len(),
                rows_sorted(self@.rows),
                forall|j: int|
                    0 <= j < i ==> #[trigger] self@.rows[j].0 < to || (inclusive && self@.rows[j].0
                        == to),
            decreases len - i,
        {
            i = i + 1;
        }
        proof {
            assert forall|j: int| i <= j < self@.rows.len() implies !(#[trigger] self@.rows[j].0
                < to || (inclusive && self@.rows[j].0 == to)) by {
                if j > i {
                    assert(self@.rows[i as int].0 < self@.rows[j].0);
                }
            }
            lemma_rank_split(self@.rows, to, inclusive, i as int);
        }
        i
    }

    /// The start instant and the events of the row `n` rows away from instant `to`: later
    /// rows for a positive `n`, earlier ones for a negative `n`, and the row of `to` itself
    /// for zero. `None` where that leaves the time map, or where `n` is zero and no row
    /// starts at `to`.
    pub fn relative(&self, n: isize, to: i64) -> (r: Option<(i64, &Vec<EventId>)>)
        requires
            self@.wf(),
        ensures
            r is Some <==> relative_index(self@.rows, n as int, to) is Some,
            r matches Some((key, ids)) ==> ({
                let t = relative_index(self@.rows, n as int, to)->0;
                key == self@.rows[t].0 && ids@ == self@.rows[t].1
            }),
    {
        let len = self.time_map.len();
        let t: usize;
        if n > 0 {
            let upto = self.rank(to, true);
            let k = (n - 1) as usize;
            if k >= len - upto {
                return None;
            }
            t = upto + k;
        } else if n < 0 {
            let before = self.rank(to, false);
            let m = ((-(n + 1)) as usize) + 1;
            if m > before {
                return None;
            }
            t = before - m;
        } else {
            let before = self.rank(to, false);
            if before >= len || self.time_map[before].0 != to {
                return None;
            }
            t = before;
        }
        Some((self.time_map[t].0, &self.time_map[t].1))
    }

    /// The event that a valid coordinate names.
    pub fn event_at(&self, c: &TimeCoord) -> (r: &Event)
        requires
            self@.wf(),
            self@.valid_coord(*c),
        ensures
            *r == self@.event_at(*c),
    {
        let i = self.rank(c.row, false);
        let ids = &self.time_map[i].1;
        assert(self@.rows[i as int].1 == ids@);
        let id = ids[c.idx];
        assert(self@.events.contains_key(self@.rows[i as int].1[c.idx as int].0));
        self.resolve_event(&id)
    }
}

const LOREM_IPSUM: &'static str = "Lorem ipsum dolor sit amet, consectetur adipiscing elit, sed do eiusmod tempor incididunt ut labore et dolore magnam aliquam quaerat voluptatem. Ut enim aeque doleamus animo, cum corpore dolemus, ﬁeri tamen permagna accessio potest, si aliquod aeternum et inﬁnitum impendere malum nobis opinemur. Quod idem licet transferre in voluptatem, ut postea variari voluptas distinguique possit, augeri ampliﬁcarique non possit. At etiam Athenis, ut e patre audiebam facete et urbane Stoicos irridente, statua est in quo a nobis philosophia defensa et collaudata est, cum id, quod maxime placeat, facere possimus, omnis voluptas assumenda est, omnis dolor repellendus. Temporibus autem quibusdam et aut oﬃciis debitis aut rerum necessitatibus saepe eveniet, ut et voluptates repudiandae sint et molestiae non recusandae. Itaque earum rerum defuturum, quas natura non depravata desiderat. Et quem ad me accedis, saluto: 'chaere,' inquam, 'Tite!' lictores, turma omnis chorusque: 'chaere, Tite!' hinc hostis mi Albucius, hinc inimicus. Sed iure Mucius. Ego autem mirari satis non queo unde hoc sit tam insolens domesticarum rerum fastidium. Non est omnino hic docendi locus; sed ita prorsus existimo, neque eum Torquatum, qui hoc primus cognomen invenerit, aut torquem illum hosti detraxisse, ut aliquam ex eo est consecutus? – Laudem et caritatem, quae sunt vitae sine metu degendae praesidia ﬁrmissima. – Filium morte multavit. – Si sine causa, nollem me ab eo delectari, quod ista Platonis, Aristoteli, Theophrasti orationis ornamenta neglexerit. Nam illud quidem physici, credere aliquid esse minimum, quod profecto numquam putavisset, si a Polyaeno, familiari suo, geometrica discere maluisset quam illum etiam ipsum dedocere. Sol Democrito magnus videtur, quippe homini erudito in geometriaque perfecto, huic pedalis fortasse; tantum enim esse omnino in nostris poetis aut inertissimae segnitiae est aut fastidii delicatissimi. Mihi quidem videtur, inermis ac nudus est. Tollit deﬁnitiones, nihil de dividendo ac partiendo docet, non quo ignorare vos arbitrer, sed ut ratione et via procedat oratio. Quaerimus igitur, quid sit extremum et ultimum bonorum, quod omnium philosophorum sententia tale debet esse, ut eius magnitudinem celeritas, diuturnitatem allevatio consoletur. Ad ea cum accedit, ut neque divinum numen horreat nec praeteritas voluptates eﬄuere patiatur earumque assidua recordatione laetetur, quid est, quod huc possit, quod melius sit, migrare de vita. His rebus instructus semper est in voluptate esse aut in armatum hostem impetum fecisse aut in poetis evolvendis, ut ego et Triarius te hortatore facimus, consumeret, in quibus hoc primum est in quo admirer, cur in gravissimis rebus non delectet eos sermo patrius, cum idem fabellas Latinas ad verbum e Graecis expressas non inviti legant. Quis enim tam inimicus paene nomini Romano est, qui Ennii Medeam aut Antiopam Pacuvii spernat aut reiciat, quod se isdem Euripidis fabulis delectari dicat, Latinas litteras oderit? Synephebos ego, inquit, potius Caecilii aut Andriam Terentii quam utramque Menandri legam? A quibus tantum dissentio, ut, cum Sophocles vel optime scripserit Electram, tamen male conversam Atilii mihi legendam putem, de quo Lucilius: 'ferreum scriptorem', verum, opinor, scriptorem tamen, ut legendus sit. Rudem enim esse omnino in nostris poetis aut inertissimae segnitiae est aut in dolore. Omnis autem privatione doloris putat Epicurus.";

} // verus!
