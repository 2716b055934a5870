//! Turns the records of the source format into a [`Schedule`].
use vstd::prelude::*;

use super::links::{insert_link, labels_sorted, links_match, links_of};
use super::model;
use super::schedule::{
    add_persons, add_time, rows_match, Event, EventId, Person, PersonId, Schedule, ScheduleView,
};
use crate::Time;

verus! {

/// The length of a duration written as a time of day, in seconds.
pub open spec fn duration_of(t: Time) -> int {
    t.hour * 3600 + t.minute * 60 + t.second
}

/// The person that a record names.
pub open spec fn person_of(m: model::Person) -> Person {
    Person { id: PersonId(m.guid), name: m.name }
}

/// The persons that an event record names, in order.
pub open spec fn persons_of(m: model::Event) -> Seq<Person> {
    m.persons.persons@.map_values(|p: model::Person| person_of(p))
}

/// `e` carries what the record `m` says.
pub open spec fn realized(e: Event, m: model::Event) -> bool {
    &&& e.id == EventId(m.guid)
    &&& e.start == m.date
    &&& e.duration == duration_of(m.duration)
    &&& e.title == m.title
    &&& e.subtitle == m.subtitle
    &&& e.abstract_text == m.abstract_text
    &&& e.description == m.description
    &&& e.room == m.room
    &&& e.track == m.track
    &&& e.event_type == m.event_type
    &&& e.language == m.language
    &&& e.url == m.url
    &&& e.feedback_url == m.feedback_url
    &&& labels_sorted(e.links@)
    &&& links_match(e.links@, links_of(m.links.links@))
    &&& e.persons@ == m.persons.persons@.map_values(|p: model::Person| PersonId(p.guid))
}

/// A duration written as a time of day, in seconds.
pub fn time_to_duration(time: Time) -> (r: i64)
    requires
        time.valid(),
    ensures
        r == duration_of(time),
        0 <= r <= 86399,
{
    time.hour as i64 * 60 * 60 + time.minute as i64 * 60 + time.second as i64
}

/// The person that a record names.
pub fn realize_person(model: model::Person) -> (r: Person)
    ensures
        r == person_of(model),
{
    Person { id: PersonId(model.guid), name: model.name }
}

/// The event that a record describes, and the persons it names. Of several links with one
/// label the last one counts.
pub fn realize_event(model: model::Event) -> (r: (Event, Vec<Person>))
    requires
        model.duration.valid(),
    ensures
        realized(r.0, model),
        r.1@ == persons_of(model),
{
    let ghost m = model;
    let mut person_ids: Vec<PersonId> = Vec::new();
    let mut persons: Vec<Person> = Vec::new();
    let mut source = model.persons.persons;
    let mut k: usize = 0;
    assert(source@.len() == source.len());
    while source.len() > 0
        invariant
            m.persons.persons@.len() <= usize::MAX,
            k + source@.len() == m.persons.persons@.len(),
            source@ == m.persons.persons@.skip(k as int),
            persons@ == persons_of(m).take(k as int),
            person_ids@ == m.persons.persons@.take(k as int).map_values(
                |p: model::Person| PersonId(p.guid),
            ),
        decreases source@.len(),
    {
        let p = source.remove(0);
        assert(p == m.persons.persons@[k as int]);
        let person = realize_person(p);
        person_ids.push(person.id);
        persons.push(person);
        k = k + 1;
        assert(source@ =~= m.persons.persons@.skip(k as int));
        assert(persons@ =~= persons_of(m).take(k as int));
        assert(person_ids@ =~= m.persons.persons@.take(k as int).map_values(
            |p: model::Person| PersonId(p.guid),
        ));
    }
    assert(persons_of(m).take(k as int) =~= persons_of(m));
    assert(m.persons.persons@.take(k as int) =~= m.persons.persons@);
    let mut links: Vec<(String, String)> = Vec::new();
    let ghost src = m.links.links@;
    let mut source = model.links.links;
    let mut k: usize = 0;
    assert(source@.len() == source.len());
    assert(src.take(0) =~= Seq::<model::Link>::empty());
    assert(links_of(src.take(0)) == Map::<Seq<char>, Seq<char>>::empty());
    while source.len() > 0
        invariant
            src.len() <= usize::MAX,
            k + source@.len() == src.len(),
            source@ == src.skip(k as int),
            labels_sorted(links@),
            links_match(links@, links_of(src.take(k as int))),
        decreases source@.len(),
    {
        let l = source.remove(0);
        assert(l == src[k as int]);
        assert(src.take(k + 1).drop_last() =~= src.take(k as int));
        insert_link(&mut links, l.display, l.href, Ghost(links_of(src.take(k as int))));
        k = k + 1;
        assert(source@ =~= src.skip(k as int));
    }
    assert(src.take(k as int) =~= src);
    let event = Event {
        id: EventId(model.guid),
        start: model.date,
        duration: time_to_duration(model.duration),
        title: model.title,
        subtitle: model.subtitle,
        abstract_text: model.abstract_text,
        description: model.description,
        room: model.room,
        track: model.track,
        event_type: model.event_type,
        language: model.language,
        url: model.url,
        feedback_url: model.feedback_url,
        links,
        persons: person_ids,
    };
    (event, persons)
}

/// What an import has gathered: for each kept event identifier the position of its record,
/// the persons, and the events starting at each instant, in the order of the records.
pub struct Import {
    pub kept: Map<u128, int>,
    pub persons: Map<u128, Person>,
    pub times: Map<i64, Seq<EventId>>,
}

/// The import after the record `m`, at position `k`. A record whose identifier was seen
/// before is passed over: the first record of an identifier is the one kept.
pub open spec fn import_step(ix: Import, k: int, m: model::Event) -> Import {
    if ix.kept.contains_key(m.guid) {
        ix
    } else {
        Import {
            kept: ix.kept.insert(m.guid, k),
            persons: add_persons(ix.persons, persons_of(m)),
            times: add_time(ix.times, m.date.unix, EventId(m.guid)),
        }
    }
}

/// The import of the records `flat`, in order.
pub open spec fn imported(flat: Seq<model::Event>) -> Import
    decreases flat.len(),
{
    if flat.len() == 0 {
        Import { kept: Map::empty(), persons: Map::empty(), times: Map::empty() }
    } else {
        import_step(imported(flat.drop_last()), flat.len() - 1, flat.last())
    }
}

/// `s` holds what the import of `flat` gathered.
pub open spec fn imports(flat: Seq<model::Event>, s: ScheduleView) -> bool {
    let ix = imported(flat);
    &&& rows_match(s.rows, ix.times)
    &&& s.persons == ix.persons
    &&& s.events.dom() == ix.kept.dom()
    &&& forall|g: u128| #[trigger]
        ix.kept.contains_key(g) ==> realized(s.events[g], flat[ix.kept[g]])
}

/// Every record of `flat` has a valid duration and an end instant that can be represented.
pub open spec fn ends_fit(flat: Seq<model::Event>) -> bool {
    forall|k: int|
        0 <= k < flat.len() ==> {
            let e = #[trigger] flat[k];
            e.duration.valid() && e.date.unix + duration_of(e.duration) <= i64::MAX
        }
}

/// What holds of every import.
pub open spec fn import_inv(flat: Seq<model::Event>, ix: Import) -> bool {
    &&& forall|t: i64| #[trigger] ix.times.contains_key(t) ==> ix.times[t].len() > 0
    &&& forall|t: i64, p: int|
        ix.times.contains_key(t) && 0 <= p < ix.times[t].len() ==> {
            let id = #[trigger] ix.times[t][p];
            &&& ix.kept.contains_key(id.0)
            &&& flat[ix.kept[id.0]].date.unix == t
        }
    &&& forall|t: i64, p: int, q: int|
        ix.times.contains_key(t) && 0 <= p < q < ix.times[t].len() ==> ix.kept[(
        #[trigger] ix.times[t][p]).0] < ix.kept[(#[trigger] ix.times[t][q]).0]
    &&& forall|g: u128| #[trigger]
        ix.kept.contains_key(g) ==> {
            let k = ix.kept[g];
            &&& 0 <= k < flat.len()
            &&& flat[k].guid == g
            &&& ix.times.contains_key(flat[k].date.unix)
            &&& ix.times[flat[k].date.unix].contains(EventId(g))
            &&& forall|p: int|
                0 <= p < flat[k].persons.persons@.len() ==> ix.persons.contains_key(
                    #[trigger] flat[k].persons.persons@[p].guid,
                )
        }
    &&& forall|j: int| 0 <= j < flat.len() ==> ix.kept.contains_key(#[trigger] flat[j].guid)
    &&& forall|pid: u128| #[trigger] ix.persons.contains_key(pid) ==> ix.persons[pid].id.0 == pid
}

/// Adding persons keeps those there and adds every one of `ps` under its identifier.
pub proof fn lemma_add_persons(m: Map<u128, Person>, ps: Seq<Person>)
    ensures
        forall|x: u128| m.contains_key(x) ==> #[trigger] add_persons(m, ps).contains_key(x),
        forall|p: int| 0 <= p < ps.len() ==> add_persons(m, ps).contains_key(#[trigger] ps[p].id.0),
        (forall|x: u128| #[trigger] m.contains_key(x) ==> m[x].id.0 == x) ==> forall|x: u128| #[trigger]
            add_persons(m, ps).contains_key(x) ==> add_persons(m, ps)[x].id.0 == x,
    decreases ps.len(),
{
    if ps.len() > 0 {
        let d = ps.drop_last();
        lemma_add_persons(m, d);
        let before = add_persons(m, d);
        let after = add_persons(m, ps);
        assert(after == before.insert(ps.last().id.0, ps.last()));
        assert forall|x: u128| m.contains_key(x) implies #[trigger] after.contains_key(x) by {
            assert(before.contains_key(x));
        }
        if forall|x: u128| #[trigger] m.contains_key(x) ==> m[x].id.0 == x {
            assert forall|x: u128| #[trigger] after.contains_key(x) implies after[x].id.0 == x by {
                if x != ps.last().id.0 {
                    assert(before.contains_key(x));
                }
            }
        }
        assert forall|p: int| 0 <= p < ps.len() implies add_persons(m, ps).contains_key(
            #[trigger] ps[p].id.0,
        ) by {
            if p < ps.len() - 1 {
                assert(d[p] == ps[p]);
                assert(add_persons(m, d).contains_key(d[p].id.0));
            }
        }
    }
}

/// Every import keeps its invariant.
pub proof fn lemma_import_inv(flat: Seq<model::Event>)
    ensures
        import_inv(flat, imported(flat)),
    decreases flat.len(),
{
    if flat.len() > 0 {
        let pre = flat.drop_last();
        lemma_import_inv(pre);
        let ix0 = imported(pre);
        let n = flat.len() - 1;
        let m = flat[n];
        let ix = imported(flat);
        assert(ix == import_step(ix0, n, m));
        assert forall|j: int| 0 <= j < n implies #[trigger] flat[j] == pre[j] by {}
        if ix0.kept.contains_key(m.guid) {
            assert forall|j: int| 0 <= j < flat.len() implies ix.kept.contains_key(
                #[trigger] flat[j].guid,
            ) by {
                if j < n {
                    assert(ix0.kept.contains_key(pre[j].guid));
                }
            }
            assert forall|g: u128| #[trigger] ix.kept.contains_key(g) implies {
                let k = ix.kept[g];
                &&& 0 <= k < flat.len()
                &&& flat[k].guid == g
                &&& ix.times.contains_key(flat[k].date.unix)
                &&& ix.times[flat[k].date.unix].contains(EventId(g))
                &&& forall|p: int|
                    0 <= p < flat[k].persons.persons@.len() ==> ix.persons.contains_key(
                        #[trigger] flat[k].persons.persons@[p].guid,
                    )
            } by {
                let k = ix0.kept[g];
                assert(flat[k] == pre[k]);
            }
            assert forall|t: i64, p: int|
                ix.times.contains_key(t) && 0 <= p < ix.times[t].len() implies {
                let id = #[trigger] ix.times[t][p];
                &&& ix.kept.contains_key(id.0)
                &&& flat[ix.kept[id.0]].date.unix == t
            } by {
                let id = ix0.times[t][p];
                assert(flat[ix0.kept[id.0]] == pre[ix0.kept[id.0]]);
            }
        } else {
            let g = m.guid;
            let d = m.date.unix;
            let id = EventId(g);
            lemma_add_persons(ix0.persons, persons_of(m));
            assert forall|j: int| 0 <= j < flat.len() implies ix.kept.contains_key(
                #[trigger] flat[j].guid,
            ) by {
                if j < n {
                    assert(ix0.kept.contains_key(pre[j].guid));
                }
            }
            assert forall|t: i64| #[trigger] ix.times.contains_key(t) implies ix.times[t].len()
                > 0 by {
                if t != d {
                    assert(ix0.times.contains_key(t));
                }
            }
            assert forall|t: i64, p: int|
                ix.times.contains_key(t) && 0 <= p < ix.times[t].len() implies {
                let x = #[trigger] ix.times[t][p];
                &&& ix.kept.contains_key(x.0)
                &&& flat[ix.kept[x.0]].date.unix == t
            } by {
                let x = ix.times[t][p];
                if t == d && p == ix.times[t].len() - 1 {
                    assert(x == id);
                } else {
                    assert(ix0.times.contains_key(t));
                    assert(x == ix0.times[t][p]);
                    assert(ix0.kept.contains_key(x.0));
                    assert(x.0 != g);
                    assert(flat[ix0.kept[x.0]] == pre[ix0.kept[x.0]]);
                }
            }
            assert forall|t: i64, p: int, q: int|
                ix.times.contains_key(t) && 0 <= p < q < ix.times[t].len() implies ix.kept[(
            #[trigger] ix.times[t][p]).0] < ix.kept[(#[trigger] ix.times[t][q]).0] by {
                let x = ix.times[t][p];
                assert(ix0.times.contains_key(t));
                assert(x == ix0.times[t][p]);
                assert(ix0.kept.contains_key(x.0));
                if t == d && q == ix.times[t].len() - 1 {
                    assert(ix.times[t][q] == id);
                } else {
                    assert(ix.times[t][q] == ix0.times[t][q]);
                    assert(ix0.kept.contains_key(ix0.times[t][q].0));
                }
            }
            assert forall|h: u128| #[trigger] ix.kept.contains_key(h) implies {
                let k = ix.kept[h];
                &&& 0 <= k < flat.len()
                &&& flat[k].guid == h
                &&& ix.times.contains_key(flat[k].date.unix)
                &&& ix.times[flat[k].date.unix].contains(EventId(h))
                &&& forall|p: int|
                    0 <= p < flat[k].persons.persons@.len() ==> ix.persons.contains_key(
                        #[trigger] flat[k].persons.persons@[p].guid,
                    )
            } by {
                if h == g {
                    let row = ix.times[d];
                    assert(row[row.len() - 1] == id);
                    assert forall|p: int| 0 <= p < m.persons.persons@.len() implies ix.persons.contains_key(
                        #[trigger] m.persons.persons@[p].guid,
                    ) by {
                        assert(persons_of(m)[p].id.0 == m.persons.persons@[p].guid);
                    }
                } else {
                    let k = ix0.kept[h];
                    assert(flat[k] == pre[k]);
                    let t = pre[k].date.unix;
                    let old_row = ix0.times[t];
                    let w = choose|w: int| 0 <= w < old_row.len() && old_row[w] == EventId(h);
                    assert(ix.times[t][w] == EventId(h));
                    assert forall|p: int| 0 <= p < flat[k].persons.persons@.len() implies ix.persons.contains_key(
                        #[trigger] flat[k].persons.persons@[p].guid,
                    ) by {
                        assert(ix0.persons.contains_key(pre[k].persons.persons@[p].guid));
                    }
                }
            }
        }
    }
}

/// A schedule that holds what an import gathered meets the schedule invariant.
proof fn lemma_import_wf(flat: Seq<model::Event>, s: ScheduleView)
    requires
        imports(flat, s),
        ends_fit(flat),
    ensures
        s.wf(),
{
    let ix = imported(flat);
    lemma_import_inv(flat);
    assert forall|i: int| 0 <= i < s.rows.len() implies #[trigger] s.rows[i].1.len() > 0 by {
        assert(ix.times.contains_key(s.rows[i].0));
    }
    assert forall|i: int, p: int, q: int|
        0 <= i < s.rows.len() && 0 <= p < q < s.rows[i].1.len() implies #[trigger] s.rows[i].1[p]
            != #[trigger] s.rows[i].1[q] by {
        let t = s.rows[i].0;
        assert(ix.times.contains_key(t));
        assert(ix.kept[ix.times[t][p].0] < ix.kept[ix.times[t][q].0]);
    }
    assert forall|i: int, k: int| 0 <= i < s.rows.len() && 0 <= k < s.rows[i].1.len() implies {
        let id = #[trigger] s.rows[i].1[k];
        &&& s.events.contains_key(id.0)
        &&& s.events[id.0].start.unix == s.rows[i].0
    } by {
        let t = s.rows[i].0;
        assert(ix.times.contains_key(t));
        let id = ix.times[t][k];
        assert(ix.kept.contains_key(id.0));
        assert(s.events.dom().contains(id.0));
        assert(realized(s.events[id.0], flat[ix.kept[id.0]]));
    }
    assert forall|g: u128| #[trigger] s.events.contains_key(g) implies {
        let e = s.events[g];
        &&& e.id.0 == g
        &&& s.listed(e.id)
        &&& e.duration >= 0
        &&& e.end_fits()
        &&& labels_sorted(e.links@)
        &&& forall|p: int|
            0 <= p < e.persons.len() ==> s.persons.contains_key(#[trigger] e.persons@[p].0)
    } by {
        assert(s.events.dom().contains(g));
        assert(ix.kept.contains_key(g));
        let k = ix.kept[g];
        let m = flat[k];
        let e = s.events[g];
        assert(realized(e, m));
        let t = m.date.unix;
        assert(ix.times.contains_key(t));
        let i = choose|i: int| 0 <= i < s.rows.len() && #[trigger] s.rows[i].0 == t;
        let w = choose|w: int| 0 <= w < ix.times[t].len() && ix.times[t][w] == EventId(g);
        assert(s.rows[i].1[w] == e.id);
        assert forall|p: int| 0 <= p < e.persons.len() implies s.persons.contains_key(
            #[trigger] e.persons@[p].0,
        ) by {
            assert(e.persons@[p].0 == m.persons.persons@[p].guid);
        }
    }
}

/// Among the events that a schedule built from records holds, the event at the front of
/// its time map is one of the earliest start, and of those the one whose record came first.
pub proof fn lemma_first_is_earliest(flat: Seq<model::Event>, s: ScheduleView)
    requires
        imports(flat, s),
        flat.len() > 0,
    ensures
        s.rows.len() > 0,
        s.rows[0].1.len() > 0,
        ({
            let ix = imported(flat);
            let g = s.rows[0].1[0].0;
            let k = ix.kept[g];
            &&& ix.kept.contains_key(g)
            &&& realized(s.events[g], flat[k])
            &&& forall|j: int|
                0 <= j < flat.len() && ix.kept[#[trigger] flat[j].guid] == j ==> {
                    &&& flat[k].date.unix <= flat[j].date.unix
                    &&& flat[k].date.unix == flat[j].date.unix ==> k <= j
                }
        }),
{
    let ix = imported(flat);
    lemma_import_inv(flat);
    assert(ix.kept.contains_key(flat[0].guid));
    let t0 = flat[ix.kept[flat[0].guid]].date.unix;
    assert(ix.times.contains_key(t0));
    let i0 = choose|i: int| 0 <= i < s.rows.len() && #[trigger] s.rows[i].0 == t0;
    assert(s.rows.len() > 0);
    let t = s.rows[0].0;
    assert(ix.times.contains_key(t));
    assert(s.rows[0].1 == ix.times[t]);
    let g = s.rows[0].1[0].0;
    assert(ix.times[t][0].0 == g);
    let k = ix.kept[g];
    assert forall|j: int| 0 <= j < flat.len() && ix.kept[#[trigger] flat[j].guid] == j implies {
        &&& flat[k].date.unix <= flat[j].date.unix
        &&& flat[k].date.unix == flat[j].date.unix ==> k <= j
    } by {
        let h = flat[j].guid;
        assert(ix.kept.contains_key(h));
        let tj = flat[j].date.unix;
        assert(ix.times.contains_key(tj));
        let i = choose|i: int| 0 <= i < s.rows.len() && #[trigger] s.rows[i].0 == tj;
        if i > 0 {
            assert(s.rows[0].0 < s.rows[i].0);
        } else {
            let w = choose|w: int| 0 <= w < ix.times[t].len() && ix.times[t][w] == EventId(h);
            if w > 0 {
                assert(ix.kept[ix.times[t][0].0] < ix.kept[ix.times[t][w].0]);
            }
        }
    }
}

/// All event records of some days, day after day and room after room.
fn flatten(days: Vec<model::Day>) -> (r: Vec<model::Event>)
    ensures
        r@ == model::day_events(days@),
{
    let ghost d = days@;
    let mut days = days;
    let mut out: Vec<model::Event> = Vec::new();
    let mut i: usize = 0;
    assert(days@.len() == days.len());
    assert(d.take(0) =~= Seq::<model::Day>::empty());
    while days.len() > 0
        invariant
            d.len() <= usize::MAX,
            i + days@.len() == d.len(),
            days@ == d.skip(i as int),
            out@ == model::day_events(d.take(i as int)),
        decreases days@.len(),
    {
        let day = days.remove(0);
        assert(day == d[i as int]);
        let ghost rs = day.rooms@;
        let ghost base = out@;
        let mut rooms = day.rooms;
        let mut j: usize = 0;
        assert(rooms@.len() == rooms.len());
        assert(rs.take(0) =~= Seq::<model::Room>::empty());
        assert(base + model::room_events(rs.take(0)) =~= base);
        while rooms.len() > 0
            invariant
                rs.len() <= usize::MAX,
                j + rooms@.len() == rs.len(),
                rooms@ == rs.skip(j as int),
                out@ == base + model::room_events(rs.take(j as int)),
            decreases rooms@.len(),
        {
            let mut room = rooms.remove(0);
            assert(room == rs[j as int]);
            let ghost before = out@;
            out.append(&mut room.events);
            assert(rs.take(j + 1).drop_last() =~= rs.take(j as int));
            assert(out@ =~= base + model::room_events(rs.take(j + 1)));
            j = j + 1;
            assert(rooms@ =~= rs.skip(j as int));
        }
        assert(rs.take(j as int) =~= rs);
        assert(d.take(i + 1).drop_last() =~= d.take(i as int));
        i = i + 1;
        assert(days@ =~= d.skip(i as int));
    }
    assert(d.take(i as int) =~= d);
    out
}

impl Schedule {
    /// Builds the schedule that the records of `model` describe, in the order in which the
    /// source lists them. Of several records of one event identifier the first is kept;
    /// a person named twice ends with the name given last.
    pub fn from(model: model::Schedule) -> (r: Schedule)
        requires
            ends_fit(model::schedule_events(model)),
        ensures
            r@.wf(),
            imports(model::schedule_events(model), r@),
    {
        let ghost flat = model::schedule_events(model);
        let mut records = flatten(model.days);
        let mut schedule = Schedule::new();
        let mut k: usize = 0;
        assert(records@.len() == records.len());
        assert(flat.take(0) =~= Seq::<model::Event>::empty());
        assert(rows_match(schedule@.rows, imported(flat.take(0)).times));
        assert(schedule@.persons =~= imported(flat.take(0)).persons);
        assert(schedule@.events.dom() =~= imported(flat.take(0)).kept.dom());
        while records.len() > 0
            invariant
                flat.len() <= usize::MAX,
                ends_fit(flat),
                k + records@.len() == flat.len(),
                records@ == flat.skip(k as int),
                imports(flat.take(k as int), schedule@),
            decreases records@.len(),
        {
            let record = records.remove(0);
            assert(record == flat[k as int]);
            let ghost pre = flat.take(k as int);
            let ghost cur = flat.take(k + 1);
            let ghost ix0 = imported(pre);
            let ghost before = schedule@;
            proof {
                lemma_import_inv(pre);
                assert(cur.drop_last() =~= pre);
                assert(cur.last() == record);
            }
            let (event, persons) = realize_event(record);
            schedule.insert(event, persons, Ghost(ix0.times));
            proof {
                let ix = imported(cur);
                assert(ix == import_step(ix0, k as int, record));
                assert forall|j: int| 0 <= j < k implies #[trigger] cur[j] == pre[j] by {}
                if ix0.kept.contains_key(record.guid) {
                    assert(before.events.contains_key(event.id.0));
                    assert forall|g: u128| #[trigger] ix.kept.contains_key(g) implies realized(
                        schedule@.events[g],
                        cur[ix.kept[g]],
                    ) by {
                        assert(realized(before.events[g], pre[ix0.kept[g]]));
                    }
                } else {
                    assert(!before.events.dom().contains(event.id.0));
                    assert(schedule@.events.dom() =~= ix.kept.dom());
                    assert forall|g: u128| #[trigger] ix.kept.contains_key(g) implies realized(
                        schedule@.events[g],
                        cur[ix.kept[g]],
                    ) by {
                        if g != record.guid {
                            assert(realized(before.events[g], pre[ix0.kept[g]]));
                        }
                    }
                }
            }
            k = k + 1;
            assert(records@ =~= flat.skip(k as int));
        }
        assert(flat.take(k as int) =~= flat);
        proof {
            lemma_import_wf(flat, schedule@);
        }
        schedule
    }
}

} // verus!
