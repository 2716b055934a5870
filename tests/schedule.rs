use fahrplan::state::convert::{realize_event, realize_person, time_to_duration};
use fahrplan::state::model;
use fahrplan::state::schedule::{EventId, PersonId, Schedule, TimeCoord};
use fahrplan::{DateTime, Time};

const T10_00: i64 = 1_703_671_200; // 2023-12-27 10:00 UTC

fn at(minutes: i64) -> DateTime {
    DateTime { unix: T10_00 + minutes * 60, offset: 3600 }
}

fn person(guid: u128, name: &str) -> model::Person {
    model::Person { guid, name: name.to_string() }
}

fn record(guid: u128, start: i64, minutes: u8, persons: Vec<model::Person>) -> model::Event {
    model::Event {
        guid,
        date: at(start),
        duration: Time { hour: minutes / 60, minute: minutes % 60, second: 0 },
        room: "Saal 1".to_string(),
        title: format!("talk {}", guid),
        subtitle: String::new(),
        language: "en".to_string(),
        track: "Science".to_string(),
        event_type: "lecture".to_string(),
        abstract_text: "abstract".to_string(),
        description: "description".to_string(),
        persons: model::Persons { persons },
        url: "https://example.com".to_string(),
        feedback_url: None,
        links: model::Links { links: Vec::new() },
    }
}

fn schedule_of(rooms: Vec<Vec<model::Event>>) -> Schedule {
    let rooms = rooms
        .into_iter()
        .enumerate()
        .map(|(i, events)| model::Room { guid: i as u128, name: format!("room {}", i), events })
        .collect();
    Schedule::from(model::Schedule {
        conference: model::Conference {
            acronym: "37c3".to_string(),
            title: "Congress".to_string(),
            start: at(0),
            end: at(600),
            url: "https://example.com".to_string(),
            tracks: vec![model::Track { name: "Science".to_string(), color: "#fff".to_string() }],
        },
        days: vec![model::Day { rooms }],
    })
}

#[test]
fn first_is_earliest_start() {
    let s = schedule_of(vec![
        vec![record(1, 60, 30, vec![]), record(2, 0, 30, vec![])],
        vec![record(3, 30, 30, vec![])],
    ]);
    assert_eq!(s.first().unwrap().id, EventId(2));
}

#[test]
fn first_breaks_ties_by_order_of_records() {
    let s = schedule_of(vec![
        vec![record(7, 30, 30, vec![]), record(5, 0, 30, vec![])],
        vec![record(4, 0, 45, vec![])],
    ]);
    assert_eq!(s.first().unwrap().id, EventId(5));
    let (_, ids) = s.relative(0, at(0).unix).unwrap();
    assert_eq!(ids, &vec![EventId(5), EventId(4)]);
}

#[test]
fn first_of_empty_schedule_is_none() {
    let s = schedule_of(vec![]);
    assert!(s.first().is_none());
    assert!(Schedule::new().first().is_none());
}

#[test]
fn end_is_start_plus_duration() {
    let s = schedule_of(vec![vec![record(1, 0, 90, vec![])]]);
    let e = s.resolve_event(&EventId(1));
    assert_eq!(e.duration, 90 * 60);
    assert!(e.duration >= 0);
    assert_eq!(e.end(), DateTime { unix: T10_00 + 90 * 60, offset: 3600 });
}

#[test]
fn duration_from_time_of_day() {
    assert_eq!(time_to_duration(Time { hour: 1, minute: 30, second: 0 }), 5400);
    assert_eq!(time_to_duration(Time { hour: 0, minute: 0, second: 0 }), 0);
    assert_eq!(time_to_duration(Time { hour: 2, minute: 3, second: 4 }), 7384);
}

#[test]
fn realize_person_keeps_guid_and_name() {
    let p = realize_person(person(9, "Ada"));
    assert_eq!(p.id, PersonId(9));
    assert_eq!(p.name, "Ada");
}

#[test]
fn realize_event_carries_every_field() {
    let mut m = record(3, 15, 45, vec![person(10, "Ada"), person(11, "Grace")]);
    m.feedback_url = Some("https://feedback".to_string());
    m.links = model::Links {
        links: vec![
            model::Link { href: "https://a".to_string(), display: "slides".to_string() },
            model::Link { href: "https://b".to_string(), display: "video".to_string() },
        ],
    };
    let (e, persons) = realize_event(m);
    assert_eq!(e.id, EventId(3));
    assert_eq!(e.start, at(15));
    assert_eq!(e.duration, 45 * 60);
    assert_eq!(e.title, "talk 3");
    assert_eq!(e.room, "Saal 1");
    assert_eq!(e.feedback_url, Some("https://feedback".to_string()));
    assert_eq!(
        e.links,
        vec![
            ("slides".to_string(), "https://a".to_string()),
            ("video".to_string(), "https://b".to_string())
        ]
    );
    assert_eq!(e.persons, vec![PersonId(10), PersonId(11)]);
    assert_eq!(persons.len(), 2);
    assert_eq!(persons[1].id, PersonId(11));
    assert_eq!(persons[1].name, "Grace");
}

#[test]
fn persons_are_resolved() {
    let s = schedule_of(vec![vec![
        record(1, 0, 30, vec![person(10, "Ada")]),
        record(2, 30, 30, vec![person(10, "Ada L."), person(11, "Grace")]),
    ]]);
    assert_eq!(s.resolve_person(&PersonId(11)).name, "Grace");
    assert_eq!(s.resolve_person(&PersonId(10)).name, "Ada L.");
    let e = s.resolve_event(&EventId(2));
    assert_eq!(e.persons, vec![PersonId(10), PersonId(11)]);
}

#[test]
fn duplicate_identifier_keeps_first_record() {
    let s = schedule_of(vec![vec![record(1, 0, 30, vec![]), record(1, 60, 30, vec![])]]);
    assert_eq!(s.resolve_event(&EventId(1)).start, at(0));
    assert_eq!(s.time_map().len(), 1);
}

#[test]
fn time_map_is_ordered_and_groups_equal_starts() {
    let s = schedule_of(vec![
        vec![record(1, 60, 30, vec![]), record(2, 0, 30, vec![])],
        vec![record(3, 60, 30, vec![]), record(4, 30, 30, vec![])],
    ]);
    let tm = s.time_map();
    let keys: Vec<i64> = tm.iter().map(|r| r.0).collect();
    assert_eq!(keys, vec![at(0).unix, at(30).unix, at(60).unix]);
    assert_eq!(tm[2].1, vec![EventId(1), EventId(3)]);
}

#[test]
fn relative_before_earliest_is_none() {
    let s = schedule_of(vec![vec![record(1, 0, 30, vec![]), record(2, 30, 30, vec![])]]);
    assert!(s.relative(-1, at(0).unix).is_none());
}

#[test]
fn relative_zero_returns_that_row() {
    let s = schedule_of(vec![vec![record(1, 0, 30, vec![]), record(2, 30, 30, vec![])]]);
    let (key, ids) = s.relative(0, at(30).unix).unwrap();
    assert_eq!(key, at(30).unix);
    assert_eq!(ids, &vec![EventId(2)]);
    assert!(s.relative(0, at(10).unix).is_none());
}

#[test]
fn relative_steps_through_rows() {
    let s = schedule_of(vec![vec![
        record(1, 0, 30, vec![]),
        record(2, 30, 30, vec![]),
        record(3, 60, 30, vec![]),
    ]]);
    assert_eq!(s.relative(1, at(0).unix).unwrap().0, at(30).unix);
    assert_eq!(s.relative(2, at(0).unix).unwrap().0, at(60).unix);
    assert!(s.relative(3, at(0).unix).is_none());
    assert_eq!(s.relative(-1, at(60).unix).unwrap().0, at(30).unix);
    assert_eq!(s.relative(-2, at(60).unix).unwrap().0, at(0).unix);
    assert_eq!(s.relative(1, at(10).unix).unwrap().0, at(30).unix);
    assert_eq!(s.relative(-1, at(10).unix).unwrap().0, at(0).unix);
    assert!(s.relative(isize::MIN, at(60).unix).is_none());
    assert!(s.relative(isize::MAX, at(0).unix).is_none());
}

#[test]
fn event_at_coordinate() {
    let s = schedule_of(vec![vec![record(1, 0, 30, vec![]), record(2, 0, 30, vec![])]]);
    let e = s.event_at(&TimeCoord { row: at(0).unix, idx: 1 });
    assert_eq!(e.id, EventId(2));
}

#[test]
fn placeholder_has_one_event_and_two_speakers() {
    let s = Schedule::placeholder(at(0));
    let e = s.first().unwrap();
    assert_eq!(e.id, EventId(0));
    assert_eq!(e.title, "Shaving yaks");
    assert_eq!(e.end().unix, at(90).unix);
    assert_eq!(s.resolve_person(&PersonId(u128::MAX)).name, "Completely inaccurate fractal");
    assert_eq!(s.time_map().len(), 1);
}

#[test]
fn links_map_each_label_to_its_last_url_in_label_order() {
    let mut m = record(4, 0, 30, vec![]);
    m.links = model::Links {
        links: vec![
            model::Link { href: "https://b".to_string(), display: "video".to_string() },
            model::Link { href: "https://a".to_string(), display: "slides".to_string() },
            model::Link { href: "https://c".to_string(), display: "video".to_string() },
            model::Link { href: "https://d".to_string(), display: "Slides".to_string() },
        ],
    };
    let (e, _) = realize_event(m);
    assert_eq!(
        e.links,
        vec![
            ("Slides".to_string(), "https://d".to_string()),
            ("slides".to_string(), "https://a".to_string()),
            ("video".to_string(), "https://c".to_string())
        ]
    );
}

#[test]
fn links_order_by_bytes_of_label() {
    let mut m = record(5, 0, 30, vec![]);
    m.links = model::Links {
        links: vec![
            model::Link { href: "1".to_string(), display: "über".to_string() },
            model::Link { href: "2".to_string(), display: "abc".to_string() },
            model::Link { href: "3".to_string(), display: "ab".to_string() },
            model::Link { href: "4".to_string(), display: "".to_string() },
        ],
    };
    let (e, _) = realize_event(m);
    let labels: Vec<&str> = e.links.iter().map(|l| l.0.as_str()).collect();
    assert_eq!(labels, vec!["", "ab", "abc", "über"]);
}

#[test]
fn time_validity() {
    assert!(Time { hour: 23, minute: 59, second: 59 }.is_valid());
    assert!(!Time { hour: 24, minute: 0, second: 0 }.is_valid());
    assert!(!Time { hour: 1, minute: 60, second: 0 }.is_valid());
    assert!(!Time { hour: 1, minute: 0, second: 60 }.is_valid());
    assert_eq!(time_to_duration(Time { hour: 23, minute: 59, second: 59 }), 86399);
}
