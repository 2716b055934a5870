use fahrplan::grid::{ScheduleGrid, COLUMNS};
use fahrplan::state::model;
use fahrplan::state::schedule::{EventId, Schedule};
use fahrplan::{DateTime, Time};

const T10_00: i64 = 1_703_671_200;

fn at(minutes: i64) -> i64 {
    T10_00 + minutes * 60
}

fn talk(guid: u128, start: i64, minutes: u8) -> model::Event {
    model::Event {
        guid,
        date: DateTime { unix: at(start), offset: 0 },
        duration: Time { hour: minutes / 60, minute: minutes % 60, second: 0 },
        room: String::new(),
        title: String::new(),
        subtitle: String::new(),
        language: String::new(),
        track: String::new(),
        event_type: String::new(),
        abstract_text: String::new(),
        description: String::new(),
        persons: model::Persons { persons: Vec::new() },
        url: String::new(),
        feedback_url: None,
        links: model::Links { links: Vec::new() },
    }
}

fn schedule_of(events: Vec<model::Event>) -> Schedule {
    Schedule::from(model::Schedule {
        conference: model::Conference {
            acronym: String::new(),
            title: String::new(),
            start: DateTime { unix: T10_00, offset: 0 },
            end: DateTime { unix: T10_00, offset: 0 },
            url: String::new(),
            tracks: Vec::new(),
        },
        days: vec![model::Day {
            rooms: vec![model::Room { guid: 1, name: String::new(), events }],
        }],
    })
}

fn rows(grid: &ScheduleGrid) -> Vec<(i64, Vec<Option<EventId>>)> {
    grid.timeline().clone()
}

const A: u128 = 1;
const B: u128 = 2;
const C: u128 = 3;

#[test]
fn single_column_drops_overlapping_event() {
    let s = schedule_of(vec![talk(A, 0, 30), talk(B, 15, 30)]);
    let grid = ScheduleGrid::with_width(&s, 1);
    assert_eq!(
        rows(&grid),
        vec![(at(0), vec![Some(EventId(A))]), (at(15), vec![Some(EventId(A))])]
    );
}

#[test]
fn single_column_freed_slot_goes_to_next_event() {
    let s = schedule_of(vec![talk(A, 0, 30), talk(B, 15, 30), talk(C, 30, 30)]);
    let grid = ScheduleGrid::with_width(&s, 1);
    assert_eq!(
        rows(&grid),
        vec![
            (at(0), vec![Some(EventId(A))]),
            (at(15), vec![Some(EventId(A))]),
            (at(30), vec![Some(EventId(C))]),
        ]
    );
    assert!(rows(&grid).iter().all(|(_, r)| !r.contains(&Some(EventId(B)))));
}

#[test]
fn rows_never_exceed_capacity() {
    let events: Vec<model::Event> = (0..10u128).map(|g| talk(g, 0, 60)).collect();
    let s = schedule_of(events);
    let grid = ScheduleGrid::new(&s);
    let r = rows(&grid);
    assert_eq!(r.len(), 1);
    assert_eq!(r[0].1.len(), COLUMNS);
    assert_eq!(r[0].1.iter().filter(|o| o.is_some()).count(), 7);
    let shown: Vec<Option<EventId>> = (0..7u128).map(|g| Some(EventId(g))).collect();
    assert_eq!(r[0].1, shown);
}

#[test]
fn event_keeps_its_column_while_active() {
    let s = schedule_of(vec![talk(A, 0, 60), talk(B, 0, 30), talk(C, 30, 60), talk(4, 45, 30)]);
    let grid = ScheduleGrid::with_width(&s, 3);
    assert_eq!(
        rows(&grid),
        vec![
            (at(0), vec![Some(EventId(A)), Some(EventId(B)), None]),
            (at(30), vec![Some(EventId(A)), Some(EventId(C)), None]),
            (at(45), vec![Some(EventId(A)), Some(EventId(C)), Some(EventId(4))]),
        ]
    );
}

#[test]
fn ended_event_frees_lower_column() {
    let s = schedule_of(vec![talk(A, 0, 15), talk(B, 0, 60), talk(C, 30, 15)]);
    let grid = ScheduleGrid::with_width(&s, 2);
    assert_eq!(
        rows(&grid),
        vec![
            (at(0), vec![Some(EventId(A)), Some(EventId(B))]),
            (at(30), vec![Some(EventId(C)), Some(EventId(B))]),
        ]
    );
}

#[test]
fn empty_schedule_has_empty_grid() {
    let grid = ScheduleGrid::new(&Schedule::new());
    assert!(rows(&grid).is_empty());
}

#[test]
fn zero_width_grid_shows_nothing() {
    let s = schedule_of(vec![talk(A, 0, 30)]);
    let grid = ScheduleGrid::with_width(&s, 0);
    assert_eq!(rows(&grid), vec![(at(0), vec![])]);
}
