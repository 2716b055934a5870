use fahrplan::speakers::{byline, BylinePart};
use fahrplan::state::model;
use fahrplan::state::schedule::{EventId, Schedule, TimeCoord};
use fahrplan::state::store::{GridState, Mode, SingleState, State, StateError, Store};
use fahrplan::state::{Dispatcher, Update};
use fahrplan::{run, Action, DateTime, Time, To, VerticalDirection};

const T10_00: i64 = 1_703_671_200;

fn at(minutes: i64) -> i64 {
    T10_00 + minutes * 60
}

fn talk(guid: u128, start: i64) -> model::Event {
    model::Event {
        guid,
        date: DateTime { unix: at(start), offset: 0 },
        duration: Time { hour: 0, minute: 30, second: 0 },
        room: String::new(),
        title: String::new(),
        subtitle: String::new(),
        language: String::new(),
        track: String::new(),
        event_type: String::new(),
        abstract_text: String::new(),
        description: String::new(),
        persons: model::Persons { persons: Vec::new() },
        url: String::new(),
        feedback_url: None,
        links: model::Links { links: Vec::new() },
    }
}

fn schedule_of(events: Vec<model::Event>) -> Schedule {
    Schedule::from(model::Schedule {
        conference: model::Conference {
            acronym: String::new(),
            title: String::new(),
            start: DateTime { unix: T10_00, offset: 0 },
            end: DateTime { unix: T10_00, offset: 0 },
            url: String::new(),
            tracks: Vec::new(),
        },
        days: vec![model::Day {
            rooms: vec![model::Room { guid: 1, name: String::new(), events }],
        }],
    })
}

/// Rows at 10:00 (events 1, 2, 3), 10:30 (event 4) and 11:00 (events 5, 6).
fn three_rows() -> State {
    let s = schedule_of(vec![talk(1, 0), talk(2, 0), talk(3, 0), talk(4, 30), talk(5, 60), talk(6, 60)]);
    State::new(s).unwrap()
}

fn coord(row_minutes: i64, idx: usize) -> TimeCoord {
    TimeCoord { row: at(row_minutes), idx }
}

#[test]
fn initial_state() {
    let st = three_rows();
    assert_eq!(st.mode, Mode::Grid);
    assert_eq!(st.selection, coord(0, 0));
    assert_eq!(st.grid_state, GridState { scroll_at: at(0) });
    assert_eq!(st.single_state, SingleState { scroll_at: 0 });
    assert_eq!(st.selected_event().id, EventId(1));
}

#[test]
fn empty_schedule_is_refused() {
    let r = State::new(schedule_of(vec![]));
    assert!(matches!(r, Err(StateError::Empty)));
    assert_eq!(StateError::Empty.message(), "schedule is empty, nothing to display");
    assert!(Store::new(Schedule::new()).is_err());
    assert!(Dispatcher::new(Schedule::new()).is_err());
}

#[test]
fn right_steps_within_row_then_to_next_row_last_event() {
    let mut st = three_rows();
    st.update(Action::Select(To::Right));
    assert_eq!(st.selection, coord(0, 1));
    st.update(Action::Select(To::Right));
    assert_eq!(st.selection, coord(0, 2));
    st.update(Action::Select(To::Right));
    assert_eq!(st.selection, coord(30, 0));
    st.update(Action::Select(To::Right));
    assert_eq!(st.selection, coord(60, 1));
    st.update(Action::Select(To::Right));
    assert_eq!(st.selection, coord(60, 1));
    assert_eq!(st.selected_event().id, EventId(6));
}

#[test]
fn left_steps_within_row_then_to_previous_row_first_event() {
    let mut st = three_rows();
    st.selection = coord(60, 1);
    st.update(Action::Select(To::Left));
    assert_eq!(st.selection, coord(60, 0));
    st.update(Action::Select(To::Left));
    assert_eq!(st.selection, coord(30, 0));
    st.update(Action::Select(To::Left));
    assert_eq!(st.selection, coord(0, 0));
    st.update(Action::Select(To::Left));
    assert_eq!(st.selection, coord(0, 0));
}

#[test]
fn up_and_below_move_rows_and_keep_index_where_possible() {
    let mut st = three_rows();
    st.selection = coord(0, 2);
    st.update(Action::Select(To::Below));
    assert_eq!(st.selection, coord(30, 0));
    st.update(Action::Select(To::Below));
    assert_eq!(st.selection, coord(60, 0));
    st.update(Action::Select(To::Below));
    assert_eq!(st.selection, coord(60, 0));
    st.selection = coord(60, 1);
    st.update(Action::Select(To::Up));
    assert_eq!(st.selection, coord(30, 0));
    st.update(Action::Select(To::Up));
    assert_eq!(st.selection, coord(0, 0));
    st.update(Action::Select(To::Up));
    assert_eq!(st.selection, coord(0, 0));
}

#[test]
fn selection_stays_valid_over_many_moves() {
    let mut st = three_rows();
    let moves = [To::Right, To::Below, To::Below, To::Left, To::Up, To::Right, To::Right, To::Below];
    for i in 0..40 {
        st.update(Action::Select(moves[i % moves.len()]));
        let e = st.selected_event();
        assert_eq!(e.start.unix, st.selection.row);
    }
}

#[test]
fn single_scroll_up_from_top_stays_at_zero() {
    let mut st = three_rows();
    st.update(Action::SwitchTo(Mode::Single));
    for _ in 0..5 {
        st.update(Action::Scroll(VerticalDirection::Up));
    }
    assert_eq!(st.single_state.scroll_at, 0);
    st.update(Action::Scroll(VerticalDirection::Down));
    st.update(Action::Scroll(VerticalDirection::Down));
    st.update(Action::Scroll(VerticalDirection::Up));
    assert_eq!(st.single_state.scroll_at, 1);
    assert_eq!(st.grid_state.scroll_at, at(0));
}

#[test]
fn single_scroll_down_saturates() {
    let mut single = SingleState { scroll_at: u16::MAX };
    single.update(Action::Scroll(VerticalDirection::Down));
    assert_eq!(single.scroll_at, u16::MAX);
    single.update(Action::Exit);
    assert_eq!(single.scroll_at, u16::MAX);
}

#[test]
fn grid_scroll_moves_by_row_and_stays_in_range() {
    let mut st = three_rows();
    st.update(Action::Scroll(VerticalDirection::Up));
    assert_eq!(st.grid_state.scroll_at, at(0));
    st.update(Action::Scroll(VerticalDirection::Down));
    assert_eq!(st.grid_state.scroll_at, at(30));
    st.update(Action::Scroll(VerticalDirection::Down));
    st.update(Action::Scroll(VerticalDirection::Down));
    assert_eq!(st.grid_state.scroll_at, at(60));
    assert_eq!(st.single_state.scroll_at, 0);
}

#[test]
fn switching_mode_keeps_selection_and_scroll() {
    let mut st = three_rows();
    st.update(Action::Select(To::Right));
    st.update(Action::SwitchTo(Mode::Single));
    assert_eq!(st.mode, Mode::Single);
    assert_eq!(st.selection, coord(0, 1));
    st.update(Action::SwitchTo(Mode::Grid));
    assert_eq!(st.mode, Mode::Grid);
    assert_eq!(st.grid_state.scroll_at, at(0));
}

#[test]
fn run_goes_on_until_exit() {
    let s = schedule_of(vec![talk(1, 0), talk(2, 0)]);
    let mut d = Dispatcher::new(s).unwrap();
    assert!(run(&mut d, Action::Select(To::Right)));
    assert_eq!(d.store.state().selection, coord(0, 1));
    assert!(run(&mut d, Action::SwitchTo(Mode::Single)));
    assert!(!run(&mut d, Action::Exit));
    assert_eq!(d.store.state().mode, Mode::Single);
}

#[test]
fn default_mode_is_grid() {
    assert_eq!(Mode::default(), Mode::Grid);
}

#[test]
fn byline_joins_names_with_commas_and_and() {
    assert_eq!(byline(0), vec![]);
    assert_eq!(byline(1), vec![BylinePart::Name(0)]);
    assert_eq!(byline(2), vec![BylinePart::Name(0), BylinePart::And, BylinePart::Name(1)]);
    assert_eq!(
        byline(3),
        vec![
            BylinePart::Name(0),
            BylinePart::Comma,
            BylinePart::Name(1),
            BylinePart::And,
            BylinePart::Name(2)
        ]
    );
}
