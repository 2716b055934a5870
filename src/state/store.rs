//! What the user looks at, and how actions change it.
use vstd::prelude::*;

use super::schedule::{lemma_row_of_key, relative_index, Event, Schedule, ScheduleView, TimeCoord};
use super::Update;
use crate::grid::layout;
use crate::{Action, To, VerticalDirection};

verus! {

/// The view the user is in.
#[derive(Clone, Copy, Debug, PartialEq, Eq, Structural)]
pub enum Mode {
    /// Overview over all events and their chronological order.
    Grid,
    /// One event in all detail.
    Single,
}

impl Default for Mode {
    fn default() -> (r: Mode)
        ensures
            r == Mode::Grid,
    {
        Mode::Grid
    }
}

/// State of the grid view.
#[derive(Clone, Copy, Debug, PartialEq, Eq, Structural)]
pub struct GridState {
    /// Start instant of the topmost row shown.
    pub scroll_at: i64,
}

/// State of the single-event view.
#[derive(Clone, Copy, Debug, PartialEq, Eq, Structural)]
pub struct SingleState {
    /// Topmost line shown.
    pub scroll_at: u16,
}

/// Why there is no state to show.
#[derive(Clone, Copy, Debug, PartialEq, Eq, Structural)]
pub enum StateError {
    /// The schedule holds no event, so there is nothing to select.
    Empty,
}

impl StateError {
    /// A description for the user.
    pub fn message(&self) -> (r: String)
        ensures
            r@ == "schedule is empty, nothing to display"@,
    {
        String::from_str("schedule is empty, nothing to display")
    }
}

/// The row at which the grid shows its top after scrolling from `at` in direction `d`: the
/// next or the previous row, or `at` itself where there is none.
pub open spec fn scrolled_grid(s: ScheduleView, at: i64, d: VerticalDirection) -> i64 {
    let n = match d {
        VerticalDirection::Down => 1int,
        VerticalDirection::Up => -1int,
    };
    match relative_index(s.rows, n, at) {
        Some(t) => s.rows[t].0,
        None => at,
    }
}

/// The line offset after scrolling one line from `at`, saturating at both ends.
pub open spec fn scrolled_single(at: u16, d: VerticalDirection) -> u16 {
    match d {
        VerticalDirection::Down => if at == u16::MAX {
            at
        } else {
            (at + 1) as u16
        },
        VerticalDirection::Up => if at == 0 {
            0
        } else {
            (at - 1) as u16
        },
    }
}

/// The selection after moving `c` once in direction `to`.
///
/// Left and right step through the events of the row; past its first or last event they go
/// to the previous or the next row, onto its first event (left) or its last event (right).
/// Up and below go to the previous or the next row and keep the index, as far as that row
/// has events. Where there is no such row, the selection stays.
pub open spec fn moved(s: ScheduleView, c: TimeCoord, to: To) -> TimeCoord {
    let len = s.rows[s.row_of(c.row)].1.len();
    match to {
        To::Left => if c.idx > 0 {
            TimeCoord { row: c.row, idx: (c.idx - 1) as usize }
        } else {
            match relative_index(s.rows, -1, c.row) {
                Some(t) => TimeCoord { row: s.rows[t].0, idx: 0 },
                None => c,
            }
        },
        To::Right => if c.idx + 1 < len {
            TimeCoord { row: c.row, idx: (c.idx + 1) as usize }
        } else {
            match relative_index(s.rows, 1, c.row) {
                Some(t) => TimeCoord { row: s.rows[t].0, idx: (s.rows[t].1.len() - 1) as usize },
                None => c,
            }
        },
        To::Up => match relative_index(s.rows, -1, c.row) {
            Some(t) => TimeCoord {
                row: s.rows[t].0,
                idx: if c.idx < s.rows[t].1.len() {
                    c.idx
                } else {
                    (s.rows[t].1.len() - 1) as usize
                },
            },
            None => c,
        },
        To::Below => match relative_index(s.rows, 1, c.row) {
            Some(t) => TimeCoord {
                row: s.rows[t].0,
                idx: if c.idx < s.rows[t].1.len() {
                    c.idx
                } else {
                    (s.rows[t].1.len() - 1) as usize
                },
            },
            None => c,
        },
    }
}

/// The selection after each of `moves`, in order.
pub open spec fn moved_all(s: ScheduleView, c: TimeCoord, moves: Seq<To>) -> TimeCoord
    decreases moves.len(),
{
    if moves.len() == 0 {
        c
    } else {
        moved(s, moved_all(s, c, moves.drop_last()), moves.last())
    }
}

/// One move keeps a selection valid.
pub proof fn lemma_moved_valid(s: ScheduleView, c: TimeCoord, to: To)
    requires
        s.wf(),
        s.valid_coord(c),
    ensures
        s.valid_coord(moved(s, c, to)),
{
    let n = match to {
        To::Left | To::Up => -1int,
        To::Right | To::Below => 1int,
    };
    if let Some(t) = relative_index(s.rows, n, c.row) {
        lemma_row_of_key(s.rows, t);
        assert(s.rows[t].1.len() > 0);
    }
}

/// However the selection is moved, it names an existing row of the schedule and an event
/// within that row, and the grid of the schedule (of any width) has a row at that instant.
pub proof fn lemma_selection_stays_valid(
    s: ScheduleView,
    c: TimeCoord,
    moves: Seq<To>,
    width: nat,
)
    requires
        s.wf(),
        s.valid_coord(c),
    ensures
        s.valid_coord(moved_all(s, c, moves)),
        ({
            let r = moved_all(s, c, moves);
            let i = s.row_of(r.row);
            0 <= i < layout(s.events, s.rows, width).len() && layout(s.events, s.rows, width)[i].0
                == r.row
        }),
    decreases moves.len(),
{
    if moves.len() > 0 {
        lemma_selection_stays_valid(s, c, moves.drop_last(), width);
        lemma_moved_valid(s, moved_all(s, c, moves.drop_last()), moves.last());
    }
}

/// The line offset of the single view after scrolling up `n` times from `at`.
pub open spec fn scrolled_up(at: u16, n: nat) -> u16
    decreases n,
{
    if n == 0 {
        at
    } else {
        scrolled_single(scrolled_up(at, (n - 1) as nat), VerticalDirection::Up)
    }
}

/// The top row of the grid after scrolling up `n` times from `at`.
pub open spec fn grid_scrolled_up(s: ScheduleView, at: i64, n: nat) -> i64
    decreases n,
{
    if n == 0 {
        at
    } else {
        scrolled_grid(s, grid_scrolled_up(s, at, (n - 1) as nat), VerticalDirection::Up)
    }
}

/// Scrolling up from the top stays at the top, in both views, however often it is done.
pub proof fn lemma_scroll_up_at_top(s: ScheduleView, n: nat)
    requires
        s.wf(),
        s.rows.len() > 0,
    ensures
        scrolled_up(0, n) == 0,
        grid_scrolled_up(s, s.rows[0].0, n) == s.rows[0].0,
    decreases n,
{
    if n > 0 {
        lemma_scroll_up_at_top(s, (n - 1) as nat);
        lemma_row_of_key(s.rows, 0);
    }
}

/// Everything the views show.
pub struct State {
    /// The bare data to display.
    pub schedule: Schedule,
    /// The view the user is in.
    pub mode: Mode,
    /// The selected event, shared by both views.
    pub selection: TimeCoord,
    pub grid_state: GridState,
    pub single_state: SingleState,
}

impl State {
    /// The selection and the grid's top name rows of the schedule.
    pub open spec fn valid(self) -> bool {
        &&& self.schedule@.wf()
        &&& self.schedule@.valid_coord(self.selection)
        &&& self.schedule@.has_row(self.grid_state.scroll_at)
    }

    /// `next` is this state after `action`.
    pub open spec fn transition(self, action: Action, next: State) -> bool {
        &&& next.schedule == self.schedule
        &&& next.mode == match action {
            Action::SwitchTo(m) => m,
            _ => self.mode,
        }
        &&& next.selection == match action {
            Action::Select(to) => moved(self.schedule@, self.selection, to),
            _ => self.selection,
        }
        &&& next.grid_state == match action {
            Action::Scroll(d) => if self.mode == Mode::Grid {
                GridState { scroll_at: scrolled_grid(self.schedule@, self.grid_state.scroll_at, d) }
            } else {
                self.grid_state
            },
            _ => self.grid_state,
        }
        &&& next.single_state == match action {
            Action::Scroll(d) => if self.mode == Mode::Single {
                SingleState { scroll_at: scrolled_single(self.single_state.scroll_at, d) }
            } else {
                self.single_state
            },
            _ => self.single_state,
        }
    }

    /// The state at the start: grid view, the first event selected, the grid scrolled to its
    /// first row and the single view to its top. Fails for a schedule without events.
    pub fn new(schedule: Schedule) -> (r: Result<State, StateError>)
        requires
            schedule@.wf(),
        ensures
            r is Err <==> schedule@.rows.len() == 0,
            r matches Err(e) ==> e == StateError::Empty,
            r matches Ok(st) ==> {
                &&& st.valid()
                &&& st.schedule == schedule
                &&& st.mode == Mode::Grid
                &&& st.selection == (TimeCoord { row: schedule@.rows[0].0, idx: 0 })
                &&& st.grid_state == (GridState { scroll_at: schedule@.rows[0].0 })
                &&& st.single_state == (SingleState { scroll_at: 0 })
            },
    {
        let start = match schedule.first() {
            Some(first_event) => first_event.start.unix,
            None => {
                return Err(StateError::Empty);
            },
        };
        proof {
            assert(schedule@.events.contains_key(schedule@.rows[0].1[0].0));
            lemma_row_of_key(schedule@.rows, 0);
        }
        let selection = TimeCoord { row: start, idx: 0 };
        let grid_state = GridState { scroll_at: start };
        let single_state = SingleState { scroll_at: 0 };
        Ok(State { schedule, mode: Mode::default(), selection, grid_state, single_state })
    }

    /// The selected event; both views share the selection.
    pub fn selected_event(&self) -> (r: &Event)
        requires
            self.valid(),
        ensures
            *r == self.schedule@.event_at(self.selection),
    {
        self.schedule.event_at(&self.selection)
    }

    /// Moves the selection once in direction `to`.
    fn scroll(&mut self, to: To)
        requires
            old(self).valid(),
        ensures
            final(self).valid(),
            final(self).selection == moved(old(self).schedule@, old(self).selection, to),
            final(self).schedule == old(self).schedule,
            final(self).mode == old(self).mode,
            final(self).grid_state == old(self).grid_state,
            final(self).single_state == old(self).single_state,
    {
        let ghost s = self.schedule@;
        let ghost c = self.selection;
        let row = self.selection.row;
        let idx = self.selection.idx;
        let len = self.schedule.relative(0, row).unwrap().1.len();
        let n: isize = match to {
            To::Left | To::Up => -1,
            To::Right | To::Below => 1,
        };
        let stays = match to {
            To::Left => idx > 0,
            To::Right => idx + 1 < len,
            To::Up | To::Below => false,
        };
        if stays {
            self.selection.idx = match to {
                To::Left => idx - 1,
                _ => idx + 1,
            };
            return ;
        }
        let target = match self.schedule.relative(n, row) {
            Some((key, ids)) => Some((key, ids.len())),
            None => None,
        };
        if let Some((key, count)) = target {
            proof {
                let t = relative_index(s.rows, n as int, row)->0;
                lemma_row_of_key(s.rows, t);
                assert(s.rows[t].1.len() > 0);
            }
            self.selection.row = key;
            self.selection.idx = match to {
                To::Left => 0,
                To::Right => count - 1,
                _ => if idx < count {
                    idx
                } else {
                    count - 1
                },
            };
        }
    }
}

impl GridState {
    /// Moves the top of the grid one row in direction `d`, staying at the first or the last
    /// row.
    pub fn scroll(&mut self, schedule: &Schedule, d: VerticalDirection)
        requires
            schedule@.wf(),
            schedule@.has_row(old(self).scroll_at),
        ensures
            final(self).scroll_at == scrolled_grid(schedule@, old(self).scroll_at, d),
            schedule@.has_row(final(self).scroll_at),
    {
        let n: isize = match d {
            VerticalDirection::Down => 1,
            VerticalDirection::Up => -1,
        };
        if let Some((key, _)) = schedule.relative(n, self.scroll_at) {
            proof {
                let t = relative_index(schedule@.rows, n as int, old(self).scroll_at)->0;
                lemma_row_of_key(schedule@.rows, t);
            }
            self.scroll_at = key;
        }
    }
}

impl Update for GridState {
    open spec fn ready(&self) -> bool {
        true
    }

    /// The grid's top moves only with the schedule at hand; see [`GridState::scroll`].
    fn update(&mut self, action: Action)
        ensures
            *final(self) == *old(self),
    {
    }
}

impl Update for SingleState {
    open spec fn ready(&self) -> bool {
        true
    }

    fn update(&mut self, action: Action)
        ensures
            *final(self) == match action {
                Action::Scroll(d) => SingleState { scroll_at: scrolled_single(old(self).scroll_at, d) },
                _ => *old(self),
            },
    {
        match action {
            Action::Scroll(VerticalDirection::Down) => {
                self.scroll_at = self.scroll_at.saturating_add(1);
            },
            Action::Scroll(VerticalDirection::Up) => {
                self.scroll_at = self.scroll_at.saturating_sub(1);
            },
            _ => {},
        }
    }
}

impl Update for State {
    open spec fn ready(&self) -> bool {
        self.valid()
    }

    fn update(&mut self, action: Action)
        ensures
            old(self).transition(action, *final(self)),
    {
        match action {
            Action::Scroll(d) => match self.mode {
                Mode::Grid => self.grid_state.scroll(&self.schedule, d),
                Mode::Single => self.single_state.update(action),
            },
            Action::SwitchTo(new_mode) => {
                self.mode = new_mode;
            },
            Action::Select(to) => self.scroll(to),
            _ => {
                self.grid_state.update(action);
                self.single_state.update(action);
            },
        }
    }
}

/// Holds the state and lets it change only through actions.
pub struct Store {
    state: State,
}

impl View for Store {
    type V = State;

    closed spec fn view(&self) -> State {
        self.state
    }
}

impl Store {
    /// The store of the state at the start; fails for a schedule without events.
    pub fn new(schedule: Schedule) -> (r: Result<Store, StateError>)
        requires
            schedule@.wf(),
        ensures
            r is Err <==> schedule@.rows.len() == 0,
            r matches Err(e) ==> e == StateError::Empty,
            r matches Ok(store) ==> {
                &&& store@.valid()
                &&& store@.schedule == schedule
                &&& store@.mode == Mode::Grid
                &&& store@.selection == (TimeCoord { row: schedule@.rows[0].0, idx: 0 })
                &&& store@.grid_state == (GridState { scroll_at: schedule@.rows[0].0 })
                &&& store@.single_state == (SingleState { scroll_at: 0 })
            },
    {
        match State::new(schedule) {
            Ok(state) => Ok(Store { state }),
            Err(e) => Err(e),
        }
    }

    pub fn state(&self) -> (r: &State)
        ensures
            *r == self@,
    {
        &self.state
    }
}

impl Update for Store {
    open spec fn ready(&self) -> bool {
        self@.valid()
    }

    fn update(&mut self, action: Action)
        ensures
            old(self)@.transition(action, final(self)@),
    {
        self.state.update(action)
    }
}

} // verus!
