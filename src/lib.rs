//! A terminal viewer for conference schedules: the verified core.
//!
//! - [`state::schedule`] holds the events and persons of one schedule and its time map, the
//!   ordered index from start instant to the events that begin then.
//! - [`grid`] projects the time map onto a fixed number of columns, keeping every event in
//!   the column it got for as long as it runs.
//! - [`state::store`] holds what the user looks at: the view mode, the selected event and
//!   the scroll position of each view, and changes it one [`Action`] at a time.
//! - [`state::model`] and [`state::convert`] take the records of the schedule format, as
//!   plain values, and build the schedule from them.
//! - [`speakers`] lays out the line that names an event's speakers.
//!
//! Reading the schedule file, drawing and reading the terminal are left to the program
//! around this library.
use vstd::prelude::*;

pub mod grid;
pub mod speakers;
pub mod state;

verus! {

/// A point in time: seconds since the Unix epoch, and the offset from UTC (in seconds) in
/// which it was written down. Instants are compared by `unix` alone.
#[derive(Clone, Copy, Debug, PartialEq, Eq, Structural)]
pub struct DateTime {
    pub unix: i64,
    pub offset: i32,
}

/// A time of day, as the schedule format writes durations (`hours:minutes`).
#[derive(Clone, Copy, Debug, PartialEq, Eq, Structural)]
pub struct Time {
    pub hour: u8,
    pub minute: u8,
    pub second: u8,
}

impl Time {
    /// An actual time of day: hour below 24, minute and second below 60.
    pub open spec fn valid(self) -> bool {
        self.hour < 24 && self.minute < 60 && self.second < 60
    }

    pub fn is_valid(&self) -> (r: bool)
        ensures
            r == self.valid(),
    {
        self.hour < 24 && self.minute < 60 && self.second < 60
    }
}

/// What the user asked for; the only way in which the state changes.
#[derive(Clone, Copy, Debug, PartialEq, Eq, Structural)]
pub enum Action {
    Exit,
    Select(To),
    SwitchTo(state::store::Mode),
    Scroll(VerticalDirection),
}

/// A direction in which the selection moves.
#[derive(Clone, Copy, Debug, PartialEq, Eq, Structural)]
pub enum To {
    Left,
    Right,
    Up,
    Below,
}

#[derive(Clone, Copy, Debug, PartialEq, Eq, Structural)]
pub enum VerticalDirection {
    Down,
    Up,
}

/// One turn of the application: hands `action` to the state and says whether the
/// application goes on, which it does until the user asks to exit.
pub fn run(dispatcher: &mut state::Dispatcher, action: Action) -> (go_on: bool)
    requires
        old(dispatcher).store@.valid(),
    ensures
        go_on == !(action is Exit),
        final(dispatcher).store@.valid(),
        old(dispatcher).store@.transition(action, final(dispatcher).store@),
{
    let go_on = !matches!(action, Action::Exit);
    dispatcher.dispatch(action);
    go_on
}

} // verus!
