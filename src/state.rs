//! Application state: the schedule itself and what the user currently looks at.
use vstd::prelude::*;

pub mod convert;
pub mod links;
pub mod model;
pub mod schedule;
pub mod store;

use crate::Action;
use schedule::Schedule;
use store::{StateError, Store};

verus! {

/// Something that changes with each action.
pub trait Update {
    /// The condition under which it takes actions, which each action keeps.
    spec fn ready(&self) -> bool;

    fn update(&mut self, action: Action)
        requires
            old(self).ready(),
        ensures
            final(self).ready(),
    ;
}

/// Hands each action to the store.
pub struct Dispatcher {
    pub store: Store,
}

impl Dispatcher {
    /// The dispatcher of the state at the start; fails for a schedule without events.
    pub fn new(schedule: Schedule) -> (r: Result<Dispatcher, StateError>)
        requires
            schedule@.wf(),
        ensures
            r is Err <==> schedule@.rows.len() == 0,
            r matches Err(e) ==> e == StateError::Empty,
            r matches Ok(d) ==> {
                &&& d.store@.valid()
                &&& d.store@.schedule == schedule
                &&& d.store@.mode == store::Mode::Grid
                &&& d.store@.selection == (schedule::TimeCoord { row: schedule@.rows[0].0, idx: 0 })
                &&& d.store@.grid_state == (store::GridState { scroll_at: schedule@.rows[0].0 })
                &&& d.store@.single_state == (store::SingleState { scroll_at: 0 })
            },
    {
        match Store::new(schedule) {
            Ok(store) => Ok(Dispatcher { store }),
            Err(e) => Err(e),
        }
    }

    pub fn dispatch(&mut self, action: Action)
        requires
            old(self).store@.valid(),
        ensures
            final(self).store@.valid(),
            old(self).store@.transition(action, final(self).store@),
    {
        self.store.update(action);
    }
}

} // verus!
