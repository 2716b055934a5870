//! The records of a schedule as the source format lays them out, with plain values:
//! identifiers as their 128-bit value, instants as [`DateTime`], durations as [`Time`].
use vstd::prelude::*;

use crate::{DateTime, Time};

verus! {

#[derive(Debug)]
pub struct Schedule {
    pub conference: Conference,
    pub days: Vec<Day>,
}

#[derive(Debug)]
pub struct Conference {
    pub acronym: String,
    pub title: String,
    pub start: DateTime,
    pub end: DateTime,
    pub url: String,
    pub tracks: Vec<Track>,
}

#[derive(Debug)]
pub struct Track {
    pub name: String,
    pub color: String,
}

#[derive(Debug)]
pub struct Day {
    pub rooms: Vec<Room>,
}

#[derive(Debug)]
pub struct Room {
    pub guid: u128,
    pub name: String,
    pub events: Vec<Event>,
}

#[derive(Debug)]
pub struct Event {
    pub guid: u128,
    pub date: DateTime,
    pub duration: Time,
    pub room: String,
    pub title: String,
    pub subtitle: String,
    pub language: String,
    pub track: String,
    pub event_type: String,
    pub abstract_text: String,
    pub description: String,
    pub persons: Persons,
    pub url: String,
    /// `None` where the source has no feedback URL at all.
    pub feedback_url: Option<String>,
    pub links: Links,
}

#[derive(Debug)]
pub struct Persons {
    pub persons: Vec<Person>,
}

#[derive(Debug)]
pub struct Person {
    pub guid: u128,
    pub name: String,
}

#[derive(Debug)]
pub struct Links {
    pub links: Vec<Link>,
}

#[derive(Debug)]
pub struct Link {
    pub href: String,
    pub display: String,
}

/// The events of some rooms, room after room.
pub open spec fn room_events(rooms: Seq<Room>) -> Seq<Event>
    decreases rooms.len(),
{
    if rooms.len() == 0 {
        Seq::empty()
    } else {
        room_events(rooms.drop_last()) + rooms.last().events@
    }
}

/// The events of some days, day after day.
pub open spec fn day_events(days: Seq<Day>) -> Seq<Event>
    decreases days.len(),
{
    if days.len() == 0 {
        Seq::empty()
    } else {
        day_events(days.drop_last()) + room_events(days.last().rooms@)
    }
}

/// All events of a schedule, in the order of the source.
pub open spec fn schedule_events(s: Schedule) -> Seq<Event> {
    day_events(s.days@)
}

} // verus!
