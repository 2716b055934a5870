//! Overview over all events of a schedule, laid out in columns.
//!
//! A sweep over the time map, in ascending order of start instants, keeps one slot per
//! column. At each start instant it first frees the slots of events that are over by then,
//! and then hands the events starting at that instant, in the order of the time map, the
//! lowest free slots. An event that finds no free slot is left out of the grid. What the
//! slots hold after each instant is one row of the grid.
use vstd::prelude::*;

use crate::state::schedule::{Event, EventId, Row, Schedule, ScheduleView};

verus! {

/// The number of columns of the overview.
pub const COLUMNS: usize = 7;

/// An event that occupies a slot, with the instant (Unix seconds) at which it ends.
pub type Slot = (EventId, i64);

/// Hands out `items`, in order, to the free slots of `slots`, lowest first. Items left over
/// when the slots are full are dropped.
pub open spec fn fill<T>(slots: Seq<Option<T>>, items: Seq<T>) -> Seq<Option<T>>
    decreases slots.len(),
{
    if slots.len() == 0 {
        slots
    } else if slots[0] is Some {
        seq![slots[0]] + fill(slots.drop_first(), items)
    } else if items.len() == 0 {
        slots
    } else {
        seq![Some(items[0])] + fill(slots.drop_first(), items.drop_first())
    }
}

/// Frees the slots whose event is over at `now`.
pub open spec fn evict(slots: Seq<Option<Slot>>, now: i64) -> Seq<Option<Slot>> {
    slots.map_values(
        |s: Option<Slot>|
            match s {
                Some(x) => if x.1 > now {
                    s
                } else {
                    None
                },
                None => None,
            },
    )
}

/// The events of `ids`, each with its end instant.
pub open spec fn arrivals(events: Map<u128, Event>, ids: Seq<EventId>) -> Seq<Slot> {
    ids.map_values(|id: EventId| (id, events[id.0].end_unix() as i64))
}

/// The slots after the sweep has reached `row`.
pub open spec fn advance(slots: Seq<Option<Slot>>, events: Map<u128, Event>, row: Row) -> Seq<
    Option<Slot>,
> {
    fill(evict(slots, row.0), arrivals(events, row.1))
}

/// The slots after the sweep has gone through `rows`, starting from `width` free slots.
pub open spec fn slots_after(events: Map<u128, Event>, rows: Seq<Row>, width: nat) -> Seq<
    Option<Slot>,
>
    decreases rows.len(),
{
    if rows.len() == 0 {
        Seq::new(width, |i: int| None)
    } else {
        advance(slots_after(events, rows.drop_last(), width), events, rows.last())
    }
}

/// The events that a slot array shows.
pub open spec fn ids_of(slots: Seq<Option<Slot>>) -> Seq<Option<EventId>> {
    slots.map_values(
        |s: Option<Slot>|
            match s {
                Some(x) => Some(x.0),
                None => None,
            },
    )
}

/// The grid of a schedule: for the `i`-th row of its time map, that row's instant and the
/// events in the slots once the sweep has reached it.
pub open spec fn layout(events: Map<u128, Event>, rows: Seq<Row>, width: nat) -> Seq<
    (i64, Seq<Option<EventId>>),
> {
    Seq::new(rows.len(), |i: int| (rows[i].0, ids_of(slots_after(events, rows.take(i + 1), width))))
}

/// The number of columns of a grid row that show an event.
pub open spec fn occupied(row: Seq<Option<EventId>>) -> nat {
    row.filter(|o: Option<EventId>| o is Some).len()
}

/// Handing out items keeps the number of slots.
pub proof fn lemma_fill_len<T>(slots: Seq<Option<T>>, items: Seq<T>)
    ensures
        fill(slots, items).len() == slots.len(),
    decreases slots.len(),
{
    if slots.len() > 0 {
        if slots[0] is Some {
            lemma_fill_len(slots.drop_first(), items);
        } else if items.len() > 0 {
            lemma_fill_len(slots.drop_first(), items.drop_first());
        }
    }
}

/// Handing out items leaves a taken slot as it is.
pub proof fn lemma_fill_keeps<T>(slots: Seq<Option<T>>, items: Seq<T>, c: int)
    requires
        0 <= c < slots.len(),
        slots[c] is Some,
    ensures
        fill(slots, items)[c] == slots[c],
    decreases slots.len(),
{
    let rest = slots.drop_first();
    if c > 0 {
        assert(rest[c - 1] == slots[c]);
        if slots[0] is Some {
            lemma_fill_keeps(rest, items, c - 1);
            lemma_fill_len(rest, items);
        } else if items.len() > 0 {
            lemma_fill_keeps(rest, items.drop_first(), c - 1);
            lemma_fill_len(rest, items.drop_first());
        }
    } else {
        lemma_fill_len(rest, items);
    }
}

/// What fills a slot came from the slot itself or from the items; so where both hold only
/// values with property `p`, so does the result.
pub proof fn lemma_fill_all<T>(slots: Seq<Option<T>>, items: Seq<T>, p: spec_fn(T) -> bool)
    requires
        forall|c: int| 0 <= c < slots.len() && #[trigger] slots[c] is Some ==> p(slots[c]->0),
        forall|k: int| 0 <= k < items.len() ==> p(#[trigger] items[k]),
    ensures
        forall|c: int|
            0 <= c < fill(slots, items).len() && #[trigger] fill(slots, items)[c] is Some ==> p(
                fill(slots, items)[c]->0,
            ),
    decreases slots.len(),
{
    if slots.len() > 0 {
        let rest = slots.drop_first();
        assert forall|c: int| 0 <= c < rest.len() && #[trigger] rest[c] is Some implies p(
            rest[c]->0,
        ) by {
            assert(rest[c] == slots[c + 1]);
        }
        if slots[0] is Some {
            lemma_fill_all(rest, items, p);
            let f = fill(slots, items);
            assert forall|c: int| 0 <= c < f.len() && #[trigger] f[c] is Some implies p(f[c]->0) by {
                if c > 0 {
                    assert(f[c] == fill(rest, items)[c - 1]);
                }
            }
        } else if items.len() > 0 {
            let its = items.drop_first();
            assert forall|k: int| 0 <= k < its.len() implies p(#[trigger] its[k]) by {
                assert(its[k] == items[k + 1]);
            }
            lemma_fill_all(rest, its, p);
            let f = fill(slots, items);
            assert forall|c: int| 0 <= c < f.len() && #[trigger] f[c] is Some implies p(f[c]->0) by {
                if c > 0 {
                    assert(f[c] == fill(rest, its)[c - 1]);
                }
            }
        }
    }
}

/// The sweep keeps `width` slots.
pub proof fn lemma_slots_len(events: Map<u128, Event>, rows: Seq<Row>, width: nat)
    ensures
        slots_after(events, rows, width).len() == width,
    decreases rows.len(),
{
    if rows.len() > 0 {
        lemma_slots_len(events, rows.drop_last(), width);
        let before = slots_after(events, rows.drop_last(), width);
        lemma_fill_len(evict(before, rows.last().0), arrivals(events, rows.last().1));
    }
}

/// The sweep over the first `m` rows, one row further.
proof fn lemma_slots_step(events: Map<u128, Event>, rows: Seq<Row>, width: nat, m: int)
    requires
        0 <= m < rows.len(),
    ensures
        slots_after(events, rows.take(m + 1), width) == advance(
            slots_after(events, rows.take(m), width),
            events,
            rows[m],
        ),
{
    assert(rows.take(m + 1).drop_last() =~= rows.take(m));
    assert(rows.take(m + 1).last() == rows[m]);
}

/// Every slot of the sweep over a schedule holds an event of it with that event's end.
pub proof fn lemma_slot_ends(s: ScheduleView, width: nat, m: int)
    requires
        s.wf(),
        0 <= m <= s.rows.len(),
    ensures
        forall|c: int|
            0 <= c < width && #[trigger] slots_after(s.events, s.rows.take(m), width)[c] is Some
                ==> {
                let x = slots_after(s.events, s.rows.take(m), width)[c]->0;
                s.events.contains_key(x.0.0) && x.1 == s.events[x.0.0].end_unix()
            },
    decreases m,
{
    let p = |x: Slot| s.events.contains_key(x.0.0) && x.1 == s.events[x.0.0].end_unix();
    lemma_slots_len(s.events, s.rows.take(m), width);
    if m > 0 {
        lemma_slot_ends(s, width, m - 1);
        lemma_slots_step(s.events, s.rows, width, m - 1);
        let before = slots_after(s.events, s.rows.take(m - 1), width);
        lemma_slots_len(s.events, s.rows.take(m - 1), width);
        let ev = evict(before, s.rows[m - 1].0);
        let arr = arrivals(s.events, s.rows[m - 1].1);
        assert forall|c: int| 0 <= c < ev.len() && #[trigger] ev[c] is Some implies p(ev[c]->0) by {
            assert(before[c] is Some);
        }
        assert forall|k: int| 0 <= k < arr.len() implies p(#[trigger] arr[k]) by {
            let id = s.rows[m - 1].1[k];
            assert(s.events.contains_key(id.0));
        }
        lemma_fill_all(ev, arr, p);
    } else {
        assert(s.rows.take(0) =~= Seq::<Row>::empty());
    }
}

/// A slot that holds an event keeps it through the following rows as long as they start
/// before its end.
proof fn lemma_slot_persists(s: ScheduleView, width: nat, a: int, b: int, c: int, x: Slot)
    requires
        0 <= a <= b <= s.rows.len(),
        0 <= c < width,
        slots_after(s.events, s.rows.take(a), width)[c] == Some(x),
        forall|m: int| a <= m < b ==> #[trigger] s.rows[m].0 < x.1,
    ensures
        slots_after(s.events, s.rows.take(b), width)[c] == Some(x),
    decreases b - a,
{
    if b > a {
        lemma_slot_persists(s, width, a, b - 1, c, x);
        lemma_slots_step(s.events, s.rows, width, b - 1);
        let before = slots_after(s.events, s.rows.take(b - 1), width);
        lemma_slots_len(s.events, s.rows.take(b - 1), width);
        let ev = evict(before, s.rows[b - 1].0);
        assert(s.rows[b - 1].0 < x.1);
        assert(ev[c] == Some(x));
        lemma_fill_keeps(ev, arrivals(s.events, s.rows[b - 1].1), c);
    }
}

/// Every row of a grid has exactly `width` columns, so it shows at most `width` events,
/// however many events run at once.
pub proof fn lemma_grid_capacity(s: ScheduleView, width: nat)
    ensures
        forall|i: int|
            0 <= i < s.rows.len() ==> (#[trigger] layout(s.events, s.rows, width)[i]).1.len()
                == width,
        forall|i: int|
            0 <= i < s.rows.len() ==> occupied(#[trigger] layout(s.events, s.rows, width)[i].1)
                <= width,
{
    assert forall|i: int| 0 <= i < s.rows.len() implies (#[trigger] layout(
        s.events,
        s.rows,
        width,
    )[i]).1.len() == width by {
        lemma_slots_len(s.events, s.rows.take(i + 1), width);
    }
    assert forall|i: int| 0 <= i < s.rows.len() implies occupied(
        #[trigger] layout(s.events, s.rows, width)[i].1,
    ) <= width by {
        let row = layout(s.events, s.rows, width)[i].1;
        lemma_slots_len(s.events, s.rows.take(i + 1), width);
        row.lemma_filter_len(|o: Option<EventId>| o is Some);
    }
}

/// An event shown in column `c` at the `i`-th row of the grid is shown in the same column
/// at every later row that starts before the event ends.
pub proof fn lemma_column_stability(s: ScheduleView, width: nat, i: int, j: int, c: int, id: EventId)
    requires
        s.wf(),
        0 <= i < j < s.rows.len(),
        0 <= c < width,
        layout(s.events, s.rows, width)[i].1[c] == Some(id),
        s.events.contains_key(id.0),
        s.rows[j].0 < s.events[id.0].end_unix(),
    ensures
        layout(s.events, s.rows, width)[j].1[c] == Some(id),
{
    let at = slots_after(s.events, s.rows.take(i + 1), width);
    lemma_slots_len(s.events, s.rows.take(i + 1), width);
    assert(ids_of(at)[c] == Some(id));
    assert(at[c] is Some);
    let x = at[c]->0;
    assert(x.0 == id);
    lemma_slot_ends(s, width, i + 1);
    assert(x.1 == s.events[id.0].end_unix());
    assert forall|m: int| i + 1 <= m < j + 1 implies #[trigger] s.rows[m].0 < x.1 by {
        if m < j {
            assert(s.rows[m].0 < s.rows[j].0);
        }
    }
    lemma_slot_persists(s, width, i + 1, j + 1, c, x);
    lemma_slots_len(s.events, s.rows.take(j + 1), width);
}

/// The slots hold pairwise different events.
pub open spec fn slots_distinct(slots: Seq<Option<Slot>>) -> bool {
    forall|c: int, d: int|
        0 <= c < d < slots.len() && #[trigger] slots[c] is Some && #[trigger] slots[d] is Some
            ==> (slots[c]->0).0 != (slots[d]->0).0
}

/// Handing out pairwise different events that no slot holds keeps the slots' events
/// pairwise different.
proof fn lemma_fill_distinct(slots: Seq<Option<Slot>>, items: Seq<Slot>)
    requires
        slots_distinct(slots),
        forall|k: int, l: int| 0 <= k < l < items.len() ==> #[trigger] items[k].0 != #[trigger] items[l].0,
        forall|c: int, k: int|
            0 <= c < slots.len() && 0 <= k < items.len() && #[trigger] slots[c] is Some ==> (slots[c]->0).0
                != #[trigger] items[k].0,
    ensures
        slots_distinct(fill(slots, items)),
    decreases slots.len(),
{
    if slots.len() > 0 {
        let rest = slots.drop_first();
        assert forall|c: int, d: int|
            0 <= c < d < rest.len() && #[trigger] rest[c] is Some && #[trigger] rest[d] is Some
                implies (rest[c]->0).0 != (rest[d]->0).0 by {
            assert(slots[c + 1] is Some && slots[d + 1] is Some);
        }
        let f = fill(slots, items);
        if slots[0] is Some {
            let x = slots[0]->0;
            assert forall|c: int, k: int|
                0 <= c < rest.len() && 0 <= k < items.len() && #[trigger] rest[c] is Some implies (rest[c]->0).0
                    != #[trigger] items[k].0 by {
                assert(slots[c + 1] is Some);
            }
            lemma_fill_distinct(rest, items);
            let p = |y: Slot| y.0 != x.0;
            assert forall|c: int| 0 <= c < rest.len() && #[trigger] rest[c] is Some implies p(
                rest[c]->0,
            ) by {
                assert(slots[c + 1] is Some);
            }
            assert forall|k: int| 0 <= k < items.len() implies p(#[trigger] items[k]) by {
                assert(slots[0] is Some);
            }
            lemma_fill_all(rest, items, p);
            lemma_fill_len(rest, items);
            assert forall|c: int, d: int|
                0 <= c < d < f.len() && #[trigger] f[c] is Some && #[trigger] f[d] is Some implies (f[c]->0).0
                    != (f[d]->0).0 by {
                assert(f[d] == fill(rest, items)[d - 1]);
                if c > 0 {
                    assert(f[c] == fill(rest, items)[c - 1]);
                }
            }
        } else if items.len() > 0 {
            let x = items[0];
            let its = items.drop_first();
            assert forall|k: int, l: int| 0 <= k < l < its.len() implies #[trigger] its[k].0
                != #[trigger] its[l].0 by {
                assert(items[k + 1].0 != items[l + 1].0);
            }
            assert forall|c: int, k: int|
                0 <= c < rest.len() && 0 <= k < its.len() && #[trigger] rest[c] is Some implies (rest[c]->0).0
                    != #[trigger] its[k].0 by {
                assert(slots[c + 1] is Some);
                assert(its[k] == items[k + 1]);
            }
            lemma_fill_distinct(rest, its);
            let p = |y: Slot| y.0 != x.0;
            assert forall|c: int| 0 <= c < rest.len() && #[trigger] rest[c] is Some implies p(
                rest[c]->0,
            ) by {
                assert(slots[c + 1] is Some);
            }
            assert forall|k: int| 0 <= k < its.len() implies p(#[trigger] its[k]) by {
                assert(items[0].0 != items[k + 1].0);
            }
            lemma_fill_all(rest, its, p);
            lemma_fill_len(rest, its);
            assert forall|c: int, d: int|
                0 <= c < d < f.len() && #[trigger] f[c] is Some && #[trigger] f[d] is Some implies (f[c]->0).0
                    != (f[d]->0).0 by {
                assert(f[d] == fill(rest, its)[d - 1]);
                if c > 0 {
                    assert(f[c] == fill(rest, its)[c - 1]);
                }
            }
        }
    }
}

/// The sweep over a schedule's first `m` rows holds pairwise different events, each of
/// the schedule and started no later than the last of those rows.
proof fn lemma_slots_distinct(s: ScheduleView, width: nat, m: int)
    requires
        s.wf(),
        0 <= m <= s.rows.len(),
    ensures
        slots_distinct(slots_after(s.events, s.rows.take(m), width)),
        m > 0 ==> forall|c: int|
            0 <= c < width && #[trigger] slots_after(s.events, s.rows.take(m), width)[c] is Some
                ==> {
                let x = slots_after(s.events, s.rows.take(m), width)[c]->0;
                s.events.contains_key(x.0.0) && s.events[x.0.0].start.unix <= s.rows[m - 1].0
            },
    decreases m,
{
    lemma_slots_len(s.events, s.rows.take(m), width);
    if m == 0 {
        assert(s.rows.take(0) =~= Seq::<Row>::empty());
    } else {
        lemma_slots_distinct(s, width, m - 1);
        lemma_slots_step(s.events, s.rows, width, m - 1);
        let before = slots_after(s.events, s.rows.take(m - 1), width);
        lemma_slots_len(s.events, s.rows.take(m - 1), width);
        if m == 1 {
            assert(s.rows.take(0) =~= Seq::<Row>::empty());
        }
        let now = s.rows[m - 1].0;
        let ev = evict(before, now);
        let arr = arrivals(s.events, s.rows[m - 1].1);
        assert forall|c: int, d: int|
            0 <= c < d < ev.len() && #[trigger] ev[c] is Some && #[trigger] ev[d] is Some implies (ev[c]->0).0
                != (ev[d]->0).0 by {
            assert(before[c] is Some && before[d] is Some);
        }
        assert forall|k: int, l: int| 0 <= k < l < arr.len() implies #[trigger] arr[k].0
            != #[trigger] arr[l].0 by {
            assert(s.rows[m - 1].1[k] != s.rows[m - 1].1[l]);
        }
        assert forall|c: int, k: int|
            0 <= c < ev.len() && 0 <= k < arr.len() && #[trigger] ev[c] is Some implies (ev[c]->0).0
                != #[trigger] arr[k].0 by {
            assert(before[c] is Some);
            let x = before[c]->0;
            let id = s.rows[m - 1].1[k];
            assert(s.events.contains_key(id.0));
            assert(s.events[id.0].start.unix == now);
            assert(s.rows[m - 2].0 < now);
        }
        lemma_fill_distinct(ev, arr);
        let p = |x: Slot| s.events.contains_key(x.0.0) && s.events[x.0.0].start.unix <= now;
        assert forall|c: int| 0 <= c < ev.len() && #[trigger] ev[c] is Some implies p(ev[c]->0) by {
            assert(before[c] is Some);
            assert(s.rows[m - 2].0 < now);
        }
        assert forall|k: int| 0 <= k < arr.len() implies p(#[trigger] arr[k]) by {
            let id = s.rows[m - 1].1[k];
            assert(s.events.contains_key(id.0));
        }
        lemma_fill_all(ev, arr, p);
    }
}

/// The events that one row of the grid shows are pairwise different.
pub proof fn lemma_grid_rows_distinct(s: ScheduleView, width: nat)
    requires
        s.wf(),
    ensures
        forall|i: int, c: int, d: int|
            0 <= i < s.rows.len() && 0 <= c < d < layout(s.events, s.rows, width)[i].1.len()
                && #[trigger] layout(s.events, s.rows, width)[i].1[c] is Some ==> layout(
                s.events,
                s.rows,
                width,
            )[i].1[c] != #[trigger] layout(s.events, s.rows, width)[i].1[d],
{
    assert forall|i: int, c: int, d: int|
        0 <= i < s.rows.len() && 0 <= c < d < layout(s.events, s.rows, width)[i].1.len()
            && #[trigger] layout(s.events, s.rows, width)[i].1[c] is Some implies layout(
        s.events,
        s.rows,
        width,
    )[i].1[c] != #[trigger] layout(s.events, s.rows, width)[i].1[d] by {
        let at = slots_after(s.events, s.rows.take(i + 1), width);
        lemma_slots_distinct(s, width, i + 1);
        lemma_slots_len(s.events, s.rows.take(i + 1), width);
        assert(at[c] is Some);
        if at[d] is Some {
            assert((at[c]->0).0 != (at[d]->0).0);
        }
    }
}

/// A fixed number of slots; an item keeps its slot until it is removed.
#[derive(Debug)]
struct SlottedVec<T> {
    data: Vec<Option<T>>,
}

impl<T: Copy> SlottedVec<T> {
    /// `width` free slots.
    fn new(width: usize) -> (r: Self)
        ensures
            r.data@ == Seq::new(width as nat, |i: int| None::<T>),
    {
        let mut data: Vec<Option<T>> = Vec::new();
        let mut i: usize = 0;
        while i < width
            invariant
                i <= width,
                data@ == Seq::new(i as nat, |j: int| None::<T>),
            decreases width - i,
        {
            data.push(None);
            i = i + 1;
            assert(data@ =~= Seq::new(i as nat, |j: int| None::<T>));
        }
        SlottedVec { data }
    }

    /// Frees every slot whose item `predicate` rejects.
    fn retain<F: Fn(&T) -> bool>(&mut self, predicate: F)
        requires
            forall|t: &T| #[trigger] predicate.requires((t,)),
        ensures
            final(self).data@.len() == old(self).data@.len(),
            forall|i: int|
                0 <= i < old(self).data@.len() ==> match #[trigger] old(self).data@[i] {
                    None => final(self).data@[i] is None,
                    Some(t) => (final(self).data@[i] == Some(t) && predicate.ensures((&t,), true))
                        || (final(self).data@[i] is None && predicate.ensures((&t,), false)),
                },
    {
        let len = self.data.len();
        let mut i: usize = 0;
        while i < len
            invariant
                i <= len,
                len == old(self).data@.len(),
                self.data@.len() == len,
                forall|t: &T| #[trigger] predicate.requires((t,)),
                forall|j: int| i <= j < len ==> self.data@[j] == old(self).data@[j],
                forall|j: int|
                    0 <= j < i ==> match #[trigger] old(self).data@[j] {
                        None => self.data@[j] is None,
                        Some(t) => (self.data@[j] == Some(t) && predicate.ensures((&t,), true)) || (
                        self.data@[j] is None && predicate.ensures((&t,), false)),
                    },
            decreases len - i,
        {
            if let Some(item) = self.data[i] {
                let keep = predicate(&item);
                if !keep {
                    self.data.set(i, None);
                }
            }
            i = i + 1;
        }
    }

    /// Hands out `items`, in order, to the free slots, lowest first; drops what is left over.
    fn extend(&mut self, items: Vec<T>)
        ensures
            final(self).data@ == fill(old(self).data@, items@),
    {
        let ghost old_data = self.data@;
        let len = self.data.len();
        let mut i: usize = 0;
        let mut k: usize = 0;
        assert(old_data.skip(0) =~= old_data);
        assert(items@.skip(0) =~= items@);
        assert(self.data@.take(0) + fill(old_data, items@) =~= fill(old_data, items@));
        while i < len
            invariant
                i <= len,
                k <= items.len(),
                len == old_data.len(),
                self.data@.len() == len,
                forall|j: int| i <= j < len ==> self.data@[j] == old_data[j],
                fill(old_data, items@) == self.data@.take(i as int) + fill(
                    old_data.skip(i as int),
                    items@.skip(k as int),
                ),
            decreases len - i,
        {
            let ghost rest = old_data.skip(i as int);
            let ghost its = items@.skip(k as int);
            let ghost done = self.data@.take(i as int);
            assert(rest.drop_first() =~= old_data.skip(i + 1));
            assert(rest[0] == old_data[i as int]);
            assert(self.data@[i as int] == old_data[i as int]);
            if self.data[i].is_none() && k < items.len() {
                assert(its.drop_first() =~= items@.skip(k + 1));
                assert(its[0] == items@[k as int]);
                assert(fill(rest, its) == seq![Some(its[0])] + fill(rest.drop_first(), its.drop_first()));
                self.data.set(i, Some(items[k]));
                k = k + 1;
            } else if self.data[i].is_none() {
                proof {
                    lemma_fill_nothing(rest.drop_first());
                }
                assert(its =~= Seq::<T>::empty());
                assert(seq![rest[0]] + rest.drop_first() =~= rest);
                assert(fill(rest, its) == seq![rest[0]] + fill(rest.drop_first(), its));
            } else {
                assert(fill(rest, its) == seq![rest[0]] + fill(rest.drop_first(), its));
            }
            assert(self.data@.take(i + 1) =~= done + seq![self.data@[i as int]]);
            i = i + 1;
        }
        assert(self.data@.take(len as int) =~= self.data@);
        assert(old_data.skip(len as int) =~= Seq::<Option<T>>::empty());
    }
}

/// Handing out nothing leaves the slots as they are.
proof fn lemma_fill_nothing<T>(slots: Seq<Option<T>>)
    ensures
        fill(slots, Seq::<T>::empty()) == slots,
    decreases slots.len(),
{
    if slots.len() > 0 {
        lemma_fill_nothing(slots.drop_first());
        assert(seq![slots[0]] + slots.drop_first() =~= slots);
    }
}

/// The overview of a schedule: for each start instant of its time map, the events in each
/// column.
#[derive(Debug)]
pub struct ScheduleGrid {
    timeline: Vec<(i64, Vec<Option<EventId>>)>,
}

impl View for ScheduleGrid {
    type V = Seq<(i64, Seq<Option<EventId>>)>;

    closed spec fn view(&self) -> Seq<(i64, Seq<Option<EventId>>)> {
        self.timeline@.map_values(|r: (i64, Vec<Option<EventId>>)| (r.0, r.1@))
    }
}

impl Default for ScheduleGrid {
    /// The grid of no rows.
    fn default() -> (r: ScheduleGrid)
        ensures
            r@ == Seq::<(i64, Seq<Option<EventId>>)>::empty(),
    {
        let r = ScheduleGrid { timeline: Vec::new() };
        assert(r@ =~= Seq::<(i64, Seq<Option<EventId>>)>::empty());
        r
    }
}

impl ScheduleGrid {
    /// The grid of `base` with [`COLUMNS`] columns.
    pub fn new(base: &Schedule) -> (r: ScheduleGrid)
        requires
            base@.wf(),
        ensures
            r@ == layout(base@.events, base@.rows, COLUMNS as nat),
    {
        Self::with_width(base, COLUMNS)
    }

    /// The grid of `base` with `width` columns.
    pub fn with_width(base: &Schedule, width: usize) -> (r: ScheduleGrid)
        requires
            base@.wf(),
        ensures
            r@ == layout(base@.events, base@.rows, width as nat),
    {
        let rows = base.time_map();
        let ghost events = base@.events;
        let ghost srows = base@.rows;
        let mut active: SlottedVec<Slot> = SlottedVec::new(width);
        let mut timeline: Vec<(i64, Vec<Option<EventId>>)> = Vec::new();
        let mut r: usize = 0;
        while r < rows.len()
            invariant
                r <= rows.len(),
                base@.wf(),
                events == base@.events,
                srows == base@.rows,
                crate::state::schedule::rows_view(rows@) == srows,
                active.data@ == slots_after(events, srows.take(r as int), width as nat),
                timeline@.len() == r,
                forall|i: int|
                    0 <= i < r ==> (#[trigger] timeline@[i]).0 == srows[i].0 && timeline@[i].1@
                        == ids_of(slots_after(events, srows.take(i + 1), width as nat)),
            decreases rows.len() - r,
        {
            let now = rows[r].0;
            let ids = &rows[r].1;
            assert(srows[r as int] == (now, ids@));
            let ghost before = active.data@;
            active.retain(|s: &Slot| -> (keep: bool)
                ensures
                    keep == (s.1 > now),
                { s.1 > now });
            assert(active.data@ =~= evict(before, now));
            let mut arriving: Vec<Slot> = Vec::new();
            let mut k: usize = 0;
            while k < ids.len()
                invariant
                    k <= ids.len(),
                    base@.wf(),
                    events == base@.events,
                    srows == base@.rows,
                    srows[r as int] == (now, ids@),
                    0 <= r < srows.len(),
                    arriving@ == arrivals(events, ids@.take(k as int)),
                decreases ids.len() - k,
            {
                let id = ids[k];
                assert(base@.rows[r as int].1[k as int] == id);
                assert(events.contains_key(base@.rows[r as int].1[k as int].0));
                let e = base.resolve_event(&id);
                arriving.push((id, e.end().unix));
                assert(arriving@ =~= arrivals(events, ids@.take(k + 1)));
                k = k + 1;
            }
            assert(ids@.take(ids@.len() as int) =~= ids@);
            active.extend(arriving);
            assert(srows.take(r + 1).drop_last() =~= srows.take(r as int));
            let snapshot = ids_of_exec(&active.data);
            timeline.push((now, snapshot));
            r = r + 1;
        }
        let grid = ScheduleGrid { timeline };
        assert(grid@ =~= layout(events, srows, width as nat));
        grid
    }

    /// The rows of the grid, ordered by instant.
    pub fn timeline(&self) -> (r: &Vec<(i64, Vec<Option<EventId>>)>)
        ensures
            r@.map_values(|r: (i64, Vec<Option<EventId>>)| (r.0, r.1@)) == self@,
    {
        &self.timeline
    }
}

/// The events that the slots show.
fn ids_of_exec(slots: &Vec<Option<Slot>>) -> (r: Vec<Option<EventId>>)
    ensures
        r@ == ids_of(slots@),
{
    let mut r: Vec<Option<EventId>> = Vec::new();
    let mut i: usize = 0;
    while i < slots.len()
        invariant
            i <= slots.len(),
            r@ == ids_of(slots@.take(i as int)),
        decreases slots.len() - i,
    {
        let shown = match slots[i] {
            Some(x) => Some(x.0),
            None => None,
        };
        r.push(shown);
        i = i + 1;
        assert(r@ =~= ids_of(slots@.take(i as int)));
    }
    assert(slots@.take(slots@.len() as int) =~= slots@);
    r
}

} // verus!
