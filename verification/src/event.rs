//! The events of a calendar, their order, and the ones that matter now.
use vstd::prelude::*;

use crate::time::UtcTime;

verus! {

/// One event of a calendar.
#[derive(Debug)]
pub struct CalendarEvent {
    /// The position of the event's calendar among the calendar sources.
    pub calendar_index: usize,
    pub calendar_name: String,
    pub summary: String,
    pub location: String,
    pub start: UtcTime,
    pub end: UtcTime,
}

/// What an event says.
pub struct EventView {
    pub calendar_index: usize,
    pub calendar_name: Seq<char>,
    pub summary: Seq<char>,
    pub location: Seq<char>,
    pub start: UtcTime,
    pub end: UtcTime,
}

impl View for CalendarEvent {
    type V = EventView;

    open spec fn view(&self) -> EventView {
        EventView {
            calendar_index: self.calendar_index,
            calendar_name: self.calendar_name@,
            summary: self.summary@,
            location: self.location@,
            start: self.start,
            end: self.end,
        }
    }
}

impl Clone for CalendarEvent {
    fn clone(&self) -> (r: CalendarEvent)
        ensures
            r@ == self@,
    {
        CalendarEvent {
            calendar_index: self.calendar_index,
            calendar_name: self.calendar_name.clone(),
            summary: self.summary.clone(),
            location: self.location.clone(),
            start: self.start,
            end: self.end,
        }
    }
}

/// What a list of events says.
pub open spec fn event_views(events: Seq<CalendarEvent>) -> Seq<EventView> {
    Seq::new(events.len(), |i: int| events[i]@)
}

impl EventView {
    pub open spec fn valid(self) -> bool {
        self.start.valid() && self.end.valid()
    }

    /// An event lasts from its start up to its end, the end left out.
    pub open spec fn current(self, now: UtcTime) -> bool {
        !now.precedes(self.start) && now.precedes(self.end)
    }
}

pub open spec fn all_valid(events: Seq<EventView>) -> bool {
    forall|i: int| 0 <= i < events.len() ==> (#[trigger] events[i]).valid()
}

/// Whether every event ends after its start.
pub open spec fn all_end_later(events: Seq<EventView>) -> bool {
    forall|i: int|
        0 <= i < events.len() ==> (#[trigger] events[i]).start.precedes(events[i].end)
}

impl CalendarEvent {
    pub fn is_current(&self, now: UtcTime) -> (r: bool)
        ensures
            r == self@.current(now),
    {
        !now.before(&self.start) && now.before(&self.end)
    }
}

/// Whether an event is one of a calendar and lasts at a point in time.
pub open spec fn in_progress(event: EventView, now: UtcTime, calendar: usize) -> bool {
    event.calendar_index == calendar && event.current(now)
}

/// Whether an event is one of a calendar and starts after a point in time.
pub open spec fn upcoming(event: EventView, now: UtcTime, calendar: usize) -> bool {
    event.calendar_index == calendar && now.precedes(event.start)
}

/// The first event of a calendar that lasts at a point in time, and the first one that starts
/// after it.
pub fn current_and_next<'a>(events: &'a Vec<CalendarEvent>, now: UtcTime, calendar_index: usize)
    -> (r: (Option<&'a CalendarEvent>, Option<&'a CalendarEvent>))
    ensures
        match r.0 {
            Some(event) => exists|i: int|
                #![trigger events@[i]]
                {
                    &&& 0 <= i < events@.len()
                    &&& *event == events@[i]
                    &&& in_progress(events@[i]@, now, calendar_index)
                    &&& forall|j: int|
                        0 <= j < i ==> !in_progress(#[trigger] events@[j]@, now, calendar_index)
                },
            None => forall|j: int|
                0 <= j < events@.len() ==> !in_progress(
                    #[trigger] events@[j]@,
                    now,
                    calendar_index,
                ),
        },
        match r.1 {
            Some(event) => exists|i: int|
                #![trigger events@[i]]
                {
                    &&& 0 <= i < events@.len()
                    &&& *event == events@[i]
                    &&& upcoming(events@[i]@, now, calendar_index)
                    &&& forall|j: int|
                        0 <= j < i ==> !upcoming(#[trigger] events@[j]@, now, calendar_index)
                },
            None => forall|j: int|
                0 <= j < events@.len() ==> !upcoming(#[trigger] events@[j]@, now, calendar_index),
        },
{
    let mut c: usize = 0;
    while c < events.len() && !(events[c].calendar_index == calendar_index
        && events[c].is_current(now))
        invariant
            c <= events@.len(),
            forall|j: int|
                0 <= j < c ==> !in_progress(#[trigger] events@[j]@, now, calendar_index),
        decreases events@.len() - c,
    {
        c += 1;
    }
    let mut n: usize = 0;
    while n < events.len() && !(events[n].calendar_index == calendar_index && now.before(
        &events[n].start,
    ))
        invariant
            n <= events@.len(),
            forall|j: int| 0 <= j < n ==> !upcoming(#[trigger] events@[j]@, now, calendar_index),
        decreases events@.len() - n,
    {
        n += 1;
    }
    let current = if c < events.len() {
        Some(&events[c])
    } else {
        None
    };
    let next = if n < events.len() {
        Some(&events[n])
    } else {
        None
    };
    (current, next)
}

/// The event in progress has started and has not ended, and is the first of its calendar in the
/// list of which this holds. It is missing only if this holds of none.
pub proof fn current_event_has_started_and_not_ended<'a>(
    events: &'a Vec<CalendarEvent>,
    now: UtcTime,
    calendar_index: usize,
    r: (Option<&'a CalendarEvent>, Option<&'a CalendarEvent>),
    i: int,
)
    requires
        call_ensures(current_and_next, (events, now, calendar_index), r),
        0 <= i < events@.len(),
    ensures
        r.0 matches Some(event) ==> {
            &&& events@.contains(*event)
            &&& event.calendar_index == calendar_index
            &&& event.start.seconds < now.seconds || (event.start.seconds == now.seconds
                && event.start.nanos <= now.nanos)
            &&& now.seconds < event.end.seconds || (now.seconds == event.end.seconds && now.nanos
                < event.end.nanos)
        },
        events@[i].calendar_index == calendar_index && (events@[i].start.seconds < now.seconds || (
        events@[i].start.seconds == now.seconds && events@[i].start.nanos <= now.nanos)) && (
        now.seconds < events@[i].end.seconds || (now.seconds == events@[i].end.seconds && now.nanos
            < events@[i].end.nanos)) ==> (r.0 matches Some(event) && events@.take(
            i + 1,
        ).contains(*event)),
{
    assert(events@[i]@.start == events@[i].start);
    if let Some(event) = r.0 {
        let k = choose|k: int|
            #![trigger events@[k]]
            {
                &&& 0 <= k < events@.len()
                &&& *event == events@[k]
                &&& in_progress(events@[k]@, now, calendar_index)
                &&& forall|j: int|
                    0 <= j < k ==> !in_progress(#[trigger] events@[j]@, now, calendar_index)
            };
        assert(events@.contains(events@[k]));
        if k <= i {
            assert(events@.take(i + 1)[k] == *event);
        } else {
            assert(!in_progress(events@[i]@, now, calendar_index));
        }
    }
}

/// The next event starts later than now, however much later, and is the first of its calendar in
/// the list that does. It is missing only if no event of the calendar starts later.
pub proof fn next_event_is_the_first_to_start_later<'a>(
    events: &'a Vec<CalendarEvent>,
    now: UtcTime,
    calendar_index: usize,
    r: (Option<&'a CalendarEvent>, Option<&'a CalendarEvent>),
    i: int,
)
    requires
        call_ensures(current_and_next, (events, now, calendar_index), r),
        0 <= i < events@.len(),
    ensures
        r.1 matches Some(event) ==> {
            &&& events@.contains(*event)
            &&& event.calendar_index == calendar_index
            &&& now.seconds < event.start.seconds || (now.seconds == event.start.seconds
                && now.nanos < event.start.nanos)
        },
        events@[i].calendar_index == calendar_index && (now.seconds < events@[i].start.seconds || (
        now.seconds == events@[i].start.seconds && now.nanos < events@[i].start.nanos)) ==> (
        r.1 matches Some(event) && events@.take(i + 1).contains(*event)),
{
    assert(events@[i]@.start == events@[i].start);
    if let Some(event) = r.1 {
        let k = choose|k: int|
            #![trigger events@[k]]
            {
                &&& 0 <= k < events@.len()
                &&& *event == events@[k]
                &&& upcoming(events@[k]@, now, calendar_index)
                &&& forall|j: int|
                    0 <= j < k ==> !upcoming(#[trigger] events@[j]@, now, calendar_index)
            };
        assert(events@.contains(events@[k]));
        if k <= i {
            assert(events@.take(i + 1)[k] == *event);
        } else {
            assert(!upcoming(events@[i]@, now, calendar_index));
        }
    }
}

/// Among events in order, the next event of a calendar starts no later than any other event of
/// it that starts later than now.
pub proof fn no_event_starts_between_now_and_the_next<'a>(
    events: &'a Vec<CalendarEvent>,
    now: UtcTime,
    calendar_index: usize,
    r: (Option<&'a CalendarEvent>, Option<&'a CalendarEvent>),
    i: int,
)
    requires
        call_ensures(current_and_next, (events, now, calendar_index), r),
        in_order(event_views(events@)),
        0 <= i < events@.len(),
        events@[i].calendar_index == calendar_index,
        events@[i].start.seconds > now.seconds,
    ensures
        r.1 matches Some(event) && (event.start.seconds < events@[i].start.seconds || (
        event.start.seconds == events@[i].start.seconds && event.start.nanos
            <= events@[i].start.nanos)),
{
    next_event_is_the_first_to_start_later(events, now, calendar_index, r, i);
    let first = events@.take(i + 1);
    let k = choose|k: int| 0 <= k < first.len() && first[k] == *r.1.unwrap();
    assert(events@[k] == first[k]);
    assert(event_views(events@)[k] == events@[k]@);
    assert(event_views(events@)[i] == events@[i]@);
}

/// Whether an event is in progress is a matter of its start and its end alone: it is from its
/// first moment on, and no longer at its end.
pub proof fn event_lasts_from_its_start_to_its_end(event: &CalendarEvent, now: UtcTime, r: bool)
    requires
        call_ensures(CalendarEvent::is_current, (event, now), r),
        event.start.nanos < 1_000_000_000,
        event.end.nanos < 1_000_000_000,
        now.nanos < 1_000_000_000,
    ensures
        r <==> event.start.seconds * 1_000_000_000 + event.start.nanos <= now.seconds
            * 1_000_000_000 + now.nanos < event.end.seconds * 1_000_000_000 + event.end.nanos,
{
}

/// The events of one calendar, in their order.
pub open spec fn of_calendar(events: Seq<EventView>, calendar: usize) -> Seq<EventView> {
    events.filter(|event: EventView| event.calendar_index == calendar)
}

/// The events of one calendar, in their order.
pub fn events_of_calendar(events: &Vec<CalendarEvent>, calendar_index: usize) -> (r: Vec<
    CalendarEvent,
>)
    ensures
        event_views(r@) == of_calendar(event_views(events@), calendar_index),
{
    let mut out: Vec<CalendarEvent> = Vec::new();
    let ghost all = event_views(events@);
    let ghost keep = |event: EventView| event.calendar_index == calendar_index;
    let mut i: usize = 0;
    proof {
        reveal(Seq::filter);
        assert(event_views(out@) == all.take(0).filter(keep));
    }
    while i < events.len()
        invariant
            all == event_views(events@),
            keep == (|event: EventView| event.calendar_index == calendar_index),
            i <= events@.len(),
            event_views(out@) == all.take(i as int).filter(keep),
        decreases events@.len() - i,
    {
        let ghost before = out@;
        proof {
            reveal(Seq::filter);
            assert(all.take(i + 1).drop_last() == all.take(i as int));
            assert(all.take(i + 1).last() == events@[i as int]@);
        }
        if events[i].calendar_index == calendar_index {
            let event = events[i].clone();
            out.push(event);
            proof {
                assert(event_views(out@) == event_views(before).push(event@));
            }
        }
        i += 1;
    }
    proof {
        assert(all.take(i as int) == all);
    }
    out
}

/// A list of events with one more put behind every event that does not start after it.
pub open spec fn insert_by_start(events: Seq<EventView>, event: EventView) -> Seq<EventView>
    decreases events.len(),
{
    if events.len() > 0 && event.start.precedes(events.last().start) {
        insert_by_start(events.drop_last(), event).push(events.last())
    } else {
        events.push(event)
    }
}

/// The events ordered by their start; those that start at the same time keep their order.
pub open spec fn by_start(events: Seq<EventView>) -> Seq<EventView>
    decreases events.len(),
{
    if events.len() == 0 {
        events
    } else {
        insert_by_start(by_start(events.drop_last()), events.last())
    }
}

/// Whether no event stands before one that starts earlier.
pub open spec fn in_order(events: Seq<EventView>) -> bool {
    forall|i: int, j: int|
        0 <= i < j < events.len() ==> !(#[trigger] events[j]).start.precedes(
            (#[trigger] events[i]).start,
        )
}

fn place_by_start(events: &mut Vec<CalendarEvent>, event: CalendarEvent)
    ensures
        event_views(final(events)@) == insert_by_start(event_views(old(events)@), event@),
{
    let ghost all = event_views(events@);
    let mut n: usize = events.len();
    proof {
        assert(all.take(n as int) == all);
        assert(all.skip(n as int) == Seq::<EventView>::empty());
        assert(insert_by_start(all, event@) == insert_by_start(all.take(n as int), event@)
            + all.skip(n as int));
    }
    while n > 0 && event.start.before(&events[n - 1].start)
        invariant
            all == event_views(events@),
            n <= all.len(),
            insert_by_start(all, event@) == insert_by_start(all.take(n as int), event@) + all.skip(
                n as int,
            ),
        decreases n,
    {
        proof {
            assert(all.take(n as int).drop_last() == all.take(n - 1));
            assert(all.take(n as int).last() == all[n - 1]);
            let front = insert_by_start(all.take(n - 1), event@);
            assert(front.push(all[n - 1]) + all.skip(n as int) == front + all.skip(n - 1));
        }
        n -= 1;
    }
    proof {
        assert(n > 0 ==> all.take(n as int).last() == all[n - 1]);
    }
    let ghost said = event@;
    events.insert(n, event);
    proof {
        assert(event_views(events@) == all.take(n as int).push(said) + all.skip(n as int));
    }
}

proof fn lemma_insert_by_start(events: Seq<EventView>, event: EventView)
    requires
        in_order(events),
    ensures
        in_order(insert_by_start(events, event)),
        insert_by_start(events, event).to_multiset() == events.push(event).to_multiset(),
    decreases events.len(),
{
    broadcast use vstd::seq_lib::group_to_multiset_ensures;

    let result = insert_by_start(events, event);
    if events.len() > 0 && event.start.precedes(events.last().start) {
        let front = insert_by_start(events.drop_last(), event);
        lemma_insert_by_start(events.drop_last(), event);
        assert(events == events.drop_last().push(events.last()));
        assert(result.to_multiset() =~= events.push(event).to_multiset());
        assert forall|i: int, j: int| 0 <= i < j < result.len() implies !(
        #[trigger] result[j]).start.precedes((#[trigger] result[i]).start) by {
            if j == front.len() {
                let all = events.drop_last().push(event);
                assert(front.to_multiset().contains(front[i]));
                assert(all.to_multiset().contains(front[i]));
                assert(all.contains(front[i]));
                let k = choose|k: int| 0 <= k < all.len() && all[k] == front[i];
                assert(k < events.len() - 1 ==> events[k] == front[i]);
            }
        }
    }
}

/// Ordering events by their start puts them in order, and takes none away and adds none.
pub proof fn ordering_orders_and_keeps_events(events: Seq<EventView>)
    ensures
        in_order(by_start(events)),
        by_start(events).to_multiset() == events.to_multiset(),
    decreases events.len(),
{
    broadcast use vstd::seq_lib::group_to_multiset_ensures;

    if events.len() > 0 {
        ordering_orders_and_keeps_events(events.drop_last());
        lemma_insert_by_start(by_start(events.drop_last()), events.last());
        assert(events == events.drop_last().push(events.last()));
    }
}

/// Whatever holds of every event still does once they are ordered.
pub(crate) proof fn lemma_ordering_keeps_valid(events: Seq<EventView>)
    requires
        all_valid(events),
    ensures
        all_valid(by_start(events)),
{
    broadcast use vstd::seq_lib::group_to_multiset_ensures;

    ordering_orders_and_keeps_events(events);
    let sorted = by_start(events);
    assert forall|i: int| 0 <= i < sorted.len() implies (#[trigger] sorted[i]).valid() by {
        assert(sorted.to_multiset().contains(sorted[i]));
        assert(events.contains(sorted[i]));
    }
}

/// The events that start at one point in time, in their order.
pub open spec fn starting_at(events: Seq<EventView>, t: UtcTime) -> Seq<EventView> {
    events.filter(|event: EventView| event.start == t)
}

proof fn lemma_insert_is_stable(events: Seq<EventView>, event: EventView, t: UtcTime)
    requires
        in_order(events),
    ensures
        starting_at(insert_by_start(events, event), t) == starting_at(events.push(event), t),
    decreases events.len(),
{
    let keep = |event: EventView| event.start == t;
    if events.len() > 0 && event.start.precedes(events.last().start) {
        let front = events.drop_last();
        lemma_insert_is_stable(front, event, t);
        insert_by_start(front, event).lemma_filter_push(events.last(), keep);
        front.lemma_filter_push(event, keep);
        events.lemma_filter_push(event, keep);
        front.lemma_filter_push(events.last(), keep);
        assert(events == front.push(events.last()));
    }
}

/// Events that start at the same time keep their order.
pub proof fn ordering_is_stable(events: Seq<EventView>, t: UtcTime)
    ensures
        starting_at(by_start(events), t) == starting_at(events, t),
    decreases events.len(),
{
    if events.len() > 0 {
        let keep = |event: EventView| event.start == t;
        let front = events.drop_last();
        ordering_is_stable(front, t);
        ordering_orders_and_keeps_events(front);
        lemma_insert_is_stable(by_start(front), events.last(), t);
        by_start(front).lemma_filter_push(events.last(), keep);
        front.lemma_filter_push(events.last(), keep);
        assert(events == front.push(events.last()));
    }
}

/// Events that are in order already stay as they are.
pub proof fn ordering_leaves_ordered_events_alone(events: Seq<EventView>)
    requires
        in_order(events),
    ensures
        by_start(events) == events,
    decreases events.len(),
{
    if events.len() > 0 {
        let front = events.drop_last();
        ordering_leaves_ordered_events_alone(front);
        assert(events == front.push(events.last()));
        if front.len() > 0 {
            assert(front.last() == events[events.len() - 2]);
        }
    }
}

/// Among events in order, the first one that is still to come starts before all others that are.
pub proof fn next_event_starts_first(
    events: Seq<EventView>,
    now: UtcTime,
    calendar: usize,
    first: int,
    other: int,
)
    requires
        in_order(events),
        0 <= first < events.len(),
        0 <= other < events.len(),
        upcoming(events[other], now, calendar),
        forall|j: int| 0 <= j < first ==> !upcoming(#[trigger] events[j], now, calendar),
    ensures
        !events[other].start.precedes(events[first].start),
{
    assert(first <= other);
}

/// No event is both in progress and still to come.
pub proof fn nothing_is_both_current_and_next(event: EventView, now: UtcTime, calendar: usize)
    ensures
        !(in_progress(event, now, calendar) && upcoming(event, now, calendar)),
{
}

/// Events put one after the other in their place in a list.
spec fn inserted(events: Seq<EventView>, more: Seq<EventView>) -> Seq<EventView>
    decreases more.len(),
{
    if more.len() == 0 {
        events
    } else {
        insert_by_start(inserted(events, more.drop_last()), more.last())
    }
}

proof fn lemma_insertions_swap(events: Seq<EventView>, one: EventView, other: EventView)
    requires
        one.start.precedes(other.start),
    ensures
        insert_by_start(insert_by_start(events, one), other) == insert_by_start(
            insert_by_start(events, other),
            one,
        ),
    decreases events.len(),
{
    if events.len() > 0 {
        let front = events.drop_last();
        let last = events.last();
        if other.start.precedes(last.start) {
            lemma_insertions_swap(front, one, other);
            assert(insert_by_start(front, one).push(last).drop_last() == insert_by_start(
                front,
                one,
            ));
            assert(insert_by_start(front, other).push(last).drop_last() == insert_by_start(
                front,
                other,
            ));
        }
    }
    assert(events.push(other).drop_last() == events);
    assert(events.push(one).drop_last() == events);
}

proof fn lemma_inserted_later(events: Seq<EventView>, more: Seq<EventView>, event: EventView)
    ensures
        inserted(events, insert_by_start(more, event)) == insert_by_start(
            inserted(events, more),
            event,
        ),
    decreases more.len(),
{
    if more.len() > 0 && event.start.precedes(more.last().start) {
        let front = more.drop_last();
        lemma_inserted_later(events, front, event);
        assert(insert_by_start(front, event).push(more.last()).drop_last() == insert_by_start(
            front,
            event,
        ));
        lemma_insertions_swap(inserted(events, front), event, more.last());
    } else {
        assert(more.push(event).drop_last() == more);
    }
}

proof fn lemma_inserted_in_any_order(events: Seq<EventView>, more: Seq<EventView>)
    ensures
        inserted(events, by_start(more)) == inserted(events, more),
    decreases more.len(),
{
    if more.len() > 0 {
        lemma_inserted_in_any_order(events, more.drop_last());
        lemma_inserted_later(events, by_start(more.drop_last()), more.last());
    }
}

proof fn lemma_ordering_inserts(events: Seq<EventView>, more: Seq<EventView>)
    ensures
        by_start(events + more) == inserted(by_start(events), more),
    decreases more.len(),
{
    if more.len() > 0 {
        lemma_ordering_inserts(events, more.drop_last());
        assert((events + more).drop_last() == events + more.drop_last());
    } else {
        assert(events + more == events);
    }
}

/// It makes no difference whether two lists of events are ordered before they are joined and
/// ordered as a whole.
pub proof fn ordering_parts_first_makes_no_difference(
    events: Seq<EventView>,
    more: Seq<EventView>,
)
    ensures
        by_start(by_start(events) + by_start(more)) == by_start(events + more),
{
    lemma_ordering_inserts(events, more);
    lemma_ordering_inserts(by_start(events), by_start(more));
    lemma_inserted_in_any_order(by_start(events), more);
    ordering_orders_and_keeps_events(events);
    ordering_leaves_ordered_events_alone(by_start(events));
}

/// Orders the events by their start; those that start at the same time keep their order.
pub fn sort_by_start(events: Vec<CalendarEvent>) -> (r: Vec<CalendarEvent>)
    ensures
        event_views(r@) == by_start(event_views(events@)),
{
    let mut out: Vec<CalendarEvent> = Vec::new();
    let ghost all = event_views(events@);
    proof {
        assert(event_views(out@) == by_start(all.take(0)));
    }
    for event in iter: events
        invariant
            iter.seq() == events@,
            all == event_views(events@),
            event_views(out@) == by_start(all.take(iter.index() as int)),
    {
        proof {
            let n = iter.index();
            assert(all.take(n + 1).drop_last() == all.take(n as int));
            assert(all.take(n + 1).last() == event@);
        }
        place_by_start(&mut out, event);
    }
    proof {
        assert(all.take(all.len() as int) == all);
    }
    out
}

pub(crate) proof fn lemma_filter_counts(
    events: Seq<EventView>,
    keep: spec_fn(EventView) -> bool,
    event: EventView,
)
    ensures
        events.filter(keep).to_multiset().count(event) == (if keep(event) {
            events.to_multiset().count(event)
        } else {
            0
        }),
    decreases events.len(),
{
    broadcast use vstd::seq_lib::group_to_multiset_ensures;

    reveal(Seq::filter);
    if events.len() > 0 {
        lemma_filter_counts(events.drop_last(), keep, event);
        assert(events == events.drop_last().push(events.last()));
    }
}

/// The events of a calendar are those that bear its position, each as often as it was there, and
/// the events of a part of a list stand before those of the rest.
pub proof fn events_of_a_calendar_bear_its_position(
    events: &Vec<CalendarEvent>,
    calendar_index: usize,
    r: Vec<CalendarEvent>,
    event: EventView,
    n: int,
)
    requires
        call_ensures(events_of_calendar, (events, calendar_index), r),
        0 <= n <= events@.len(),
    ensures
        event_views(r@).to_multiset().count(event) == (if event.calendar_index == calendar_index {
            event_views(events@).to_multiset().count(event)
        } else {
            0
        }),
        event_views(r@) == of_calendar(event_views(events@).take(n), calendar_index) + of_calendar(
            event_views(events@).skip(n),
            calendar_index,
        ),
{
    let all = event_views(events@);
    let keep = |event: EventView| event.calendar_index == calendar_index;
    lemma_filter_counts(all, keep, event);
    assert(all == all.take(n) + all.skip(n));
    Seq::filter_distributes_over_add(all.take(n), all.skip(n), keep);
}

/// Sorted events are in the order of the seconds at which they start, and of the nanoseconds
/// within the same second. None is lost, none is added, and those that start at the same time
/// keep their order.
pub proof fn sorted_events_start_one_after_the_other(
    events: Vec<CalendarEvent>,
    r: Vec<CalendarEvent>,
    i: int,
    j: int,
    t: UtcTime,
)
    requires
        call_ensures(sort_by_start, (events,), r),
    ensures
        0 <= i < j < r@.len() ==> (r@[i].start.seconds < r@[j].start.seconds || (
        r@[i].start.seconds == r@[j].start.seconds && r@[i].start.nanos <= r@[j].start.nanos)),
        event_views(r@).to_multiset() == event_views(events@).to_multiset(),
        event_views(r@).filter(|event: EventView| event.start == t) == event_views(events@).filter(
            |event: EventView| event.start == t,
        ),
{
    let sorted = event_views(r@);
    ordering_orders_and_keeps_events(event_views(events@));
    ordering_is_stable(event_views(events@), t);
    if 0 <= i < j < r@.len() {
        assert(sorted[i] == r@[i]@);
        assert(sorted[j] == r@[j]@);
    }
}

proof fn lemma_insert_filtered(
    events: Seq<EventView>,
    event: EventView,
    keep: spec_fn(EventView) -> bool,
)
    requires
        in_order(events),
    ensures
        insert_by_start(events, event).filter(keep) == (if keep(event) {
            insert_by_start(events.filter(keep), event)
        } else {
            events.filter(keep)
        }),
    decreases events.len(),
{
    if events.len() > 0 {
        let front = events.drop_last();
        let last = events.last();
        assert(events == front.push(last));
        front.lemma_filter_push(last, keep);
        if event.start.precedes(last.start) {
            lemma_insert_filtered(front, event, keep);
            insert_by_start(front, event).lemma_filter_push(last, keep);
            if keep(last) {
                assert(front.filter(keep).push(last).drop_last() == front.filter(keep));
            }
        } else {
            events.lemma_filter_push(event, keep);
            let kept = events.filter(keep);
            if kept.len() > 0 {
                assert(kept.contains(kept.last()));
                events.lemma_filter_contains_rev(keep, kept.last());
                let k = choose|k: int| 0 <= k < events.len() && events[k] == kept.last();
                assert(k < events.len() - 1 ==> !events[events.len() - 1].start.precedes(
                    events[k].start,
                ));
            }
        }
    } else {
        reveal(Seq::filter);
        events.lemma_filter_push(event, keep);
    }
}

/// Picking events and ordering them by their start can be done in either order.
pub proof fn picking_and_ordering_can_be_swapped(
    events: Seq<EventView>,
    keep: spec_fn(EventView) -> bool,
)
    ensures
        by_start(events).filter(keep) == by_start(events.filter(keep)),
    decreases events.len(),
{
    if events.len() > 0 {
        let front = events.drop_last();
        let last = events.last();
        picking_and_ordering_can_be_swapped(front, keep);
        ordering_orders_and_keeps_events(front);
        lemma_insert_filtered(by_start(front), last, keep);
        assert(events == front.push(last));
        front.lemma_filter_push(last, keep);
        if keep(last) {
            assert(front.filter(keep).push(last).drop_last() == front.filter(keep));
        }
    } else {
        reveal(Seq::filter);
        assert(events.filter(keep).len() == 0);
    }
}

} // verus!
