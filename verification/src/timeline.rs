//! The week: the classes of each school day, and the ranges of time in which one calendar is busy
//! while another is free.
use vstd::prelude::*;

use crate::event::{self, CalendarEvent, EventView};
use crate::local::{self, OffsetClock, Offsets};
use crate::order;
use crate::text;
use crate::time::{self, UtcTime, MAX_DAY, MIN_DAY};

verus! {

/// The Monday of the week that a date falls in.
pub open spec fn monday(day: int) -> int {
    day - time::weekday_number(day)
}

/// The Monday of the week that a date falls in.
pub fn monday_of(day: i32) -> (r: i32)
    requires
        MIN_DAY <= monday(day as int),
    ensures
        r == monday(day as int),
        time::weekday(r as int) == time::Weekday::Mon,
        r <= day <= r + 6,
{
    let weekday = time::weekday_of(day);
    let back: i32 = weekday.days_from_monday();
    day - back
}

/// The Monday of a week is a day whose number leaves one over when divided by seven, and none of
/// the days of its week comes before it.
pub proof fn weeks_start_on_monday(day: i32, r: i32)
    requires
        call_ensures(monday_of, (day,), r),
    ensures
        r as int % 7 == 1,
        r <= day <= r + 6,
{
}

/// The events that start on a date. `days` holds the date on which each event starts.
pub open spec fn on_day(events: Seq<EventView>, days: Seq<i32>, day: i32) -> Seq<EventView>
    decreases events.len(),
{
    if events.len() == 0 {
        seq![]
    } else {
        let earlier = on_day(events.drop_last(), days.drop_last(), day);
        if days.last() == day {
            earlier.push(events.last())
        } else {
            earlier
        }
    }
}

/// An event is shown on the date on which it starts, and on no other.
pub proof fn events_are_shown_on_their_day(
    events: Seq<EventView>,
    days: Seq<i32>,
    day: i32,
    event: EventView,
)
    requires
        days.len() == events.len(),
    ensures
        on_day(events, days, day).contains(event) <==> exists|i: int|
            0 <= i < events.len() && #[trigger] events[i] == event && days[i] == day,
    decreases events.len(),
{
    if events.len() > 0 {
        let last = events.len() - 1;
        let (fewer, dates) = (events.drop_last(), days.drop_last());
        let earlier = on_day(fewer, dates, day);
        let all = on_day(events, days, day);
        events_are_shown_on_their_day(fewer, dates, day, event);
        if all.contains(event) {
            let k = choose|k: int| 0 <= k < all.len() && all[k] == event;
            if k < earlier.len() {
                assert(earlier.contains(earlier[k]));
                let i = choose|i: int|
                    0 <= i < fewer.len() && #[trigger] fewer[i] == event && dates[i] == day;
                assert(events[i] == event && days[i] == day);
            } else {
                assert(events[last] == event && days[last] == day);
            }
        }
        if exists|i: int| 0 <= i < events.len() && #[trigger] events[i] == event && days[i] == day {
            let i = choose|i: int|
                0 <= i < events.len() && #[trigger] events[i] == event && days[i] == day;
            if i < last {
                assert(fewer[i] == event && dates[i] == day);
                assert(earlier.contains(event));
                let k = choose|k: int| 0 <= k < earlier.len() && earlier[k] == event;
                assert(all[k] == event);
            } else {
                assert(all[earlier.len() as int] == event);
            }
        }
    }
}

/// The events that start on a date, in their order.
pub fn events_on_day(events: &Vec<CalendarEvent>, days: &Vec<i32>, day: i32) -> (r: Vec<
    CalendarEvent,
>)
    requires
        days@.len() == events@.len(),
    ensures
        event::event_views(r@) == on_day(event::event_views(events@), days@, day),
{
    let ghost all = event::event_views(events@);
    let mut out: Vec<CalendarEvent> = Vec::new();
    let mut i: usize = 0;
    proof {
        assert(event::event_views(out@) == on_day(all.take(0), days@.take(0), day));
    }
    while i < events.len()
        invariant
            i <= events@.len(),
            days@.len() == events@.len(),
            all == event::event_views(events@),
            event::event_views(out@) == on_day(all.take(i as int), days@.take(i as int), day),
        decreases events@.len() - i,
    {
        let ghost before = out@;
        proof {
            assert(all.take(i + 1).drop_last() == all.take(i as int));
            assert(all.take(i + 1).last() == events@[i as int]@);
            assert(days@.take(i + 1).drop_last() == days@.take(i as int));
            assert(days@.take(i + 1).last() == days@[i as int]);
        }
        if days[i] == day {
            let event = events[i].clone();
            let ghost said = event@;
            out.push(event);
            proof {
                assert(event::event_views(out@) == event::event_views(before).push(said));
            }
        }
        i += 1;
    }
    proof {
        assert(all.take(i as int) == all);
        assert(days@.take(i as int) == days@);
    }
    out
}

/// The points in time at which events start and end.
pub open spec fn edges(events: Seq<EventView>) -> Seq<UtcTime>
    decreases events.len(),
{
    if events.len() == 0 {
        seq![]
    } else {
        edges(events.drop_last()).push(events.last().start).push(events.last().end)
    }
}

/// The points in time at which events start and end, each once, in their order.
pub open spec fn boundaries(events: Seq<EventView>) -> Seq<UtcTime> {
    order::time_set(edges(events))
}

/// Whether an event takes up part of a range of time.
pub open spec fn overlaps(event: EventView, from: UtcTime, to: UtcTime) -> bool {
    event.start.precedes(to) && from.precedes(event.end)
}

/// The events that take up part of a range of time.
pub open spec fn active(events: Seq<EventView>, from: UtcTime, to: UtcTime) -> Seq<EventView> {
    events.filter(|event: EventView| overlaps(event, from, to))
}

/// The calendars of events.
pub open spec fn calendars_of(events: Seq<EventView>) -> Seq<Seq<char>> {
    Seq::new(events.len(), |i: int| events[i].calendar_name)
}

pub open spec fn summaries_of(events: Seq<EventView>) -> Seq<Seq<char>> {
    Seq::new(events.len(), |i: int| events[i].summary)
}

/// The calendars that are busy in a range of time, in the order of their names.
pub open spec fn busy(events: Seq<EventView>, from: UtcTime, to: UtcTime) -> Seq<Seq<char>> {
    order::name_set(calendars_of(active(events, from, to)))
}

/// The names of a list that do not occur in another.
pub open spec fn without(names: Seq<Seq<char>>, taken: Seq<Seq<char>>) -> Seq<Seq<char>> {
    names.filter(|name: Seq<char>| !taken.contains(name))
}

/// Whether two lists have a name in common.
pub open spec fn share(names: Seq<Seq<char>>, taken: Seq<Seq<char>>) -> bool {
    exists|i: int| 0 <= i < names.len() && taken.contains(#[trigger] names[i])
}

/// A range of time in which some calendars are busy and others are free.
#[derive(Debug)]
pub struct Difference {
    pub from: UtcTime,
    pub to: UtcTime,
    pub busy: Vec<String>,
    pub free: Vec<String>,
    /// What the busy ones are busy with.
    pub summaries: Vec<String>,
}

/// What a difference says.
#[verifier::ext_equal]
pub struct DifferenceView {
    pub from: UtcTime,
    pub to: UtcTime,
    pub busy: Seq<Seq<char>>,
    pub free: Seq<Seq<char>>,
    pub summaries: Seq<Seq<char>>,
}

impl View for Difference {
    type V = DifferenceView;

    open spec fn view(&self) -> DifferenceView {
        DifferenceView {
            from: self.from,
            to: self.to,
            busy: text::string_views(self.busy@),
            free: text::string_views(self.free@),
            summaries: text::string_views(self.summaries@),
        }
    }
}

impl Clone for Difference {
    fn clone(&self) -> (r: Difference)
        ensures
            r@ == self@,
    {
        let r = Difference {
            from: self.from,
            to: self.to,
            busy: text::copy_names(&self.busy),
            free: text::copy_names(&self.free),
            summaries: text::copy_names(&self.summaries),
        };
        proof {
            assert(r@ =~= self@);
        }
        r
    }
}

pub open spec fn difference_views(differences: Seq<Difference>) -> Seq<DifferenceView> {
    Seq::new(differences.len(), |i: int| differences[i]@)
}

/// The difference that a range of time makes between the calendars of the given names: none if
/// none of them is busy in it, or none is free.
pub open spec fn difference(
    events: Seq<EventView>,
    names: Seq<Seq<char>>,
    from: UtcTime,
    to: UtcTime,
) -> Option<DifferenceView> {
    let taken = busy(events, from, to);
    if !share(names, taken) || without(names, taken).len() == 0 {
        None
    } else {
        Some(
            DifferenceView {
                from,
                to,
                busy: taken,
                free: without(names, taken),
                summaries: order::name_set(summaries_of(active(events, from, to))),
            },
        )
    }
}

/// The differences that the ranges between points in time make.
pub open spec fn differences_between(
    events: Seq<EventView>,
    names: Seq<Seq<char>>,
    points: Seq<UtcTime>,
) -> Seq<DifferenceView>
    decreases points.len(),
{
    if points.len() < 2 {
        seq![]
    } else {
        let earlier = differences_between(events, names, points.drop_last());
        match difference(events, names, points[points.len() - 2], points[points.len() - 1]) {
            Some(difference) => earlier.push(difference),
            None => earlier,
        }
    }
}

/// The differences between the calendars of the given names.
pub open spec fn all_differences(events: Seq<EventView>, names: Seq<Seq<char>>) -> Seq<
    DifferenceView,
> {
    differences_between(events, names, boundaries(events))
}

proof fn lemma_edges(events: Seq<EventView>, i: int)
    requires
        0 <= i < events.len(),
    ensures
        edges(events).contains(events[i].start),
        edges(events).contains(events[i].end),
    decreases events.len(),
{
    let last = events.len() - 1;
    let shorter = edges(events.drop_last());
    let all = edges(events);
    if i == last {
        assert(all[shorter.len() as int] == events[i].start);
        assert(all[shorter.len() as int + 1] == events[i].end);
    } else {
        lemma_edges(events.drop_last(), i);
        let s = choose|s: int| 0 <= s < shorter.len() && shorter[s] == events[i].start;
        let e = choose|e: int| 0 <= e < shorter.len() && shorter[e] == events[i].end;
        assert(all[s] == events[i].start);
        assert(all[e] == events[i].end);
    }
}

/// Between two boundaries that follow each other nobody's state changes: an event that takes up
/// part of the range is in progress at every point in time within it, and no other event is at
/// any.
pub proof fn nothing_changes_within_a_range(
    events: Seq<EventView>,
    k: int,
    i: int,
    t: UtcTime,
)
    requires
        0 <= k < boundaries(events).len() - 1,
        0 <= i < events.len(),
        !t.precedes(boundaries(events)[k]),
        t.precedes(boundaries(events)[k + 1]),
    ensures
        events[i].current(t) <==> overlaps(
            events[i],
            boundaries(events)[k],
            boundaries(events)[k + 1],
        ),
{
    let points = boundaries(events);
    order::time_set_is_ordered_set(edges(events));
    lemma_edges(events, i);
    assert(points.contains(events[i].start) && points.contains(events[i].end));
    let s = choose|s: int| 0 <= s < points.len() && points[s] == events[i].start;
    let e = choose|e: int| 0 <= e < points.len() && points[e] == events[i].end;
    assert(s <= k || k + 1 <= s);
    assert(s < k ==> points[s].precedes(points[k]));
    assert(k + 1 < s ==> points[k + 1].precedes(points[s]));
    assert(e < k ==> points[e].precedes(points[k]));
    assert(k + 1 < e ==> points[k + 1].precedes(points[e]));
}

/// A range of time makes a difference exactly if one of the calendars is busy in it and another
/// is free, and the difference says who.
pub proof fn differences_have_a_busy_and_a_free_calendar(
    events: Seq<EventView>,
    names: Seq<Seq<char>>,
    from: UtcTime,
    to: UtcTime,
)
    ensures
        difference(events, names, from, to) is Some <==> {
            &&& exists|name: Seq<char>| #[trigger]
                names.contains(name) && is_busy(events, name, from, to)
            &&& exists|name: Seq<char>| #[trigger]
                names.contains(name) && !is_busy(events, name, from, to)
        },
        difference(events, names, from, to) matches Some(d) ==> {
            &&& d.busy.len() > 0
            &&& d.free.len() > 0
            &&& forall|name: Seq<char>| #[trigger]
                d.busy.contains(name) <==> is_busy(events, name, from, to)
            &&& forall|name: Seq<char>| #[trigger]
                d.free.contains(name) <==> names.contains(name) && !is_busy(
                    events,
                    name,
                    from,
                    to,
                )
        },
{
    let keep = |event: EventView| overlaps(event, from, to);
    let there = active(events, from, to);
    let owners = calendars_of(there);
    let taken = busy(events, from, to);
    let free_only = |name: Seq<char>| !taken.contains(name);
    let free = without(names, taken);
    order::name_set_is_ordered_set(owners);
    assert forall|name: Seq<char>| #[trigger] taken.contains(name) <==> is_busy(
        events,
        name,
        from,
        to,
    ) by {
        if taken.contains(name) {
            let k = choose|k: int| 0 <= k < owners.len() && owners[k] == name;
            events.lemma_filter_pred(keep, k);
            events.lemma_filter_contains_rev(keep, there[k]);
            let i = choose|i: int| 0 <= i < events.len() && events[i] == there[k];
            assert(events[i].calendar_name == name);
        }
        if is_busy(events, name, from, to) {
            let i = choose|i: int|
                0 <= i < events.len() && (#[trigger] events[i]).calendar_name == name && overlaps(
                    events[i],
                    from,
                    to,
                );
            events.lemma_filter_contains(keep, i);
            let k = choose|k: int| 0 <= k < there.len() && there[k] == events[i];
            assert(owners[k] == name);
        }
    }
    assert forall|name: Seq<char>| #[trigger] free.contains(name) <==> names.contains(name)
        && !is_busy(events, name, from, to) by {
        if free.contains(name) {
            let k = choose|k: int| 0 <= k < free.len() && free[k] == name;
            names.lemma_filter_pred(free_only, k);
            names.lemma_filter_contains_rev(free_only, name);
            assert(!taken.contains(name));
        }
        if names.contains(name) && !taken.contains(name) {
            let k = choose|k: int| 0 <= k < names.len() && names[k] == name;
            names.lemma_filter_contains(free_only, k);
        }
    }
    if share(names, taken) {
        let i = choose|i: int| 0 <= i < names.len() && taken.contains(#[trigger] names[i]);
        assert(names.contains(names[i]) && is_busy(events, names[i], from, to));
    }
    if exists|name: Seq<char>| #[trigger]
        names.contains(name) && is_busy(events, name, from, to) {
        let name = choose|name: Seq<char>| #[trigger]
            names.contains(name) && is_busy(events, name, from, to);
        assert(taken.contains(name));
        let i = choose|i: int| 0 <= i < names.len() && names[i] == name;
        assert(taken.contains(names[i]));
    }
    if free.len() > 0 {
        assert(free.contains(free[0]));
    }
    if exists|name: Seq<char>| #[trigger]
        names.contains(name) && !is_busy(events, name, from, to) {
        let name = choose|name: Seq<char>| #[trigger]
            names.contains(name) && !is_busy(events, name, from, to);
        assert(free.contains(name));
    }
}

/// Whether the calendar of a name has an event that takes up part of a range of time.
pub open spec fn is_busy(
    events: Seq<EventView>,
    name: Seq<char>,
    from: UtcTime,
    to: UtcTime,
) -> bool {
    exists|i: int|
        0 <= i < events.len() && (#[trigger] events[i]).calendar_name == name && overlaps(
            events[i],
            from,
            to,
        )
}

/// Whether the calendar of a name has an event in progress at a point in time.
pub open spec fn is_busy_at(events: Seq<EventView>, name: Seq<char>, t: UtcTime) -> bool {
    exists|i: int|
        0 <= i < events.len() && (#[trigger] events[i]).calendar_name == name
            && events[i].current(t)
}

/// Whether at a point in time one of the calendars of the given names is busy while another is
/// free.
pub open spec fn one_busy_another_free(
    events: Seq<EventView>,
    names: Seq<Seq<char>>,
    t: UtcTime,
) -> bool {
    &&& exists|name: Seq<char>| #[trigger] names.contains(name) && is_busy_at(events, name, t)
    &&& exists|name: Seq<char>| #[trigger] names.contains(name) && !is_busy_at(events, name, t)
}

/// Whether a point in time lies within the range of a difference.
pub open spec fn covers(difference: DifferenceView, t: UtcTime) -> bool {
    !t.precedes(difference.from) && t.precedes(difference.to)
}

proof fn lemma_all_ranges(events: Seq<EventView>, names: Seq<Seq<char>>, points: Seq<UtcTime>)
    ensures
        forall|d: DifferenceView| #[trigger]
            differences_between(events, names, points).contains(d) <==> exists|k: int|
                0 <= k < points.len() - 1 && difference(
                    events,
                    names,
                    #[trigger] points[k],
                    points[k + 1],
                ) == Some(d),
    decreases points.len(),
{
    if points.len() >= 2 {
        let shorter = points.drop_last();
        let earlier = differences_between(events, names, shorter);
        let all = differences_between(events, names, points);
        let last = points.len() - 2;
        lemma_all_ranges(events, names, shorter);
        assert forall|d: DifferenceView| #[trigger] all.contains(d) <==> exists|k: int|
            0 <= k < points.len() - 1 && difference(
                events,
                names,
                #[trigger] points[k],
                points[k + 1],
            ) == Some(d) by {
            if all.contains(d) {
                let i = choose|i: int| 0 <= i < all.len() && all[i] == d;
                if i < earlier.len() {
                    assert(earlier.contains(earlier[i]));
                    let k = choose|k: int|
                        0 <= k < shorter.len() - 1 && difference(
                            events,
                            names,
                            #[trigger] shorter[k],
                            shorter[k + 1],
                        ) == Some(d);
                    assert(points[k] == shorter[k] && points[k + 1] == shorter[k + 1]);
                } else {
                    assert(difference(events, names, points[last], points[last + 1]) == Some(d));
                }
            }
            if exists|k: int|
                0 <= k < points.len() - 1 && difference(
                    events,
                    names,
                    #[trigger] points[k],
                    points[k + 1],
                ) == Some(d) {
                let k = choose|k: int|
                    0 <= k < points.len() - 1 && difference(
                        events,
                        names,
                        #[trigger] points[k],
                        points[k + 1],
                    ) == Some(d);
                if k < last {
                    assert(shorter[k] == points[k] && shorter[k + 1] == points[k + 1]);
                    assert(earlier.contains(d));
                    let i = choose|i: int| 0 <= i < earlier.len() && earlier[i] == d;
                    assert(all[i] == d);
                } else {
                    assert(all[earlier.len() as int] == d);
                }
            }
        }
    }
}

/// Whether the ranges of differences are not empty and lie within what can be represented.
pub open spec fn all_ranges_valid(differences: Seq<DifferenceView>) -> bool {
    forall|i: int|
        0 <= i < differences.len() ==> {
            &&& (#[trigger] differences[i]).from.valid()
            &&& differences[i].to.valid()
            &&& differences[i].from.precedes(differences[i].to)
        }
}

proof fn lemma_edges_valid(events: Seq<EventView>)
    requires
        event::all_valid(events),
    ensures
        forall|k: int| 0 <= k < edges(events).len() ==> (#[trigger] edges(events)[k]).valid(),
    decreases events.len(),
{
    if events.len() > 0 {
        let front = events.drop_last();
        assert forall|i: int| 0 <= i < front.len() implies (#[trigger] front[i]).valid() by {
            assert(front[i] == events[i]);
        }
        lemma_edges_valid(front);
        assert(events[events.len() - 1].valid());
        let shorter = edges(front);
        assert forall|k: int| 0 <= k < edges(events).len() implies (
        #[trigger] edges(events)[k]).valid() by {
            if k < shorter.len() {
                assert(edges(events)[k] == shorter[k]);
            }
        }
    }
}

proof fn lemma_ranges_valid(events: Seq<EventView>, names: Seq<Seq<char>>)
    requires
        event::all_valid(events),
    ensures
        all_ranges_valid(all_differences(events, names)),
{
    let points = boundaries(events);
    let list = all_differences(events, names);
    lemma_edges_valid(events);
    lemma_all_ranges(events, names, points);
    order::time_set_is_ordered_set(edges(events));
    assert forall|k: int| 0 <= k < points.len() implies (#[trigger] points[k]).valid() by {
        assert(points.contains(points[k]));
        let e = choose|e: int| 0 <= e < edges(events).len() && edges(events)[e] == points[k];
        assert(edges(events)[e].valid());
    }
    assert forall|i: int| 0 <= i < list.len() implies {
        &&& (#[trigger] list[i]).from.valid()
        &&& list[i].to.valid()
        &&& list[i].from.precedes(list[i].to)
    } by {
        assert(list.contains(list[i]));
        let k = choose|k: int|
            0 <= k < points.len() - 1 && difference(
                events,
                names,
                #[trigger] points[k],
                points[k + 1],
            ) == Some(list[i]);
        assert(points[k].precedes(points[k + 1]));
    }
}

proof fn lemma_range_around(points: Seq<UtcTime>, t: UtcTime, s: int, e: int) -> (k: int)
    requires
        order::times_increase(points),
        0 <= s < points.len(),
        0 <= e < points.len(),
        !t.precedes(points[s]),
        t.precedes(points[e]),
    ensures
        0 <= k < points.len() - 1,
        !t.precedes(points[k]),
        t.precedes(points[k + 1]),
    decreases e - s,
{
    if e <= s {
        assert(e < s ==> points[e].precedes(points[s]));
        assert(false);
    }
    if t.precedes(points[s + 1]) {
        s
    } else {
        lemma_range_around(points, t, s + 1, e)
    }
}

/// The differences between calendars cover exactly the points in time at which one of the
/// calendars is busy while another is free, and each says who is busy and who is free throughout.
/// Where every event bears the name of a calendar, a calendar is busy exactly if an event is in
/// progress.
pub proof fn differences_show_when_one_is_busy_and_another_free(
    events: Seq<EventView>,
    names: Seq<Seq<char>>,
    t: UtcTime,
)
    ensures
        (exists|d: DifferenceView| #[trigger]
            all_differences(events, names).contains(d) && covers(d, t)) <==> one_busy_another_free(
            events,
            names,
            t,
        ),
        (forall|i: int|
            0 <= i < events.len() ==> names.contains((#[trigger] events[i]).calendar_name))
            ==> (one_busy_another_free(events, names, t) <==> {
            &&& exists|i: int| 0 <= i < events.len() && (#[trigger] events[i]).current(t)
            &&& exists|name: Seq<char>| #[trigger]
                names.contains(name) && !is_busy_at(events, name, t)
        }),
        forall|d: DifferenceView| #[trigger]
            all_differences(events, names).contains(d) && covers(d, t) ==> {
                &&& d.busy.len() > 0 && d.free.len() > 0
                &&& forall|name: Seq<char>| #[trigger]
                    d.busy.contains(name) <==> is_busy_at(events, name, t)
                &&& forall|name: Seq<char>| #[trigger]
                    d.free.contains(name) <==> names.contains(name) && !is_busy_at(
                        events,
                        name,
                        t,
                    )
            },
{
    let points = boundaries(events);
    let list = all_differences(events, names);
    lemma_all_ranges(events, names, points);
    order::time_set_is_ordered_set(edges(events));
    assert forall|d: DifferenceView| #[trigger] list.contains(d) && covers(d, t) implies {
        &&& d.busy.len() > 0 && d.free.len() > 0
        &&& forall|name: Seq<char>| #[trigger]
            d.busy.contains(name) <==> is_busy_at(events, name, t)
        &&& forall|name: Seq<char>| #[trigger]
            d.free.contains(name) <==> names.contains(name) && !is_busy_at(events, name, t)
        &&& one_busy_another_free(events, names, t)
    } by {
        let k = choose|k: int|
            0 <= k < points.len() - 1 && difference(
                events,
                names,
                #[trigger] points[k],
                points[k + 1],
            ) == Some(d);
        differences_have_a_busy_and_a_free_calendar(events, names, points[k], points[k + 1]);
        lemma_busy_throughout(events, k, t);
        let one = choose|name: Seq<char>| #[trigger]
            names.contains(name) && is_busy(events, name, points[k], points[k + 1]);
        let other = choose|name: Seq<char>| #[trigger]
            names.contains(name) && !is_busy(events, name, points[k], points[k + 1]);
        assert(names.contains(one) && is_busy_at(events, one, t));
        assert(names.contains(other) && !is_busy_at(events, other, t));
    }
    if one_busy_another_free(events, names, t) {
        let one = choose|name: Seq<char>| #[trigger]
            names.contains(name) && is_busy_at(events, name, t);
        let other = choose|name: Seq<char>| #[trigger]
            names.contains(name) && !is_busy_at(events, name, t);
        let i = choose|i: int|
            0 <= i < events.len() && (#[trigger] events[i]).calendar_name == one
                && events[i].current(t);
        lemma_edges(events, i);
        assert(points.contains(events[i].start) && points.contains(events[i].end));
        let s = choose|s: int| 0 <= s < points.len() && points[s] == events[i].start;
        let e = choose|e: int| 0 <= e < points.len() && points[e] == events[i].end;
        let k = lemma_range_around(points, t, s, e);
        differences_have_a_busy_and_a_free_calendar(events, names, points[k], points[k + 1]);
        lemma_busy_throughout(events, k, t);
        assert(names.contains(one) && is_busy(events, one, points[k], points[k + 1]));
        assert(names.contains(other) && !is_busy(events, other, points[k], points[k + 1]));
        let found = difference(events, names, points[k], points[k + 1]);
        assert(found is Some);
        assert(list.contains(found.unwrap()));
        assert(covers(found.unwrap(), t));
    }
    if forall|i: int|
        0 <= i < events.len() ==> names.contains((#[trigger] events[i]).calendar_name) {
        if exists|i: int| 0 <= i < events.len() && (#[trigger] events[i]).current(t) {
            let i = choose|i: int| 0 <= i < events.len() && (#[trigger] events[i]).current(t);
            assert(is_busy_at(events, events[i].calendar_name, t));
        }
        if one_busy_another_free(events, names, t) {
            let one = choose|name: Seq<char>| #[trigger]
                names.contains(name) && is_busy_at(events, name, t);
            let i = choose|i: int|
                0 <= i < events.len() && (#[trigger] events[i]).calendar_name == one
                    && events[i].current(t);
            assert(events[i].current(t));
        }
    }
}

proof fn lemma_busy_throughout(events: Seq<EventView>, k: int, t: UtcTime)
    requires
        0 <= k < boundaries(events).len() - 1,
        !t.precedes(boundaries(events)[k]),
        t.precedes(boundaries(events)[k + 1]),
    ensures
        forall|name: Seq<char>| #[trigger]
            is_busy(events, name, boundaries(events)[k], boundaries(events)[k + 1]) <==> is_busy_at(
                events,
                name,
                t,
            ),
{
    let (from, to) = (boundaries(events)[k], boundaries(events)[k + 1]);
    assert forall|i: int| 0 <= i < events.len() implies (#[trigger] events[i]).current(t)
        == overlaps(events[i], from, to) by {
        nothing_changes_within_a_range(events, k, i, t);
    }
    assert forall|name: Seq<char>| #[trigger] is_busy(events, name, from, to) <==> is_busy_at(
        events,
        name,
        t,
    ) by {
        if is_busy(events, name, from, to) {
            let i = choose|i: int|
                0 <= i < events.len() && (#[trigger] events[i]).calendar_name == name && overlaps(
                    events[i],
                    from,
                    to,
                );
            assert(events[i].current(t));
        }
        if is_busy_at(events, name, t) {
            let i = choose|i: int|
                0 <= i < events.len() && (#[trigger] events[i]).calendar_name == name
                    && events[i].current(t);
            assert(overlaps(events[i], from, to));
        }
    }
}

/// The points in time at which events start and end, each once, in their order.
fn boundary_list(events: &Vec<CalendarEvent>) -> (r: Vec<UtcTime>)
    ensures
        r@ == boundaries(event::event_views(events@)),
{
    let ghost all = event::event_views(events@);
    let mut out: Vec<UtcTime> = Vec::new();
    let mut i: usize = 0;
    proof {
        assert(out@ == order::time_set(edges(all.take(0))));
    }
    while i < events.len()
        invariant
            i <= events@.len(),
            all == event::event_views(events@),
            out@ == order::time_set(edges(all.take(i as int))),
        decreases events@.len() - i,
    {
        proof {
            let shorter = edges(all.take(i as int));
            let event = all[i as int];
            assert(all.take(i + 1).drop_last() == all.take(i as int));
            assert(all.take(i + 1).last() == event);
            assert(shorter.push(event.start).drop_last() == shorter);
            assert(shorter.push(event.start).push(event.end).drop_last() == shorter.push(
                event.start,
            ));
            assert(order::time_set(shorter.push(event.start)) == order::insert_time(
                order::time_set(shorter),
                event.start,
            ));
            assert(order::time_set(shorter.push(event.start).push(event.end))
                == order::insert_time(order::time_set(shorter.push(event.start)), event.end));
        }
        order::add_time(&mut out, events[i].start);
        order::add_time(&mut out, events[i].end);
        i += 1;
    }
    proof {
        assert(all.take(i as int) == all);
    }
    out
}

/// The calendars and the summaries of the events that take up part of a range of time, each once,
/// in the order of their characters.
fn busy_lists(events: &Vec<CalendarEvent>, from: UtcTime, to: UtcTime) -> (r: (
    Vec<String>,
    Vec<String>,
))
    ensures
        text::string_views(r.0@) == busy(event::event_views(events@), from, to),
        text::string_views(r.1@) == order::name_set(
            summaries_of(active(event::event_views(events@), from, to)),
        ),
{
    let ghost all = event::event_views(events@);
    let ghost keep = |event: EventView| overlaps(event, from, to);
    let mut taken: Vec<String> = Vec::new();
    let mut summaries: Vec<String> = Vec::new();
    let mut i: usize = 0;
    proof {
        reveal(Seq::filter);
        assert(calendars_of(all.take(0).filter(keep)) == Seq::<Seq<char>>::empty());
        assert(summaries_of(all.take(0).filter(keep)) == Seq::<Seq<char>>::empty());
        assert(text::string_views(taken@) == Seq::<Seq<char>>::empty());
    }
    while i < events.len()
        invariant
            i <= events@.len(),
            all == event::event_views(events@),
            keep == (|event: EventView| overlaps(event, from, to)),
            text::string_views(taken@) == order::name_set(
                calendars_of(all.take(i as int).filter(keep)),
            ),
            text::string_views(summaries@) == order::name_set(
                summaries_of(all.take(i as int).filter(keep)),
            ),
        decreases events@.len() - i,
    {
        proof {
            let kept = all.take(i as int).filter(keep);
            let event = all[i as int];
            reveal(Seq::filter);
            assert(all.take(i + 1).drop_last() == all.take(i as int));
            assert(all.take(i + 1).last() == event);
            assert(calendars_of(kept.push(event)) == calendars_of(kept).push(event.calendar_name));
            assert(calendars_of(kept).push(event.calendar_name).drop_last() == calendars_of(kept));
            assert(summaries_of(kept.push(event)) == summaries_of(kept).push(event.summary));
            assert(summaries_of(kept).push(event.summary).drop_last() == summaries_of(kept));
        }
        if events[i].start.before(&to) && from.before(&events[i].end) {
            order::add_name(&mut taken, events[i].calendar_name.clone());
            order::add_name(&mut summaries, events[i].summary.clone());
        }
        i += 1;
    }
    proof {
        assert(all.take(i as int) == all);
    }
    (taken, summaries)
}

/// Whether two lists have a name in common.
fn have_shared(names: &Vec<String>, taken: &Vec<String>) -> (r: bool)
    ensures
        r == share(text::string_views(names@), text::string_views(taken@)),
{
    let ghost all = text::string_views(names@);
    let mut i: usize = 0;
    while i < names.len()
        invariant
            i <= names@.len(),
            all == text::string_views(names@),
            forall|j: int|
                0 <= j < i ==> !text::string_views(taken@).contains(#[trigger] all[j]),
        decreases names@.len() - i,
    {
        if text::holds_name(taken, names[i].as_str()) {
            proof {
                assert(text::string_views(taken@).contains(all[i as int]));
            }
            return true;
        }
        i += 1;
    }
    false
}

/// The names of a list that do not occur in another.
fn free_list(names: &Vec<String>, taken: &Vec<String>) -> (r: Vec<String>)
    ensures
        text::string_views(r@) == without(
            text::string_views(names@),
            text::string_views(taken@),
        ),
{
    let ghost all = text::string_views(names@);
    let ghost gone = text::string_views(taken@);
    let ghost keep = |name: Seq<char>| !gone.contains(name);
    let mut out: Vec<String> = Vec::new();
    let mut i: usize = 0;
    proof {
        reveal(Seq::filter);
        assert(text::string_views(out@) == all.take(0).filter(keep));
    }
    while i < names.len()
        invariant
            i <= names@.len(),
            all == text::string_views(names@),
            gone == text::string_views(taken@),
            keep == (|name: Seq<char>| !gone.contains(name)),
            text::string_views(out@) == all.take(i as int).filter(keep),
        decreases names@.len() - i,
    {
        let ghost before = out@;
        proof {
            reveal(Seq::filter);
            assert(all.take(i + 1).drop_last() == all.take(i as int));
            assert(all.take(i + 1).last() == names@[i as int]@);
        }
        if !text::holds_name(taken, names[i].as_str()) {
            let name = names[i].clone();
            let ghost said = name@;
            out.push(name);
            proof {
                assert(text::string_views(out@) == text::string_views(before).push(said));
            }
        }
        i += 1;
    }
    proof {
        assert(all.take(i as int) == all);
    }
    out
}

/// The difference that a range of time makes between the calendars of the given names.
fn compare_range(events: &Vec<CalendarEvent>, names: &Vec<String>, from: UtcTime, to: UtcTime)
    -> (r: Option<Difference>)
    ensures
        match r {
            Some(found) => difference(
                event::event_views(events@),
                text::string_views(names@),
                from,
                to,
            ) == Some(found@),
            None => difference(
                event::event_views(events@),
                text::string_views(names@),
                from,
                to,
            ) is None,
        },
{
    let (taken, summaries) = busy_lists(events, from, to);
    let free = free_list(names, &taken);
    proof {
        assert(text::string_views(free@).len() == free@.len());
    }
    if !have_shared(names, &taken) || free.len() == 0 {
        return None;
    }
    Some(Difference { from, to, busy: taken, free, summaries })
}

/// The differences between the calendars of the given names.
pub fn compare_calendars(events: &Vec<CalendarEvent>, names: &Vec<String>) -> (r: Vec<Difference>)
    ensures
        difference_views(r@) == all_differences(
            event::event_views(events@),
            text::string_views(names@),
        ),
        event::all_valid(event::event_views(events@)) ==> all_ranges_valid(difference_views(r@)),
{
    let points = boundary_list(events);
    let ghost all = event::event_views(events@);
    let ghost known = text::string_views(names@);
    let mut out: Vec<Difference> = Vec::new();
    if points.len() < 2 {
        proof {
            assert(difference_views(out@) == all_differences(all, known));
        }
        return out;
    }
    let mut i: usize = 1;
    proof {
        assert(difference_views(out@) == differences_between(all, known, points@.take(1)));
    }
    while i < points.len()
        invariant
            1 <= i <= points@.len(),
            all == event::event_views(events@),
            known == text::string_views(names@),
            difference_views(out@) == differences_between(all, known, points@.take(i as int)),
        decreases points@.len() - i,
    {
        let ghost before = out@;
        proof {
            assert(points@.take(i + 1).drop_last() == points@.take(i as int));
            assert(points@.take(i + 1)[i - 1] == points@[i - 1]);
        }
        match compare_range(events, names, points[i - 1], points[i]) {
            Some(found) => {
                let ghost said = found@;
                out.push(found);
                proof {
                    assert(difference_views(out@) == difference_views(before).push(said));
                }
            },
            None => {},
        }
        i += 1;
    }
    proof {
        assert(points@.take(i as int) == points@);
        if event::all_valid(all) {
            lemma_ranges_valid(all, known);
        }
    }
    out
}

/// A day of the school week and its classes.
#[derive(Debug)]
pub struct ClassDay {
    pub day: i32,
    pub is_today: bool,
    pub events: Vec<CalendarEvent>,
}

/// A day of the week and its differences.
#[derive(Debug)]
pub struct ComparedDay {
    pub day: i32,
    pub is_today: bool,
    pub differences: Vec<Difference>,
}

/// Whether a list holds the five days of the school week that a date falls in, with their classes.
pub open spec fn is_class_week(
    week: Seq<ClassDay>,
    events: Seq<EventView>,
    days: Seq<i32>,
    today: i32,
) -> bool {
    &&& week.len() == 5
    &&& forall|k: int|
        0 <= k < 5 ==> {
            &&& (#[trigger] week[k]).day == monday(today as int) + k
            &&& week[k].is_today == (week[k].day == today)
            &&& event::event_views(week[k].events@) == on_day(events, days, week[k].day)
        }
}

/// The five days of the school week that a date falls in, with the classes that start on each.
pub fn weekly_calendar(events: &Vec<CalendarEvent>, days: &Vec<i32>, today: i32) -> (r: Vec<
    ClassDay,
>)
    requires
        days@.len() == events@.len(),
        MIN_DAY <= monday(today as int),
        monday(today as int) + 4 <= MAX_DAY,
    ensures
        is_class_week(r@, event::event_views(events@), days@, today),
{
    let first: i32 = monday_of(today);
    let mut out: Vec<ClassDay> = Vec::new();
    let mut k: i32 = 0;
    while k < 5
        invariant
            0 <= k <= 5,
            days@.len() == events@.len(),
            MIN_DAY <= first <= MAX_DAY - 4,
            first == monday(today as int),
            out@.len() == k,
            forall|j: int|
                0 <= j < k ==> {
                    &&& (#[trigger] out@[j]).day == first + j
                    &&& out@[j].is_today == (out@[j].day == today)
                    &&& event::event_views(out@[j].events@) == on_day(
                        event::event_views(events@),
                        days@,
                        out@[j].day,
                    )
                },
        decreases 5 - k,
    {
        let day: i32 = first + k;
        out.push(
            ClassDay { day, is_today: day == today, events: events_on_day(events, days, day) },
        );
        k += 1;
    }
    out
}

/// The positions that are marked, in their order.
spec fn marked(marks: Seq<bool>) -> Seq<int>
    decreases marks.len(),
{
    if marks.len() == 0 {
        seq![]
    } else if marks.last() {
        marked(marks.drop_last()).push(marks.len() - 1)
    } else {
        marked(marks.drop_last())
    }
}

/// Whether each number is greater than those before it.
pub open spec fn ascending(places: Seq<int>) -> bool {
    forall|i: int, j: int| 0 <= i < j < places.len() ==> places[i] < places[j]
}

proof fn lemma_marked(marks: Seq<bool>)
    ensures
        ascending(marked(marks)),
        forall|i: int| #[trigger]
            marked(marks).contains(i) <==> 0 <= i < marks.len() && marks[i],
    decreases marks.len(),
{
    if marks.len() > 0 {
        let shorter = marked(marks.drop_last());
        let all = marked(marks);
        let last = marks.len() - 1;
        lemma_marked(marks.drop_last());
        assert forall|i: int| #[trigger] all.contains(i) <==> 0 <= i < marks.len() && marks[i] by {
            if all.contains(i) {
                let k = choose|k: int| 0 <= k < all.len() && all[k] == i;
                if k < shorter.len() {
                    assert(shorter.contains(shorter[k]));
                }
            }
            if shorter.contains(i) {
                let k = choose|k: int| 0 <= k < shorter.len() && shorter[k] == i;
                assert(all[k] == i);
            }
            if marks[last] {
                assert(all[shorter.len() as int] == last);
            }
        }
        assert forall|i: int, j: int| 0 <= i < j < all.len() implies all[i] < all[j] by {
            assert(shorter.contains(shorter[i]));
        }
    }
}

spec fn starts_then(days: Seq<i32>, day: i32) -> Seq<bool> {
    Seq::new(days.len(), |i: int| days[i] == day)
}

proof fn lemma_on_day(events: Seq<EventView>, days: Seq<i32>, day: i32)
    requires
        days.len() == events.len(),
    ensures
        on_day(events, days, day) == Seq::new(
            marked(starts_then(days, day)).len(),
            |k: int| events[marked(starts_then(days, day))[k]],
        ),
    decreases events.len(),
{
    let places = marked(starts_then(days, day));
    let picked = Seq::new(places.len(), |k: int| events[places[k]]);
    if events.len() > 0 {
        let (fewer, dates) = (events.drop_last(), days.drop_last());
        lemma_on_day(fewer, dates, day);
        let shorter = marked(starts_then(dates, day));
        assert(starts_then(days, day).drop_last() == starts_then(dates, day));
        lemma_marked(starts_then(dates, day));
        assert forall|k: int| 0 <= k < shorter.len() implies events[#[trigger] shorter[k]]
            == fewer[shorter[k]] by {
            assert(shorter.contains(shorter[k]));
        }
        assert(on_day(events, days, day) == picked);
    } else {
        assert(on_day(events, days, day) == picked);
    }
}

/// The events on a date are those that start on it, each once for every time it is there, in
/// their order: `places` holds where they stand.
pub proof fn events_on_a_day_start_on_it(
    events: &Vec<CalendarEvent>,
    days: &Vec<i32>,
    day: i32,
    r: Vec<CalendarEvent>,
) -> (places: Seq<int>)
    requires
        days@.len() == events@.len(),
        call_ensures(events_on_day, (events, days, day), r),
    ensures
        ascending(places),
        forall|i: int| #[trigger]
            places.contains(i) <==> 0 <= i < events@.len() && days@[i] == day,
        places.len() == r@.len(),
        forall|k: int| 0 <= k < r@.len() ==> (#[trigger] r@[k])@ == events@[places[k]]@,
{
    let places = marked(starts_then(days@, day));
    lemma_marked(starts_then(days@, day));
    lemma_on_day(event::event_views(events@), days@, day);
    assert(event::event_views(r@).len() == places.len());
    assert forall|k: int| 0 <= k < r@.len() implies (#[trigger] r@[k])@ == events@[places[k]]@ by {
        assert(event::event_views(r@)[k] == r@[k]@);
        assert(places.contains(places[k]));
    }
    places
}

/// The school week has a day for each date from Monday to Friday of the week that today falls in,
/// one of them today unless it is the weekend. A class that starts on one of these dates, before
/// today or after it, is shown on its day and on no other. The classes of a day keep their order:
/// `places` holds where those of day `k` stand.
pub proof fn week_shows_each_class_on_its_day(
    events: &Vec<CalendarEvent>,
    days: &Vec<i32>,
    today: i32,
    r: Vec<ClassDay>,
    first: int,
    k: int,
) -> (places: Seq<int>)
    requires
        days@.len() == events@.len(),
        call_ensures(weekly_calendar, (events, days, today), r),
        first % 7 == 1,
        first <= today <= first + 6,
        0 <= k < 5,
    ensures
        r@.len() == 5,
        r@[k].day == first + k,
        r@[k].is_today <==> today == first + k,
        ascending(places),
        forall|i: int| #[trigger]
            places.contains(i) <==> 0 <= i < events@.len() && days@[i] == first + k,
        places.len() == r@[k].events@.len(),
        forall|j: int|
            0 <= j < places.len() ==> (#[trigger] r@[k].events@[j])@ == events@[places[j]]@,
        forall|i: int|
            0 <= i < events@.len() && days@[i] == first + k ==> event::event_views(
                r@[k].events@,
            ).contains((#[trigger] events@[i])@),
{
    let day = r@[k].day;
    let shown = event::event_views(r@[k].events@);
    let places = marked(starts_then(days@, day));
    assert(monday(today as int) == first);
    lemma_marked(starts_then(days@, day));
    lemma_on_day(event::event_views(events@), days@, day);
    assert(shown.len() == places.len());
    assert forall|j: int| 0 <= j < places.len() implies (#[trigger] r@[k].events@[j])@
        == events@[places[j]]@ by {
        assert(shown[j] == r@[k].events@[j]@);
        assert(places.contains(places[j]));
    }
    assert forall|i: int| 0 <= i < events@.len() && days@[i] == first + k implies shown.contains(
        (#[trigger] events@[i])@,
    ) by {
        assert(places.contains(i));
        let j = choose|j: int| 0 <= j < places.len() && places[j] == i;
        assert(shown[j] == r@[k].events@[j]@);
    }
    places
}

/// Whether a point in time lies at or after one, and before another, by seconds and nanoseconds.
pub open spec fn between(t: UtcTime, from: UtcTime, to: UtcTime) -> bool {
    &&& from.seconds < t.seconds || (from.seconds == t.seconds && from.nanos <= t.nanos)
    &&& t.seconds < to.seconds || (t.seconds == to.seconds && t.nanos < to.nanos)
}

/// Whether the calendar of a name has an event that has started at a point in time and not ended.
pub open spec fn has_event_at(events: Seq<EventView>, name: Seq<char>, t: UtcTime) -> bool {
    exists|i: int|
        0 <= i < events.len() && (#[trigger] events[i]).calendar_name == name && between(
            t,
            events[i].start,
            events[i].end,
        )
}

/// Whether an event with a summary has started at a point in time and not ended.
pub open spec fn goes_on_at(events: Seq<EventView>, summary: Seq<char>, t: UtcTime) -> bool {
    exists|i: int|
        0 <= i < events.len() && (#[trigger] events[i]).summary == summary && between(
            t,
            events[i].start,
            events[i].end,
        )
}

proof fn lemma_busy_by_the_clock(events: Seq<EventView>, name: Seq<char>, t: UtcTime)
    ensures
        is_busy_at(events, name, t) == has_event_at(events, name, t),
{
    if is_busy_at(events, name, t) {
        let i = choose|i: int|
            0 <= i < events.len() && (#[trigger] events[i]).calendar_name == name
                && events[i].current(t);
        assert(between(t, events[i].start, events[i].end));
    }
    if has_event_at(events, name, t) {
        let i = choose|i: int|
            0 <= i < events.len() && (#[trigger] events[i]).calendar_name == name && between(
                t,
                events[i].start,
                events[i].end,
            );
        assert(events[i].current(t));
    }
}

/// Somewhere among the differences between calendars there is a range that a point in time lies
/// in exactly if one of the calendars has an event then and another has none.
pub proof fn a_difference_is_found_when_one_is_busy_and_another_free(
    events: &Vec<CalendarEvent>,
    names: &Vec<String>,
    r: Vec<Difference>,
    t: UtcTime,
)
    requires
        call_ensures(compare_calendars, (events, names), r),
    ensures
        (exists|k: int| 0 <= k < r@.len() && between(t, (#[trigger] r@[k]).from, r@[k].to)) <==> {
            &&& exists|i: int|
                0 <= i < names@.len() && has_event_at(
                    event::event_views(events@),
                    (#[trigger] names@[i])@,
                    t,
                )
            &&& exists|i: int|
                0 <= i < names@.len() && !has_event_at(
                    event::event_views(events@),
                    (#[trigger] names@[i])@,
                    t,
                )
        },
{
    let all = event::event_views(events@);
    let known = text::string_views(names@);
    let list = difference_views(r@);
    differences_show_when_one_is_busy_and_another_free(all, known, t);
    assert forall|i: int| 0 <= i < names@.len() implies is_busy_at(all, #[trigger] known[i], t)
        == has_event_at(all, known[i], t) && names@[i]@ == known[i] && known.contains(known[i]) by {
        lemma_busy_by_the_clock(all, known[i], t);
    }
    if exists|k: int| 0 <= k < r@.len() && between(t, (#[trigger] r@[k]).from, r@[k].to) {
        let k = choose|k: int| 0 <= k < r@.len() && between(t, (#[trigger] r@[k]).from, r@[k].to);
        assert(list[k] == r@[k]@);
        assert(list.contains(list[k]) && covers(list[k], t));
        let one = choose|name: Seq<char>| #[trigger]
            known.contains(name) && is_busy_at(all, name, t);
        let other = choose|name: Seq<char>| #[trigger]
            known.contains(name) && !is_busy_at(all, name, t);
        let i = choose|i: int| 0 <= i < known.len() && known[i] == one;
        let j = choose|j: int| 0 <= j < known.len() && known[j] == other;
        assert(has_event_at(all, names@[i]@, t));
        assert(!has_event_at(all, names@[j]@, t));
    }
    if (exists|i: int| 0 <= i < names@.len() && has_event_at(all, (#[trigger] names@[i])@, t)) && (
    exists|i: int| 0 <= i < names@.len() && !has_event_at(all, (#[trigger] names@[i])@, t)) {
        let i = choose|i: int|
            0 <= i < names@.len() && has_event_at(all, (#[trigger] names@[i])@, t);
        let j = choose|j: int|
            0 <= j < names@.len() && !has_event_at(all, (#[trigger] names@[j])@, t);
        assert(known.contains(known[i]) && is_busy_at(all, known[i], t));
        assert(known.contains(known[j]) && !is_busy_at(all, known[j], t));
        let d = choose|d: DifferenceView| #[trigger] list.contains(d) && covers(d, t);
        let k = choose|k: int| 0 <= k < list.len() && list[k] == d;
        assert(list[k] == r@[k]@);
        assert(between(t, r@[k].from, r@[k].to));
    }
}

/// At every point in time within the range of a difference, its busy calendars are those that
/// have an event then, its free ones are those of the others that are compared, and its summaries
/// are those of the events that have started and not ended.
pub proof fn a_difference_says_who_is_busy_with_what(
    events: &Vec<CalendarEvent>,
    names: &Vec<String>,
    r: Vec<Difference>,
    k: int,
    t: UtcTime,
    text: Seq<char>,
)
    requires
        call_ensures(compare_calendars, (events, names), r),
        0 <= k < r@.len(),
        between(t, r@[k].from, r@[k].to),
    ensures
        text::string_views(r@[k].busy@).contains(text) <==> has_event_at(
            event::event_views(events@),
            text,
            t,
        ),
        text::string_views(r@[k].free@).contains(text) <==> text::string_views(names@).contains(
            text,
        ) && !has_event_at(event::event_views(events@), text, t),
        text::string_views(r@[k].summaries@).contains(text) <==> goes_on_at(
            event::event_views(events@),
            text,
            t,
        ),
{
    let all = event::event_views(events@);
    let known = text::string_views(names@);
    let list = difference_views(r@);
    let points = boundaries(all);
    let d = list[k];
    assert(d == r@[k]@);
    assert(list.contains(d) && covers(d, t));
    differences_show_when_one_is_busy_and_another_free(all, known, t);
    lemma_busy_by_the_clock(all, text, t);
    lemma_all_ranges(all, known, points);
    let p = choose|p: int|
        0 <= p < points.len() - 1 && difference(all, known, #[trigger] points[p], points[p + 1])
            == Some(d);
    let (from, to) = (points[p], points[p + 1]);
    let keep = |event: EventView| overlaps(event, from, to);
    let there = active(all, from, to);
    let titles = summaries_of(there);
    order::name_set_is_ordered_set(titles);
    if d.summaries.contains(text) {
        let n = choose|n: int| 0 <= n < titles.len() && titles[n] == text;
        all.lemma_filter_pred(keep, n);
        all.lemma_filter_contains_rev(keep, there[n]);
        let i = choose|i: int| 0 <= i < all.len() && all[i] == there[n];
        nothing_changes_within_a_range(all, p, i, t);
        assert(all[i].summary == text && between(t, all[i].start, all[i].end));
    }
    if goes_on_at(all, text, t) {
        let i = choose|i: int|
            0 <= i < all.len() && (#[trigger] all[i]).summary == text && between(
                t,
                all[i].start,
                all[i].end,
            );
        assert(all[i].current(t));
        nothing_changes_within_a_range(all, p, i, t);
        all.lemma_filter_contains(keep, i);
        let n = choose|n: int| 0 <= n < there.len() && there[n] == all[i];
        assert(titles[n] == text);
    }
}

proof fn lemma_ranges_follow(
    events: Seq<EventView>,
    names: Seq<Seq<char>>,
    points: Seq<UtcTime>,
    i: int,
    j: int,
)
    requires
        order::times_increase(points),
        0 <= i < j < differences_between(events, names, points).len(),
    ensures
        !differences_between(events, names, points)[j].from.precedes(
            differences_between(events, names, points)[i].to,
        ),
    decreases points.len(),
{
    let shorter = points.drop_last();
    let earlier = differences_between(events, names, shorter);
    assert(order::times_increase(shorter)) by {
        assert forall|a: int, b: int| 0 <= a < b < shorter.len() implies (
        #[trigger] shorter[a]).precedes(#[trigger] shorter[b]) by {
            assert(points[a].precedes(points[b]));
        }
    }
    if j < earlier.len() {
        lemma_ranges_follow(events, names, shorter, i, j);
    } else {
        lemma_all_ranges(events, names, shorter);
        assert(earlier.contains(earlier[i]));
        let k = choose|k: int|
            0 <= k < shorter.len() - 1 && difference(
                events,
                names,
                #[trigger] shorter[k],
                shorter[k + 1],
            ) == Some(earlier[i]);
        let last = points.len() - 2;
        assert(shorter[k + 1] == points[k + 1]);
        assert(k + 1 < last ==> points[k + 1].precedes(points[last]));
    }
}

proof fn lemma_filter_increases(names: Seq<Seq<char>>, keep: spec_fn(Seq<char>) -> bool)
    requires
        order::names_increase(names),
    ensures
        order::names_increase(names.filter(keep)),
    decreases names.len(),
{
    reveal(Seq::filter);
    if names.len() > 0 {
        let front = names.drop_last();
        let last = names.len() - 1;
        assert forall|a: int, b: int| 0 <= a < b < front.len() implies order::name_before(
            #[trigger] front[a],
            #[trigger] front[b],
        ) by {
            assert(order::name_before(names[a], names[b]));
        }
        lemma_filter_increases(front, keep);
        let kept = front.filter(keep);
        let all = names.filter(keep);
        assert forall|a: int, b: int| 0 <= a < b < all.len() implies order::name_before(
            #[trigger] all[a],
            #[trigger] all[b],
        ) by {
            if b < kept.len() {
                assert(order::name_before(kept[a], kept[b]));
            } else {
                assert(kept.contains(kept[a]));
                front.lemma_filter_contains_rev(keep, kept[a]);
                let k = choose|k: int| 0 <= k < front.len() && front[k] == kept[a];
                assert(order::name_before(names[k], names[last]));
            }
        }
    }
}

/// The ranges of differences are not empty and follow each other in time without overlapping.
/// The busy calendars and the summaries of each are in the order of their characters, each named
/// once, and so are the free ones if the calendars were given so.
pub proof fn differences_follow_each_other(
    events: &Vec<CalendarEvent>,
    names: &Vec<String>,
    r: Vec<Difference>,
    i: int,
    j: int,
)
    requires
        call_ensures(compare_calendars, (events, names), r),
        0 <= i < r@.len(),
    ensures
        r@[i].from.seconds < r@[i].to.seconds || (r@[i].from.seconds == r@[i].to.seconds
            && r@[i].from.nanos < r@[i].to.nanos),
        i < j < r@.len() ==> (r@[i].to.seconds < r@[j].from.seconds || (r@[i].to.seconds
            == r@[j].from.seconds && r@[i].to.nanos <= r@[j].from.nanos)),
        order::names_increase(text::string_views(r@[i].busy@)),
        order::names_increase(text::string_views(r@[i].summaries@)),
        order::names_increase(text::string_views(names@)) ==> order::names_increase(
            text::string_views(r@[i].free@),
        ),
{
    let all = event::event_views(events@);
    let known = text::string_views(names@);
    let points = boundaries(all);
    let list = difference_views(r@);
    assert(list[i] == r@[i]@);
    order::time_set_is_ordered_set(edges(all));
    if i < j < r@.len() {
        assert(list[j] == r@[j]@);
        lemma_ranges_follow(all, known, points, i, j);
    }
    lemma_all_ranges(all, known, points);
    assert(list.contains(list[i]));
    let k = choose|k: int|
        0 <= k < points.len() - 1 && difference(all, known, #[trigger] points[k], points[k + 1])
            == Some(list[i]);
    let (from, to) = (points[k], points[k + 1]);
    assert(from.precedes(to));
    let there = active(all, from, to);
    let taken = busy(all, from, to);
    order::name_set_is_ordered_set(calendars_of(there));
    order::name_set_is_ordered_set(summaries_of(there));
    if order::names_increase(known) {
        lemma_filter_increases(known, |name: Seq<char>| !taken.contains(name));
    }
}

/// What comes of comparing calendars.
#[derive(Debug)]
pub enum Comparison {
    /// There are fewer than two calendars.
    TooFew,
    Week(Vec<ComparedDay>),
}

/// The dates that clocks show at the first and in the last second of a range of time.
#[derive(Clone, Copy, Debug, PartialEq, Eq, Structural)]
pub struct RangeDays {
    pub first: i32,
    pub last: i32,
}

/// The last second that a range of time with the given end reaches into.
pub open spec fn last_second(to: UtcTime) -> int {
    if to.nanos > 0 {
        to.seconds as int
    } else {
        to.seconds - 1
    }
}

/// Whether a range of time is shown on a day of the week with the given Monday: on the day on
/// which it starts, or on Monday if it started before the week and reaches into it.
pub open spec fn shown_on(days: RangeDays, day: int, monday: int) -> bool {
    days.first == day || (day == monday && days.first < monday <= days.last)
}

/// The differences that are shown on a day of the week with the given Monday. `days` holds the
/// dates of each difference's range.
pub open spec fn in_column(
    differences: Seq<DifferenceView>,
    days: Seq<RangeDays>,
    day: int,
    monday: int,
) -> Seq<DifferenceView>
    decreases differences.len(),
{
    if differences.len() == 0 {
        seq![]
    } else {
        let earlier = in_column(differences.drop_last(), days.drop_last(), day, monday);
        if shown_on(days.last(), day, monday) {
            earlier.push(differences.last())
        } else {
            earlier
        }
    }
}

/// Whether a list holds the seven days of the week that a date falls in, with the differences
/// that are shown on each.
pub open spec fn is_compared_week(
    week: Seq<ComparedDay>,
    differences: Seq<DifferenceView>,
    days: Seq<RangeDays>,
    today: i32,
) -> bool {
    &&& week.len() == 7
    &&& forall|k: int|
        0 <= k < 7 ==> {
            &&& (#[trigger] week[k]).day == monday(today as int) + k
            &&& week[k].is_today == (week[k].day == today)
            &&& difference_views(week[k].differences@) == in_column(
                differences,
                days,
                week[k].day as int,
                monday(today as int),
            )
        }
}

/// Whether a week lists a difference.
pub open spec fn lists(week: Seq<ComparedDay>, d: DifferenceView) -> bool {
    exists|k: int|
        0 <= k < week.len() && difference_views((#[trigger] week[k]).differences@).contains(d)
}

proof fn lemma_in_column(
    differences: Seq<DifferenceView>,
    days: Seq<RangeDays>,
    day: int,
    monday: int,
    d: DifferenceView,
)
    requires
        days.len() == differences.len(),
    ensures
        in_column(differences, days, day, monday).contains(d) <==> exists|i: int|
            0 <= i < differences.len() && #[trigger] differences[i] == d && shown_on(
                days[i],
                day,
                monday,
            ),
    decreases differences.len(),
{
    if differences.len() > 0 {
        let last = differences.len() - 1;
        let (fewer, dates) = (differences.drop_last(), days.drop_last());
        let earlier = in_column(fewer, dates, day, monday);
        let all = in_column(differences, days, day, monday);
        lemma_in_column(fewer, dates, day, monday, d);
        if all.contains(d) {
            let k = choose|k: int| 0 <= k < all.len() && all[k] == d;
            if k < earlier.len() {
                assert(earlier.contains(earlier[k]));
                let i = choose|i: int|
                    0 <= i < fewer.len() && #[trigger] fewer[i] == d && shown_on(
                        dates[i],
                        day,
                        monday,
                    );
                assert(differences[i] == d && shown_on(days[i], day, monday));
            } else {
                assert(differences[last] == d && shown_on(days[last], day, monday));
            }
        }
        if exists|i: int|
            0 <= i < differences.len() && #[trigger] differences[i] == d && shown_on(
                days[i],
                day,
                monday,
            ) {
            let i = choose|i: int|
                0 <= i < differences.len() && #[trigger] differences[i] == d && shown_on(
                    days[i],
                    day,
                    monday,
                );
            if i < last {
                assert(fewer[i] == d && shown_on(dates[i], day, monday));
                assert(earlier.contains(d));
                let k = choose|k: int| 0 <= k < earlier.len() && earlier[k] == d;
                assert(all[k] == d);
            } else {
                assert(all[earlier.len() as int] == d);
            }
        }
    }
}

/// Whether the dates of ranges are those that a place's clocks show, given the date of each
/// second.
pub open spec fn dated(
    differences: Seq<DifferenceView>,
    days: Seq<RangeDays>,
    date: spec_fn(int) -> int,
) -> bool {
    &&& days.len() == differences.len()
    &&& forall|i: int|
        0 <= i < differences.len() ==> {
            &&& days[i].first == date((#[trigger] differences[i]).from.seconds as int)
            &&& days[i].last == date(last_second(differences[i].to))
        }
}

/// A week lists differences between the calendars and nothing else, and each says who is busy and
/// who is free throughout its range, over all events.
pub proof fn week_lists_only_differences(
    week: Seq<ComparedDay>,
    events: Seq<EventView>,
    names: Seq<Seq<char>>,
    days: Seq<RangeDays>,
    today: i32,
    d: DifferenceView,
    t: UtcTime,
)
    requires
        days.len() == all_differences(events, names).len(),
        is_compared_week(week, all_differences(events, names), days, today),
        lists(week, d),
        covers(d, t),
    ensures
        all_differences(events, names).contains(d),
        one_busy_another_free(events, names, t),
        d.busy.len() > 0 && d.free.len() > 0,
        forall|name: Seq<char>| #[trigger]
            d.busy.contains(name) <==> is_busy_at(events, name, t),
        forall|name: Seq<char>| #[trigger]
            d.free.contains(name) <==> names.contains(name) && !is_busy_at(events, name, t),
{
    let all = all_differences(events, names);
    let first = monday(today as int);
    let k = choose|k: int|
        0 <= k < week.len() && difference_views((#[trigger] week[k]).differences@).contains(d);
    lemma_in_column(all, days, week[k].day as int, first, d);
    let i = choose|i: int|
        0 <= i < all.len() && #[trigger] all[i] == d && shown_on(
            days[i],
            week[k].day as int,
            first,
        );
    assert(all.contains(all[i]));
    differences_show_when_one_is_busy_and_another_free(events, names, t);
}

/// A week lists every difference whose range starts in it, on the day on which it starts, and
/// every one that started before and reaches into it, on Monday.
pub proof fn week_lists_its_differences(
    week: Seq<ComparedDay>,
    differences: Seq<DifferenceView>,
    days: Seq<RangeDays>,
    today: i32,
    i: int,
)
    requires
        days.len() == differences.len(),
        is_compared_week(week, differences, days, today),
        0 <= i < differences.len(),
        days[i].first <= monday(today as int) + 6,
        monday(today as int) <= days[i].first || monday(today as int) <= days[i].last,
    ensures
        lists(week, differences[i]),
        ({
            let k = at_monday_or_later(days[i], monday(today as int));
            difference_views(week[k].differences@).contains(differences[i])
        }),
{
    let first = monday(today as int);
    let k = at_monday_or_later(days[i], first);
    assert(week[k].day == first + k);
    assert(shown_on(days[i], week[k].day as int, first));
    lemma_in_column(differences, days, week[k].day as int, first, differences[i]);
}

/// How many days after Monday a range of time is shown.
pub open spec fn at_monday_or_later(days: RangeDays, monday: int) -> int {
    if days.first < monday {
        0
    } else {
        days.first - monday
    }
}

/// At every point in time of the week, a range that the week lists covers it exactly if one of
/// the calendars is busy then while another is free, over all their events. The dates are those
/// of clocks that never go back to an earlier date.
pub proof fn week_shows_when_one_is_busy_and_another_free(
    week: Seq<ComparedDay>,
    events: Seq<EventView>,
    names: Seq<Seq<char>>,
    days: Seq<RangeDays>,
    today: i32,
    date: spec_fn(int) -> int,
    t: UtcTime,
)
    requires
        is_compared_week(week, all_differences(events, names), days, today),
        dated(all_differences(events, names), days, date),
        forall|a: int, b: int| a <= b ==> (#[trigger] date(a)) <= (#[trigger] date(b)),
        monday(today as int) <= date(t.seconds as int) <= monday(today as int) + 6,
    ensures
        (exists|d: DifferenceView| #[trigger] lists(week, d) && covers(d, t))
            <==> one_busy_another_free(events, names, t),
{
    let all = all_differences(events, names);
    if exists|d: DifferenceView| #[trigger] lists(week, d) && covers(d, t) {
        let d = choose|d: DifferenceView| #[trigger] lists(week, d) && covers(d, t);
        week_lists_only_differences(week, events, names, days, today, d, t);
    }
    if one_busy_another_free(events, names, t) {
        differences_show_when_one_is_busy_and_another_free(events, names, t);
        let d = choose|d: DifferenceView| #[trigger] all.contains(d) && covers(d, t);
        let i = choose|i: int| 0 <= i < all.len() && all[i] == d;
        assert(days[i].first == date(all[i].from.seconds as int));
        assert(date(all[i].from.seconds as int) <= date(t.seconds as int));
        assert(date(t.seconds as int) <= date(last_second(all[i].to)));
        week_lists_its_differences(week, all, days, today, i);
        assert(lists(week, d) && covers(d, t));
    }
}

/// The differences that are shown on a day of the week with the given Monday, in their order.
fn column(
    differences: &Vec<Difference>,
    days: &Vec<RangeDays>,
    day: i32,
    monday: i32,
) -> (r: Vec<Difference>)
    requires
        days@.len() == differences@.len(),
    ensures
        difference_views(r@) == in_column(
            difference_views(differences@),
            days@,
            day as int,
            monday as int,
        ),
{
    let ghost all = difference_views(differences@);
    let mut out: Vec<Difference> = Vec::new();
    let mut i: usize = 0;
    proof {
        assert(difference_views(out@) == in_column(
            all.take(0),
            days@.take(0),
            day as int,
            monday as int,
        ));
    }
    while i < differences.len()
        invariant
            i <= differences@.len(),
            days@.len() == differences@.len(),
            all == difference_views(differences@),
            difference_views(out@) == in_column(
                all.take(i as int),
                days@.take(i as int),
                day as int,
                monday as int,
            ),
        decreases differences@.len() - i,
    {
        let ghost before = out@;
        proof {
            assert(all.take(i + 1).drop_last() == all.take(i as int));
            assert(all.take(i + 1).last() == differences@[i as int]@);
            assert(days@.take(i + 1).drop_last() == days@.take(i as int));
            assert(days@.take(i + 1).last() == days@[i as int]);
        }
        let range = days[i];
        if range.first == day || (day == monday && range.first < monday && monday <= range.last) {
            let difference = differences[i].clone();
            let ghost said = difference@;
            out.push(difference);
            proof {
                assert(difference_views(out@) == difference_views(before).push(said));
            }
        }
        i += 1;
    }
    proof {
        assert(all.take(i as int) == all);
        assert(days@.take(i as int) == days@);
    }
    out
}

/// Shows the differences between calendars over the week that a date falls in. `names` holds the
/// name of each calendar once, and `days` the dates of each difference's range.
pub fn comparison_timeline(
    differences: &Vec<Difference>,
    days: &Vec<RangeDays>,
    names: &Vec<String>,
    today: i32,
) -> (r: Comparison)
    requires
        days@.len() == differences@.len(),
        MIN_DAY <= monday(today as int),
        monday(today as int) + 6 <= MAX_DAY,
    ensures
        match r {
            Comparison::TooFew => names@.len() < 2,
            Comparison::Week(week) => names@.len() >= 2 && is_compared_week(
                week@,
                difference_views(differences@),
                days@,
                today,
            ),
        },
{
    if names.len() < 2 {
        return Comparison::TooFew;
    }
    let first: i32 = monday_of(today);
    let mut out: Vec<ComparedDay> = Vec::new();
    let mut k: i32 = 0;
    while k < 7
        invariant
            0 <= k <= 7,
            days@.len() == differences@.len(),
            MIN_DAY <= first <= MAX_DAY - 6,
            first == monday(today as int),
            out@.len() == k,
            forall|j: int|
                0 <= j < k ==> {
                    &&& (#[trigger] out@[j]).day == first + j
                    &&& out@[j].is_today == (out@[j].day == today)
                    &&& difference_views(out@[j].differences@) == in_column(
                        difference_views(differences@),
                        days@,
                        out@[j].day as int,
                        first as int,
                    )
                },
        decreases 7 - k,
    {
        let day: i32 = first + k;
        out.push(
            ComparedDay {
                day,
                is_today: day == today,
                differences: column(differences, days, day, first),
            },
        );
        k += 1;
    }
    Comparison::Week(out)
}

spec fn shown_then(days: Seq<RangeDays>, day: int, monday: int) -> Seq<bool> {
    Seq::new(days.len(), |i: int| shown_on(days[i], day, monday))
}

proof fn lemma_column(
    differences: Seq<DifferenceView>,
    days: Seq<RangeDays>,
    day: int,
    monday: int,
)
    requires
        days.len() == differences.len(),
    ensures
        in_column(differences, days, day, monday) == Seq::new(
            marked(shown_then(days, day, monday)).len(),
            |k: int| differences[marked(shown_then(days, day, monday))[k]],
        ),
    decreases differences.len(),
{
    let places = marked(shown_then(days, day, monday));
    let picked = Seq::new(places.len(), |k: int| differences[places[k]]);
    if differences.len() > 0 {
        let (fewer, dates) = (differences.drop_last(), days.drop_last());
        lemma_column(fewer, dates, day, monday);
        let shorter = marked(shown_then(dates, day, monday));
        assert(shown_then(days, day, monday).drop_last() == shown_then(dates, day, monday));
        lemma_marked(shown_then(dates, day, monday));
        assert forall|k: int| 0 <= k < shorter.len() implies differences[#[trigger] shorter[k]]
            == fewer[shorter[k]] by {
            assert(shorter.contains(shorter[k]));
        }
        assert(in_column(differences, days, day, monday) == picked);
    } else {
        assert(in_column(differences, days, day, monday) == picked);
    }
}

/// The compared week has a day for each date from Monday to Sunday of the week that today falls
/// in. A difference is shown on the date on which its range starts, before today or after it; one
/// that started before Monday and reaches into the week is shown on Monday. The differences of a
/// day keep their order: `places` holds where those of day `k` stand.
pub proof fn compared_week_shows_each_difference_on_its_day(
    differences: Seq<DifferenceView>,
    days: Seq<RangeDays>,
    today: i32,
    week: Seq<ComparedDay>,
    first: int,
    k: int,
) -> (places: Seq<int>)
    requires
        days.len() == differences.len(),
        is_compared_week(week, differences, days, today),
        first % 7 == 1,
        first <= today <= first + 6,
        0 <= k < 7,
    ensures
        week.len() == 7,
        week[k].day == first + k,
        week[k].is_today <==> today == first + k,
        ascending(places),
        forall|i: int| #[trigger]
            places.contains(i) <==> 0 <= i < differences.len() && (days[i].first == first + k || (k
                == 0 && days[i].first < first && first <= days[i].last)),
        places.len() == week[k].differences@.len(),
        forall|j: int|
            0 <= j < places.len() ==> (#[trigger] week[k].differences@[j])@
                == differences[places[j]],
{
    let day = week[k].day as int;
    let shown = difference_views(week[k].differences@);
    let places = marked(shown_then(days, day, first));
    assert(monday(today as int) == first);
    lemma_marked(shown_then(days, day, first));
    lemma_column(differences, days, day, first);
    assert(shown.len() == places.len());
    assert forall|j: int| 0 <= j < places.len() implies (#[trigger] week[k].differences@[j])@
        == differences[places[j]] by {
        assert(shown[j] == week[k].differences@[j]@);
        assert(places.contains(places[j]));
    }
    places
}

/// A comparison of two calendars or more is a week; of fewer it is none.
pub proof fn two_calendars_can_be_compared(
    differences: &Vec<Difference>,
    days: &Vec<RangeDays>,
    names: &Vec<String>,
    today: i32,
    r: Comparison,
)
    requires
        call_ensures(comparison_timeline, (differences, days, names, today), r),
    ensures
        r is Week <==> names@.len() >= 2,
        r matches Comparison::Week(week) ==> is_compared_week(
            week@,
            difference_views(differences@),
            days@,
            today,
        ),
{
}

/// A point in time within the last second of a range of time with the given end.
pub open spec fn last_moment(to: UtcTime) -> UtcTime {
    UtcTime { seconds: last_second(to) as i64, nanos: 0 }
}

/// The dates of the range of a difference on clocks that were asked about it.
pub open spec fn days_shown(d: DifferenceView, offsets: Offsets) -> RangeDays {
    RangeDays {
        first: local::shown_day(offsets, d.from) as i32,
        last: local::shown_day(offsets, last_moment(d.to)) as i32,
    }
}

/// The dates of the ranges of differences on clocks that were asked about them.
pub open spec fn all_days_shown(differences: Seq<DifferenceView>, offsets: Offsets) -> Seq<
    RangeDays,
> {
    Seq::new(differences.len(), |i: int| days_shown(differences[i], offsets))
}

/// Whether clocks were asked about the ranges of differences.
pub open spec fn all_asked(differences: Seq<DifferenceView>, offsets: Offsets) -> bool {
    forall|i: int|
        0 <= i < differences.len() ==> local::asked(offsets, (#[trigger] differences[i]).from)
            && local::asked(offsets, last_moment(differences[i].to))
}

proof fn lemma_days_stay(d: DifferenceView, few: Offsets, more: Offsets)
    requires
        few.submap_of(more),
        local::asked(few, d.from),
        local::asked(few, last_moment(d.to)),
    ensures
        local::asked(more, d.from),
        local::asked(more, last_moment(d.to)),
        days_shown(d, more) == days_shown(d, few),
{
    local::lemma_answers_stay(few, more, d.from);
    local::lemma_answers_stay(few, more, last_moment(d.to));
}

/// The dates of each difference's range, as the clocks of the machine show them.
pub fn range_days(differences: &Vec<Difference>, clock: &mut OffsetClock) -> (r: Vec<RangeDays>)
    requires
        all_ranges_valid(difference_views(differences@)),
        old(clock).valid(),
    ensures
        final(clock).valid(),
        old(clock)@.submap_of(final(clock)@),
        all_asked(difference_views(differences@), final(clock)@),
        r@ == all_days_shown(difference_views(differences@), final(clock)@),
{
    let ghost all = difference_views(differences@);
    let mut out: Vec<RangeDays> = Vec::new();
    let mut i: usize = 0;
    while i < differences.len()
        invariant
            i <= differences@.len(),
            all == difference_views(differences@),
            all_ranges_valid(all),
            clock.valid(),
            old(clock)@.submap_of(clock@),
            all_asked(all.take(i as int), clock@),
            out@ == all_days_shown(all.take(i as int), clock@),
        decreases differences@.len() - i,
    {
        let ghost before = clock@;
        let ghost found = out@;
        let ghost d = all[i as int];
        proof {
            assert(d == differences@[i as int]@);
            assert(d.from.valid());
        }
        let (from, to) = (differences[i].from, differences[i].to);
        let seconds: i64 = if to.nanos > 0 {
            to.seconds
        } else {
            to.seconds - 1
        };
        let first: i32 = clock.day(from);
        let ghost between = clock@;
        let last: i32 = clock.day(UtcTime { seconds, nanos: 0 });
        out.push(RangeDays { first, last });
        proof {
            local::lemma_more_offsets(before, between, clock@);
            local::lemma_more_offsets(old(clock)@, before, clock@);
            assert(local::asked(between, d.from));
            local::lemma_answers_stay(between, clock@, d.from);
            assert(last_moment(d.to) == (UtcTime { seconds, nanos: 0 }));
            assert(local::asked(clock@, last_moment(d.to)));
            assert(days_shown(d, clock@) == (RangeDays { first, last }));
            let shown = all.take(i + 1);
            assert forall|j: int| 0 <= j < shown.len() implies local::asked(
                clock@,
                (#[trigger] shown[j]).from,
            ) && local::asked(clock@, last_moment(shown[j].to)) && out@[j] == days_shown(
                shown[j],
                clock@,
            ) by {
                if j < i {
                    assert(all.take(i as int)[j] == shown[j]);
                    assert(out@[j] == found[j]);
                    assert(found[j] == all_days_shown(all.take(i as int), before)[j]);
                    lemma_days_stay(shown[j], before, clock@);
                }
            }
            assert(out@ == all_days_shown(shown, clock@));
        }
        i += 1;
    }
    proof {
        assert(all.take(i as int) == all);
    }
    out
}

/// Compares calendars over the week that a date falls in, with the dates that the clocks of the
/// machine show. `names` holds the name of each calendar once.
pub fn compare_week(
    events: &Vec<CalendarEvent>,
    names: &Vec<String>,
    today: i32,
    clock: &mut OffsetClock,
) -> (r: Comparison)
    requires
        event::all_valid(event::event_views(events@)),
        MIN_DAY <= monday(today as int),
        monday(today as int) + 6 <= MAX_DAY,
        old(clock).valid(),
    ensures
        final(clock).valid(),
        old(clock)@.submap_of(final(clock)@),
        ({
            let all = all_differences(event::event_views(events@), text::string_views(names@));
            &&& all_asked(all, final(clock)@)
            &&& match r {
                Comparison::TooFew => names@.len() < 2,
                Comparison::Week(week) => names@.len() >= 2 && is_compared_week(
                    week@,
                    all,
                    all_days_shown(all, final(clock)@),
                    today,
                ),
            }
        }),
{
    let differences = compare_calendars(events, names);
    let days = range_days(&differences, clock);
    comparison_timeline(&differences, &days, names, today)
}

/// Whether no day of a week has a difference.
pub open spec fn no_differences(week: Seq<ComparedDay>) -> bool {
    forall|k: int| 0 <= k < week.len() ==> (#[trigger] week[k]).differences@.len() == 0
}

/// What is said of a comparison that shows nothing.
pub open spec fn comparison_message(comparison: Comparison) -> Option<Seq<char>> {
    match comparison {
        Comparison::TooFew => Some("Add at least two named calendars to compare."@),
        Comparison::Week(week) => if no_differences(week@) {
            Some("No schedule differences were found this week."@)
        } else {
            None
        },
    }
}

/// What is said of a comparison that shows nothing.
pub fn empty_timeline_message(comparison: &Comparison) -> (r: Option<String>)
    ensures
        match r {
            Some(message) => comparison_message(*comparison) == Some(message@),
            None => comparison_message(*comparison) is None,
        },
{
    match comparison {
        Comparison::TooFew => Some("Add at least two named calendars to compare.".to_owned()),
        Comparison::Week(week) => {
            let mut k: usize = 0;
            while k < week.len()
                invariant
                    k <= week@.len(),
                    *comparison == Comparison::Week(*week),
                    forall|j: int| 0 <= j < k ==> (#[trigger] week@[j]).differences@.len() == 0,
                decreases week@.len() - k,
            {
                if week[k].differences.len() > 0 {
                    proof {
                        assert(week@[k as int].differences@.len() > 0);
                    }
                    return None;
                }
                k += 1;
            }
            Some("No schedule differences were found this week.".to_owned())
        },
    }
}

/// Names with commas between them.
pub open spec fn joined(names: Seq<Seq<char>>) -> Seq<char>
    decreases names.len(),
{
    if names.len() == 0 {
        seq![]
    } else if names.len() == 1 {
        names[0]
    } else {
        joined(names.drop_last()) + ", "@ + names.last()
    }
}

fn push_joined(out: &mut String, names: &Vec<String>)
    ensures
        final(out)@ == old(out)@ + joined(text::string_views(names@)),
{
    let ghost all = text::string_views(names@);
    let ghost start = out@;
    let mut i: usize = 0;
    proof {
        assert(start + joined(all.take(0)) == start);
    }
    while i < names.len()
        invariant
            i <= names@.len(),
            all == text::string_views(names@),
            out@ == start + joined(all.take(i as int)),
        decreases names@.len() - i,
    {
        proof {
            assert(all.take(i + 1).drop_last() == all.take(i as int));
            assert(all.take(i + 1).last() == names@[i as int]@);
            let front = joined(all.take(i as int));
            let name = names@[i as int]@;
            assert(start + front + ", "@ + name == start + (front + ", "@ + name));
            assert(start + Seq::<char>::empty() + name == start + name);
        }
        if i > 0 {
            text::push_text(out, ", ");
        }
        text::push_text(out, names[i].as_str());
        i += 1;
    }
    proof {
        assert(all.take(i as int) == all);
    }
}

/// Writes who is free in a range of time.
pub fn free_text(difference: &Difference) -> (r: String)
    ensures
        r@ == joined(difference@.free),
{
    let mut out = String::new();
    push_joined(&mut out, &difference.free);
    proof {
        assert(Seq::<char>::empty() + joined(difference@.free) == joined(difference@.free));
    }
    out
}

/// Writes what the busy ones are busy with in a range of time.
pub fn busy_text(difference: &Difference) -> (r: String)
    ensures
        r@ == "Busy: "@ + joined(difference@.summaries),
{
    let mut out = "Busy: ".to_owned();
    push_joined(&mut out, &difference.summaries);
    out
}

/// Nothing is said of a comparison that shows a difference on some day; of any other something is.
pub proof fn a_week_with_a_difference_speaks_for_itself(
    comparison: &Comparison,
    r: Option<String>,
    week: Vec<ComparedDay>,
    k: int,
)
    requires
        call_ensures(empty_timeline_message, (comparison,), r),
        *comparison == Comparison::Week(week),
        0 <= k < week@.len(),
    ensures
        week@[k].differences@.len() > 0 ==> r is None,
        r is None ==> exists|j: int|
            0 <= j < week@.len() && (#[trigger] week@[j]).differences@.len() > 0,
{
}

/// Joined names are the names themselves with a comma and a space between two that follow each
/// other, wherever a list of them is taken apart.
pub proof fn joined_lists_join(names: Seq<Seq<char>>, more: Seq<Seq<char>>, name: Seq<char>)
    ensures
        joined(seq![]) == Seq::<char>::empty(),
        joined(seq![name]) == name,
        names.len() > 0 && more.len() > 0 ==> joined(names + more) == joined(names) + seq![',', ' ']
            + joined(more),
    decreases more.len(),
{
    reveal_strlit(", ");
    assert(", "@ == seq![',', ' ']);
    if names.len() > 0 && more.len() > 0 {
        let front = more.drop_last();
        let all = names + more;
        joined_lists_join(names, front, name);
        assert(all.drop_last() == names + front);
        assert(all.last() == more.last());
        if front.len() == 0 {
            assert(names + front == names);
            assert(joined(more) == more[0]);
        } else {
            let (a, b) = (joined(names), joined(front));
            assert((a + ", "@ + b) + ", "@ + more.last() == a + ", "@ + (b + ", "@ + more.last()));
        }
    }
}

/// A difference is dated by what clocks show at the second in which its range starts and in the
/// last second that it reaches into: the one before its end, if it ends as a second starts.
pub proof fn ranges_are_dated_by_their_first_and_last_second(
    d: DifferenceView,
    offsets: Offsets,
    last: int,
)
    requires
        d.from.valid(),
        d.to.valid(),
        last == (if d.to.nanos == 0 {
            d.to.seconds - 1
        } else {
            d.to.seconds as int
        }),
        local::is_offset(offsets[d.from.seconds] as int),
        local::is_offset(offsets[last as i64] as int),
    ensures
        ({
            let days = days_shown(d, offsets);
            let from = d.from.seconds + offsets[d.from.seconds];
            let to = last + offsets[last as i64];
            &&& (days.first - 719_163) * 86_400 <= from < (days.first - 719_162) * 86_400
            &&& (days.last - 719_163) * 86_400 <= to < (days.last - 719_162) * 86_400
        }),
{
}

/// What is written of a difference are the names of those who are free, and what the others are
/// busy with, each list with commas between.
pub proof fn differences_are_written_out(difference: &Difference, free: String, busy: String)
    requires
        call_ensures(free_text, (difference,), free),
        call_ensures(busy_text, (difference,), busy),
    ensures
        difference.free@.len() == 1 ==> free@ == difference.free@[0]@,
        difference.free@.len() == 2 ==> free@ == difference.free@[0]@ + seq![',', ' ']
            + difference.free@[1]@,
        free@ == joined(text::string_views(difference.free@)),
        busy@ == "Busy: "@ + joined(text::string_views(difference.summaries@)),
{
    reveal_strlit(", ");
    assert(", "@ == seq![',', ' ']);
    let names = text::string_views(difference.free@);
    if names.len() == 2 {
        assert(names.drop_last().len() == 1);
        assert(joined(names.drop_last()) == names[0]);
    }
}

/// Fewer than two calendars cannot be compared, which is said, and so it is if a week shows no
/// difference on any of its days.
pub proof fn comparisons_without_differences_say_why(
    comparison: &Comparison,
    r: Option<String>,
    week: Vec<ComparedDay>,
)
    requires
        call_ensures(empty_timeline_message, (comparison,), r),
    ensures
        *comparison == Comparison::TooFew ==> (r matches Some(message) && message@
            == "Add at least two named calendars to compare."@),
        *comparison == Comparison::Week(week) && (forall|k: int|
            0 <= k < week@.len() ==> (#[trigger] week@[k]).differences@.len() == 0) ==> (
        r matches Some(message) && message@ == "No schedule differences were found this week."@),
{
}

} // verus!
