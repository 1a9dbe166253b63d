//! What the clocks of the machine show.
//!
//! How far they are ahead of UTC is no function of the time, so it is kept in an
//! [`OffsetClock`]: dates and times of day are stated for whatever it answered.
use std::collections::HashMap;

use vstd::prelude::*;

use crate::event::{self, CalendarEvent};
use crate::time::{self, UtcTime, SECONDS_PER_DAY, UNIX_EPOCH_DAY};

verus! {

/// Whether clocks can be ahead of UTC by a number of seconds.
pub open spec fn is_offset(offset: int) -> bool {
    -SECONDS_PER_DAY < offset < SECONDS_PER_DAY
}

/// The date that clocks show which are ahead of UTC by a number of seconds.
pub open spec fn local_day(t: UtcTime, offset: int) -> int {
    (t.seconds + offset) / SECONDS_PER_DAY as int + UNIX_EPOCH_DAY
}

/// The second of the day that clocks show which are ahead of UTC by a number of seconds.
pub open spec fn local_second(t: UtcTime, offset: int) -> int {
    (t.seconds + offset) % SECONDS_PER_DAY as int
}

/// What the clocks of a place answered: for each second that was asked, counted from the Unix
/// epoch, how many seconds they are ahead of UTC.
pub type Offsets = Map<i64, i32>;

/// Whether clocks were asked about a point in time.
pub open spec fn asked(offsets: Offsets, t: UtcTime) -> bool {
    offsets.dom().contains(t.seconds)
}

/// The date that clocks show at a point in time that they were asked about.
pub open spec fn shown_day(offsets: Offsets, t: UtcTime) -> int {
    local_day(t, offsets[t.seconds] as int)
}

/// The second of the day that clocks show at a point in time that they were asked about.
pub open spec fn shown_second(offsets: Offsets, t: UtcTime) -> int {
    local_second(t, offsets[t.seconds] as int)
}

/// Whether clocks were asked about a point in time and show a date then.
pub open spec fn show_day(offsets: Offsets, t: UtcTime, day: int) -> bool {
    asked(offsets, t) && day == shown_day(offsets, t)
}

/// Clocks that answered more show what they showed before.
pub(crate) proof fn lemma_answers_stay(few: Offsets, more: Offsets, t: UtcTime)
    requires
        few.submap_of(more),
        asked(few, t),
    ensures
        asked(more, t),
        more[t.seconds] == few[t.seconds],
{
    assert(few.dom().contains(t.seconds));
    assert(more.dom().contains(t.seconds));
}

pub(crate) proof fn lemma_more_offsets(few: Offsets, more: Offsets, most: Offsets)
    requires
        few.submap_of(more),
        more.submap_of(most),
    ensures
        few.submap_of(most),
{
    assert forall|s: i64| #[trigger] few.dom().contains(s) implies most.dom().contains(s)
        && few[s] == most[s] by {
        assert(more.dom().contains(s));
        assert(most.dom().contains(s));
    }
}

/// The answers that the machine's clocks gave, each second being asked about only once.
pub struct OffsetClock {
    answers: HashMap<i64, i32>,
}

impl View for OffsetClock {
    type V = Offsets;

    closed spec fn view(&self) -> Offsets {
        self.answers@
    }
}

impl OffsetClock {
    /// Whether each answer is less than a day.
    pub open spec fn valid(self) -> bool {
        forall|s: i64| #[trigger] self@.dom().contains(s) ==> is_offset(self@[s] as int)
    }

    /// Clocks that have not been asked yet.
    pub fn new() -> (r: OffsetClock)
        ensures
            r.valid(),
            r@ == Map::<i64, i32>::empty(),
    {
        OffsetClock { answers: HashMap::new() }
    }

    /// How many seconds the clocks of the machine are ahead of UTC at a point in time.
    pub fn offset(&mut self, t: UtcTime) -> (r: i32)
        requires
            t.valid(),
            old(self).valid(),
        ensures
            final(self).valid(),
            is_offset(r as int),
            final(self)@ == (if asked(old(self)@, t) {
                old(self)@
            } else {
                old(self)@.insert(t.seconds, r)
            }),
            final(self)@.dom() == old(self)@.dom().insert(t.seconds),
            old(self)@.submap_of(final(self)@),
            r == final(self)@[t.seconds],
    {
        broadcast use vstd::std_specs::hash::group_hash_axioms;

        if let Some(offset) = self.answers.get(&t.seconds) {
            let known: i32 = *offset;
            proof {
                assert(self@.dom().insert(t.seconds) == self@.dom());
                assert(is_offset(self@[t.seconds] as int));
            }
            return known;
        }
        let offset: i32 = machine_offset(t);
        let ghost before = self.answers@;
        self.answers.insert(t.seconds, offset);
        proof {
            assert(self.answers@ == before.insert(t.seconds, offset));
            assert forall|s: i64| #[trigger] self@.dom().contains(s) implies is_offset(
                self@[s] as int,
            ) by {
                if s != t.seconds {
                    assert(old(self)@.dom().contains(s));
                }
            }
        }
        offset
    }

    /// The date that the clocks of the machine show at a point in time.
    pub fn day(&mut self, t: UtcTime) -> (r: i32)
        requires
            t.valid(),
            old(self).valid(),
        ensures
            final(self).valid(),
            final(self)@.dom() == old(self)@.dom().insert(t.seconds),
            old(self)@.submap_of(final(self)@),
            r == shown_day(final(self)@, t),
    {
        let offset: i32 = self.offset(t);
        day_at(t, offset)
    }
}

/// `TimeZone::offset_from_utc_datetime` of `chrono` for `Local`: how many seconds the clocks of
/// the machine are ahead of UTC at a point in time. The answer depends on the machine; all that
/// is claimed is that it is less than a day.
#[verifier::external_body]
pub(crate) fn machine_offset(t: UtcTime) -> (r: i32)
    requires
        t.valid(),
    ensures
        is_offset(r as int),
{
    let utc = chrono::DateTime::from_timestamp(t.seconds, 0).unwrap().naive_utc();
    chrono::TimeZone::offset_from_utc_datetime(&chrono::Local, &utc).local_minus_utc()
}

/// The date that clocks show which are ahead of UTC by a number of seconds.
pub fn day_at(t: UtcTime, offset: i32) -> (r: i32)
    requires
        t.valid(),
        is_offset(offset as int),
    ensures
        r == local_day(t, offset as int),
{
    let shifted: i64 = t.seconds + offset as i64 + 8_640_000_000_000;
    proof {
        assert((t.seconds + offset + 100_000_000 * 86_400) / 86_400 == (t.seconds + offset) / 86_400
            + 100_000_000);
    }
    (shifted / 86_400 - 100_000_000 + 719_163) as i32
}

/// The second of the day that clocks show which are ahead of UTC by a number of seconds.
pub fn second_at(t: UtcTime, offset: i32) -> (r: u32)
    requires
        t.valid(),
        is_offset(offset as int),
    ensures
        r == local_second(t, offset as int),
        r < SECONDS_PER_DAY,
{
    let shifted: i64 = t.seconds + offset as i64 + 8_640_000_000_000;
    proof {
        assert((t.seconds + offset + 100_000_000 * 86_400) % 86_400 == (t.seconds + offset)
            % 86_400);
    }
    (shifted % 86_400) as u32
}

/// The point in time that the machine's clock shows.
pub fn now() -> (r: UtcTime)
    ensures
        r.valid(),
        r.ordinary(),
        r.seconds >= 0,
{
    time::utc_now()
}

/// The date that the clocks of the machine show now.
pub fn today(clock: &mut OffsetClock) -> (r: i32)
    requires
        old(clock).valid(),
    ensures
        final(clock).valid(),
        old(clock)@.submap_of(final(clock)@),
        exists|now: UtcTime| #[trigger]
            asked(final(clock)@, now) && now.valid() && now.ordinary() && now.seconds >= 0
                && final(clock)@.dom() == old(clock)@.dom().insert(now.seconds) && r == shown_day(
                final(clock)@,
                now,
            ),
{
    let now = time::utc_now();
    let day: i32 = clock.day(now);
    proof {
        assert(asked(clock@, now));
    }
    day
}

/// The dates on which events start, as the clocks of the machine show them.
pub fn start_days(events: &Vec<CalendarEvent>, clock: &mut OffsetClock) -> (r: Vec<i32>)
    requires
        event::all_valid(event::event_views(events@)),
        old(clock).valid(),
    ensures
        final(clock).valid(),
        old(clock)@.submap_of(final(clock)@),
        r@.len() == events@.len(),
        forall|i: int|
            0 <= i < r@.len() ==> show_day(
                final(clock)@,
                events@[i].start,
                #[trigger] r@[i] as int,
            ),
{
    let mut out: Vec<i32> = Vec::new();
    let mut i: usize = 0;
    while i < events.len()
        invariant
            event::all_valid(event::event_views(events@)),
            clock.valid(),
            old(clock)@.submap_of(clock@),
            i <= events@.len(),
            out@.len() == i,
            forall|j: int|
                0 <= j < i ==> show_day(clock@, events@[j].start, #[trigger] out@[j] as int),
        decreases events@.len() - i,
    {
        let ghost before = clock@;
        let ghost found = out@;
        proof {
            assert(event::event_views(events@)[i as int].valid());
        }
        let day: i32 = clock.day(events[i].start);
        out.push(day);
        proof {
            lemma_more_offsets(old(clock)@, before, clock@);
            assert forall|j: int| 0 <= j < i + 1 implies show_day(
                clock@,
                events@[j].start,
                #[trigger] out@[j] as int,
            ) by {
                if j < i {
                    assert(out@[j] == found[j]);
                    lemma_answers_stay(before, clock@, events@[j].start);
                }
            }
        }
        i += 1;
    }
    out
}

/// The date and the second of the day that clocks show are those of the seconds since the epoch
/// with their distance from UTC added: whole days of 86,400 seconds since the first of January
/// 1970, and the seconds that are left over.
pub proof fn date_and_time_of_day_add_up(t: UtcTime, offset: i32, day: i32, second: u32)
    requires
        t.valid(),
        is_offset(offset as int),
        call_ensures(day_at, (t, offset), day),
        call_ensures(second_at, (t, offset), second),
    ensures
        (day - 719_163) * 86_400 + second == t.seconds + offset,
        0 <= second < 86_400,
{
}

/// What clocks show at a point in time that they were asked about goes by the seconds since the
/// epoch and by what they answered for that very second.
pub proof fn shown_date_and_time_add_up(offsets: Offsets, t: UtcTime)
    ensures
        (shown_day(offsets, t) - 719_163) * 86_400 + shown_second(offsets, t) == t.seconds
            + offsets[t.seconds],
        0 <= shown_second(offsets, t) < 86_400,
        forall|day: int|
            show_day(offsets, t, day) <==> offsets.dom().contains(t.seconds) && day * 86_400
                <= t.seconds + offsets[t.seconds] + 719_163 * 86_400 < (day + 1) * 86_400,
{
}

} // verus!
