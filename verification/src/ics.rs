//! Calendar files: from their text to the events they hold.
use vstd::prelude::*;
use vstd::slice::slice_subrange;

use crate::event::{self, CalendarEvent, EventView};
use crate::recurrence;
use crate::text;
use crate::time::{self, Span, UtcTime, MIN_SECONDS, NANOS_PER_SECOND};
use crate::zone::{self, LocalClock, Zone};

verus! {

/// How long ago an event may have ended to be kept, so that every day of the current week can be
/// shown.
pub const HISTORY_SECONDS: i64 = 604_800;

/// What a calendar file says of one event, before its dates are read.
#[derive(Debug)]
pub struct EventRecord {
    pub summary: String,
    pub location: String,
    /// The property that gives the start, with its parameters, and its value.
    pub start: Option<(String, String)>,
    /// The property that gives the end, with its parameters, and its value.
    pub end: Option<(String, String)>,
    /// The recurrence rule, empty if there is none.
    pub recurrence: String,
}

/// What an event record says.
pub struct RecordView {
    pub summary: Seq<char>,
    pub location: Seq<char>,
    pub start: Option<(Seq<char>, Seq<char>)>,
    pub end: Option<(Seq<char>, Seq<char>)>,
    pub recurrence: Seq<char>,
}

pub open spec fn pair_view(pair: Option<(String, String)>) -> Option<(Seq<char>, Seq<char>)> {
    match pair {
        Some((property, value)) => Some((property@, value@)),
        None => None,
    }
}

impl View for EventRecord {
    type V = RecordView;

    open spec fn view(&self) -> RecordView {
        RecordView {
            summary: self.summary@,
            location: self.location@,
            start: pair_view(self.start),
            end: pair_view(self.end),
            recurrence: self.recurrence@,
        }
    }
}

pub open spec fn record_views(records: Seq<EventRecord>) -> Seq<RecordView> {
    Seq::new(records.len(), |i: int| records[i]@)
}

/// A text value with its escapes undone: line breaks become a dot between spaces.
pub open spec fn unescaped(value: Seq<char>) -> Seq<char> {
    let value = text::replace_all(value, "\\n"@, " · "@);
    let value = text::replace_all(value, "\\N"@, " · "@);
    let value = text::replace_all(value, "\\,"@, ","@);
    let value = text::replace_all(value, "\\;"@, ";"@);
    text::replace_all(value, "\\\\"@, "\\"@)
}

/// Whether a line continues the one before it.
pub open spec fn is_continuation(line: Seq<char>) -> bool {
    line.len() > 0 && (line[0] == ' ' || line[0] == '\t')
}

/// The lines of a file with each continuation joined to the line it continues.
pub open spec fn unfolded(lines: Seq<Seq<char>>) -> Seq<Seq<char>>
    decreases lines.len(),
{
    if lines.len() == 0 {
        seq![]
    } else {
        let joined = unfolded(lines.drop_last());
        if !is_continuation(lines.last()) {
            joined.push(lines.last())
        } else if joined.len() == 0 {
            joined
        } else {
            joined.drop_last().push(joined.last() + lines.last().drop_first())
        }
    }
}

/// The content lines of a file.
pub open spec fn content_lines(input: Seq<char>) -> Seq<Seq<char>> {
    unfolded(text::lines(text::replace_all(input, "\r\n"@, "\n"@)))
}

/// A record of which nothing is known yet.
pub open spec fn blank_record() -> RecordView {
    RecordView { summary: seq![], location: seq![], start: None, end: None, recurrence: seq![] }
}

/// A record after a property of its event has been read.
pub open spec fn with_property(record: RecordView, property: Seq<char>, value: Seq<char>)
    -> RecordView {
    let name = text::split(property, ';')[0];
    if name == "SUMMARY"@ {
        RecordView { summary: unescaped(value), ..record }
    } else if name == "LOCATION"@ {
        RecordView { location: unescaped(value), ..record }
    } else if name == "DTSTART"@ {
        RecordView { start: Some((property, value)), ..record }
    } else if name == "DTEND"@ {
        RecordView { end: Some((property, value)), ..record }
    } else if name == "RRULE"@ {
        RecordView { recurrence: value, ..record }
    } else {
        record
    }
}

/// How far a file has been read: the event that is open, if one is, and the finished ones.
pub struct Reading {
    pub open: Option<RecordView>,
    pub finished: Seq<RecordView>,
}

/// A reading after one more content line.
pub open spec fn after_line(reading: Reading, line: Seq<char>) -> Reading {
    if line == "BEGIN:VEVENT"@ {
        Reading { open: Some(blank_record()), ..reading }
    } else {
        match reading.open {
            None => reading,
            Some(record) => if line == "END:VEVENT"@ {
                Reading { open: None, finished: reading.finished.push(record) }
            } else {
                match text::split_once(line, ':') {
                    Some((property, value)) => Reading {
                        open: Some(with_property(record, property, value)),
                        ..reading
                    },
                    None => reading,
                }
            },
        }
    }
}

/// The reading after all content lines.
pub open spec fn read_lines(lines: Seq<Seq<char>>) -> Reading
    decreases lines.len(),
{
    if lines.len() == 0 {
        Reading { open: None, finished: seq![] }
    } else {
        after_line(read_lines(lines.drop_last()), lines.last())
    }
}

/// The event records of a file.
pub open spec fn records_of(input: Seq<char>) -> Seq<RecordView> {
    read_lines(content_lines(input)).finished
}

/// The event of a record whose dates have been read; `None` if it has no start and end in time, or
/// does not end after its start.
pub open spec fn record_event(record: RecordView, start: Option<UtcTime>, end: Option<UtcTime>)
    -> Option<EventView> {
    match (start, end) {
        (Some(start), Some(end)) => if start.precedes(end) {
            Some(
                EventView {
                    calendar_index: 0,
                    calendar_name: seq![],
                    summary: if record.summary.len() == 0 {
                        "Untitled class"@
                    } else {
                        record.summary
                    },
                    location: record.location,
                    start,
                    end,
                },
            )
        } else {
            None
        },
        _ => None,
    }
}

/// The events that a record stands for; `None` if they lie outside of what `chrono` can represent.
pub open spec fn record_events(record: RecordView, zone: Zone) -> Option<Seq<EventView>> {
    match (record.start, record.end) {
        (Some((property, value)), Some((end_property, end_value))) => {
            match record_event(
                record,
                zone::ics_time(property, value, zone),
                zone::ics_time(end_property, end_value, zone),
            ) {
                Some(event) => if record.recurrence.len() == 0 {
                    Some(seq![event])
                } else {
                    recurrence::expansion(event, property, value, record.recurrence, zone)
                },
                None => Some(seq![]),
            }
        },
        _ => Some(seq![]),
    }
}

/// The events that a list of records stands for; `None` if some lie outside of what `chrono` can
/// represent.
pub open spec fn all_events(records: Seq<RecordView>, zone: Zone) -> Option<Seq<EventView>>
    decreases records.len(),
{
    if records.len() == 0 {
        Some(seq![])
    } else {
        match (all_events(records.drop_last(), zone), record_events(records.last(), zone)) {
            (Some(earlier), Some(events)) => Some(earlier + events),
            _ => None,
        }
    }
}

/// The events that have not ended before a point in time.
pub open spec fn not_ended(events: Seq<EventView>, cutoff: UtcTime) -> Seq<EventView> {
    events.filter(|event: EventView| !event.end.precedes(cutoff))
}

/// The point in time a week before another.
pub open spec fn week_before(now: UtcTime) -> UtcTime {
    UtcTime { seconds: (now.seconds - HISTORY_SECONDS) as i64, nanos: now.nanos }
}

/// What a calendar shows of the events in its file: those that have not ended more than a week
/// ago, in the order of their start. It is an error if there are none.
pub open spec fn shown(events: Seq<EventView>, now: UtcTime) -> Result<Seq<EventView>, Seq<char>> {
    let kept = event::by_start(not_ended(events, week_before(now)));
    if kept.len() == 0 {
        Err("No current or upcoming timed events found in this calendar"@)
    } else {
        Ok(kept)
    }
}

/// What a calendar shows of its file.
pub open spec fn parsed(input: Seq<char>, now: UtcTime, zone: Zone) -> Result<
    Seq<EventView>,
    Seq<char>,
> {
    match all_events(records_of(input), zone) {
        Some(events) => shown(events, now),
        None => Err("A recurring event reaches beyond the dates that can be represented"@),
    }
}

/// Whether a value spells out no time within a leap second.
pub open spec fn keeps_out_of_leap_seconds(value: Seq<char>) -> bool {
    &&& zone::value_read(value) matches Some(civil) ==> civil.nano < NANOS_PER_SECOND
    &&& zone::naive_read(value) matches Some(civil) ==> civil.nano < NANOS_PER_SECOND
}

/// Whether the dates of a record keep out of leap seconds.
pub open spec fn leap_free(record: RecordView) -> bool {
    &&& record.start matches Some((_, value)) ==> keeps_out_of_leap_seconds(value)
    &&& record.end matches Some((_, value)) ==> keeps_out_of_leap_seconds(value)
}

pub open spec fn all_leap_free(records: Seq<RecordView>) -> bool {
    forall|i: int| 0 <= i < records.len() ==> leap_free(#[trigger] records[i])
}

/// The views of a list of events or of a message.
pub open spec fn result_views(result: Result<Vec<CalendarEvent>, String>) -> Result<
    Seq<EventView>,
    Seq<char>,
> {
    match result {
        Ok(events) => Ok(event::event_views(events@)),
        Err(message) => Err(message@),
    }
}

proof fn lemma_unfolded_rest(a: Seq<Seq<char>>, b: Seq<Seq<char>>, rest: Seq<Seq<char>>)
    requires
        unfolded(a) == unfolded(b),
    ensures
        unfolded(a + rest) == unfolded(b + rest),
    decreases rest.len(),
{
    if rest.len() == 0 {
        assert(a + rest == a);
        assert(b + rest == b);
    } else {
        lemma_unfolded_rest(a, b, rest.drop_last());
        assert((a + rest).drop_last() == a + rest.drop_last());
        assert((b + rest).drop_last() == b + rest.drop_last());
    }
}

/// A line can be folded anywhere behind its start: the part behind the fold, set off by a space
/// or a tab, is joined to the part before it.
pub proof fn folding_makes_no_difference(
    before: Seq<Seq<char>>,
    head: Seq<char>,
    tail: Seq<char>,
    space: char,
    after: Seq<Seq<char>>,
)
    requires
        head.len() > 0,
        !is_continuation(head),
        space == ' ' || space == '\t',
    ensures
        unfolded(before.push(head).push(seq![space] + tail) + after) == unfolded(
            before.push(head + tail) + after,
        ),
{
    let folded = seq![space] + tail;
    let two = before.push(head).push(folded);
    let one = before.push(head + tail);
    assert(two.drop_last() == before.push(head));
    assert(before.push(head).drop_last() == before);
    assert(one.drop_last() == before);
    assert(folded.drop_first() == tail);
    assert((head + tail)[0] == head[0]);
    assert(unfolded(before.push(head)) == unfolded(before).push(head));
    assert(unfolded(before).push(head).drop_last() == unfolded(before));
    assert(unfolded(two) == unfolded(before).push(head + tail));
    assert(unfolded(two) == unfolded(one));
    lemma_unfolded_rest(two, one, after);
}

/// What stands outside of events makes no difference.
pub proof fn lines_outside_events_are_passed_over(lines: Seq<Seq<char>>, line: Seq<char>)
    requires
        read_lines(lines).open is None,
        line != "BEGIN:VEVENT"@,
    ensures
        read_lines(lines.push(line)) == read_lines(lines),
{
    assert(lines.push(line).drop_last() == lines);
}

/// A text without backslashes holds no escapes.
pub proof fn text_without_backslashes_stays(value: Seq<char>)
    requires
        !value.contains('\\'),
    ensures
        unescaped(value) == value,
{
    reveal_strlit("\\n");
    reveal_strlit("\\N");
    reveal_strlit("\\,");
    reveal_strlit("\\;");
    reveal_strlit("\\\\");
    text::lemma_nothing_to_replace(value, "\\n"@, " · "@);
    text::lemma_nothing_to_replace(value, "\\N"@, " · "@);
    text::lemma_nothing_to_replace(value, "\\,"@, ","@);
    text::lemma_nothing_to_replace(value, "\\;"@, ";"@);
    text::lemma_nothing_to_replace(value, "\\\\"@, "\\"@);
}

/// How far the escapes of a text have been undone.
pub enum Escapes {
    All,
    /// Those of commas are undone.
    NoCommas,
    /// Those of backslashes alone are left.
    Backslashes,
}

/// Whether a character is escaped.
pub open spec fn is_escaped(c: char, escapes: Escapes) -> bool {
    match escapes {
        Escapes::All => c == '\\' || c == ';' || c == ',',
        Escapes::NoCommas => c == '\\' || c == ';',
        Escapes::Backslashes => c == '\\',
    }
}

/// A text with a backslash before each of the characters that are escaped.
pub open spec fn escaped(value: Seq<char>, escapes: Escapes) -> Seq<char>
    decreases value.len(),
{
    if value.len() == 0 {
        seq![]
    } else if is_escaped(value[0], escapes) {
        seq!['\\', value[0]] + escaped(value.drop_first(), escapes)
    } else {
        seq![value[0]] + escaped(value.drop_first(), escapes)
    }
}

/// Whether a backslash stands before a character in a text.
pub open spec fn holds_escape(value: Seq<char>, letter: char) -> bool {
    exists|i: int| 0 <= i < value.len() - 1 && #[trigger] value[i] == '\\' && value[i + 1] == letter
}

proof fn lemma_first_two(s: Seq<char>, from: Seq<char>)
    requires
        from.len() == 2,
    ensures
        text::starts_with(s, from) <==> s.len() >= 2 && s[0] == from[0] && s[1] == from[1],
{
    if s.len() >= 2 {
        assert(s.take(2)[0] == s[0] && s.take(2)[1] == s[1]);
        if s[0] == from[0] && s[1] == from[1] {
            assert(s.take(2) == from);
        }
    }
}

proof fn lemma_step(c: char, rest: Seq<char>, from: Seq<char>, to: Seq<char>)
    requires
        from.len() == 2,
        c != from[0] || rest.len() == 0 || rest[0] != from[1],
    ensures
        text::replace_all(seq![c] + rest, from, to) == seq![c] + text::replace_all(rest, from, to),
{
    let s = seq![c] + rest;
    lemma_first_two(s, from);
    assert(s.drop_first() == rest);
}

proof fn lemma_pair(a: char, b: char, rest: Seq<char>, from: Seq<char>, to: Seq<char>)
    requires
        from.len() == 2,
        a != from[0] || b != from[1],
        b != from[0] || rest.len() == 0 || rest[0] != from[1],
    ensures
        text::replace_all(seq![a, b] + rest, from, to) == seq![a, b] + text::replace_all(
            rest,
            from,
            to,
        ),
{
    lemma_step(b, rest, from, to);
    lemma_step(a, seq![b] + rest, from, to);
    let replaced = text::replace_all(rest, from, to);
    assert(seq![a, b] + rest == seq![a] + (seq![b] + rest));
    assert(seq![a, b] + replaced == seq![a] + (seq![b] + replaced));
}

/// Escapes of other characters are left alone.
proof fn lemma_other_escapes(value: Seq<char>, letter: char, from: Seq<char>, to: Seq<char>)
    requires
        !holds_escape(value, letter),
        from == seq!['\\', letter],
        letter != ',' && letter != ';' && letter != '\\',
    ensures
        text::replace_all(escaped(value, Escapes::All), from, to) == escaped(value, Escapes::All),
    decreases value.len(),
{
    if value.len() > 0 {
        let rest = value.drop_first();
        assert forall|i: int| 0 <= i < rest.len() - 1 && #[trigger] rest[i] == '\\' implies rest[i
            + 1] != letter by {
            assert(value[i + 1] == '\\');
        }
        lemma_other_escapes(rest, letter, from, to);
        let tail = escaped(rest, Escapes::All);
        if value[0] == '\\' && rest.len() > 0 {
            assert(value[0] == '\\' && value[1] != letter);
        }
        if is_escaped(value[0], Escapes::All) {
            lemma_pair('\\', value[0], tail, from, to);
        } else {
            lemma_step(value[0], tail, from, to);
        }
    }
}

/// Undoing the escapes of one character leaves the others.
proof fn lemma_escape_undone(
    value: Seq<char>,
    letter: char,
    before: Escapes,
    after: Escapes,
    from: Seq<char>,
    to: Seq<char>,
)
    requires
        from == seq!['\\', letter],
        to == seq![letter],
        letter != '\\',
        is_escaped(letter, before),
        !is_escaped(letter, after),
        forall|c: char|
            c != letter ==> #[trigger] is_escaped(c, before) == is_escaped(c, after),
    ensures
        text::replace_all(escaped(value, before), from, to) == escaped(value, after),
    decreases value.len(),
{
    if value.len() > 0 {
        let rest = value.drop_first();
        lemma_escape_undone(rest, letter, before, after, from, to);
        let tail = escaped(rest, before);
        assert(is_escaped('\\', before));
        assert(tail.len() > 0 ==> tail[0] != letter);
        if value[0] == letter {
            let s = seq!['\\', letter] + tail;
            lemma_first_two(s, from);
            assert(s.skip(2) == tail);
        } else if is_escaped(value[0], before) {
            lemma_pair('\\', value[0], tail, from, to);
        } else {
            lemma_step(value[0], tail, from, to);
        }
    }
}

proof fn lemma_backslashes_undone(value: Seq<char>, from: Seq<char>, to: Seq<char>)
    requires
        from == seq!['\\', '\\'],
        to == seq!['\\'],
    ensures
        text::replace_all(escaped(value, Escapes::Backslashes), from, to) == value,
    decreases value.len(),
{
    if value.len() > 0 {
        let rest = value.drop_first();
        lemma_backslashes_undone(rest, from, to);
        let tail = escaped(rest, Escapes::Backslashes);
        assert(seq![value[0]] + rest == value);
        if value[0] == '\\' {
            let s = seq!['\\', '\\'] + tail;
            lemma_first_two(s, from);
            assert(s.skip(2) == tail);
        } else {
            lemma_step(value[0], tail, from, to);
        }
    } else {
        assert(value == Seq::<char>::empty());
    }
}

/// A text in which no backslash stands before an `n` or `N` reads back from the form in which its
/// backslashes, semicolons and commas are escaped.
pub proof fn escaped_text_reads_back(value: Seq<char>)
    requires
        !holds_escape(value, 'n'),
        !holds_escape(value, 'N'),
    ensures
        unescaped(escaped(value, Escapes::All)) == value,
{
    reveal_strlit("\\n");
    reveal_strlit("\\N");
    reveal_strlit("\\,");
    reveal_strlit("\\;");
    reveal_strlit("\\\\");
    reveal_strlit("\\");
    reveal_strlit(",");
    reveal_strlit(";");
    assert("\\n"@ == seq!['\\', 'n']);
    assert("\\N"@ == seq!['\\', 'N']);
    assert("\\,"@ == seq!['\\', ',']);
    assert("\\;"@ == seq!['\\', ';']);
    assert("\\\\"@ == seq!['\\', '\\']);
    assert("\\"@ == seq!['\\']);
    assert(","@ == seq![',']);
    assert(";"@ == seq![';']);
    lemma_other_escapes(value, 'n', "\\n"@, " · "@);
    lemma_other_escapes(value, 'N', "\\N"@, " · "@);
    lemma_escape_undone(value, ',', Escapes::All, Escapes::NoCommas, "\\,"@, ","@);
    lemma_escape_undone(value, ';', Escapes::NoCommas, Escapes::Backslashes, "\\;"@, ";"@);
    lemma_backslashes_undone(value, "\\\\"@, "\\"@);
}

fn unescape_chars(value: &[char]) -> (r: Vec<char>)
    ensures
        r@ == unescaped(value@),
{
    let break_mark = text::to_chars(" · ");
    let value = text::replaced(value, text::to_chars("\\n").as_slice(), break_mark.as_slice());
    let value = text::replaced(
        value.as_slice(),
        text::to_chars("\\N").as_slice(),
        break_mark.as_slice(),
    );
    let value = text::replaced(
        value.as_slice(),
        text::to_chars("\\,").as_slice(),
        text::to_chars(",").as_slice(),
    );
    let value = text::replaced(
        value.as_slice(),
        text::to_chars("\\;").as_slice(),
        text::to_chars(";").as_slice(),
    );
    text::replaced(
        value.as_slice(),
        text::to_chars("\\\\").as_slice(),
        text::to_chars("\\").as_slice(),
    )
}

/// Undoes the escapes of a text value.
pub fn unescape_ics(value: &str) -> (r: String)
    ensures
        r@ == unescaped(value@),
{
    text::to_text(unescape_chars(text::to_chars(value).as_slice()).as_slice())
}

/// Joins each continuation to the line it continues.
fn unfold(lines: &Vec<Vec<char>>) -> (r: Vec<Vec<char>>)
    ensures
        text::views(r@) == unfolded(text::views(lines@)),
{
    let ghost all = text::views(lines@);
    let mut out: Vec<Vec<char>> = Vec::new();
    let mut i: usize = 0;
    proof {
        assert(text::views(out@) == unfolded(all.take(0)));
    }
    while i < lines.len()
        invariant
            all == text::views(lines@),
            i <= lines@.len(),
            text::views(out@) == unfolded(all.take(i as int)),
        decreases lines@.len() - i,
    {
        let line = lines[i].as_slice();
        let ghost before = out@;
        proof {
            assert(all.take(i + 1).last() == line@);
            assert(all.take(i + 1).drop_last() == all.take(i as int));
        }
        if line.len() > 0 && (line[0] == ' ' || line[0] == '\t') {
            if let Some(mut previous) = out.pop() {
                let ghost start = previous@;
                let rest = slice_subrange(line, 1, line.len());
                text::push_all(&mut previous, rest);
                out.push(previous);
                proof {
                    assert(rest@ == line@.drop_first());
                    assert(text::views(before).last() == start);
                    assert(text::views(out@) == text::views(before).drop_last().push(
                        start + line@.drop_first(),
                    ));
                }
            } else {
                proof {
                    assert(text::views(before).len() == 0);
                }
            }
        } else {
            out.push(text::copy_chars(line));
            proof {
                assert(text::views(out@) == text::views(before).push(line@));
            }
        }
        i += 1;
    }
    proof {
        assert(all.take(i as int) == all);
    }
    out
}

impl EventRecord {
    fn new() -> (r: EventRecord)
        ensures
            r@ == blank_record(),
    {
        EventRecord {
            summary: String::new(),
            location: String::new(),
            start: None,
            end: None,
            recurrence: String::new(),
        }
    }

    fn take_property(&mut self, property: &[char], value: &[char])
        ensures
            final(self)@ == with_property(old(self)@, property@, value@),
    {
        let parts = text::pieces(property, ';');
        proof {
            assert(text::views(parts@).len() > 0);
            assert(text::views(parts@)[0] == parts@[0]@);
        }
        let name = parts[0].as_slice();
        if text::is_text(name, "SUMMARY") {
            self.summary = text::to_text(unescape_chars(value).as_slice());
        } else if text::is_text(name, "LOCATION") {
            self.location = text::to_text(unescape_chars(value).as_slice());
        } else if text::is_text(name, "DTSTART") {
            self.start = Some((text::to_text(property), text::to_text(value)));
        } else if text::is_text(name, "DTEND") {
            self.end = Some((text::to_text(property), text::to_text(value)));
        } else if text::is_text(name, "RRULE") {
            self.recurrence = text::to_text(value);
        }
    }
}

/// The event records of a file.
pub fn read_records(input: &str) -> (r: Vec<EventRecord>)
    ensures
        record_views(r@) == records_of(input@),
{
    let plain = text::replaced(
        text::to_chars(input).as_slice(),
        text::to_chars("\r\n").as_slice(),
        text::to_chars("\n").as_slice(),
    );
    let lines = unfold(&text::line_list(plain.as_slice()));
    let ghost all = text::views(lines@);
    let mut open: Option<EventRecord> = None;
    let mut finished: Vec<EventRecord> = Vec::new();
    let mut i: usize = 0;
    proof {
        assert(record_views(finished@) == Seq::<RecordView>::empty());
    }
    while i < lines.len()
        invariant
            all == text::views(lines@),
            i <= lines@.len(),
            read_lines(all.take(i as int)) == (Reading {
                open: match open {
                    Some(record) => Some(record@),
                    None => None,
                },
                finished: record_views(finished@),
            }),
        decreases lines@.len() - i,
    {
        let line = lines[i].as_slice();
        let ghost before = finished@;
        proof {
            assert(all.take(i + 1).last() == line@);
            assert(all.take(i + 1).drop_last() == all.take(i as int));
        }
        if text::is_text(line, "BEGIN:VEVENT") {
            open = Some(EventRecord::new());
        } else if let Some(mut record) = open.take() {
            if text::is_text(line, "END:VEVENT") {
                let ghost said = record@;
                finished.push(record);
                proof {
                    assert(record_views(finished@) == record_views(before).push(said));
                }
            } else {
                if let Some((property, value)) = text::cut_once(line, ':') {
                    record.take_property(property, value);
                }
                open = Some(record);
            }
        }
        i += 1;
    }
    proof {
        assert(all.take(i as int) == all);
    }
    finished
}

/// The event of a record whose dates have been read.
pub fn event_of_record(record: &EventRecord, start: Option<UtcTime>, end: Option<UtcTime>) -> (r:
    Option<CalendarEvent>)
    ensures
        match r {
            Some(event) => record_event(record@, start, end) == Some(event@),
            None => record_event(record@, start, end) is None,
        },
{
    if let (Some(start), Some(end)) = (start, end) {
        if start.before(&end) {
            let summary = if record.summary.as_str().is_empty() {
                "Untitled class".to_owned()
            } else {
                record.summary.clone()
            };
            return Some(
                CalendarEvent {
                    calendar_index: 0,
                    calendar_name: String::new(),
                    summary,
                    location: record.location.clone(),
                    start,
                    end,
                },
            );
        }
    }
    None
}

/// The events that a record stands for; `None` if they lie outside of what `chrono` can represent.
pub fn events_of_record(record: &EventRecord, clock: &mut LocalClock) -> (r: Option<
    Vec<CalendarEvent>,
>)
    requires
        old(clock).valid(),
    ensures
        final(clock).valid(),
        old(clock)@.submap_of(final(clock)@),
        forall|zone: Zone| #[trigger]
            final(clock)@.submap_of(zone) ==> recurrence::optional_views(r) == record_events(
                record@,
                zone,
            ),
        r matches Some(events) ==> event::all_valid(event::event_views(events@)),
        r matches Some(events) ==> (leap_free(record@) ==> event::all_end_later(
            event::event_views(events@),
        )),
{
    let mut none: Vec<CalendarEvent> = Vec::new();
    proof {
        assert(event::event_views(none@) == Seq::<EventView>::empty());
    }
    if let (Some((property, value)), Some((end_property, end_value))) = (
        &record.start,
        &record.end,
    ) {
        let start = zone::parse_ics_datetime(property.as_str(), value.as_str(), clock);
        let ghost first = clock@;
        let end = zone::parse_ics_datetime(end_property.as_str(), end_value.as_str(), clock);
        let ghost second = clock@;
        proof {
            zone::lemma_more_answers(old(clock)@, first, second);
            assert forall|zone: Zone| #[trigger] second.submap_of(zone) implies start
                == zone::ics_time(property@, value@, zone) && end == zone::ics_time(
                end_property@,
                end_value@,
                zone,
            ) by {
                zone::lemma_more_answers(first, second, zone);
            }
        }
        match event_of_record(record, start, end) {
            Some(event) => {
                if record.recurrence.as_str().is_empty() {
                    let ghost said = event@;
                    none.push(event);
                    proof {
                        assert(event::event_views(none@) == seq![said]);
                    }
                    Some(none)
                } else {
                    let ghost said = event@;
                    let events = recurrence::expand_weekly_event(
                        event,
                        property.as_str(),
                        value.as_str(),
                        record.recurrence.as_str(),
                        clock,
                    );
                    proof {
                        zone::lemma_more_answers(old(clock)@, second, clock@);
                        assert forall|zone: Zone| #[trigger] clock@.submap_of(
                            zone,
                        ) implies recurrence::optional_views(events) == record_events(
                            record@,
                            zone,
                        ) by {
                            zone::lemma_more_answers(second, clock@, zone);
                        }
                    }
                    events
                }
            },
            None => Some(none),
        }
    } else {
        Some(none)
    }
}

fn append_events(all: &mut Vec<CalendarEvent>, events: Vec<CalendarEvent>)
    ensures
        event::event_views(final(all)@) == event::event_views(old(all)@) + event::event_views(
            events@,
        ),
{
    let mut events = events;
    let ghost before = all@;
    let ghost more = events@;
    all.append(&mut events);
    proof {
        assert(event::event_views(all@) == event::event_views(before) + event::event_views(more));
    }
}

/// The events that a list of records stands for; `None` if some lie outside of what `chrono` can
/// represent.
pub fn events_of_records(records: &Vec<EventRecord>, clock: &mut LocalClock) -> (r: Option<
    Vec<CalendarEvent>,
>)
    requires
        old(clock).valid(),
    ensures
        final(clock).valid(),
        old(clock)@.submap_of(final(clock)@),
        forall|zone: Zone| #[trigger]
            final(clock)@.submap_of(zone) ==> recurrence::optional_views(r) == all_events(
                record_views(records@),
                zone,
            ),
        r matches Some(events) ==> event::all_valid(event::event_views(events@)),
        r matches Some(events) ==> (all_leap_free(record_views(records@)) ==> event::all_end_later(
            event::event_views(events@),
        )),
{
    let ghost all = record_views(records@);
    let ghost begun = clock@;
    let mut out: Vec<CalendarEvent> = Vec::new();
    let mut i: usize = 0;
    proof {
        assert(event::event_views(out@) == Seq::<EventView>::empty());
    }
    while i < records.len()
        invariant
            all == record_views(records@),
            begun == old(clock)@,
            i <= records@.len(),
            clock.valid(),
            begun.submap_of(clock@),
            forall|zone: Zone| #[trigger]
                clock@.submap_of(zone) ==> all_events(all.take(i as int), zone) == Some(
                    event::event_views(out@),
                ),
            event::all_valid(event::event_views(out@)),
            all_leap_free(all) ==> event::all_end_later(event::event_views(out@)),
        decreases records@.len() - i,
    {
        let ghost asked = clock@;
        let events = events_of_record(&records[i], clock);
        proof {
            zone::lemma_more_answers(begun, asked, clock@);
            assert(all[i as int] == records@[i as int]@);
            assert(all.take(i + 1).last() == records@[i as int]@);
            assert(all.take(i + 1).drop_last() == all.take(i as int));
            assert forall|zone: Zone| #[trigger] clock@.submap_of(zone) implies all_events(
                all.take(i + 1),
                zone,
            ) == (match recurrence::optional_views(events) {
                Some(more) => Some(event::event_views(out@) + more),
                None => None,
            }) by {
                zone::lemma_more_answers(asked, clock@, zone);
            }
        }
        match events {
            Some(events) => {
                append_events(&mut out, events);
            },
            None => {
                proof {
                    assert forall|zone: Zone| #[trigger] clock@.submap_of(zone) implies all_events(
                        all,
                        zone,
                    ) is None by {
                        lemma_lost_events(all, i + 1, zone);
                    }
                }
                return None;
            },
        }
        i += 1;
    }
    proof {
        assert(all.take(i as int) == all);
    }
    Some(out)
}

proof fn lemma_lost_events(records: Seq<RecordView>, n: int, zone: Zone)
    requires
        0 <= n <= records.len(),
        all_events(records.take(n), zone) is None,
    ensures
        all_events(records, zone) is None,
    decreases records.len() - n,
{
    if n < records.len() {
        assert(records.take(n + 1).drop_last() == records.take(n));
        lemma_lost_events(records, n + 1, zone);
    } else {
        assert(records.take(n) == records);
    }
}

proof fn lemma_still_valid(events: Seq<EventView>, cutoff: UtcTime)
    requires
        event::all_valid(events),
    ensures
        event::all_valid(event::by_start(not_ended(events, cutoff))),
{
    let keep = |event: EventView| !event.end.precedes(cutoff);
    let kept = not_ended(events, cutoff);
    assert forall|i: int| 0 <= i < kept.len() implies (#[trigger] kept[i]).valid() by {
        assert(kept.contains(kept[i]));
        events.lemma_filter_contains_rev(keep, kept[i]);
    }
    event::lemma_ordering_keeps_valid(kept);
}

/// A calendar shows exactly the events of its file that have not ended more than a week ago, in
/// the order of their start. If there are none, it says so.
pub proof fn recent_events_are_shown_in_order(events: Seq<EventView>, now: UtcTime)
    ensures
        match shown(events, now) {
            Ok(list) => {
                &&& event::in_order(list)
                &&& list.to_multiset() == not_ended(events, week_before(now)).to_multiset()
                &&& forall|e: EventView| #[trigger]
                    list.contains(e) <==> events.contains(e) && !e.end.precedes(week_before(now))
            },
            Err(_) => forall|i: int|
                0 <= i < events.len() ==> (#[trigger] events[i]).end.precedes(week_before(now)),
        },
{
    broadcast use vstd::seq_lib::group_to_multiset_ensures;

    let cutoff = week_before(now);
    let keep = |event: EventView| !event.end.precedes(cutoff);
    let kept = not_ended(events, cutoff);
    let list = event::by_start(kept);
    event::ordering_orders_and_keeps_events(kept);
    assert forall|e: EventView| #[trigger] list.contains(e) <==> events.contains(e)
        && !e.end.precedes(cutoff) by {
        assert(list.contains(e) <==> list.to_multiset().contains(e));
        assert(kept.contains(e) <==> kept.to_multiset().contains(e));
        if kept.contains(e) {
            let k = choose|k: int| 0 <= k < kept.len() && kept[k] == e;
            events.lemma_filter_pred(keep, k);
            events.lemma_filter_contains_rev(keep, e);
        }
        if events.contains(e) && !e.end.precedes(cutoff) {
            let k = choose|k: int| 0 <= k < events.len() && events[k] == e;
            events.lemma_filter_contains(keep, k);
        }
    }
    if list.len() == 0 {
        assert forall|i: int| 0 <= i < events.len() implies (#[trigger] events[i]).end.precedes(
            cutoff,
        ) by {
            assert(events.contains(events[i]));
            if !events[i].end.precedes(cutoff) {
                assert(list.contains(events[i]));
            }
        }
    }
}

proof fn lemma_still_end_later(events: Seq<EventView>, now: UtcTime)
    requires
        event::all_end_later(events),
    ensures
        shown(events, now) matches Ok(list) ==> event::all_end_later(list),
{
    recent_events_are_shown_in_order(events, now);
    if let Ok(list) = shown(events, now) {
        assert forall|i: int| 0 <= i < list.len() implies (#[trigger] list[i]).start.precedes(
            list[i].end,
        ) by {
            assert(list.contains(list[i]));
            let k = choose|k: int| 0 <= k < events.len() && events[k] == list[i];
            assert(events[k].start.precedes(events[k].end));
        }
    }
}

proof fn lemma_line_feed_stays(s: Seq<char>, from: Seq<char>, to: Seq<char>)
    requires
        from == seq!['\r', '\n'],
        to == seq!['\n'],
        s.len() > 0,
        s.last() == '\n',
    ensures
        text::replace_all(s, from, to).len() > 0,
        text::replace_all(s, from, to).last() == '\n',
    decreases s.len(),
{
    lemma_first_two(s, from);
    let (rest, head) = if text::starts_with(s, from) {
        (s.skip(2), to)
    } else {
        (s.drop_first(), seq![s[0]])
    };
    if rest.len() > 0 {
        assert(rest.last() == s.last());
        lemma_line_feed_stays(rest, from, to);
        let replaced = text::replace_all(rest, from, to);
        assert((head + replaced).last() == replaced.last());
    } else {
        assert(text::replace_all(rest, from, to) == Seq::<char>::empty());
        assert(head + Seq::<char>::empty() == head);
        assert(s.len() == 1 ==> s[0] == s.last());
    }
}

proof fn lemma_line_feeds_join(a: Seq<char>, b: Seq<char>, from: Seq<char>, to: Seq<char>)
    requires
        from == seq!['\r', '\n'],
        to == seq!['\n'],
        a.len() > 0 ==> a.last() == '\n',
    ensures
        text::replace_all(a + b, from, to) == text::replace_all(a, from, to) + text::replace_all(
            b,
            from,
            to,
        ),
    decreases a.len(),
{
    if a.len() == 0 {
        assert(a + b == b);
        assert(text::replace_all(a, from, to) == Seq::<char>::empty());
        assert(Seq::<char>::empty() + text::replace_all(b, from, to) == text::replace_all(
            b,
            from,
            to,
        ));
    } else {
        lemma_first_two(a, from);
        lemma_first_two(a + b, from);
        assert(a.len() == 1 ==> a[0] == a.last());
        if text::starts_with(a, from) {
            let rest = a.skip(2);
            assert(rest.len() > 0 ==> rest.last() == a.last());
            lemma_line_feeds_join(rest, b, from, to);
            assert((a + b).skip(2) == rest + b);
            let (x, y) = (text::replace_all(rest, from, to), text::replace_all(b, from, to));
            assert(to + (x + y) == (to + x) + y);
        } else {
            let rest = a.drop_first();
            assert(rest.len() > 0 ==> rest.last() == a.last());
            lemma_line_feeds_join(rest, b, from, to);
            assert((a + b).drop_first() == rest + b);
            let (x, y) = (text::replace_all(rest, from, to), text::replace_all(b, from, to));
            assert(seq![a[0]] + (x + y) == (seq![a[0]] + x) + y);
        }
    }
}

proof fn lemma_index_join(a: Seq<char>, b: Seq<char>, c: char)
    ensures
        text::index_of(a, c) <= a.len(),
        a.len() > 0 && a.last() == c ==> text::index_of(a, c) < a.len(),
        text::index_of(a, c) < a.len() ==> text::index_of(a + b, c) == text::index_of(a, c),
    decreases a.len(),
{
    if a.len() > 0 && a[0] != c {
        let rest = a.drop_first();
        assert(rest.len() > 0 ==> rest.last() == a.last());
        assert(a.len() == 1 ==> a[0] == a.last());
        lemma_index_join(rest, b, c);
        assert((a + b).drop_first() == rest + b);
    }
}

proof fn lemma_lines_join(a: Seq<char>, b: Seq<char>)
    requires
        a.len() > 0 ==> a.last() == '\n',
    ensures
        text::lines(a + b) == text::lines(a) + text::lines(b),
    decreases a.len(),
{
    if a.len() == 0 {
        assert(a + b == b);
        assert(text::lines(a) + text::lines(b) == text::lines(b));
    } else {
        lemma_index_join(a, b, '\n');
        let i = text::index_of(a, '\n') as int;
        let rest = a.skip(i + 1);
        assert(rest.len() > 0 ==> rest.last() == a.last());
        lemma_lines_join(rest, b);
        assert((a + b).skip(i + 1) == rest + b);
        assert((a + b).take(i) == a.take(i));
        let head = seq![text::without_carriage_return(a.take(i))];
        assert(head + (text::lines(rest) + text::lines(b)) == (head + text::lines(rest))
            + text::lines(b));
    }
}

proof fn lemma_unfolded_join(a: Seq<Seq<char>>, b: Seq<Seq<char>>)
    requires
        b.len() > 0 ==> !is_continuation(b[0]),
    ensures
        unfolded(a + b) == unfolded(a) + unfolded(b),
        b.len() > 0 ==> unfolded(b).len() > 0,
    decreases b.len(),
{
    if b.len() == 0 {
        assert(a + b == a);
        assert(unfolded(a) + unfolded(b) == unfolded(a));
    } else {
        let front = b.drop_last();
        assert(front.len() > 0 ==> front[0] == b[0]);
        lemma_unfolded_join(a, front);
        assert((a + b).drop_last() == a + front);
        assert((a + b).last() == b.last());
        let (x, y) = (unfolded(a), unfolded(front));
        if !is_continuation(b.last()) {
            assert((x + y).push(b.last()) == x + y.push(b.last()));
        } else {
            assert(front.len() > 0);
            let line = y.last() + b.last().drop_first();
            assert((x + y).last() == y.last());
            assert((x + y).drop_last().push(line) == x + y.drop_last().push(line));
        }
    }
}

proof fn lemma_readings_join(a: Seq<Seq<char>>, b: Seq<Seq<char>>)
    requires
        read_lines(a).open is None,
    ensures
        read_lines(a + b).open == read_lines(b).open,
        read_lines(a + b).finished == read_lines(a).finished + read_lines(b).finished,
    decreases b.len(),
{
    if b.len() == 0 {
        assert(a + b == a);
        assert(read_lines(a).finished + read_lines(b).finished == read_lines(a).finished);
    } else {
        let front = b.drop_last();
        lemma_readings_join(a, front);
        assert((a + b).drop_last() == a + front);
        assert((a + b).last() == b.last());
        let (x, y) = (read_lines(a).finished, read_lines(front).finished);
        if let Some(record) = read_lines(front).open {
            assert((x + y).push(record) == x + y.push(record));
        }
    }
}

proof fn lemma_events_join(a: Seq<RecordView>, b: Seq<RecordView>, zone: Zone)
    ensures
        all_events(a + b, zone) == (match (all_events(a, zone), all_events(b, zone)) {
            (Some(x), Some(y)) => Some(x + y),
            _ => None,
        }),
    decreases b.len(),
{
    if b.len() == 0 {
        assert(a + b == a);
        if let Some(x) = all_events(a, zone) {
            assert(x + Seq::<EventView>::empty() == x);
        }
    } else {
        let front = b.drop_last();
        lemma_events_join(a, front, zone);
        assert((a + b).drop_last() == a + front);
        assert((a + b).last() == b.last());
        if let (Some(x), Some(y), Some(z)) = (
            all_events(a, zone),
            all_events(front, zone),
            record_events(b.last(), zone),
        ) {
            assert((x + y) + z == x + (y + z));
        }
    }
}

/// Whether a file ends in a whole line, and within no event.
pub open spec fn ends_outside_events(input: Seq<char>) -> bool {
    &&& input.len() > 0
    &&& input.last() == '\n'
    &&& read_lines(content_lines(input)).open is None
}

/// Whether a file does not start with the continuation of a line.
pub open spec fn starts_a_line(input: Seq<char>) -> bool {
    !is_continuation(input)
}

proof fn lemma_first_line(input: Seq<char>, from: Seq<char>, to: Seq<char>)
    requires
        starts_a_line(input),
        from == seq!['\r', '\n'],
        to == seq!['\n'],
    ensures
        ({
            let lines = text::lines(text::replace_all(input, from, to));
            lines.len() > 0 ==> !is_continuation(lines[0])
        }),
{
    let plain = text::replace_all(input, from, to);
    lemma_index_join(plain, seq![], '\n');
    if input.len() > 0 {
        assert(plain[0] == input[0] || plain[0] == '\n');
    }
    if plain.len() > 0 {
        let i = text::index_of(plain, '\n') as int;
        if 0 < i < plain.len() {
            assert(plain.take(i)[0] == plain[0]);
            assert(plain.take(i).len() > 1 ==> plain.take(i).drop_last()[0] == plain[0]);
        }
    }
}

proof fn lemma_files_join(a: Seq<char>, b: Seq<char>)
    requires
        a.len() > 0,
        a.last() == '\n',
        starts_a_line(b),
    ensures
        content_lines(a + b) == content_lines(a) + content_lines(b),
{
    reveal_strlit("\r\n");
    reveal_strlit("\n");
    let (from, to) = ("\r\n"@, "\n"@);
    assert(from == seq!['\r', '\n']);
    assert(to == seq!['\n']);
    lemma_line_feeds_join(a, b, from, to);
    lemma_line_feed_stays(a, from, to);
    let (x, y) = (text::replace_all(a, from, to), text::replace_all(b, from, to));
    lemma_lines_join(x, y);
    lemma_first_line(b, from, to);
    lemma_unfolded_join(text::lines(x), text::lines(y));
}

/// The events that a calendar shows, none if it says that something is wrong.
pub open spec fn shown_events(result: Result<Seq<EventView>, Seq<char>>) -> Seq<EventView> {
    match result {
        Ok(events) => events,
        Err(_) => seq![],
    }
}

/// Two files set one after the other, the first ending outside of events, hold the records of
/// both, and show the events of both, in the order of their start. A file that shows nothing on
/// its own adds nothing. The events of both lie within what can be represented.
pub proof fn joined_files_hold_the_events_of_both(
    a: Seq<char>,
    b: Seq<char>,
    now: UtcTime,
    zone: Zone,
)
    requires
        ends_outside_events(a),
        starts_a_line(b),
        all_events(records_of(a), zone) is Some,
        all_events(records_of(b), zone) is Some,
    ensures
        records_of(a + b) == records_of(a) + records_of(b),
        shown_events(parsed(a + b, now, zone)) == event::by_start(
            shown_events(parsed(a, now, zone)) + shown_events(parsed(b, now, zone)),
        ),
{
    let cutoff = week_before(now);
    let keep = |event: EventView| !event.end.precedes(cutoff);
    lemma_files_join(a, b);
    lemma_readings_join(content_lines(a), content_lines(b));
    lemma_events_join(records_of(a), records_of(b), zone);
    let x = all_events(records_of(a), zone).unwrap();
    let y = all_events(records_of(b), zone).unwrap();
    Seq::filter_distributes_over_add(x, y, keep);
    event::ordering_parts_first_makes_no_difference(not_ended(x, cutoff), not_ended(y, cutoff));
    lemma_shown_events(x, now);
    lemma_shown_events(y, now);
    lemma_shown_events(x + y, now);
}

proof fn lemma_shown_events(events: Seq<EventView>, now: UtcTime)
    ensures
        shown_events(shown(events, now)) == event::by_start(not_ended(events, week_before(now))),
{
    let list = event::by_start(not_ended(events, week_before(now)));
    if list.len() == 0 {
        assert(list == Seq::<EventView>::empty());
    }
}

/// A file whose last line ends an event ends outside of events.
pub proof fn end_of_event_ends_outside_events(head: Seq<char>)
    ensures
        ends_outside_events(head + "\nEND:VEVENT\n"@),
{
    reveal_strlit("\nEND:VEVENT\n");
    reveal_strlit("END:VEVENT");
    reveal_strlit("BEGIN:VEVENT");
    reveal_strlit("\r\n");
    let input = head + "\nEND:VEVENT\n"@;
    let first = head.push('\n');
    let line = "END:VEVENT"@;
    let tail = line.push('\n');
    assert(input =~= first + tail);
    assert(!is_continuation(tail));
    lemma_files_join(first, tail);
    assert("\r\n"@[0] == '\r');
    assert(!tail.contains('\r'));
    text::lemma_nothing_to_replace(tail, "\r\n"@, "\n"@);
    lemma_line_end(line, line.len() as int);
    assert(tail.take(line.len() as int) == line);
    assert(tail.skip(line.len() as int + 1) == Seq::<char>::empty());
    assert(line.last() == 'T');
    assert(text::lines(Seq::<char>::empty()) == Seq::<Seq<char>>::empty());
    assert(seq![line] + Seq::<Seq<char>>::empty() == seq![line]);
    assert(text::lines(tail) == seq![line]);
    assert(seq![line].drop_last() == Seq::<Seq<char>>::empty());
    assert(!is_continuation(line));
    assert(unfolded(Seq::<Seq<char>>::empty()).push(line) == seq![line]);
    assert(unfolded(seq![line]) == seq![line]);
    let lines = content_lines(first) + seq![line];
    assert(content_lines(input) == lines);
    assert(lines.drop_last() == content_lines(first));
    assert(lines.last() == line);
    assert(line != "BEGIN:VEVENT"@);
}

proof fn lemma_line_end(line: Seq<char>, n: int)
    requires
        n == line.len(),
        forall|i: int| 0 <= i < line.len() ==> line[i] != '\n',
    ensures
        text::index_of(line.push('\n'), '\n') == n,
    decreases n,
{
    if n > 0 {
        assert(line.push('\n')[0] == line[0]);
        assert(line.push('\n').drop_first() == line.drop_first().push('\n'));
        lemma_line_end(line.drop_first(), n - 1);
    }
}

/// A record that stands for no events disturbs nothing in the events of the others.
pub proof fn empty_records_disturb_nothing(
    before: Seq<RecordView>,
    record: RecordView,
    after: Seq<RecordView>,
    zone: Zone,
)
    requires
        record_events(record, zone) == Some(Seq::<EventView>::empty()),
    ensures
        all_events(before.push(record) + after, zone) == all_events(before + after, zone),
{
    lemma_events_join(before.push(record), after, zone);
    lemma_events_join(before, after, zone);
    assert(before.push(record).drop_last() == before);
    if let Some(x) = all_events(before, zone) {
        assert(x + Seq::<EventView>::empty() == x);
    }
}

/// The events that have not ended before a point in time.
fn keep_not_ended(events: Vec<CalendarEvent>, cutoff: UtcTime) -> (r: Vec<CalendarEvent>)
    ensures
        event::event_views(r@) == not_ended(event::event_views(events@), cutoff),
{
    let ghost all = event::event_views(events@);
    let ghost keep = |event: EventView| !event.end.precedes(cutoff);
    let mut out: Vec<CalendarEvent> = Vec::new();
    proof {
        reveal(Seq::filter);
        assert(event::event_views(out@) == all.take(0).filter(keep));
    }
    for event in iter: events
        invariant
            iter.seq() == events@,
            all == event::event_views(events@),
            keep == (|event: EventView| !event.end.precedes(cutoff)),
            event::event_views(out@) == all.take(iter.index() as int).filter(keep),
    {
        let ghost before = out@;
        let ghost said = event@;
        proof {
            reveal(Seq::filter);
            let n = iter.index();
            assert(all.take(n + 1).drop_last() == all.take(n as int));
            assert(all.take(n + 1).last() == said);
        }
        if !event.end.before(&cutoff) {
            out.push(event);
            proof {
                assert(event::event_views(out@) == event::event_views(before).push(said));
            }
        }
    }
    proof {
        assert(all.take(all.len() as int) == all);
    }
    out
}

/// What a calendar shows of the events in its file.
pub fn show_events(events: Vec<CalendarEvent>, now: UtcTime) -> (r: Result<
    Vec<CalendarEvent>,
    String,
>)
    requires
        now.valid(),
        now.ordinary(),
        now.seconds >= MIN_SECONDS + HISTORY_SECONDS,
    ensures
        result_views(r) == shown(event::event_views(events@), now),
        event::all_valid(event::event_views(events@)) ==> (r matches Ok(kept) ==> event::all_valid(
            event::event_views(kept@),
        )),
        event::all_end_later(event::event_views(events@)) ==> (r matches Ok(kept)
            ==> event::all_end_later(event::event_views(kept@))),
{
    let ghost all = event::event_views(events@);
    let cutoff = match time::time_after(now, Span { seconds: -HISTORY_SECONDS, nanos: 0 }) {
        Some(cutoff) => cutoff,
        None => now,
    };
    proof {
        assert(cutoff == week_before(now));
        if event::all_valid(all) {
            lemma_still_valid(all, cutoff);
        }
        if event::all_end_later(all) {
            lemma_still_end_later(all, now);
        }
    }
    let kept = event::sort_by_start(keep_not_ended(events, cutoff));
    if kept.len() == 0 {
        Err("No current or upcoming timed events found in this calendar".to_owned())
    } else {
        Ok(kept)
    }
}

/// What a calendar shows of its file at a point in time.
pub fn parse_ics_at(input: &str, now: UtcTime, clock: &mut LocalClock) -> (r: Result<
    Vec<CalendarEvent>,
    String,
>)
    requires
        now.valid(),
        now.ordinary(),
        now.seconds >= MIN_SECONDS + HISTORY_SECONDS,
        old(clock).valid(),
    ensures
        final(clock).valid(),
        old(clock)@.submap_of(final(clock)@),
        forall|zone: Zone| #[trigger]
            final(clock)@.submap_of(zone) ==> result_views(r) == parsed(input@, now, zone),
        r matches Ok(events) ==> event::all_valid(event::event_views(events@)),
        r matches Ok(events) ==> (all_leap_free(records_of(input@)) ==> event::all_end_later(
            event::event_views(events@),
        )),
{
    let records = read_records(input);
    match events_of_records(&records, clock) {
        Some(events) => show_events(events, now),
        None => Err("A recurring event reaches beyond the dates that can be represented".to_owned()),
    }
}

/// What a calendar shows of its file now, the machine's clock being asked for the times that the
/// file gives in no zone.
pub fn parse_ics(input: &str) -> (r: Result<Vec<CalendarEvent>, String>)
    ensures
        exists|now: UtcTime, zone: Zone|
            #![trigger parsed(input@, now, zone)]
            {
                &&& now.valid() && now.ordinary() && now.seconds >= 0
                &&& zone::plausible(zone)
                &&& result_views(r) == parsed(input@, now, zone)
            },
        r matches Ok(events) ==> event::all_valid(event::event_views(events@)),
        r matches Ok(events) ==> (all_leap_free(records_of(input@)) ==> event::all_end_later(
            event::event_views(events@),
        )),
{
    let now = time::utc_now();
    let mut clock = LocalClock::new();
    let r = parse_ics_at(input, now, &mut clock);
    proof {
        assert(clock@.submap_of(clock@));
        assert(result_views(r) == parsed(input@, now, clock@));
    }
    r
}

/// Whether a property has a name: the text before its first semicolon, or all of it.
pub open spec fn is_named(property: Seq<char>, name: Seq<char>) -> bool {
    &&& property.len() >= name.len()
    &&& property.take(name.len() as int) == name
    &&& property.len() == name.len() || property[name.len() as int] == ';'
}

proof fn lemma_named(property: Seq<char>, name: Seq<char>)
    requires
        forall|i: int| 0 <= i < name.len() ==> name[i] != ';',
    ensures
        (text::split(property, ';')[0] == name) == is_named(property, name),
{
    let i = text::index_of(property, ';') as int;
    text::lemma_first_found(property, ';');
    if i < property.len() {
        assert(text::split(property, ';')[0] == property.take(i));
        if is_named(property, name) {
            assert forall|j: int| 0 <= j < name.len() implies property[j] != ';' by {
                assert(property.take(name.len() as int)[j] == name[j]);
            }
            if name.len() < i {
                assert(property[name.len() as int] != ';');
            }
            assert(i == name.len());
        }
    } else {
        assert(property.take(property.len() as int) == property);
    }
}

/// A property sets the one field of its event that goes by its name and leaves the others as they
/// were. One with any other name leaves them all: a property that is not named `DTSTART` gives no
/// start, however much its name is like it.
pub proof fn a_property_sets_the_field_of_its_name(
    record: RecordView,
    property: Seq<char>,
    value: Seq<char>,
)
    ensures
        with_property(record, property, value).summary == (if is_named(property, "SUMMARY"@) {
            unescaped(value)
        } else {
            record.summary
        }),
        with_property(record, property, value).location == (if is_named(property, "LOCATION"@) {
            unescaped(value)
        } else {
            record.location
        }),
        with_property(record, property, value).start == (if is_named(property, "DTSTART"@) {
            Some((property, value))
        } else {
            record.start
        }),
        with_property(record, property, value).end == (if is_named(property, "DTEND"@) {
            Some((property, value))
        } else {
            record.end
        }),
        with_property(record, property, value).recurrence == (if is_named(property, "RRULE"@) {
            value
        } else {
            record.recurrence
        }),
{
    reveal_strlit("SUMMARY");
    reveal_strlit("LOCATION");
    reveal_strlit("DTSTART");
    reveal_strlit("DTEND");
    reveal_strlit("RRULE");
    lemma_named(property, "SUMMARY"@);
    lemma_named(property, "LOCATION"@);
    lemma_named(property, "DTSTART"@);
    lemma_named(property, "DTEND"@);
    lemma_named(property, "RRULE"@);
    assert("SUMMARY"@[0] == 'S');
    assert("LOCATION"@[0] == 'L');
    assert("DTSTART"@[2] == 'S');
    assert("DTSTART"@[0] == 'D');
    assert("DTEND"@[2] == 'E');
    assert("DTEND"@[0] == 'D');
    assert("RRULE"@[0] == 'R');
}

/// Whether a content line gives a property of a name: the name stands at its start, and behind it
/// a colon, or a semicolon with a colon somewhere behind.
pub open spec fn gives(line: Seq<char>, name: Seq<char>) -> bool {
    &&& line.len() > name.len()
    &&& line.take(name.len() as int) == name
    &&& line[name.len() as int] == ':' || (line[name.len() as int] == ';' && line.contains(':'))
}

/// Whether a line is the last of its list that gives a property of a name.
pub open spec fn gives_last(lines: Seq<Seq<char>>, k: int, name: Seq<char>) -> bool {
    &&& 0 <= k < lines.len()
    &&& gives(lines[k], name)
    &&& forall|j: int| k < j < lines.len() ==> !gives(#[trigger] lines[j], name)
}

/// Whether no line gives a property of a name.
pub open spec fn none_gives(lines: Seq<Seq<char>>, name: Seq<char>) -> bool {
    forall|j: int| 0 <= j < lines.len() ==> !gives(#[trigger] lines[j], name)
}

/// Whether a line is made of a property and its value, with the first colon between them.
pub open spec fn is_made_of(line: Seq<char>, property: Seq<char>, value: Seq<char>) -> bool {
    line == property + seq![':'] + value && !property.contains(':')
}

proof fn lemma_made_of(line: Seq<char>, property: Seq<char>, value: Seq<char>)
    requires
        is_made_of(line, property, value),
    ensures
        text::split_once(line, ':') == Some((property, value)),
{
    assert(line == property.push(':') + value);
    text::lemma_index_before(property, value, ':');
    assert forall|i: int| 0 <= i < property.len() implies property[i] != ':' by {
        assert(property.contains(property[i]));
    }
    text::lemma_not_found(property, ':');
    assert(line.take(property.len() as int) == property);
    assert(line.skip(property.len() as int + 1) == value);
}

proof fn lemma_gives(line: Seq<char>, name: Seq<char>)
    requires
        forall|i: int| 0 <= i < name.len() ==> name[i] != ':' && name[i] != ';',
    ensures
        gives(line, name) <==> (text::split_once(line, ':') matches Some((property, _))
            && is_named(property, name)),
{
    let i = text::index_of(line, ':') as int;
    let n = name.len() as int;
    text::lemma_first_found(line, ':');
    if gives(line, name) {
        if line[n] == ':' {
            assert(line.contains(line[n]));
        }
        let k = choose|k: int| 0 <= k < line.len() && line[k] == ':';
        assert(i < line.len());
        assert forall|j: int| 0 <= j < n implies line[j] != ':' by {
            assert(line.take(n)[j] == name[j]);
        }
        assert(i >= n);
        let property = line.take(i);
        assert(property.take(n) == line.take(n));
        if i > n {
            assert(line[n] != ':');
            assert(property[n] == ';');
        }
        assert(is_named(property, name));
    }
    if i < line.len() && is_named(line.take(i), name) {
        let property = line.take(i);
        assert(line.contains(line[i]));
        assert(line.take(n) == property.take(n));
        if property.len() > n {
            assert(line[n] == property[n]);
        }
        assert(gives(line, name));
    }
}

/// Whether the fields of a record are those that lines give: each that of the last line that gives
/// it, and nothing where none does. `k` is the position of a line that is made of a property and
/// its value.
pub open spec fn fields_given(
    record: RecordView,
    lines: Seq<Seq<char>>,
    k: int,
    property: Seq<char>,
    value: Seq<char>,
) -> bool {
    &&& gives_last(lines, k, "SUMMARY"@) ==> record.summary == unescaped(value)
    &&& none_gives(lines, "SUMMARY"@) ==> record.summary.len() == 0
    &&& gives_last(lines, k, "LOCATION"@) ==> record.location == unescaped(value)
    &&& none_gives(lines, "LOCATION"@) ==> record.location.len() == 0
    &&& gives_last(lines, k, "DTSTART"@) ==> record.start == Some((property, value))
    &&& none_gives(lines, "DTSTART"@) ==> record.start is None
    &&& gives_last(lines, k, "DTEND"@) ==> record.end == Some((property, value))
    &&& none_gives(lines, "DTEND"@) ==> record.end is None
    &&& gives_last(lines, k, "RRULE"@) ==> record.recurrence == value
    &&& none_gives(lines, "RRULE"@) ==> record.recurrence.len() == 0
}

spec fn inner_lines(lines: Seq<Seq<char>>) -> bool {
    forall|i: int|
        0 <= i < lines.len() ==> #[trigger] lines[i] != "BEGIN:VEVENT"@ && lines[i]
            != "END:VEVENT"@
}

proof fn lemma_lines_of_event(
    before: Seq<Seq<char>>,
    lines: Seq<Seq<char>>,
    k: int,
    property: Seq<char>,
    value: Seq<char>,
)
    requires
        inner_lines(lines),
        0 <= k < lines.len() ==> is_made_of(lines[k], property, value),
    ensures
        ({
            let reading = read_lines(before.push("BEGIN:VEVENT"@) + lines);
            &&& reading.finished == read_lines(before).finished
            &&& reading.open matches Some(record) && fields_given(record, lines, k, property, value)
        }),
    decreases lines.len(),
{
    let start = before.push("BEGIN:VEVENT"@);
    if lines.len() == 0 {
        assert(start + lines == start);
        assert(start.drop_last() == before);
    } else {
        let fewer = lines.drop_last();
        let line = lines.last();
        let last = lines.len() - 1;
        assert forall|i: int| 0 <= i < fewer.len() implies #[trigger] fewer[i] != "BEGIN:VEVENT"@
            && fewer[i] != "END:VEVENT"@ by {
            assert(fewer[i] == lines[i]);
        }
        if k < last {
            assert(0 <= k ==> fewer[k] == lines[k]);
        }
        lemma_lines_of_event(before, fewer, k, property, value);
        assert((start + lines).drop_last() == start + fewer);
        assert((start + lines).last() == line);
        assert(line == lines[last]);
        let earlier = read_lines(start + fewer).open.unwrap();
        let record = read_lines(start + lines).open.unwrap();
        reveal_strlit("SUMMARY");
        reveal_strlit("LOCATION");
        reveal_strlit("DTSTART");
        reveal_strlit("DTEND");
        reveal_strlit("RRULE");
        lemma_gives(line, "SUMMARY"@);
        lemma_gives(line, "LOCATION"@);
        lemma_gives(line, "DTSTART"@);
        lemma_gives(line, "DTEND"@);
        lemma_gives(line, "RRULE"@);
        if let Some((p, v)) = text::split_once(line, ':') {
            a_property_sets_the_field_of_its_name(earlier, p, v);
        }
        if k == last {
            lemma_made_of(line, property, value);
        }
        lemma_given_before(lines, k, "SUMMARY"@);
        lemma_given_before(lines, k, "LOCATION"@);
        lemma_given_before(lines, k, "DTSTART"@);
        lemma_given_before(lines, k, "DTEND"@);
        lemma_given_before(lines, k, "RRULE"@);
    }
}

proof fn lemma_given_before(lines: Seq<Seq<char>>, k: int, name: Seq<char>)
    requires
        lines.len() > 0,
    ensures
        none_gives(lines, name) ==> none_gives(lines.drop_last(), name) && !gives(
            lines.last(),
            name,
        ),
        gives_last(lines, k, name) ==> (if k == lines.len() - 1 {
            gives(lines.last(), name)
        } else {
            gives_last(lines.drop_last(), k, name) && !gives(lines.last(), name)
        }),
{
    let fewer = lines.drop_last();
    let last = lines.len() - 1;
    assert(lines[last] == lines.last());
    assert forall|j: int| 0 <= j < fewer.len() implies #[trigger] fewer[j] == lines[j] by {}
}

/// An event is read from the lines between its first and its last line: its start is the property
/// and the value of the last line there that gives a `DTSTART`, and there is none if no line does.
/// The same holds of its end and `DTEND`, of its recurrence rule and the value of `RRULE`, and of
/// its summary and location and the values of `SUMMARY` and `LOCATION` without their escapes.
/// Lines that give anything else make no difference. The events read before stay as they are.
pub proof fn an_event_is_read_from_its_lines(
    before: Seq<Seq<char>>,
    lines: Seq<Seq<char>>,
    k: int,
    property: Seq<char>,
    value: Seq<char>,
)
    requires
        forall|i: int|
            0 <= i < lines.len() ==> #[trigger] lines[i] != "BEGIN:VEVENT"@ && lines[i]
                != "END:VEVENT"@,
        0 <= k < lines.len() ==> is_made_of(lines[k], property, value),
    ensures
        ({
            let reading = read_lines(
                (before.push("BEGIN:VEVENT"@) + lines).push("END:VEVENT"@),
            );
            let earlier = read_lines(before).finished;
            &&& reading.open is None
            &&& reading.finished.len() == earlier.len() + 1
            &&& reading.finished.drop_last() == earlier
            &&& fields_given(reading.finished.last(), lines, k, property, value)
        }),
{
    reveal_strlit("BEGIN:VEVENT");
    reveal_strlit("END:VEVENT");
    lemma_lines_of_event(before, lines, k, property, value);
    let inside = before.push("BEGIN:VEVENT"@) + lines;
    assert(inside.push("END:VEVENT"@).drop_last() == inside);
    assert("END:VEVENT"@.len() != "BEGIN:VEVENT"@.len());
    let record = read_lines(inside).open.unwrap();
    let earlier = read_lines(before).finished;
    assert(earlier.push(record).drop_last() == earlier);
}

/// A reading starts with no event, and an event that was not ended before the next one starts, or
/// before the file ends, is none.
pub proof fn events_are_read_to_their_end(lines: Seq<Seq<char>>)
    ensures
        read_lines(seq![]).finished.len() == 0,
        read_lines(seq![]).open is None,
        read_lines(lines.push("BEGIN:VEVENT"@)).finished == read_lines(lines).finished,
        read_lines(lines.push("BEGIN:VEVENT"@)).open matches Some(record) && record.start is None
            && record.end is None && record.summary.len() == 0 && record.location.len() == 0
            && record.recurrence.len() == 0,
{
    assert(lines.push("BEGIN:VEVENT"@).drop_last() == lines);
}

proof fn lemma_replaced_behind(head: Seq<char>, rest: Seq<char>, from: Seq<char>, to: Seq<char>)
    requires
        from.len() == 2,
        !head.contains(from[0]),
    ensures
        text::replace_all(head + rest, from, to) == head + text::replace_all(rest, from, to),
    decreases head.len(),
{
    if head.len() == 0 {
        assert(head + rest == rest);
        assert(head + text::replace_all(rest, from, to) == text::replace_all(rest, from, to));
    } else {
        let tail = head.drop_first();
        assert(head.contains(head[0]));
        assert forall|c: char| tail.contains(c) implies head.contains(c) by {
            let k = choose|k: int| 0 <= k < tail.len() && tail[k] == c;
            assert(head[k + 1] == c);
        }
        lemma_replaced_behind(tail, rest, from, to);
        lemma_step(head[0], tail + rest, from, to);
        assert(head + rest == seq![head[0]] + (tail + rest));
        let replaced = text::replace_all(rest, from, to);
        assert(head + replaced == seq![head[0]] + (tail + replaced));
    }
}

proof fn lemma_escape_replaced(
    head: Seq<char>,
    letter: char,
    rest: Seq<char>,
    from: Seq<char>,
    to: Seq<char>,
)
    requires
        from.len() == 2,
        from[0] == '\\',
        letter != '\\',
        !head.contains('\\'),
    ensures
        text::replace_all(head + seq!['\\', letter] + rest, from, to) == (if letter == from[1] {
            head + to + text::replace_all(rest, from, to)
        } else {
            head + seq!['\\', letter] + text::replace_all(rest, from, to)
        }),
{
    let escape = seq!['\\', letter];
    let replaced = text::replace_all(rest, from, to);
    assert(head + escape + rest == head + (escape + rest));
    lemma_replaced_behind(head, escape + rest, from, to);
    if letter == from[1] {
        lemma_first_two(escape + rest, from);
        assert((escape + rest).skip(2) == rest);
        assert(head + to + replaced == head + (to + replaced));
    } else {
        lemma_pair('\\', letter, rest, from, to);
        assert(head + escape + replaced == head + (escape + replaced));
    }
}

/// The first escape of a text stands for what its letter says, and what is behind it is read on
/// its own: the escapes of a comma and a semicolon stand for these, and that of a line break for a
/// dot between spaces.
pub proof fn the_first_escape_is_read_by_its_letter(
    head: Seq<char>,
    letter: char,
    rest: Seq<char>,
)
    requires
        !head.contains('\\'),
        letter == 'n' || letter == 'N' || letter == ',' || letter == ';',
    ensures
        unescaped(head + seq!['\\', letter] + rest) == (if letter == 'n' || letter == 'N' {
            head + seq![' ', '·', ' '] + unescaped(rest)
        } else {
            head + seq![letter] + unescaped(rest)
        }),
{
    reveal_strlit("\\n");
    reveal_strlit("\\N");
    reveal_strlit("\\,");
    reveal_strlit("\\;");
    reveal_strlit("\\\\");
    reveal_strlit("\\");
    reveal_strlit(",");
    reveal_strlit(";");
    reveal_strlit(" · ");
    assert(" · "@ == seq![' ', '·', ' ']);
    assert(","@ == seq![',']);
    assert(";"@ == seq![';']);
    let (n, big, comma, semi, back) = ("\\n"@, "\\N"@, "\\,"@, "\\;"@, "\\\\"@);
    let dot = " · "@;
    let one = text::replace_all(rest, n, dot);
    let two = text::replace_all(one, big, dot);
    let three = text::replace_all(two, comma, ","@);
    let four = text::replace_all(three, semi, ";"@);
    let to = if letter == 'n' || letter == 'N' {
        dot
    } else {
        seq![letter]
    };
    let plain = head + to;
    assert(!plain.contains('\\')) by {
        assert forall|i: int| 0 <= i < plain.len() implies plain[i] != '\\' by {
            if i < head.len() {
                assert(head.contains(head[i]));
            }
        }
    }
    if letter == 'n' {
        lemma_escape_replaced(head, letter, rest, n, dot);
        lemma_replaced_behind(plain, one, big, dot);
        lemma_replaced_behind(plain, two, comma, ","@);
        lemma_replaced_behind(plain, three, semi, ";"@);
        lemma_replaced_behind(plain, four, back, "\\"@);
    } else if letter == 'N' {
        lemma_escape_replaced(head, letter, rest, n, dot);
        lemma_escape_replaced(head, letter, one, big, dot);
        lemma_replaced_behind(plain, two, comma, ","@);
        lemma_replaced_behind(plain, three, semi, ";"@);
        lemma_replaced_behind(plain, four, back, "\\"@);
    } else if letter == ',' {
        lemma_escape_replaced(head, letter, rest, n, dot);
        lemma_escape_replaced(head, letter, one, big, dot);
        lemma_escape_replaced(head, letter, two, comma, ","@);
        lemma_replaced_behind(plain, three, semi, ";"@);
        lemma_replaced_behind(plain, four, back, "\\"@);
    } else {
        lemma_escape_replaced(head, letter, rest, n, dot);
        lemma_escape_replaced(head, letter, one, big, dot);
        lemma_escape_replaced(head, letter, two, comma, ","@);
        lemma_escape_replaced(head, letter, three, semi, ";"@);
        lemma_replaced_behind(plain, four, back, "\\"@);
    }
}

proof fn lemma_no_line_end(line: Seq<char>, rest: Seq<char>, from: Seq<char>, to: Seq<char>)
    requires
        from == seq!['\r', '\n'],
        !line.contains('\n'),
        rest.len() > 0 && rest[0] == '\n' ==> line.len() == 0 || line.last() != '\r',
    ensures
        text::replace_all(line + rest, from, to) == line + text::replace_all(rest, from, to),
    decreases line.len(),
{
    if line.len() == 0 {
        assert(line + rest == rest);
        assert(line + text::replace_all(rest, from, to) == text::replace_all(rest, from, to));
    } else {
        let tail = line.drop_first();
        assert(line.len() == 1 ==> line[0] == line.last());
        assert(tail.len() > 0 ==> tail.last() == line.last());
        assert(tail.len() > 0 ==> line.contains(tail[0])) by {
            assert(tail.len() > 0 ==> line[1] == tail[0]);
        }
        assert forall|c: char| tail.contains(c) implies line.contains(c) by {
            let k = choose|k: int| 0 <= k < tail.len() && tail[k] == c;
            assert(line[k + 1] == c);
        }
        lemma_no_line_end(tail, rest, from, to);
        lemma_step(line[0], tail + rest, from, to);
        assert(line + rest == seq![line[0]] + (tail + rest));
        let replaced = text::replace_all(rest, from, to);
        assert(line + replaced == seq![line[0]] + (tail + replaced));
    }
}

proof fn lemma_plain_line(line: Seq<char>)
    requires
        !line.contains('\n'),
        line.len() > 0 ==> line.last() != '\r',
        !is_continuation(line),
    ensures
        content_lines(line.push('\n')) == seq![line],
        content_lines(line + seq!['\r', '\n']) == seq![line],
        line.len() > 0 ==> content_lines(line) == seq![line],
{
    reveal_strlit("\r\n");
    reveal_strlit("\n");
    let (from, to) = ("\r\n"@, "\n"@);
    assert(from == seq!['\r', '\n']);
    assert(to == seq!['\n']);
    let whole = line.push('\n');
    let none = Seq::<char>::empty();
    assert forall|i: int| 0 <= i < line.len() implies line[i] != '\n' by {
        assert(line.contains(line[i]));
    }
    assert(text::replace_all(none, from, to) == none);
    text::parts_are_replaced_from_the_left(from, to, '\n', none);
    assert(from + none == from && to + none == to && seq!['\n'] + none == seq!['\n']);
    lemma_no_line_end(line, seq!['\n'], from, to);
    lemma_no_line_end(line, seq!['\r', '\n'], from, to);
    lemma_no_line_end(line, none, from, to);
    assert(line + none == line);
    assert(line + seq!['\n'] == whole);
    assert(text::replace_all(seq!['\n'], from, to) == seq!['\n']) by {
        lemma_step('\n', none, from, to);
    }
    lemma_line_end(line, line.len() as int);
    text::lemma_not_found(line, '\n');
    assert(whole.take(line.len() as int) == line);
    assert(whole.skip(line.len() as int + 1) == none);
    assert(text::lines(none) == Seq::<Seq<char>>::empty());
    assert(seq![line] + Seq::<Seq<char>>::empty() == seq![line]);
    assert(text::lines(whole) == seq![line]);
    assert(seq![line].drop_last() == Seq::<Seq<char>>::empty());
    assert(unfolded(Seq::<Seq<char>>::empty()).push(line) == seq![line]);
    assert(unfolded(seq![line]) == seq![line]);
}

/// Each line of a file is a content line, whether a line feed ends it, a carriage return and a
/// line feed, or the end of the file, unless the next one continues it. Carriage returns elsewhere
/// are part of their line.
pub proof fn each_line_is_a_content_line(line: Seq<char>, rest: Seq<char>)
    requires
        !line.contains('\n'),
        line.len() > 0 ==> line[0] != ' ' && line[0] != '\t' && line[line.len() - 1] != '\r',
        rest.len() > 0 ==> rest[0] != ' ' && rest[0] != '\t',
    ensures
        content_lines(line + seq!['\n'] + rest) == seq![line] + content_lines(rest),
        content_lines(line + seq!['\r', '\n'] + rest) == seq![line] + content_lines(rest),
        line.len() > 0 ==> content_lines(line) == seq![line],
        content_lines(seq![]) == Seq::<Seq<char>>::empty(),
{
    lemma_plain_line(line);
    let (feed, both) = (line.push('\n'), line + seq!['\r', '\n']);
    lemma_files_join(feed, rest);
    assert(both.last() == '\n');
    lemma_files_join(both, rest);
    assert(line + seq!['\n'] + rest == feed + rest);
    assert(line + seq!['\r', '\n'] + rest == both + rest);
    let none = Seq::<char>::empty();
    assert(text::replace_all(none, "\r\n"@, "\n"@) == none);
    assert(text::lines(none) == Seq::<Seq<char>>::empty());
    assert(unfolded(text::lines(none)) == Seq::<Seq<char>>::empty());
}

/// The continuation of a line that is not there is passed over.
pub proof fn continuations_of_nothing_are_passed_over(line: Seq<char>, rest: Seq<Seq<char>>)
    requires
        line.len() > 0,
        line[0] == ' ' || line[0] == '\t',
    ensures
        unfolded(seq![line] + rest) == unfolded(rest),
{
    let none = Seq::<Seq<char>>::empty();
    assert(seq![line].drop_last() == none);
    assert(unfolded(none) == none);
    assert(unfolded(seq![line]) == none);
    lemma_unfolded_rest(seq![line], none, rest);
    assert(none + rest == rest);
}

/// A record gives an event if both its dates are points in time and the second is the later one,
/// however little later. The event lasts from the one to the other; it has the location of the
/// record, and its summary, or a name for one that has none.
pub proof fn events_lie_between_the_dates_of_their_record(
    record: &EventRecord,
    start: Option<UtcTime>,
    end: Option<UtcTime>,
    r: Option<CalendarEvent>,
)
    requires
        call_ensures(event_of_record, (record, start, end), r),
    ensures
        r is Some <==> (start matches Some(from) && end matches Some(to) && (from.seconds
            < to.seconds || (from.seconds == to.seconds && from.nanos < to.nanos))),
        r matches Some(event) ==> {
            &&& start == Some(event.start)
            &&& end == Some(event.end)
            &&& event.location@ == record.location@
            &&& record.summary@.len() > 0 ==> event.summary@ == record.summary@
            &&& record.summary@.len() == 0 ==> event.summary@ == "Untitled class"@
        },
{
    if let Some(event) = r {
        assert(event@.location == event.location@);
        assert(event@.summary == event.summary@);
        assert(event@.start == event.start && event@.end == event.end);
        assert(record@.summary == record.summary@ && record@.location == record.location@);
    }
}

/// A record without a recurrence rule stands for one event, from the point in time of its start to
/// that of its end, if there is such an event; it stands for none if a date is missing, is no
/// point in time, or if it does not end later than it starts. One with a rule stands for what the
/// rule makes of that event.
pub proof fn records_stand_for_their_events(
    record: RecordView,
    zone: Zone,
    property: Seq<char>,
    value: Seq<char>,
    end_property: Seq<char>,
    end_value: Seq<char>,
    start: UtcTime,
    end: UtcTime,
)
    requires
        record.start == Some((property, value)),
        record.end == Some((end_property, end_value)),
    ensures
        zone::ics_time(property, value, zone) is None || zone::ics_time(
            end_property,
            end_value,
            zone,
        ) is None ==> record_events(record, zone) == Some(Seq::<EventView>::empty()),
        zone::ics_time(property, value, zone) == Some(start) && zone::ics_time(
            end_property,
            end_value,
            zone,
        ) == Some(end) ==> {
            let event = EventView {
                calendar_index: 0,
                calendar_name: seq![],
                summary: if record.summary.len() > 0 {
                    record.summary
                } else {
                    "Untitled class"@
                },
                location: record.location,
                start,
                end,
            };
            if start.seconds > end.seconds || (start.seconds == end.seconds && start.nanos
                >= end.nanos) {
                record_events(record, zone) == Some(Seq::<EventView>::empty())
            } else if record.recurrence.len() == 0 {
                record_events(record, zone) == Some(seq![event])
            } else {
                record_events(record, zone) == recurrence::expansion(
                    event,
                    property,
                    value,
                    record.recurrence,
                    zone,
                )
            }
        },
{
}

/// A record without a start or without an end stands for no event.
pub proof fn records_without_dates_stand_for_nothing(record: RecordView, zone: Zone)
    requires
        record.start is None || record.end is None,
    ensures
        record_events(record, zone) == Some(Seq::<EventView>::empty()),
{
}

/// The events of a list of records are those of each, one after the other, however the list is
/// taken apart. There are none to show if those of some record lie outside of what can be
/// represented.
pub proof fn records_are_taken_one_by_one(
    records: Seq<RecordView>,
    more: Seq<RecordView>,
    record: RecordView,
    zone: Zone,
)
    ensures
        all_events(seq![], zone) == Some(Seq::<EventView>::empty()),
        all_events(seq![record], zone) == record_events(record, zone),
        all_events(records + more, zone) is Some <==> all_events(records, zone) is Some
            && all_events(more, zone) is Some,
        all_events(records + more, zone) matches Some(events) ==> events == all_events(
            records,
            zone,
        ).unwrap() + all_events(more, zone).unwrap(),
{
    lemma_events_join(records, more, zone);
    assert(seq![record].drop_last() == Seq::<RecordView>::empty());
    assert(all_events(Seq::<RecordView>::empty(), zone) == Some(Seq::<EventView>::empty()));
    if let Some(events) = record_events(record, zone) {
        assert(Seq::<EventView>::empty() + events == events);
    }
}

/// Whether an event has ended a week of seven days, to the nanosecond, before a point in time.
pub open spec fn ended_a_week_ago(event: EventView, now: UtcTime) -> bool {
    event.end.seconds + 7 * 86_400 < now.seconds || (event.end.seconds + 7 * 86_400 == now.seconds
        && event.end.nanos < now.nanos)
}

/// A calendar shows each event of its file as often as it is there, unless it has ended more than
/// a week ago, in the order of their start, and nothing else. It says that there are none exactly
/// if all have.
pub proof fn events_are_shown_for_a_week_after_their_end(
    events: Vec<CalendarEvent>,
    now: UtcTime,
    r: Result<Vec<CalendarEvent>, String>,
    event: EventView,
)
    requires
        now.valid(),
        call_ensures(show_events, (events, now), r),
    ensures
        match r {
            Ok(list) => {
                &&& list@.len() > 0
                &&& event::event_views(list@).to_multiset().count(event) == (if ended_a_week_ago(
                    event,
                    now,
                ) {
                    0
                } else {
                    event::event_views(events@).to_multiset().count(event)
                })
                &&& forall|i: int, j: int|
                    0 <= i < j < list@.len() ==> {
                        ||| (#[trigger] list@[i]).start.seconds < (#[trigger] list@[j]).start.seconds
                        ||| list@[i].start.seconds == list@[j].start.seconds
                            && list@[i].start.nanos <= list@[j].start.nanos
                    }
            },
            Err(message) => {
                &&& message@ == "No current or upcoming timed events found in this calendar"@
                &&& forall|i: int|
                    0 <= i < events@.len() ==> ended_a_week_ago((#[trigger] events@[i])@, now)
            },
        },
{
    let all = event::event_views(events@);
    let cutoff = week_before(now);
    let keep = |event: EventView| !event.end.precedes(cutoff);
    recent_events_are_shown_in_order(all, now);
    event::lemma_filter_counts(all, keep, event);
    assert(keep(event) == !ended_a_week_ago(event, now));
    match r {
        Ok(list) => {
            let shown = event::event_views(list@);
            assert forall|i: int, j: int| 0 <= i < j < list@.len() implies {
                ||| (#[trigger] list@[i]).start.seconds < (#[trigger] list@[j]).start.seconds
                ||| list@[i].start.seconds == list@[j].start.seconds && list@[i].start.nanos
                    <= list@[j].start.nanos
            } by {
                assert(shown[i] == list@[i]@ && shown[j] == list@[j]@);
            }
            assert(list@.len() == shown.len());
        },
        Err(message) => {
            assert forall|i: int| 0 <= i < events@.len() implies ended_a_week_ago(
                (#[trigger] events@[i])@,
                now,
            ) by {
                assert(all[i] == events@[i]@);
                assert(all[i].end.precedes(cutoff));
            }
        },
    }
}

/// What a calendar shows of its file is what it shows of the events of the file's records. It
/// says so if they lie outside of what can be represented.
pub proof fn files_show_the_events_of_their_records(
    input: Seq<char>,
    now: UtcTime,
    zone: Zone,
    event: EventView,
)
    requires
        now.valid(),
        now.seconds >= MIN_SECONDS + 7 * 86_400,
    ensures
        match (all_events(records_of(input), zone), parsed(input, now, zone)) {
            (Some(events), Ok(list)) => list.to_multiset().count(event) == (if ended_a_week_ago(
                event,
                now,
            ) {
                0
            } else {
                events.to_multiset().count(event)
            }),
            (Some(events), Err(message)) => {
                &&& message == "No current or upcoming timed events found in this calendar"@
                &&& forall|i: int|
                    0 <= i < events.len() ==> ended_a_week_ago(#[trigger] events[i], now)
            },
            (None, Ok(_)) => false,
            (None, Err(message)) => message
                == "A recurring event reaches beyond the dates that can be represented"@,
        },
{
    let cutoff = week_before(now);
    let keep = |event: EventView| !event.end.precedes(cutoff);
    if let Some(events) = all_events(records_of(input), zone) {
        recent_events_are_shown_in_order(events, now);
        event::lemma_filter_counts(events, keep, event);
        assert(keep(event) == !ended_a_week_ago(event, now));
    }
}

} // verus!
