//! Loading calendars: what is to be fetched, what became of it, and the events that come out.
use vstd::prelude::*;

use crate::data_uri;
use crate::event::{self, CalendarEvent, EventView};
use crate::ics::{self, HISTORY_SECONDS};
use crate::settings;
use crate::source::{self, CalendarSource, SourceView};
use crate::text;
use crate::time::{UtcTime, MIN_SECONDS};
use crate::zone::{self, LocalClock, Zone};

verus! {

/// How the text of a calendar is to be had.
#[derive(Debug)]
pub enum Request {
    /// It is here already, or never will be.
    Ready(Result<String, String>),
    /// It is to be downloaded from an address.
    Download(String),
    /// It is to be read from a file.
    Open(String),
}

/// What a request says.
pub enum RequestView {
    Ready(Result<Seq<char>, Seq<char>>),
    Download(Seq<char>),
    Open(Seq<char>),
}

impl View for Request {
    type V = RequestView;

    open spec fn view(&self) -> RequestView {
        match self {
            Request::Ready(result) => RequestView::Ready(data_uri::text_result(*result)),
            Request::Download(address) => RequestView::Download(address@),
            Request::Open(path) => RequestView::Open(path@),
        }
    }
}

/// How the text of a calendar is to be had: a data URI holds it, a web or webcal address leads to
/// it, and anything else is the path of a file.
pub open spec fn requested(source: Seq<char>) -> RequestView {
    if text::starts_with(source, "data:"@) {
        RequestView::Ready(data_uri::decoded(source))
    } else if text::starts_with(source, "http://"@) || text::starts_with(source, "https://"@)
        || text::starts_with(source, "webcal://"@) {
        RequestView::Download(text::replace_first(source, "webcal://"@, "https://"@))
    } else {
        RequestView::Open(source)
    }
}

fn begins(chars: &[char], prefix: &str) -> (r: bool)
    ensures
        r == text::starts_with(chars@, prefix@),
{
    text::has_prefix(chars, text::to_chars(prefix).as_slice())
}

/// How the text of a calendar is to be had.
pub fn load_calendar(source: &str) -> (r: Request)
    ensures
        r@ == requested(source@),
{
    let chars = text::to_chars(source);
    if begins(chars.as_slice(), "data:") {
        Request::Ready(data_uri::decode_calendar_data_uri(source))
    } else if begins(chars.as_slice(), "http://") || begins(chars.as_slice(), "https://") || begins(
        chars.as_slice(),
        "webcal://",
    ) {
        let address = text::replaced_first(
            chars.as_slice(),
            text::to_chars("webcal://").as_slice(),
            text::to_chars("https://").as_slice(),
        );
        Request::Download(text::to_text(address.as_slice()))
    } else {
        Request::Open(source.to_owned())
    }
}

/// A webcal address is downloaded from the web address of the same name.
pub proof fn webcal_is_downloaded_over_https(rest: Seq<char>)
    ensures
        requested("webcal://"@ + rest) == RequestView::Download("https://"@ + rest),
{
    reveal_strlit("webcal://");
    reveal_strlit("data:");
    reveal_strlit("http://");
    reveal_strlit("https://");
    let source = "webcal://"@ + rest;
    assert(source.take(9) == "webcal://"@);
    assert(source.skip(9) == rest);
    assert(source[0] == 'w');
    assert("data:"@[0] == 'd');
    assert(source.take(5)[0] == 'w');
}

/// The steps of fetching a calendar that can fail.
#[derive(Clone, Copy, Debug, PartialEq, Eq, Structural)]
pub enum FetchStep {
    /// Setting up the client that downloads.
    Client,
    /// Sending the request and getting a response.
    Download,
    /// Getting a response that is no error.
    Response,
    /// Reading the text of the response.
    Read,
}

/// How it is said that a step of fetching a calendar has failed.
pub open spec fn failure_text(step: FetchStep, error: Seq<char>) -> Seq<char> {
    match step {
        FetchStep::Client => "Calendar client error: "@ + error,
        FetchStep::Download => "Could not download calendar: "@ + error,
        FetchStep::Response => "Calendar server error: "@ + error,
        FetchStep::Read => "Could not read calendar: "@ + error,
    }
}

/// Says that a step of fetching a calendar has failed.
pub fn fetch_failure(step: FetchStep, error: &str) -> (r: String)
    ensures
        r@ == failure_text(step, error@),
{
    let mut message = match step {
        FetchStep::Client => "Calendar client error: ".to_owned(),
        FetchStep::Download => "Could not download calendar: ".to_owned(),
        FetchStep::Response => "Calendar server error: ".to_owned(),
        FetchStep::Read => "Could not read calendar: ".to_owned(),
    };
    text::push_text(&mut message, error);
    message
}

/// Says that a file could not be read.
pub fn open_failure(path: &str, error: &str) -> (r: String)
    ensures
        r@ == "Could not open "@ + path@ + ": "@ + error@,
{
    let mut message = "Could not open ".to_owned();
    text::push_text(&mut message, path);
    text::push_text(&mut message, ": ");
    text::push_text(&mut message, error);
    message
}

/// Events as those of a calendar.
pub open spec fn named(events: Seq<EventView>, index: usize, name: Seq<char>) -> Seq<EventView> {
    Seq::new(
        events.len(),
        |i: int| EventView { calendar_index: index, calendar_name: name, ..events[i] },
    )
}

/// What went wrong with a calendar.
pub open spec fn blamed(calendar: SourceView, error: Seq<char>) -> Seq<char> {
    source::display_name(calendar) + ": "@ + error
}

/// The events of a calendar whose text was fetched at a point in time.
pub open spec fn calendar_events(
    index: usize,
    calendar: SourceView,
    fetched: Result<Seq<char>, Seq<char>>,
    now: UtcTime,
    zone: Zone,
) -> Result<Seq<EventView>, Seq<char>> {
    match fetched {
        Err(error) => Err(blamed(calendar, error)),
        Ok(input) => match ics::parsed(input, now, zone) {
            Err(error) => Err(blamed(calendar, error)),
            Ok(events) => Ok(named(events, index, source::display_name(calendar))),
        },
    }
}

/// The events of the calendars that have a source, one after the other; the first error if there
/// is one. `fetched` and `times` hold, for each calendar, what was fetched and when.
pub open spec fn gathered(
    calendars: Seq<SourceView>,
    fetched: Seq<Result<Seq<char>, Seq<char>>>,
    times: Seq<UtcTime>,
    zone: Zone,
) -> Result<Seq<EventView>, Seq<char>>
    decreases calendars.len(),
{
    if calendars.len() == 0 {
        Ok(seq![])
    } else {
        let last = calendars.len() - 1;
        match gathered(calendars.drop_last(), fetched, times, zone) {
            Err(error) => Err(error),
            Ok(events) => if !settings::given(calendars[last]) {
                Ok(events)
            } else {
                match calendar_events(
                    last as usize,
                    calendars[last],
                    fetched[last],
                    times[last],
                    zone,
                ) {
                    Err(error) => Err(error),
                    Ok(more) => Ok(events + more),
                }
            },
        }
    }
}

/// What loading the calendars yields: their events in the order of their start, or the first
/// error.
pub open spec fn loaded(
    calendars: Seq<SourceView>,
    fetched: Seq<Result<Seq<char>, Seq<char>>>,
    times: Seq<UtcTime>,
    zone: Zone,
) -> Result<Seq<EventView>, Seq<char>> {
    match gathered(calendars, fetched, times, zone) {
        Err(error) => Err(error),
        Ok(events) => Ok(event::by_start(events)),
    }
}

proof fn lemma_passed_over(
    calendars: Seq<SourceView>,
    from: int,
    to: int,
    fetched: Seq<Result<Seq<char>, Seq<char>>>,
    times: Seq<UtcTime>,
    zone: Zone,
)
    requires
        0 <= from <= to <= calendars.len(),
        forall|j: int| from <= j < to ==> !settings::given(#[trigger] calendars[j]),
    ensures
        gathered(calendars.take(to), fetched, times, zone) == gathered(
            calendars.take(from),
            fetched,
            times,
            zone,
        ),
    decreases to - from,
{
    if from < to {
        assert(calendars.take(to).drop_last() == calendars.take(to - 1));
        assert(!settings::given(calendars[to - 1]));
        lemma_passed_over(calendars, from, to - 1, fetched, times, zone);
    }
}

proof fn lemma_step(
    calendars: Seq<SourceView>,
    index: int,
    fetched: Seq<Result<Seq<char>, Seq<char>>>,
    times: Seq<UtcTime>,
    zone: Zone,
)
    requires
        0 <= index < calendars.len() <= usize::MAX,
        settings::given(calendars[index]),
    ensures
        gathered(calendars.take(index + 1), fetched, times, zone) == (match gathered(
            calendars.take(index),
            fetched,
            times,
            zone,
        ) {
            Err(error) => Err(error),
            Ok(events) => match calendar_events(
                index as usize,
                calendars[index],
                fetched[index],
                times[index],
                zone,
            ) {
                Err(error) => Err(error),
                Ok(more) => Ok(events + more),
            },
        }),
{
    assert(calendars.take(index + 1).drop_last() == calendars.take(index));
}

/// How far loading has come.
#[derive(Debug)]
pub struct Loading {
    /// The position of the calendar whose text is awaited; before the first step, zero.
    pub next: usize,
    /// The events gathered so far.
    pub events: Vec<CalendarEvent>,
}

/// What loading asks for next.
#[derive(Debug)]
pub enum LoadAction {
    /// The text of a calendar is wanted.
    Fetch(Request),
    /// All is loaded, or something has gone wrong.
    Done(Result<Vec<CalendarEvent>, String>),
}

/// How far loading has come.
#[verifier::ext_equal]
pub struct LoadingView {
    pub next: int,
    pub events: Seq<EventView>,
}

/// What loading asks for next.
pub enum ActionView {
    Fetch(RequestView),
    Done(Result<Seq<EventView>, Seq<char>>),
}

impl View for Loading {
    type V = LoadingView;

    open spec fn view(&self) -> LoadingView {
        LoadingView { next: self.next as int, events: event::event_views(self.events@) }
    }
}

impl View for LoadAction {
    type V = ActionView;

    open spec fn view(&self) -> ActionView {
        match self {
            LoadAction::Fetch(request) => ActionView::Fetch(request@),
            LoadAction::Done(result) => ActionView::Done(ics::result_views(*result)),
        }
    }
}

/// What loading asks for once the events of the calendars before a position are gathered: the
/// text of the next calendar that has a source, or nothing more.
pub open spec fn resumed(calendars: Seq<SourceView>, from: int, events: Seq<EventView>) -> (
    ActionView,
    LoadingView,
) {
    let i = from + settings::first_given(calendars.skip(from));
    if i < calendars.len() {
        (
            ActionView::Fetch(requested(text::trim(calendars[i].source))),
            LoadingView { next: i, events },
        )
    } else {
        (
            ActionView::Done(Ok(event::by_start(events))),
            LoadingView { next: calendars.len() as int, events: seq![] },
        )
    }
}

/// A step of loading: takes the text that was awaited, if one was, and says what is wanted next.
pub open spec fn stepped(
    calendars: Seq<SourceView>,
    state: LoadingView,
    fetched: Option<Result<Seq<char>, Seq<char>>>,
    now: UtcTime,
    zone: Zone,
) -> (ActionView, LoadingView) {
    match fetched {
        None => resumed(calendars, state.next, state.events),
        Some(fetched) => match calendar_events(
            state.next as usize,
            calendars[state.next],
            fetched,
            now,
            zone,
        ) {
            Err(error) => (ActionView::Done(Err(error)), state),
            Ok(more) => resumed(calendars, state.next + 1, state.events + more),
        },
    }
}

/// Whether loading has gathered the events of the calendars before the one whose text is awaited.
pub open spec fn on_course(
    calendars: Seq<SourceView>,
    state: LoadingView,
    fetched: Seq<Result<Seq<char>, Seq<char>>>,
    times: Seq<UtcTime>,
    zone: Zone,
) -> bool {
    &&& 0 <= state.next <= calendars.len()
    &&& gathered(calendars.take(state.next), fetched, times, zone) == Ok::<
        Seq<EventView>,
        Seq<char>,
    >(state.events)
}

proof fn lemma_resumed(
    calendars: Seq<SourceView>,
    from: int,
    events: Seq<EventView>,
    fetched: Seq<Result<Seq<char>, Seq<char>>>,
    times: Seq<UtcTime>,
    zone: Zone,
)
    requires
        0 <= from <= calendars.len() <= usize::MAX,
        gathered(calendars.take(from), fetched, times, zone) == Ok::<Seq<EventView>, Seq<char>>(
            events,
        ),
    ensures
        ({
            let (action, state) = resumed(calendars, from, events);
            &&& action matches ActionView::Done(result) ==> result == loaded(
                calendars,
                fetched,
                times,
                zone,
            )
            &&& action is Fetch ==> {
                &&& on_course(calendars, state, fetched, times, zone)
                &&& from <= state.next < calendars.len()
                &&& settings::given(calendars[state.next])
            }
        }),
{
    let rest = calendars.skip(from);
    let i = from + settings::first_given(rest);
    settings::lemma_first_given(rest);
    assert forall|j: int| from <= j < i && j < calendars.len() implies !settings::given(
        #[trigger] calendars[j],
    ) by {
        assert(rest[j - from] == calendars[j]);
    }
    lemma_passed_over(calendars, from, i, fetched, times, zone);
    assert(calendars.take(calendars.len() as int) == calendars);
}

/// Loading starts on course, stays on course with every step that asks for a text, and ends with
/// what the calendars yield as a whole.
pub proof fn loading_yields_what_the_calendars_hold(
    calendars: Seq<SourceView>,
    state: LoadingView,
    fetched: Seq<Result<Seq<char>, Seq<char>>>,
    times: Seq<UtcTime>,
    zone: Zone,
    now: UtcTime,
)
    requires
        calendars.len() <= usize::MAX,
    ensures
        ({
            let start = LoadingView { next: 0, events: seq![] };
            let (action, after) = stepped(calendars, start, None, now, zone);
            &&& on_course(calendars, start, fetched, times, zone)
            &&& action is Fetch ==> on_course(calendars, after, fetched, times, zone)
                && settings::given(calendars[after.next]) && after.next < calendars.len()
            &&& action matches ActionView::Done(result) ==> result == loaded(
                calendars,
                fetched,
                times,
                zone,
            )
        }),
        on_course(calendars, state, fetched, times, zone) && state.next < calendars.len()
            && settings::given(calendars[state.next]) ==> {
            let (action, after) = stepped(
                calendars,
                state,
                Some(fetched[state.next]),
                times[state.next],
                zone,
            );
            &&& action is Fetch ==> on_course(calendars, after, fetched, times, zone)
                && settings::given(calendars[after.next]) && state.next < after.next
                < calendars.len()
            &&& action matches ActionView::Done(result) ==> result == loaded(
                calendars,
                fetched,
                times,
                zone,
            )
        },
{
    let start = LoadingView { next: 0, events: seq![] };
    assert(calendars.take(0) == Seq::<SourceView>::empty());
    lemma_resumed(calendars, 0, seq![], fetched, times, zone);
    if on_course(calendars, state, fetched, times, zone) && state.next < calendars.len()
        && settings::given(calendars[state.next]) {
        let index = state.next;
        lemma_step(calendars, index, fetched, times, zone);
        match calendar_events(
            index as usize,
            calendars[index],
            fetched[index],
            times[index],
            zone,
        ) {
            Ok(more) => {
                lemma_resumed(calendars, index + 1, state.events + more, fetched, times, zone);
            },
            Err(error) => {
                lemma_error_stays(calendars, index + 1, error, fetched, times, zone);
            },
        }
    }
}

proof fn lemma_error_stays(
    calendars: Seq<SourceView>,
    n: int,
    error: Seq<char>,
    fetched: Seq<Result<Seq<char>, Seq<char>>>,
    times: Seq<UtcTime>,
    zone: Zone,
)
    requires
        0 <= n <= calendars.len(),
        gathered(calendars.take(n), fetched, times, zone) == Err::<Seq<EventView>, Seq<char>>(
            error,
        ),
    ensures
        gathered(calendars, fetched, times, zone) == Err::<Seq<EventView>, Seq<char>>(error),
    decreases calendars.len() - n,
{
    if n < calendars.len() {
        assert(calendars.take(n + 1).drop_last() == calendars.take(n));
        lemma_error_stays(calendars, n + 1, error, fetched, times, zone);
    } else {
        assert(calendars.take(n) == calendars);
    }
}

/// Each event that is loaded is one of a calendar with a source, and bears that calendar's
/// position and name.
pub proof fn loaded_events_bear_their_calendar(
    calendars: Seq<SourceView>,
    fetched: Seq<Result<Seq<char>, Seq<char>>>,
    times: Seq<UtcTime>,
    zone: Zone,
)
    requires
        calendars.len() <= usize::MAX,
    ensures
        loaded(calendars, fetched, times, zone) matches Ok(events) ==> {
            &&& event::in_order(events)
            &&& forall|i: int|
                0 <= i < events.len() ==> bears_calendar(#[trigger] events[i], calendars)
        },
{
    lemma_gathered_bear_calendar(calendars, fetched, times, zone);
    if let Ok(events) = gathered(calendars, fetched, times, zone) {
        event::ordering_orders_and_keeps_events(events);
        let sorted = event::by_start(events);
        assert forall|i: int| 0 <= i < sorted.len() implies bears_calendar(
            #[trigger] sorted[i],
            calendars,
        ) by {
            broadcast use vstd::seq_lib::group_to_multiset_ensures;

            assert(sorted.to_multiset().contains(sorted[i]));
            assert(events.to_multiset().contains(sorted[i]));
            assert(events.contains(sorted[i]));
            let k = choose|k: int| 0 <= k < events.len() && events[k] == sorted[i];
            assert(bears_calendar(events[k], calendars));
        }
    }
}

/// Whether an event bears the position and the name of one of the calendars, and that calendar
/// has a source.
pub open spec fn bears_calendar(event: EventView, calendars: Seq<SourceView>) -> bool {
    let i = event.calendar_index as int;
    &&& i < calendars.len()
    &&& settings::given(calendars[i])
    &&& event.calendar_name == source::display_name(calendars[i])
}

proof fn lemma_gathered_bear_calendar(
    calendars: Seq<SourceView>,
    fetched: Seq<Result<Seq<char>, Seq<char>>>,
    times: Seq<UtcTime>,
    zone: Zone,
)
    requires
        calendars.len() <= usize::MAX,
    ensures
        gathered(calendars, fetched, times, zone) matches Ok(events) ==> forall|i: int|
            0 <= i < events.len() ==> bears_calendar(#[trigger] events[i], calendars),
    decreases calendars.len(),
{
    if calendars.len() > 0 {
        let front = calendars.drop_last();
        lemma_gathered_bear_calendar(front, fetched, times, zone);
        if let (Ok(before), Ok(events)) = (
            gathered(front, fetched, times, zone),
            gathered(calendars, fetched, times, zone),
        ) {
            assert forall|i: int| 0 <= i < events.len() implies bears_calendar(
                #[trigger] events[i],
                calendars,
            ) by {
                if i < before.len() {
                    assert(bears_calendar(before[i], front));
                    assert(events[i] == before[i]);
                    let k = events[i].calendar_index as int;
                    assert(front[k] == calendars[k]);
                }
            }
        }
    }
}

/// How the text of a calendar is to be had; white space around its source makes no difference.
fn calendar_request(calendar: &CalendarSource) -> (r: Request)
    ensures
        r@ == requested(text::trim(calendar@.source)),
{
    let chars = text::to_chars(calendar.source.as_str());
    let trimmed = text::to_text(text::trimmed(chars.as_slice()));
    load_calendar(trimmed.as_str())
}

fn blame(calendar: &CalendarSource, error: &str) -> (r: String)
    ensures
        r@ == blamed(calendar@, error@),
{
    let mut message = source::calendar_display_name(calendar);
    text::push_text(&mut message, ": ");
    text::push_text(&mut message, error);
    message
}

/// Makes events those of a calendar.
fn name_events(events: Vec<CalendarEvent>, index: usize, name: &String) -> (r: Vec<CalendarEvent>)
    ensures
        event::event_views(r@) == named(event::event_views(events@), index, name@),
{
    let ghost all = event::event_views(events@);
    let mut out: Vec<CalendarEvent> = Vec::new();
    for event in iter: events
        invariant
            iter.seq() == events@,
            all == event::event_views(events@),
            event::event_views(out@) == named(all, index, name@).take(iter.index() as int),
    {
        let ghost before = out@;
        proof {
            assert(all[iter.index() as int] == event@);
        }
        let renamed = CalendarEvent {
            calendar_index: index,
            calendar_name: name.clone(),
            summary: event.summary,
            location: event.location,
            start: event.start,
            end: event.end,
        };
        let ghost said = renamed@;
        out.push(renamed);
        proof {
            assert(event::event_views(out@) == event::event_views(before).push(said));
            assert(named(all, index, name@).take(iter.index() + 1) == named(
                all,
                index,
                name@,
            ).take(iter.index() as int).push(said));
        }
    }
    proof {
        assert(named(all, index, name@).take(all.len() as int) == named(all, index, name@));
    }
    out
}

/// Adds the events of a calendar to those gathered so far, or says what went wrong with it.
/// `fetched` is its text, or what went wrong with fetching it.
fn add_calendar(
    events: &mut Vec<CalendarEvent>,
    index: usize,
    calendar: &CalendarSource,
    fetched: Result<String, String>,
    now: UtcTime,
    clock: &mut LocalClock,
) -> (r: Result<(), String>)
    requires
        now.valid(),
        now.ordinary(),
        now.seconds >= MIN_SECONDS + HISTORY_SECONDS,
        old(clock).valid(),
    ensures
        final(clock).valid(),
        old(clock)@.submap_of(final(clock)@),
        forall|zone: Zone| #[trigger]
            final(clock)@.submap_of(zone) ==> match calendar_events(
                index,
                calendar@,
                data_uri::text_result(fetched),
                now,
                zone,
            ) {
                Ok(more) => r is Ok && event::event_views(final(events)@) == event::event_views(
                    old(events)@,
                ) + more,
                Err(message) => (r matches Err(error) && error@ == message)
                    && event::event_views(final(events)@) == event::event_views(old(events)@),
            },
        event::all_valid(event::event_views(old(events)@)) ==> event::all_valid(
            event::event_views(final(events)@),
        ),
{
    match fetched {
        Err(error) => Err(blame(calendar, error.as_str())),
        Ok(input) => match ics::parse_ics_at(input.as_str(), now, clock) {
            Err(error) => Err(blame(calendar, error.as_str())),
            Ok(found) => {
                let ghost before = events@;
                let ghost held = event::event_views(found@);
                let name = source::calendar_display_name(calendar);
                let mut more = name_events(found, index, &name);
                let ghost added = more@;
                events.append(&mut more);
                proof {
                    assert(event::event_views(added).len() == held.len());
                    assert forall|i: int| 0 <= i < added.len() implies (
                    #[trigger] event::event_views(added)[i]).valid() by {
                        assert(held[i].valid());
                    }
                    assert(event::event_views(events@) == event::event_views(before)
                        + event::event_views(added));
                }
                Ok(())
            },
        },
    }
}

impl Loading {
    /// Nothing is loaded yet.
    pub fn new() -> (r: Loading)
        ensures
            r@ == (LoadingView { next: 0, events: seq![] }),
    {
        Loading { next: 0, events: Vec::new() }
    }

    /// Says what is wanted next, the events of the calendars before a position being gathered.
    fn resume(&mut self, calendars: &Vec<CalendarSource>, from: usize) -> (r: LoadAction)
        requires
            from <= calendars@.len(),
        ensures
            (r@, final(self)@) == resumed(
                source::source_views(calendars@),
                from as int,
                old(self)@.events,
            ),
            event::all_valid(old(self)@.events) ==> {
                &&& event::all_valid(final(self)@.events)
                &&& r matches LoadAction::Done(Ok(events)) ==> event::all_valid(
                    event::event_views(events@),
                )
            },
    {
        proof {
            if event::all_valid(self@.events) {
                event::lemma_ordering_keeps_valid(self@.events);
            }
        }
        let ghost all = source::source_views(calendars@);
        let mut i: usize = from;
        while i < calendars.len() && text::blank(calendars[i].source.as_str())
            invariant
                from <= i <= calendars@.len(),
                all == source::source_views(calendars@),
                from + settings::first_given(all.skip(from as int)) == i + settings::first_given(
                    all.skip(i as int),
                ),
            decreases calendars@.len() - i,
        {
            proof {
                assert(all.skip(i as int)[0] == calendars@[i as int]@);
                assert(all.skip(i as int).drop_first() == all.skip(i + 1));
            }
            i += 1;
        }
        proof {
            if i < all.len() {
                assert(all.skip(i as int)[0] == calendars@[i as int]@);
            }
        }
        self.next = i;
        if i < calendars.len() {
            LoadAction::Fetch(calendar_request(&calendars[i]))
        } else {
            let mut events: Vec<CalendarEvent> = Vec::new();
            std::mem::swap(&mut events, &mut self.events);
            LoadAction::Done(Ok(event::sort_by_start(events)))
        }
    }

    /// A step of loading: takes the text that was awaited, or what went wrong with fetching it,
    /// and says what is wanted next. The first step takes none.
    pub fn step(
        &mut self,
        calendars: &Vec<CalendarSource>,
        fetched: Option<Result<String, String>>,
        now: UtcTime,
        clock: &mut LocalClock,
    ) -> (r: LoadAction)
        requires
            old(self).next <= calendars@.len(),
            fetched is Some ==> old(self).next < calendars@.len(),
            now.valid(),
            now.ordinary(),
            now.seconds >= MIN_SECONDS + HISTORY_SECONDS,
            old(clock).valid(),
        ensures
            final(clock).valid(),
            old(clock)@.submap_of(final(clock)@),
            forall|zone: Zone| #[trigger]
                final(clock)@.submap_of(zone) ==> (r@, final(self)@) == stepped(
                    source::source_views(calendars@),
                    old(self)@,
                    match fetched {
                        Some(fetched) => Some(data_uri::text_result(fetched)),
                        None => None,
                    },
                    now,
                    zone,
                ),
            event::all_valid(old(self)@.events) ==> {
                &&& event::all_valid(final(self)@.events)
                &&& r matches LoadAction::Done(Ok(events)) ==> event::all_valid(
                    event::event_views(events@),
                )
            },
    {
        match fetched {
            None => {
                let from: usize = self.next;
                self.resume(calendars, from)
            },
            Some(fetched) => {
                let index: usize = self.next;
                let count: usize = calendars.len();
                proof {
                    assert(index < count);
                    assert(source::source_views(calendars@)[index as int]
                        == calendars@[index as int]@);
                }
                match add_calendar(
                    &mut self.events,
                    index,
                    &calendars[index],
                    fetched,
                    now,
                    clock,
                ) {
                    Err(error) => LoadAction::Done(Err(error)),
                    Ok(()) => self.resume(calendars, index + 1),
                }
            },
        }
    }
}

proof fn lemma_says_something(calendar: SourceView)
    ensures
        settings::given(calendar) == text::says_something(calendar.source),
{
    text::lemma_says_something(calendar.source);
}

/// Whether an event is what a calendar makes of one that its file shows: it says the same, is at
/// the same time, and bears the calendar's position and name.
pub open spec fn stands_for(event: EventView, shown: EventView, index: int, name: Seq<char>) -> bool {
    &&& event.summary == shown.summary
    &&& event.location == shown.location
    &&& event.start == shown.start
    &&& event.end == shown.end
    &&& event.calendar_index == index
    &&& event.calendar_name == name
}

proof fn lemma_of_last_calendar(
    before: Seq<EventView>,
    more: Seq<EventView>,
    keep: spec_fn(EventView) -> bool,
)
    requires
        forall|i: int| 0 <= i < more.len() ==> keep(#[trigger] more[i]),
        forall|i: int| 0 <= i < before.len() ==> !keep(#[trigger] before[i]),
    ensures
        (before + more).filter(keep) == more,
{
    Seq::filter_distributes_over_add(before, more, keep);
    lemma_all_or_none(before, keep);
    lemma_all_or_none(more, keep);
    assert(before.filter(keep) + more.filter(keep) == more);
}

proof fn lemma_all_or_none(events: Seq<EventView>, keep: spec_fn(EventView) -> bool)
    ensures
        (forall|i: int| 0 <= i < events.len() ==> keep(#[trigger] events[i])) ==> events.filter(
            keep,
        ) == events,
        (forall|i: int| 0 <= i < events.len() ==> !keep(#[trigger] events[i])) ==> events.filter(
            keep,
        ) == Seq::<EventView>::empty(),
    decreases events.len(),
{
    reveal(Seq::filter);
    if events.len() > 0 {
        let front = events.drop_last();
        let last = events.len() - 1;
        lemma_all_or_none(front, keep);
        assert(events == front.push(events.last()));
        assert(events[last] == events.last());
        assert forall|i: int| 0 <= i < front.len() implies #[trigger] front[i] == events[i] by {}
        if forall|i: int| 0 <= i < events.len() ==> keep(#[trigger] events[i]) {
            assert forall|i: int| 0 <= i < front.len() implies keep(#[trigger] front[i]) by {
                assert(keep(events[i]));
            }
        }
        if forall|i: int| 0 <= i < events.len() ==> !keep(#[trigger] events[i]) {
            assert forall|i: int| 0 <= i < front.len() implies !keep(#[trigger] front[i]) by {
                assert(!keep(events[i]));
            }
        }
    } else {
        assert(events.filter(keep) == Seq::<EventView>::empty());
    }
}

proof fn lemma_gathered_of(
    calendars: Seq<SourceView>,
    fetched: Seq<Result<Seq<char>, Seq<char>>>,
    times: Seq<UtcTime>,
    zone: Zone,
    index: int,
)
    requires
        calendars.len() <= usize::MAX,
        0 <= index < calendars.len(),
        gathered(calendars, fetched, times, zone) is Ok,
    ensures
        ({
            let events = gathered(calendars, fetched, times, zone)->Ok_0;
            let own = events.filter(|event: EventView| event.calendar_index == index);
            if settings::given(calendars[index]) {
                calendar_events(
                    index as usize,
                    calendars[index],
                    fetched[index],
                    times[index],
                    zone,
                ) == Ok::<Seq<EventView>, Seq<char>>(own)
            } else {
                own.len() == 0
            }
        }),
    decreases calendars.len(),
{
    let keep = |event: EventView| event.calendar_index == index;
    let front = calendars.drop_last();
    let last = calendars.len() - 1;
    let before = gathered(front, fetched, times, zone)->Ok_0;
    let events = gathered(calendars, fetched, times, zone)->Ok_0;
    lemma_gathered_bear_calendar(front, fetched, times, zone);
    if settings::given(calendars[last]) {
        let more = calendar_events(
            last as usize,
            calendars[last],
            fetched[last],
            times[last],
            zone,
        )->Ok_0;
        assert(events == before + more);
        assert forall|i: int| 0 <= i < more.len() implies (#[trigger] more[i]).calendar_index
            == last by {}
        if index == last {
            assert forall|i: int| 0 <= i < before.len() implies !keep(#[trigger] before[i]) by {
                assert(bears_calendar(before[i], front));
            }
            lemma_of_last_calendar(before, more, keep);
        } else {
            lemma_gathered_of(front, fetched, times, zone, index);
            Seq::filter_distributes_over_add(before, more, keep);
            assert forall|i: int| 0 <= i < more.len() implies !keep(#[trigger] more[i]) by {}
            lemma_all_or_none(more, keep);
            assert(before.filter(keep) + more.filter(keep) == before.filter(keep));
            assert(front[index] == calendars[index]);
        }
    } else {
        if index == last {
            assert forall|i: int| 0 <= i < before.len() implies !keep(#[trigger] before[i]) by {
                assert(bears_calendar(before[i], front));
            }
            lemma_all_or_none(before, keep);
        } else {
            lemma_gathered_of(front, fetched, times, zone, index);
            assert(front[index] == calendars[index]);
        }
    }
}

/// What is loaded of a calendar with a source is what its file shows, event by event in the same
/// order: each has the summary, the location, the start and the end that it has in the file, and
/// bears the position and the name of the calendar. Of a calendar without a source nothing is
/// loaded, and nothing that is not of one of the calendars.
pub proof fn loaded_events_are_those_of_their_files(
    calendars: Seq<SourceView>,
    fetched: Seq<Result<Seq<char>, Seq<char>>>,
    times: Seq<UtcTime>,
    zone: Zone,
    events: Seq<EventView>,
    index: int,
)
    requires
        calendars.len() <= usize::MAX,
        loaded(calendars, fetched, times, zone) == Ok::<Seq<EventView>, Seq<char>>(events),
        0 <= index < calendars.len(),
    ensures
        ({
            let own = events.filter(|event: EventView| event.calendar_index == index);
            if text::says_something(calendars[index].source) {
                fetched[index] matches Ok(input) && (ics::parsed(input, times[index], zone) matches Ok(
                    shown,
                ) && own.len() == shown.len() && forall|k: int|
                    0 <= k < shown.len() ==> stands_for(
                        #[trigger] own[k],
                        shown[k],
                        index,
                        source::display_name(calendars[index]),
                    ))
            } else {
                own.len() == 0
            }
        }),
        forall|i: int|
            0 <= i < events.len() ==> (#[trigger] events[i]).calendar_index < calendars.len(),
        forall|i: int, j: int|
            0 <= i < j < events.len() ==> {
                ||| (#[trigger] events[i]).start.seconds < (#[trigger] events[j]).start.seconds
                ||| events[i].start.seconds == events[j].start.seconds && events[i].start.nanos
                    <= events[j].start.nanos
            },
{
    let keep = |event: EventView| event.calendar_index == index;
    let before = gathered(calendars, fetched, times, zone)->Ok_0;
    lemma_says_something(calendars[index]);
    lemma_gathered_of(calendars, fetched, times, zone, index);
    event::picking_and_ordering_can_be_swapped(before, keep);
    loaded_events_bear_their_calendar(calendars, fetched, times, zone);
    assert forall|i: int| 0 <= i < events.len() implies (#[trigger] events[i]).calendar_index
        < calendars.len() by {
        assert(bears_calendar(events[i], calendars));
    }
    let own = events.filter(keep);
    if settings::given(calendars[index]) {
        let input = fetched[index]->Ok_0;
        let shown = ics::parsed(input, times[index], zone)->Ok_0;
        let there = before.filter(keep);
        let all = ics::all_events(ics::records_of(input), zone).unwrap();
        ics::recent_events_are_shown_in_order(all, times[index]);
        assert(event::in_order(shown));
        assert(event::in_order(there)) by {
            assert forall|i: int, j: int| 0 <= i < j < there.len() implies !(
            #[trigger] there[j]).start.precedes((#[trigger] there[i]).start) by {
                assert(!shown[j].start.precedes(shown[i].start));
            }
        }
        event::ordering_leaves_ordered_events_alone(there);
        assert(own == there);
    } else {
        assert(before.filter(keep).len() == 0);
        assert(own == event::by_start(before.filter(keep)));
    }
}

/// What is told if a calendar cannot be loaded: its name, and behind a colon what went wrong with
/// fetching it or with reading its file.
pub open spec fn complaint(
    calendar: SourceView,
    fetched: Result<Seq<char>, Seq<char>>,
    now: UtcTime,
    zone: Zone,
) -> Option<Seq<char>> {
    let error = match fetched {
        Err(error) => Some(error),
        Ok(input) => match ics::parsed(input, now, zone) {
            Err(error) => Some(error),
            Ok(_) => None,
        },
    };
    match error {
        Some(error) => Some(source::display_name(calendar) + seq![':', ' '] + error),
        None => None,
    }
}

/// Loading ends in the complaint about the first calendar with a source that cannot be loaded,
/// and in events if all can.
pub proof fn the_first_calendar_that_fails_is_named(
    calendars: Seq<SourceView>,
    fetched: Seq<Result<Seq<char>, Seq<char>>>,
    times: Seq<UtcTime>,
    zone: Zone,
    index: int,
)
    requires
        calendars.len() <= usize::MAX,
        0 <= index <= calendars.len(),
        forall|i: int|
            0 <= i < index && text::says_something((#[trigger] calendars[i]).source) ==> complaint(
                calendars[i],
                fetched[i],
                times[i],
                zone,
            ) is None,
    ensures
        index == calendars.len() ==> loaded(calendars, fetched, times, zone) is Ok,
        index < calendars.len() && text::says_something(calendars[index].source) ==> (complaint(
            calendars[index],
            fetched[index],
            times[index],
            zone,
        ) matches Some(message) ==> loaded(calendars, fetched, times, zone) == Err::<
            Seq<EventView>,
            Seq<char>,
        >(message)),
{
    lemma_no_complaint(calendars, index, fetched, times, zone);
    assert(calendars.take(calendars.len() as int) == calendars);
    if index < calendars.len() && text::says_something(calendars[index].source) {
        if let Some(message) = complaint(calendars[index], fetched[index], times[index], zone) {
            reveal_strlit(": ");
            assert(": "@ == seq![':', ' ']);
            lemma_says_something(calendars[index]);
            lemma_step(calendars, index, fetched, times, zone);
            lemma_error_stays(calendars, index + 1, message, fetched, times, zone);
        }
    }
}

proof fn lemma_no_complaint(
    calendars: Seq<SourceView>,
    n: int,
    fetched: Seq<Result<Seq<char>, Seq<char>>>,
    times: Seq<UtcTime>,
    zone: Zone,
)
    requires
        calendars.len() <= usize::MAX,
        0 <= n <= calendars.len(),
        forall|i: int|
            0 <= i < n && text::says_something((#[trigger] calendars[i]).source) ==> complaint(
                calendars[i],
                fetched[i],
                times[i],
                zone,
            ) is None,
    ensures
        gathered(calendars.take(n), fetched, times, zone) is Ok,
    decreases n,
{
    if n > 0 {
        lemma_no_complaint(calendars, n - 1, fetched, times, zone);
        lemma_says_something(calendars[n - 1]);
        assert(calendars.take(n).drop_last() == calendars.take(n - 1));
        assert(calendars.take(n)[n - 1] == calendars[n - 1]);
    }
}

/// Once the events of the calendars before a position are gathered, loading asks for the text of
/// the next calendar whose source is not blank, by that source without the white space around it,
/// and keeps what it has gathered. If there is none, it is done.
pub proof fn loading_asks_for_the_next_source(
    calendars: Seq<SourceView>,
    from: int,
    events: Seq<EventView>,
)
    requires
        0 <= from <= calendars.len(),
    ensures
        match resumed(calendars, from, events) {
            (ActionView::Fetch(request), state) => {
                &&& from <= state.next < calendars.len()
                &&& text::says_something(calendars[state.next].source)
                &&& forall|j: int|
                    from <= j < state.next ==> !text::says_something((#[trigger] calendars[j]).source)
                &&& request == requested(text::trim(calendars[state.next].source))
                &&& state.events == events
            },
            (ActionView::Done(result), state) => {
                &&& result is Ok
                &&& forall|j: int|
                    from <= j < calendars.len() ==> !text::says_something(
                        (#[trigger] calendars[j]).source,
                    )
                &&& state.next == calendars.len()
            },
        },
{
    let rest = calendars.skip(from);
    let i = from + settings::first_given(rest);
    settings::lemma_first_given(rest);
    assert forall|j: int| from <= j < i && j < calendars.len() implies !text::says_something(
        (#[trigger] calendars[j]).source,
    ) by {
        assert(rest[j - from] == calendars[j]);
        lemma_says_something(calendars[j]);
    }
    if i < calendars.len() {
        assert(rest[i - from] == calendars[i]);
        lemma_says_something(calendars[i]);
    }
}

proof fn lemma_nothing_replaced(s: Seq<char>, from: Seq<char>, to: Seq<char>)
    requires
        from.len() > 0,
        !text::occurs_in(from, s),
    ensures
        text::replace_first(s, from, to) == s,
    decreases s.len(),
{
    if s.len() > 0 {
        let rest = s.drop_first();
        assert(s.skip(0) == s);
        assert(!text::starts_with(s.skip(0), from));
        assert forall|i: int| 0 <= i <= rest.len() implies !#[trigger] text::starts_with(
            rest.skip(i),
            from,
        ) by {
            assert(rest.skip(i) == s.skip(i + 1));
            assert(!text::starts_with(s.skip(i + 1), from));
        }
        lemma_nothing_replaced(rest, from, to);
        assert(seq![s[0]] + rest == s);
    }
}

/// A web address is downloaded as it stands, unless a webcal address stands within it.
pub proof fn web_addresses_are_downloaded(source: &str, r: Request, rest: Seq<char>)
    requires
        call_ensures(load_calendar, (source,), r),
        source@ == "http://"@ + rest || source@ == "https://"@ + rest,
        !text::occurs_in("webcal://"@, source@),
    ensures
        r matches Request::Download(address) && address@ == source@,
{
    reveal_strlit("data:");
    reveal_strlit("http://");
    reveal_strlit("https://");
    reveal_strlit("webcal://");
    assert(source@[0] == 'h');
    assert("data:"@[0] == 'd');
    if text::starts_with(source@, "data:"@) {
        assert(source@.take(5)[0] == source@[0]);
    }
    if source@ == "http://"@ + rest {
        assert(source@.take(7) == "http://"@);
    } else {
        assert(source@.take(8) == "https://"@);
    }
    lemma_nothing_replaced(source@, "webcal://"@, "https://"@);
    assert(r@ == RequestView::Download(source@));
}

/// What starts like a data URI holds its text, or says what is wrong with it, without anything
/// being fetched.
pub proof fn data_uris_hold_their_text(
    source: &str,
    r: Request,
    rest: Seq<char>,
    text: Result<String, String>,
)
    requires
        call_ensures(load_calendar, (source,), r),
        call_ensures(data_uri::decode_calendar_data_uri, (source,), text),
        source@ == "data:"@ + rest,
    ensures
        r matches Request::Ready(result) && data_uri::text_result(result) == data_uri::text_result(
            text,
        ),
{
    reveal_strlit("data:");
    assert(source@.take(5) == "data:"@);
    assert(r@ == RequestView::Ready(data_uri::decoded(source@)));
}

/// Everything else is the path of a file, to be opened as it stands.
pub proof fn other_sources_are_files(source: &str, r: Request)
    requires
        call_ensures(load_calendar, (source,), r),
        source@.len() < 5 || source@.take(5) != "data:"@,
        source@.len() < 7 || source@.take(7) != "http://"@,
        source@.len() < 8 || source@.take(8) != "https://"@,
        source@.len() < 9 || source@.take(9) != "webcal://"@,
    ensures
        r matches Request::Open(path) && path@ == source@,
{
    reveal_strlit("data:");
    reveal_strlit("http://");
    reveal_strlit("https://");
    reveal_strlit("webcal://");
    assert(r@ == RequestView::Open(source@));
}

/// What is told of a step that has failed says which one it was, and ends in the error.
pub proof fn failures_name_their_step(step: FetchStep, error: &str, r: String)
    requires
        call_ensures(fetch_failure, (step, error), r),
    ensures
        step == FetchStep::Client ==> r@ == "Calendar client error: "@ + error@,
        step == FetchStep::Download ==> r@ == "Could not download calendar: "@ + error@,
        step == FetchStep::Response ==> r@ == "Calendar server error: "@ + error@,
        step == FetchStep::Read ==> r@ == "Could not read calendar: "@ + error@,
{
}

} // verus!
