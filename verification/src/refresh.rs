//! When calendars are loaded, and what the user is told meanwhile.
use vstd::prelude::*;

use crate::event::CalendarEvent;
use crate::number;
use crate::settings;
use crate::source::{self, CalendarSource, SourceView};
use crate::text;

verus! {

/// The seconds after which calendars are loaded again: a quarter of an hour.
pub const AUTO_REFRESH: u64 = 900;

/// Whether calendars are being loaded, and what the user is told and shown of it.
#[derive(Debug)]
pub struct Refresh {
    pub loading: bool,
    pub status: String,
    pub show_settings: bool,
}

/// What is known of a refresh.
#[verifier::ext_equal]
pub struct RefreshView {
    pub loading: bool,
    pub status: Seq<char>,
    pub show_settings: bool,
}

impl View for Refresh {
    type V = RefreshView;

    open spec fn view(&self) -> RefreshView {
        RefreshView {
            loading: self.loading,
            status: self.status@,
            show_settings: self.show_settings,
        }
    }
}

/// Whether a number of seconds is long enough to load calendars again.
pub open spec fn is_due(loading: bool, elapsed: Option<u64>) -> bool {
    !loading && match elapsed {
        Some(seconds) => seconds >= AUTO_REFRESH,
        None => false,
    }
}

/// A refresh that was called for, and whether loading starts: it does not while calendars are
/// being loaded, nor if no calendar has a source, in which case the settings are shown.
pub open spec fn begun(state: RefreshView, any_source: bool) -> (RefreshView, bool) {
    if state.loading {
        (state, false)
    } else if !any_source {
        (
            RefreshView { show_settings: true, status: "Add an ICS URL or file"@, ..state },
            false,
        )
    } else {
        (RefreshView { loading: true, status: "Syncing calendar…"@, ..state }, true)
    }
}

/// A refresh whose loading has ended: the status is the number of events or the error.
pub open spec fn finished(state: RefreshView, result: Result<nat, Seq<char>>) -> RefreshView {
    RefreshView {
        loading: false,
        status: match result {
            Ok(count) => "Synced "@ + number::decimal(count) + " calendar events"@,
            Err(error) => error,
        },
        ..state
    }
}

/// No second loading starts while one is going on, and once it has ended another one can.
pub proof fn one_loading_at_a_time(
    state: RefreshView,
    any_source: bool,
    again: bool,
    result: Result<nat, Seq<char>>,
    elapsed: Option<u64>,
)
    ensures
        begun(state, any_source).1 ==> {
            let loading = begun(state, any_source).0;
            &&& !state.loading
            &&& begun(loading, again) == (loading, false)
            &&& !is_due(loading.loading, elapsed)
            &&& begun(finished(loading, result), true).1
        },
{
}

impl Refresh {
    /// Nothing was loaded yet.
    pub fn new() -> (r: Refresh)
        ensures
            r@ == (RefreshView {
                loading: false,
                status: "Add your calendar to get started"@,
                show_settings: false,
            }),
    {
        Refresh {
            loading: false,
            status: "Add your calendar to get started".to_owned(),
            show_settings: false,
        }
    }

    /// Whether the user is welcomed: there is no calendar yet, and the settings are not shown.
    pub fn welcomes(&self, calendars: &Vec<CalendarSource>) -> (r: bool)
        ensures
            r == (calendars@.len() == 0 && !self.show_settings),
    {
        calendars.len() == 0 && !self.show_settings
    }

    /// Adds a calendar of which nothing was said yet, and shows the settings.
    pub fn set_up(&mut self, calendars: &mut Vec<CalendarSource>)
        ensures
            final(self)@ == (RefreshView { show_settings: true, ..old(self)@ }),
            source::source_views(final(calendars)@) == source::source_views(
                old(calendars)@,
            ).push(SourceView { name: seq![], source: seq![] }),
    {
        self.show_settings = true;
        let ghost before = calendars@;
        let calendar = CalendarSource { name: String::new(), source: String::new() };
        let ghost said = calendar@;
        calendars.push(calendar);
        proof {
            assert(said =~= SourceView { name: seq![], source: seq![] });
            assert(source::source_views(calendars@) == source::source_views(before).push(said));
        }
    }

    /// Calls for a refresh and says whether loading starts.
    pub fn begin(&mut self, calendars: &Vec<CalendarSource>) -> (r: bool)
        ensures
            (final(self)@, r) == begun(
                old(self)@,
                exists|i: int|
                    0 <= i < calendars@.len() && settings::given(
                        #[trigger] source::source_views(calendars@)[i],
                    ),
            ),
    {
        if self.loading {
            return false;
        }
        if !settings::has_source(calendars) {
            self.show_settings = true;
            self.status = "Add an ICS URL or file".to_owned();
            return false;
        }
        self.loading = true;
        self.status = "Syncing calendar…".to_owned();
        true
    }

    /// Takes what loading has yielded: new events take the place of the old ones, an error leaves
    /// them alone.
    pub fn finish(
        &mut self,
        events: &mut Vec<CalendarEvent>,
        result: Result<Vec<CalendarEvent>, String>,
    )
        ensures
            final(self)@ == finished(
                old(self)@,
                match result {
                    Ok(loaded) => Ok(loaded@.len()),
                    Err(error) => Err(error@),
                },
            ),
            final(events)@ == (match result {
                Ok(loaded) => loaded@,
                Err(_) => old(events)@,
            }),
    {
        self.loading = false;
        match result {
            Ok(loaded) => {
                let mut status = "Synced ".to_owned();
                number::push_decimal(&mut status, loaded.len() as u64);
                text::push_text(&mut status, " calendar events");
                self.status = status;
                *events = loaded;
            },
            Err(error) => {
                self.status = error;
            },
        }
    }

    /// Whether calendars are to be loaded again, some seconds after they last were.
    pub fn due(&self, elapsed: Option<u64>) -> (r: bool)
        ensures
            r == is_due(self.loading, elapsed),
    {
        match elapsed {
            Some(seconds) => !self.loading && seconds >= AUTO_REFRESH,
            None => false,
        }
    }
}

/// Calendars are loaded again once a quarter of an hour has gone by since they last were, however
/// much more it is, unless they are being loaded. Before they were loaded once, they are not.
pub proof fn calendars_are_loaded_again_after_a_quarter_of_an_hour(
    state: &Refresh,
    seconds: u64,
    r: bool,
    never: bool,
)
    requires
        call_ensures(Refresh::due, (state, Some(seconds)), r),
        call_ensures(Refresh::due, (state, None), never),
    ensures
        r <==> !state.loading && seconds >= 15 * 60,
        !never,
{
}

/// The user is welcomed only as long as there is no calendar and the settings are not shown.
pub proof fn users_without_calendars_are_welcomed(
    state: &Refresh,
    calendars: &Vec<CalendarSource>,
    r: bool,
)
    requires
        call_ensures(Refresh::welcomes, (state, calendars), r),
    ensures
        r ==> calendars@.len() == 0 && !state.show_settings,
        !r ==> calendars@.len() > 0 || state.show_settings,
{
}

/// A refresh starts loading exactly if none is going on and there is something to load. It leaves
/// alone what it does not start: while calendars are being loaded nothing changes, and with nothing
/// to load the settings are shown and nothing is being loaded. Once it has ended, nothing is being
/// loaded, the settings are shown as before, and an error is told as it is.
pub proof fn refreshing_starts_and_ends_loading(
    state: RefreshView,
    any_source: bool,
    error: Seq<char>,
    count: nat,
)
    ensures
        begun(state, any_source).1 <==> !state.loading && any_source,
        begun(state, any_source).0.loading <==> state.loading || any_source,
        state.loading ==> begun(state, any_source).0 == state,
        begun(state, any_source).0.show_settings <==> state.show_settings || (!state.loading
            && !any_source),
        !state.loading && any_source ==> begun(state, any_source).0.status == "Syncing calendar…"@,
        !state.loading && !any_source ==> begun(state, any_source).0.status
            == "Add an ICS URL or file"@,
        !finished(state, Err(error)).loading,
        finished(state, Err(error)).show_settings == state.show_settings,
        finished(state, Err(error)).status == error,
        !finished(state, Ok(count)).loading,
        finished(state, Ok(count)).show_settings == state.show_settings,
{
}

/// The status after loading tells how many events were loaded: between its words stand digits
/// that read as their number.
pub proof fn status_tells_the_number_of_events(state: RefreshView, count: nat)
    ensures
        ({
            let status = finished(state, Ok(count)).status;
            let digits = status.subrange("Synced "@.len() as int, status.len()
                - " calendar events"@.len());
            &&& status == "Synced "@ + digits + " calendar events"@
            &&& number::digits_value(digits) == count
            &&& number::all_digits(digits)
        }),
{
    number::decimal_reads_back(count);
    let status = finished(state, Ok(count)).status;
    let digits = status.subrange("Synced "@.len() as int, status.len() - " calendar events"@.len());
    assert(digits == number::decimal(count));
}

} // verus!
