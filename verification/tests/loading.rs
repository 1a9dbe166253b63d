use college_cal::data_uri::{decode_calendar_data_uri, hex_value};
use college_cal::event::CalendarEvent;
use college_cal::load::{
    fetch_failure, load_calendar, open_failure, FetchStep, LoadAction, Loading, Request,
};
use college_cal::local::now;
use college_cal::refresh::{Refresh, AUTO_REFRESH};
use college_cal::source::CalendarSource;
use college_cal::time::UtcTime;
use college_cal::zone::LocalClock;

fn calendar(name: &str, source: &str) -> CalendarSource {
    CalendarSource { name: name.to_owned(), source: source.to_owned() }
}

fn ready(request: Request) -> Result<String, String> {
    match request {
        Request::Ready(result) => result,
        other => panic!("{:?} is not at hand", other),
    }
}

fn load_calendars(calendars: &Vec<CalendarSource>) -> Result<Vec<CalendarEvent>, String> {
    let mut loading = Loading::new();
    let mut clock = LocalClock::new();
    let mut fetched = None;
    loop {
        match loading.step(calendars, fetched, now(), &mut clock) {
            LoadAction::Fetch(request) => fetched = Some(ready(request)),
            LoadAction::Done(result) => return result,
        }
    }
}

fn class(summary: &str, start: &str, end: &str) -> String {
    format!(
        "data:text/calendar,BEGIN:VEVENT%0ASUMMARY:{}%0ADTSTART:{}%0ADTEND:{}%0AEND:VEVENT",
        summary, start, end
    )
}

#[test]
fn decodes_percent_encoded_calendar_data_uri() {
    let source = "data:text/calendar;charset=UTF-8,BEGIN%3AVCALENDAR%0D%0ASUMMARY%3ATest%20Class%0D%0AEND%3AVCALENDAR";
    let decoded = decode_calendar_data_uri(source).unwrap();

    assert_eq!(
        decoded,
        "BEGIN:VCALENDAR\r\nSUMMARY:Test Class\r\nEND:VCALENDAR"
    );
}

#[test]
fn loads_and_names_multiple_calendars() {
    let first = "data:text/calendar,BEGIN:VCALENDAR%0ABEGIN:VEVENT%0ASUMMARY:Math%0ADTSTART:20900102T090000Z%0ADTEND:20900102T100000Z%0AEND:VEVENT%0AEND:VCALENDAR";
    let second = "data:text/calendar,BEGIN:VCALENDAR%0ABEGIN:VEVENT%0ASUMMARY:Art%0ADTSTART:20900102T110000Z%0ADTEND:20900102T120000Z%0AEND:VEVENT%0AEND:VCALENDAR";
    let calendars = vec![
        CalendarSource { name: "Lincoln".into(), source: first.into() },
        CalendarSource { name: "Friend".into(), source: second.into() },
    ];

    let events = load_calendars(&calendars).expect("calendars should load");

    assert_eq!(events.len(), 2);
    assert_eq!(events[0].calendar_name, "Lincoln");
    assert_eq!(events[1].calendar_name, "Friend");
}

#[test]
fn events_of_several_calendars_are_ordered_by_their_start() {
    let calendars = vec![
        calendar("A", &class("Late", "20900102T110000Z", "20900102T120000Z")),
        calendar("", "  "),
        calendar("  B ", &class("Early", "20900102T090000Z", "20900102T100000Z")),
        calendar("C", &class("Same", "20900102T110000Z", "20900102T113000Z")),
    ];
    let events = load_calendars(&calendars).unwrap();
    let found: Vec<(usize, &str, &str)> = events
        .iter()
        .map(|e| (e.calendar_index, e.calendar_name.as_str(), e.summary.as_str()))
        .collect();
    assert_eq!(found, [(2, "B", "Early"), (0, "A", "Late"), (3, "C", "Same")]);
}

#[test]
fn nothing_to_load_yields_nothing() {
    assert_eq!(load_calendars(&vec![]).unwrap().len(), 0);
    assert_eq!(load_calendars(&vec![calendar("A", " \t ")]).unwrap().len(), 0);
}

#[test]
fn the_first_error_is_put_down_to_its_calendar() {
    let good = class("Math", "20900102T110000Z", "20900102T120000Z");
    let calendars = vec![calendar("A", &good), calendar("B", "data:nothing"), calendar("C", "data:")];
    assert_eq!(load_calendars(&calendars).unwrap_err(), "B: Invalid calendar data URI");
    let calendars = vec![calendar("A", &good), calendar(" Empty ", "data:,none")];
    assert_eq!(
        load_calendars(&calendars).unwrap_err(),
        "Empty: No current or upcoming timed events found in this calendar"
    );
    let mut loading = Loading::new();
    let mut clock = LocalClock::new();
    let calendars = vec![calendar("", " webcal://example.edu/spring.ics ")];
    match loading.step(&calendars, None, now(), &mut clock) {
        LoadAction::Fetch(Request::Download(address)) => {
            assert_eq!(address, "https://example.edu/spring.ics")
        }
        other => panic!("{:?}", other),
    }
    let failed = Some(Err(fetch_failure(FetchStep::Response, "404")));
    match loading.step(&calendars, failed, now(), &mut clock) {
        // Named after the source as it stands, white space included.
        LoadAction::Done(Err(error)) => assert_eq!(error, "spring: Calendar server error: 404"),
        other => panic!("{:?}", other),
    }
}

#[test]
fn a_source_says_how_its_text_is_to_be_had() {
    for (source, wanted) in [
        ("http://a/b.ics", "http://a/b.ics"),
        ("https://a/b.ics", "https://a/b.ics"),
        ("webcal://a/b.ics", "https://a/b.ics"),
        ("http://a/webcal://webcal://", "http://a/https://webcal://"),
    ] {
        match load_calendar(source) {
            Request::Download(address) => assert_eq!(address, wanted),
            other => panic!("{:?}", other),
        }
    }
    for source in ["/home/me/a.ics", "a.ics", "HTTP://a", "file:///a", "data", ""] {
        match load_calendar(source) {
            Request::Open(path) => assert_eq!(path, source),
            other => panic!("{:?}", other),
        }
    }
    assert_eq!(ready(load_calendar("data:,a%20b")), Ok("a b".to_owned()));
    assert!(ready(load_calendar("data:")).is_err());
}

#[test]
fn failures_are_put_in_words() {
    assert_eq!(fetch_failure(FetchStep::Client, "x"), "Calendar client error: x");
    assert_eq!(fetch_failure(FetchStep::Download, "x"), "Could not download calendar: x");
    assert_eq!(fetch_failure(FetchStep::Response, "x"), "Calendar server error: x");
    assert_eq!(fetch_failure(FetchStep::Read, "x"), "Could not read calendar: x");
    assert_eq!(open_failure("/a.ics", "gone"), "Could not open /a.ics: gone");
}

#[test]
fn values_of_hexadecimal_digits() {
    for byte in 0..=255u8 {
        let wanted = (byte as char).to_digit(16).map(|value| value as u8);
        assert_eq!(hex_value(byte), wanted);
    }
}

#[test]
fn broken_data_uris_are_refused() {
    let decode = |source: &str| decode_calendar_data_uri(source);
    assert_eq!(decode("data:text/calendar"), Err("Invalid calendar data URI".to_owned()));
    for source in ["data:text/calendar;base64,QQ==", "data:;BASE64,", "data:;x;Base64Url,a"] {
        assert_eq!(
            decode(source),
            Err("Base64 calendar data URIs are not supported yet".to_owned())
        );
    }
    for source in ["data:,%", "data:,a%4", "data:,%g0", "data:,%0g", "data:,ok%%20"] {
        assert_eq!(
            decode(source),
            Err("Invalid percent escape in calendar data URI".to_owned())
        );
    }
    let error = String::from_utf8(vec![97, 0xff]).unwrap_err();
    assert_eq!(
        decode("data:,a%ff"),
        Err(format!("Calendar data is not valid UTF-8: {}", error))
    );
}

#[test]
fn data_uris_carry_any_text() {
    assert_eq!(decode_calendar_data_uri("data:,plain, ünïcode").unwrap(), "plain, ünïcode");
    assert_eq!(decode_calendar_data_uri("data:,").unwrap(), "");
    assert_eq!(decode_calendar_data_uri("data:,%41%62%c3%BC").unwrap(), "Abü");
    let text = "Zoë → ☃\r\n";
    let escaped: String = text.bytes().map(|byte| format!("%{:02X}", byte)).collect();
    assert_eq!(decode_calendar_data_uri(&format!("data:,{}", escaped)).unwrap(), text);
    let small: String = text.bytes().map(|byte| format!("%{:02x}", byte)).collect();
    assert_eq!(decode_calendar_data_uri(&format!("data:,{}", small)).unwrap(), text);
    let joined = format!("data:,{}plain%20{}", escaped, small);
    assert_eq!(decode_calendar_data_uri(&joined).unwrap(), format!("{}plain {}", text, text));
}

#[test]
fn refreshing_goes_through_its_states() {
    let mut state = Refresh::new();
    let mut events: Vec<CalendarEvent> = Vec::new();
    assert_eq!(state.status, "Add your calendar to get started");
    assert!(!state.loading && !state.show_settings);

    let mut none = Vec::new();
    assert!(state.welcomes(&none));
    state.set_up(&mut none);
    assert!(state.show_settings && !state.welcomes(&none));
    assert_eq!((none.len(), none[0].name.as_str(), none[0].source.as_str()), (1, "", ""));
    assert!(!state.welcomes(&Vec::new()));
    state.show_settings = false;

    assert!(!state.begin(&vec![calendar("A", " ")]));
    assert_eq!(state.status, "Add an ICS URL or file");
    assert!(state.show_settings && !state.loading);

    let calendars = vec![calendar("A", " "), calendar("B", "b.ics")];
    assert!(state.begin(&calendars));
    assert_eq!(state.status, "Syncing calendar…");
    assert!(state.loading);
    assert!(!state.begin(&calendars));
    assert!(!state.due(Some(AUTO_REFRESH)));

    let t = UtcTime { seconds: 0, nanos: 0 };
    let one = CalendarEvent {
        calendar_index: 1,
        calendar_name: "B".to_owned(),
        summary: "Math".to_owned(),
        location: String::new(),
        start: t,
        end: t,
    };
    state.finish(&mut events, Ok(vec![one.clone(), one]));
    assert_eq!(state.status, "Synced 2 calendar events");
    assert!(!state.loading);
    assert_eq!(events.len(), 2);

    state.finish(&mut events, Err("B: broken".to_owned()));
    assert_eq!(state.status, "B: broken");
    assert_eq!(events.len(), 2);
}

#[test]
fn calendars_are_loaded_again_after_a_quarter_of_an_hour() {
    let state = Refresh::new();
    assert!(!state.due(None));
    assert!(!state.due(Some(899)));
    assert!(state.due(Some(900)));
    assert_eq!(AUTO_REFRESH, 15 * 60);
}
