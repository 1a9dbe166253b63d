use std::collections::BTreeSet;
use std::path::Path;

use college_cal::directory::{discover_ics_files, is_calendar_name, DirectoryEntry};
use college_cal::path::{calendar_name_from_source, equal_paths, name_of_file};
use college_cal::settings::{
    adopt_source, apply_action, calendar_choices, choose_file, has_source, main_calendar,
    named_calendars, PanelAction,
};
use college_cal::source::{
    calendar_display_name, sync_ics_directory, CalendarSource, DirectoryFile,
};

fn calendar(name: &str, source: &str) -> CalendarSource {
    CalendarSource { name: name.to_owned(), source: source.to_owned() }
}

fn file(path: &str) -> DirectoryFile {
    let name = path.rsplit('/').next().map(str::to_owned);
    DirectoryFile { source: path.to_owned(), path: Some(path.to_owned()), name }
}

fn entry(name: &str, is_file: bool) -> DirectoryEntry {
    DirectoryEntry {
        name: name.as_bytes().to_vec(),
        is_file,
        file: file(&format!("/ics/{}", name)),
    }
}

fn texts(list: &[&str]) -> Vec<String> {
    list.iter().map(|s| s.to_string()).collect()
}

fn pairs(calendars: &[CalendarSource]) -> Vec<(&str, &str)> {
    calendars.iter().map(|c| (c.name.as_str(), c.source.as_str())).collect()
}

const PATHS: [&str; 30] = [
    "", ".", "..", "/", "//", "./", "a", "./a", "a/", "a/.", "a/..", "../a", "/a", "//a//b//",
    "/a/./b", "a/b.ics", "a.b/c", ".hidden", ".hidden.ics", "a.", "a.b.c", "..a", "a..", "...",
    "https://example.edu/spring.ics", "webcal://x/y.ics?z=1/2.3", "/ics/Fall 2026.ICS", " a ",
    "./.", "a//.//b",
];

#[test]
fn names_calendars_after_their_files() {
    for path in PATHS {
        let wanted = Path::new(path)
            .file_stem()
            .and_then(|name| name.to_str())
            .filter(|name| !name.is_empty())
            .unwrap_or("Calendar");
        assert_eq!(calendar_name_from_source(path), wanted, "{:?}", path);
    }
    assert_eq!(calendar_name_from_source("/ics/fall.ics"), "fall");
    assert_eq!(calendar_name_from_source("/"), "Calendar");
}

#[test]
fn finds_the_names_of_files() {
    for path in PATHS {
        let chars: Vec<char> = path.chars().collect();
        let name = name_of_file(&chars).map(|name| name.into_iter().collect::<String>());
        let wanted = Path::new(path).file_name().map(|name| name.to_str().unwrap().to_owned());
        assert_eq!(name, wanted, "{:?}", path);
    }
}

#[test]
fn tells_paths_apart() {
    for a in PATHS {
        for b in PATHS {
            let (x, y): (Vec<char>, Vec<char>) = (a.chars().collect(), b.chars().collect());
            assert_eq!(equal_paths(&x, &y), Path::new(a) == Path::new(b), "{:?} {:?}", a, b);
        }
    }
}

#[test]
fn calendars_are_called_by_their_name_or_source() {
    assert_eq!(calendar_display_name(&calendar("  Lincoln\t", "/a/b.ics")), "Lincoln");
    assert_eq!(calendar_display_name(&calendar(" \u{a0} ", "/a/b.ics")), "b");
    assert_eq!(calendar_display_name(&calendar("", "")), "Calendar");
    let none = CalendarSource::default();
    assert_eq!((none.name.as_str(), none.source.as_str()), ("", ""));
}

#[test]
fn discovers_calendar_files_in_ics_directory() {
    let files = discover_ics_files(vec![
        entry("second.ICS", true),
        entry("first.ical", true),
        entry("notes.txt", true),
    ]);

    assert_eq!(files.len(), 2);
    assert_eq!(files[0].name.as_deref(), Some("first.ical"));
    assert_eq!(files[1].name.as_deref(), Some("second.ICS"));
}

#[test]
fn only_files_with_a_calendar_extension_are_found() {
    for name in ["a.ics", "a.ICS", "a.iCs", "a.ical", "a.ICAL", "a.b.ics", "..ics", "a..ical"] {
        assert!(is_calendar_name(name.as_bytes()), "{}", name);
    }
    for name in [".ics", "ics", "a.ic", "a.icsx", "a.icals", "a.ics.txt", "a.", "", "a.\u{131}cs"] {
        assert!(!is_calendar_name(name.as_bytes()), "{}", name);
    }
    assert!(is_calendar_name(&[0xff, b'.', b'i', b'c', b's']));
    assert_eq!(discover_ics_files(vec![entry("a.ics", false)]).len(), 0);
    let sources: Vec<String> = discover_ics_files(vec![
        entry("b.ics", true),
        entry("a.ics", true),
        entry("B.ics", true),
        entry("aa.ics", true),
        entry("a.ical", true),
    ])
    .into_iter()
    .map(|file| file.source)
    .collect();
    assert_eq!(
        sources,
        ["/ics/B.ics", "/ics/a.ical", "/ics/a.ics", "/ics/aa.ics", "/ics/b.ics"]
    );
}

#[test]
fn found_files_become_calendars() {
    let mut calendars = vec![calendar("Mine", "/ics//fall.ics"), calendar("Web", "https://x/y")];
    let files = vec![file("/ics/fall.ics"), file("/ics/spring.ics")];
    let existing = texts(&["/ics//fall.ics", "/ics/fall.ics", "/ics/spring.ics"]);
    sync_ics_directory(&mut calendars, &files, &existing);
    let wanted = [
        ("Mine", "/ics//fall.ics"),
        ("Web", "https://x/y"),
        ("spring", "/ics/spring.ics"),
    ];
    assert_eq!(pairs(&calendars), wanted);
    // A second time nothing changes.
    sync_ics_directory(&mut calendars, &files, &existing);
    assert_eq!(pairs(&calendars), wanted);
}

#[test]
fn a_file_that_has_moved_is_found_again() {
    let mut calendars = vec![
        calendar("Kept", "/there/fall.ics"),
        calendar("Moved", "/gone/fall.ics"),
        calendar("Also gone", "/gone/too/fall.ics"),
    ];
    let files = vec![file("/ics/fall.ics")];
    let existing = texts(&["/there/fall.ics", "/ics/fall.ics"]);
    sync_ics_directory(&mut calendars, &files, &existing);
    assert_eq!(
        pairs(&calendars),
        [
            ("Kept", "/there/fall.ics"),
            ("Moved", "/ics/fall.ics"),
            ("Also gone", "/gone/too/fall.ics"),
        ]
    );
}

#[test]
fn a_path_that_is_no_text_matches_no_calendar() {
    let mut calendars = vec![calendar("A", "/ics/\u{fffd}.ics")];
    let files = vec![DirectoryFile {
        source: "/ics/\u{fffd}.ics".to_owned(),
        path: None,
        name: None,
    }];
    sync_ics_directory(&mut calendars, &files, &Vec::new());
    assert_eq!(
        pairs(&calendars),
        [("A", "/ics/\u{fffd}.ics"), ("\u{fffd}", "/ics/\u{fffd}.ics")]
    );
}

#[test]
fn a_single_source_becomes_the_first_calendar() {
    let (mut calendars, mut source) = (Vec::new(), "https://x/fall.ics".to_owned());
    adopt_source(&mut calendars, &mut source);
    assert_eq!(pairs(&calendars), [("fall", "https://x/fall.ics")]);
    assert_eq!(source, "");

    source = "/other.ics".to_owned();
    adopt_source(&mut calendars, &mut source);
    assert_eq!(calendars.len(), 1);
    assert_eq!(source, "/other.ics");

    let (mut calendars, mut source) = (Vec::new(), " ".to_owned());
    adopt_source(&mut calendars, &mut source);
    assert_eq!(calendars.len(), 0);
    assert_eq!(source, " ");
}

#[test]
fn a_chosen_file_names_a_calendar_without_name() {
    let mut calendars = vec![calendar(" ", "old"), calendar("Mine ", "old")];
    choose_file(&mut calendars, 0, "/x/fall.ics".to_owned());
    choose_file(&mut calendars, 1, "/x/spring.ics".to_owned());
    choose_file(&mut calendars, 2, "/x/none.ics".to_owned());
    assert_eq!(pairs(&calendars), [("fall", "/x/fall.ics"), ("Mine ", "/x/spring.ics")]);
}

#[test]
fn the_dashboard_shows_a_calendar_with_a_source() {
    assert_eq!(main_calendar(&vec![], 7), 0);
    let none = vec![calendar("A", ""), calendar("B", " ")];
    assert_eq!(main_calendar(&none, 1), 1);
    assert_eq!(main_calendar(&none, 9), 1);
    assert!(!has_source(&none));
    let some = vec![calendar("A", ""), calendar("B", "b"), calendar("C", "c")];
    assert_eq!(main_calendar(&some, 0), 1);
    assert_eq!(main_calendar(&some, 1), 1);
    assert_eq!(main_calendar(&some, 2), 2);
    assert_eq!(main_calendar(&some, 9), 2);
    assert!(has_source(&some));
}

#[test]
fn calendars_with_a_source_can_be_chosen() {
    let calendars = vec![
        calendar("", "/x/zoo.ics"),
        calendar("Empty", " "),
        calendar(" Art ", "b"),
        calendar("Art", "c"),
        calendar("é", "d"),
    ];
    let choices = calendar_choices(&calendars);
    let wanted = [(0, "zoo"), (2, "Art"), (3, "Art"), (4, "é")];
    assert_eq!(choices.len(), wanted.len());
    for (choice, (index, name)) in choices.iter().zip(wanted) {
        assert_eq!((choice.0, choice.1.as_str()), (index, name));
    }
    let set: BTreeSet<String> = choices.into_iter().map(|choice| choice.1).collect();
    assert_eq!(named_calendars(&calendars), set.into_iter().collect::<Vec<String>>());
    assert_eq!(named_calendars(&calendars), ["Art", "zoo", "é"]);
}

#[test]
fn the_list_of_calendars_can_be_changed() {
    let mut calendars = vec![calendar("A", "a"), calendar("B", "b"), calendar("C", "c")];
    let mut browse = None;
    apply_action(&mut calendars, &mut browse, PanelAction::Remove(1));
    assert_eq!(pairs(&calendars), [("A", "a"), ("C", "c")]);
    assert_eq!(browse, None);
    apply_action(&mut calendars, &mut browse, PanelAction::Browse(1));
    assert_eq!(pairs(&calendars), [("A", "a"), ("C", "c")]);
    assert_eq!(browse, Some(1));
    apply_action(&mut calendars, &mut browse, PanelAction::Add);
    assert_eq!(pairs(&calendars), [("A", "a"), ("C", "c"), ("", "")]);
    assert_eq!(browse, Some(1));
}
