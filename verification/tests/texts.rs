use std::collections::BTreeSet;

use college_cal::order::{add_name, add_time, bytes_before, chars_before};
use college_cal::text::{
    blank, cut_once, has_prefix, holds_text, is_text, line_list, pieces, position, push_text,
    replaced, replaced_first, same_text, to_chars, to_text, trimmed, without_around,
    without_leading, without_trailing, CharClass,
};
use college_cal::time::UtcTime;

fn chars(s: &str) -> Vec<char> {
    s.chars().collect()
}

const TEXTS: [&str; 14] = [
    "", " ", "a", "a,b", ",a,,b,", "one\r\ntwo\nthree", "\r\n", "\n\n", "a\r", "a\r\n\r", "ZZaZ",
    "\"q\"", "aaaa", " \u{2003}x y\u{85} ",
];

#[test]
fn white_space_is_what_std_says() {
    for c in (0..=0x10ffff).filter_map(char::from_u32) {
        assert_eq!(CharClass::WhiteSpace.holds(c), c.is_whitespace(), "{:?}", c);
        let sign = c == '+' || c == '-' || c.is_ascii_digit();
        assert_eq!(CharClass::SignOrDigit.holds(c), sign, "{:?}", c);
        assert_eq!(CharClass::Only('Z').holds(c), c == 'Z');
    }
}

#[test]
fn texts_are_cut_as_std_cuts_them() {
    for s in TEXTS {
        let all = chars(s);
        assert_eq!(to_chars(s), all);
        assert_eq!(to_text(&all), s);
        let cut: Vec<String> = pieces(&all, ',').iter().map(|p| to_text(p)).collect();
        assert_eq!(cut, s.split(',').collect::<Vec<_>>());
        let lines: Vec<String> = line_list(&all).iter().map(|p| to_text(p)).collect();
        assert_eq!(lines, s.lines().collect::<Vec<_>>(), "{:?}", s);
        let once = cut_once(&all, ',').map(|(a, b)| (to_text(a), to_text(b)));
        assert_eq!(once, s.split_once(',').map(|(a, b)| (a.to_owned(), b.to_owned())));
        assert_eq!(to_text(trimmed(&all)), s.trim());
        assert_eq!(blank(s), s.trim().is_empty());
        assert_eq!(to_text(without_trailing(&all, &CharClass::Only('Z'))), s.trim_end_matches('Z'));
        assert_eq!(
            to_text(without_leading(&all, &CharClass::Only('Z'))),
            s.trim_start_matches('Z')
        );
        assert_eq!(to_text(without_around(&all, &CharClass::Only('"'))), s.trim_matches('"'));
        assert_eq!(position(&all, ','), all.iter().position(|c| *c == ',').unwrap_or(all.len()));
    }
}

#[test]
fn texts_are_replaced_as_std_replaces_them() {
    for s in TEXTS {
        for (from, to) in [("\r\n", "\n"), ("a", "bb"), ("aa", "a"), ("Z", "")] {
            let all = chars(s);
            assert_eq!(to_text(&replaced(&all, &chars(from), &chars(to))), s.replace(from, to));
            assert_eq!(
                to_text(&replaced_first(&all, &chars(from), &chars(to))),
                s.replacen(from, to, 1)
            );
            assert_eq!(holds_text(&all, &chars(from)), s.contains(from));
            assert_eq!(has_prefix(&all, &chars(from)), s.starts_with(from));
            assert_eq!(is_text(&all, from), s == from);
            assert_eq!(same_text(s, from), s == from);
        }
    }
    let mut out = "a".to_owned();
    push_text(&mut out, "bé");
    assert_eq!(out, "abé");
}

#[test]
fn names_are_kept_in_the_order_of_a_set() {
    let names = ["b", "", "aa", "a", "é", "Z", "b", "\u{10000}", "\u{ffff}", "a"];
    let mut list = Vec::new();
    for name in names {
        add_name(&mut list, name.to_owned());
    }
    let set: BTreeSet<&str> = names.into_iter().collect();
    assert_eq!(list, set.into_iter().collect::<Vec<_>>());
    for a in names {
        for b in names {
            assert_eq!(chars_before(&chars(a), &chars(b)), a < b);
            assert_eq!(bytes_before(a.as_bytes(), b.as_bytes()), a.as_bytes() < b.as_bytes());
        }
    }
}

#[test]
fn points_in_time_are_kept_in_order_without_repetition() {
    let mut list = Vec::new();
    for (seconds, nanos) in [(5, 0), (1, 9), (5, 0), (1, 2), (9, 1), (-3, 0)] {
        add_time(&mut list, UtcTime { seconds, nanos });
    }
    let found: Vec<(i64, u32)> = list.iter().map(|t| (t.seconds, t.nanos)).collect();
    assert_eq!(found, [(-3, 0), (1, 2), (1, 9), (5, 0), (9, 1)]);
}
