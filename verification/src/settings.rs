//! What the user has chosen: the calendars, and the one that the dashboard shows.
use vstd::prelude::*;

use crate::order;
use crate::path;
use crate::source::{self, CalendarSource, SourceView};
use crate::text;

verus! {

/// Whether a calendar has a source.
pub open spec fn given(calendar: SourceView) -> bool {
    !text::is_blank(calendar.source)
}

/// The position of the first calendar that has a source; the number of calendars if none has.
pub open spec fn first_given(calendars: Seq<SourceView>) -> nat
    decreases calendars.len(),
{
    if calendars.len() == 0 || given(calendars[0]) {
        0
    } else {
        1 + first_given(calendars.drop_first())
    }
}

/// The calendar that the dashboard shows if the user has selected the one at a position: the last
/// one in place of a position behind it, and the first one with a source in place of one without.
pub open spec fn shown_calendar(calendars: Seq<SourceView>, selected: usize) -> int {
    let last = if calendars.len() == 0 {
        0
    } else {
        calendars.len() - 1
    };
    let near = if selected < last {
        selected as int
    } else {
        last
    };
    if near < calendars.len() && given(calendars[near]) {
        near
    } else if first_given(calendars) < calendars.len() {
        first_given(calendars) as int
    } else {
        near
    }
}

pub(crate) proof fn lemma_first_given(calendars: Seq<SourceView>)
    ensures
        first_given(calendars) <= calendars.len(),
        first_given(calendars) < calendars.len() ==> given(
            calendars[first_given(calendars) as int],
        ),
        forall|i: int|
            0 <= i < first_given(calendars) && i < calendars.len() ==> !given(
                #[trigger] calendars[i],
            ),
    decreases calendars.len(),
{
    if calendars.len() > 0 && !given(calendars[0]) {
        let rest = calendars.drop_first();
        lemma_first_given(rest);
        assert(calendars[first_given(calendars) as int] == rest[first_given(rest) as int]
            || first_given(rest) == rest.len());
        assert forall|i: int|
            0 <= i < first_given(calendars) && i < calendars.len() implies !given(
            #[trigger] calendars[i],
        ) by {
            if i > 0 {
                assert(calendars[i] == rest[i - 1]);
            }
        }
    }
}

/// The dashboard shows one of the calendars, if there are any, and one with a source, if one has
/// a source. What it shows stays selected.
pub proof fn dashboard_shows_a_calendar(calendars: Seq<SourceView>, selected: usize)
    requires
        calendars.len() <= usize::MAX,
    ensures
        calendars.len() > 0 ==> 0 <= shown_calendar(calendars, selected) < calendars.len(),
        (exists|i: int| 0 <= i < calendars.len() && given(#[trigger] calendars[i])) ==> given(
            calendars[shown_calendar(calendars, selected)],
        ),
        selected < calendars.len() && given(calendars[selected as int]) ==> shown_calendar(
            calendars,
            selected,
        ) == selected,
        shown_calendar(calendars, shown_calendar(calendars, selected) as usize) == shown_calendar(
            calendars,
            selected,
        ),
{
    lemma_first_given(calendars);
}

fn position_given(calendars: &Vec<CalendarSource>) -> (r: usize)
    ensures
        r == first_given(source::source_views(calendars@)),
        r <= calendars@.len(),
{
    let ghost all = source::source_views(calendars@);
    let mut i: usize = 0;
    proof {
        assert(all.skip(0) == all);
    }
    while i < calendars.len() && text::blank(calendars[i].source.as_str())
        invariant
            i <= calendars@.len(),
            all == source::source_views(calendars@),
            first_given(all) == i + first_given(all.skip(i as int)),
        decreases calendars@.len() - i,
    {
        proof {
            assert(all.skip(i as int)[0] == calendars@[i as int]@);
            assert(all.skip(i as int).drop_first() == all.skip(i + 1));
        }
        i += 1;
    }
    proof {
        if i < all.len() {
            assert(all.skip(i as int)[0] == calendars@[i as int]@);
        }
    }
    i
}

/// Whether one of the calendars has a source.
pub fn has_source(calendars: &Vec<CalendarSource>) -> (r: bool)
    ensures
        r == exists|i: int|
            0 <= i < calendars@.len() && given(#[trigger] source::source_views(calendars@)[i]),
        r ==> exists|i: int|
            0 <= i < calendars@.len() && text::says_something((#[trigger] calendars@[i]).source@),
        forall|i: int|
            0 <= i < calendars@.len() && text::says_something((#[trigger] calendars@[i]).source@)
                ==> r,
{
    proof {
        let all = source::source_views(calendars@);
        lemma_first_given(all);
        assert forall|i: int| 0 <= i < calendars@.len() implies given(#[trigger] all[i])
            == text::says_something(calendars@[i].source@) by {
            text::lemma_says_something(calendars@[i].source@);
        }
        if first_given(all) < all.len() {
            let i = first_given(all) as int;
            assert(text::says_something(calendars@[i].source@));
        }
        assert forall|i: int|
            0 <= i < calendars@.len() && text::says_something(
                (#[trigger] calendars@[i]).source@,
            ) implies first_given(all) < all.len() by {
            assert(given(all[i]));
        }
    }
    position_given(calendars) < calendars.len()
}

/// The calendar that the dashboard shows if the user has selected the one at a position.
pub fn main_calendar(calendars: &Vec<CalendarSource>, selected: usize) -> (r: usize)
    ensures
        r == shown_calendar(source::source_views(calendars@), selected),
{
    let last: usize = if calendars.len() == 0 {
        0
    } else {
        calendars.len() - 1
    };
    let near: usize = if selected < last {
        selected
    } else {
        last
    };
    proof {
        assert(near < calendars@.len() ==> source::source_views(calendars@)[near as int]
            == calendars@[near as int]@);
    }
    if near < calendars.len() && !text::blank(calendars[near].source.as_str()) {
        return near;
    }
    let first: usize = position_given(calendars);
    if first < calendars.len() {
        first
    } else {
        near
    }
}

/// The calendars among which the dashboard's can be chosen: positions and names of those that
/// have a source.
pub open spec fn choices(calendars: Seq<SourceView>) -> Seq<(int, Seq<char>)>
    decreases calendars.len(),
{
    if calendars.len() == 0 {
        seq![]
    } else if given(calendars.last()) {
        choices(calendars.drop_last()).push(
            (calendars.len() - 1, source::display_name(calendars.last())),
        )
    } else {
        choices(calendars.drop_last())
    }
}

pub open spec fn choice_views(list: Seq<(usize, String)>) -> Seq<(int, Seq<char>)> {
    Seq::new(list.len(), |i: int| (list[i].0 as int, list[i].1@))
}

/// The calendars among which the dashboard's can be chosen.
pub fn calendar_choices(calendars: &Vec<CalendarSource>) -> (r: Vec<(usize, String)>)
    ensures
        choice_views(r@) == choices(source::source_views(calendars@)),
{
    let ghost all = source::source_views(calendars@);
    let mut out: Vec<(usize, String)> = Vec::new();
    let mut i: usize = 0;
    proof {
        assert(choice_views(out@) == choices(all.take(0)));
    }
    while i < calendars.len()
        invariant
            i <= calendars@.len(),
            all == source::source_views(calendars@),
            choice_views(out@) == choices(all.take(i as int)),
        decreases calendars@.len() - i,
    {
        let ghost before = out@;
        proof {
            assert(all.take(i + 1).drop_last() == all.take(i as int));
            assert(all.take(i + 1).last() == calendars@[i as int]@);
        }
        if !text::blank(calendars[i].source.as_str()) {
            let choice = (i, source::calendar_display_name(&calendars[i]));
            let ghost said = (choice.0 as int, choice.1@);
            out.push(choice);
            proof {
                assert(choice_views(out@) == choice_views(before).push(said));
            }
        }
        i += 1;
    }
    proof {
        assert(all.take(i as int) == all);
    }
    out
}

/// The names of calendars.
pub open spec fn second_parts(list: Seq<(int, Seq<char>)>) -> Seq<Seq<char>> {
    Seq::new(list.len(), |i: int| list[i].1)
}

/// The names of the calendars that have a source, each once, in the order of their characters.
pub open spec fn calendar_names(calendars: Seq<SourceView>) -> Seq<Seq<char>> {
    order::name_set(second_parts(choices(calendars)))
}

/// The names of the calendars that have a source, each once, in the order of their characters.
pub fn named_calendars(calendars: &Vec<CalendarSource>) -> (r: Vec<String>)
    ensures
        text::string_views(r@) == calendar_names(source::source_views(calendars@)),
{
    let list = calendar_choices(calendars);
    let ghost all = second_parts(choice_views(list@));
    let mut out: Vec<String> = Vec::new();
    proof {
        assert(text::string_views(out@) == order::name_set(all.take(0)));
    }
    for choice in iter: list
        invariant
            iter.seq() == list@,
            all == second_parts(choice_views(list@)),
            text::string_views(out@) == order::name_set(all.take(iter.index() as int)),
    {
        proof {
            let n = iter.index();
            assert(all.take(n + 1).drop_last() == all.take(n as int));
            assert(all.take(n + 1).last() == choice.1@);
        }
        order::add_name(&mut out, choice.1);
    }
    proof {
        assert(all.take(all.len() as int) == all);
    }
    out
}

/// The calendars, and what is left of a single source that was given on its own: it becomes the
/// first calendar if there is none yet.
pub open spec fn with_single_source(calendars: Seq<SourceView>, source: Seq<char>) -> (
    Seq<SourceView>,
    Seq<char>,
) {
    if calendars.len() == 0 && !text::is_blank(source) {
        (seq![SourceView { name: path::name_of_source(source), source }], seq![])
    } else {
        (calendars, source)
    }
}

/// Makes a single source that was given on its own the first calendar, if there is none yet.
pub fn adopt_source(calendars: &mut Vec<CalendarSource>, source: &mut String)
    ensures
        (source::source_views(final(calendars)@), final(source)@) == with_single_source(
            source::source_views(old(calendars)@),
            old(source)@,
        ),
{
    let ghost start = source::source_views(calendars@);
    if calendars.len() == 0 && !text::blank(source.as_str()) {
        let name = path::calendar_name_from_source(source.as_str());
        let calendar = CalendarSource { name, source: source.clone() };
        let ghost said = calendar@;
        calendars.push(calendar);
        *source = String::new();
        proof {
            assert(source::source_views(calendars@) == seq![said]);
        }
    }
}

/// A calendar after the user has chosen a file for it: it keeps a name that it has.
pub open spec fn with_chosen_file(calendar: SourceView, path: Seq<char>) -> SourceView {
    SourceView {
        name: if text::is_blank(calendar.name) {
            path::name_of_source(path)
        } else {
            calendar.name
        },
        source: path,
    }
}

/// Gives the calendar at a position, if there is one, the file that the user has chosen for it.
pub fn choose_file(calendars: &mut Vec<CalendarSource>, index: usize, path: String)
    ensures
        source::source_views(final(calendars)@) == (if index < old(calendars)@.len() {
            source::source_views(old(calendars)@).update(
                index as int,
                with_chosen_file(old(calendars)@[index as int]@, path@),
            )
        } else {
            source::source_views(old(calendars)@)
        }),
{
    if index < calendars.len() {
        if text::blank(calendars[index].name.as_str()) {
            calendars[index].name = path::calendar_name_from_source(path.as_str());
        }
        calendars[index].source = path;
    }
}

/// What the user can do in the list of calendars.
#[derive(Clone, Copy, Debug)]
pub enum PanelAction {
    /// Choose a file for the calendar at a position.
    Browse(usize),
    /// Remove the calendar at a position.
    Remove(usize),
    /// Add a calendar.
    Add,
}

/// Does what the user has asked for in the list of calendars. `browse` holds the position of the
/// calendar for which a file is to be chosen.
pub fn apply_action(
    calendars: &mut Vec<CalendarSource>,
    browse: &mut Option<usize>,
    action: PanelAction,
)
    requires
        match action {
            PanelAction::Browse(i) => i < old(calendars)@.len(),
            PanelAction::Remove(i) => i < old(calendars)@.len(),
            PanelAction::Add => true,
        },
    ensures
        match action {
            PanelAction::Browse(i) => *final(browse) == Some(i) && final(calendars)@ == old(
                calendars,
            )@,
            PanelAction::Remove(i) => *final(browse) == *old(browse) && final(calendars)@ == old(
                calendars,
            )@.remove(i as int),
            PanelAction::Add => *final(browse) == *old(browse) && source::source_views(
                final(calendars)@,
            ) == source::source_views(old(calendars)@).push(
                (SourceView { name: seq![], source: seq![] }),
            ),
        },
{
    match action {
        PanelAction::Browse(i) => {
            *browse = Some(i);
        },
        PanelAction::Remove(i) => {
            calendars.remove(i);
        },
        PanelAction::Add => {
            let ghost before = calendars@;
            let calendar = CalendarSource { name: String::new(), source: String::new() };
            let ghost said = calendar@;
            calendars.push(calendar);
            proof {
                assert(said =~= SourceView { name: seq![], source: seq![] });
                assert(source::source_views(calendars@) == source::source_views(before).push(
                    said,
                ));
            }
        },
    }
}

/// The dashboard shows the calendar that the user has selected if its source says something. In
/// place of a position behind the last calendar stands the last one. If the source of what is
/// selected is blank, the first calendar whose source says something is shown, and what is
/// selected if there is none.
pub proof fn the_selected_calendar_is_shown_if_it_can_be(
    calendars: &Vec<CalendarSource>,
    selected: usize,
    r: usize,
    i: int,
)
    requires
        call_ensures(main_calendar, (calendars, selected), r),
        0 <= i < calendars@.len(),
    ensures
        ({
            let near = if selected < calendars@.len() {
                selected as int
            } else {
                calendars@.len() - 1
            };
            &&& text::says_something(calendars@[near].source@) ==> r == near
            &&& !text::says_something(calendars@[near].source@) && text::says_something(
                calendars@[i].source@,
            ) ==> r <= i && text::says_something(calendars@[r as int].source@)
            &&& r != near ==> !text::says_something(calendars@[near].source@)
                && text::says_something(calendars@[r as int].source@)
            &&& r < calendars@.len()
        }),
{
    let all = source::source_views(calendars@);
    let near = if selected < calendars@.len() {
        selected as int
    } else {
        calendars@.len() - 1
    };
    lemma_first_given(all);
    assert forall|j: int| 0 <= j < all.len() implies given(#[trigger] all[j])
        == text::says_something(calendars@[j].source@) by {
        assert(all[j] == calendars@[j]@);
        text::lemma_says_something(calendars@[j].source@);
    }
    assert(given(all[near]) == text::says_something(calendars@[near].source@));
    assert(given(all[i]) == text::says_something(calendars@[i].source@));
}

/// Without calendars the position is the first.
pub proof fn without_calendars_the_first_position_is_shown(
    calendars: &Vec<CalendarSource>,
    selected: usize,
    r: usize,
)
    requires
        call_ensures(main_calendar, (calendars, selected), r),
        calendars@.len() == 0,
    ensures
        r == 0,
{
}

/// A calendar has a source exactly if that is not white space alone.
pub proof fn a_calendar_has_a_source_if_it_says_something(calendar: SourceView)
    ensures
        given(calendar) <==> text::says_something(calendar.source),
{
    text::lemma_says_something(calendar.source);
}

proof fn lemma_choices(calendars: Seq<SourceView>)
    ensures
        forall|k: int|
            #![trigger choices(calendars)[k]]
            0 <= k < choices(calendars).len() ==> {
                let i = choices(calendars)[k].0;
                &&& 0 <= i < calendars.len()
                &&& given(calendars[i])
                &&& choices(calendars)[k].1 == source::display_name(calendars[i])
            },
        forall|k: int, l: int|
            0 <= k < l < choices(calendars).len() ==> (#[trigger] choices(calendars)[k]).0 < (
            #[trigger] choices(calendars)[l]).0,
        forall|i: int|
            0 <= i < calendars.len() && given(#[trigger] calendars[i]) ==> choices(
                calendars,
            ).contains((i, source::display_name(calendars[i]))),
    decreases calendars.len(),
{
    if calendars.len() > 0 {
        let front = calendars.drop_last();
        let last = calendars.len() - 1;
        lemma_choices(front);
        let (fewer, all) = (choices(front), choices(calendars));
        assert forall|k: int| #![trigger all[k]] 0 <= k < all.len() implies {
            let i = all[k].0;
            &&& 0 <= i < calendars.len()
            &&& given(calendars[i])
            &&& all[k].1 == source::display_name(calendars[i])
        } by {
            if k < fewer.len() {
                assert(all[k] == fewer[k]);
                assert(front[fewer[k].0] == calendars[fewer[k].0]);
            }
        }
        assert forall|k: int, l: int| 0 <= k < l < all.len() implies (#[trigger] all[k]).0 < (
        #[trigger] all[l]).0 by {
            assert(all[k] == fewer[k]);
            if l < fewer.len() {
                assert(all[l] == fewer[l]);
            }
        }
        assert forall|i: int| 0 <= i < calendars.len() && given(
            #[trigger] calendars[i],
        ) implies all.contains((i, source::display_name(calendars[i]))) by {
            if i < last {
                assert(front[i] == calendars[i]);
                let choice = (i, source::display_name(front[i]));
                assert(fewer.contains(choice));
                let k = choose|k: int| 0 <= k < fewer.len() && fewer[k] == choice;
                assert(all[k] == choice);
            } else {
                assert(all[fewer.len() as int] == (last, source::display_name(calendars[last])));
            }
        }
    }
}

/// Among the choices are all calendars whose source says something, and no others, each under its
/// position and with its name, in their order.
pub proof fn calendars_that_say_something_can_be_chosen(
    calendars: &Vec<CalendarSource>,
    r: Vec<(usize, String)>,
    i: int,
    k: int,
    l: int,
)
    requires
        call_ensures(calendar_choices, (calendars,), r),
        0 <= i < calendars@.len(),
        0 <= l < r@.len(),
    ensures
        0 <= k < l ==> r@[k].0 < r@[l].0,
        r@[l].0 < calendars@.len(),
        text::says_something(calendars@[r@[l].0 as int].source@),
        r@[l].1@ == source::display_name(calendars@[r@[l].0 as int]@),
        text::says_something(calendars@[i].source@) ==> exists|n: int|
            0 <= n < r@.len() && (#[trigger] r@[n]).0 == i && r@[n].1@ == source::display_name(
                calendars@[i]@,
            ),
{
    let all = source::source_views(calendars@);
    let list = choice_views(r@);
    lemma_choices(all);
    assert(list[l].0 == r@[l].0 && list[l].1 == r@[l].1@);
    if 0 <= k < l {
        assert(list[k].0 == r@[k].0);
    }
    let at = r@[l].0 as int;
    assert(all[at] == calendars@[at]@);
    text::lemma_says_something(calendars@[at].source@);
    text::lemma_says_something(calendars@[i].source@);
    assert(all[i] == calendars@[i]@);
    if text::says_something(calendars@[i].source@) {
        assert(given(all[i]));
        let choice = (i, source::display_name(all[i]));
        let n = choose|n: int| 0 <= n < list.len() && list[n] == choice;
        assert(r@[n].0 == i && r@[n].1@ == source::display_name(calendars@[i]@));
    }
}

/// The names of the calendars are those of the calendars whose source says something, each once,
/// and in the order of their characters.
pub proof fn calendars_that_say_something_are_named(
    calendars: &Vec<CalendarSource>,
    r: Vec<String>,
    name: Seq<char>,
)
    requires
        call_ensures(named_calendars, (calendars,), r),
    ensures
        order::names_increase(text::string_views(r@)),
        text::string_views(r@).contains(name) <==> exists|i: int|
            0 <= i < calendars@.len() && text::says_something((#[trigger] calendars@[i]).source@)
                && source::display_name(calendars@[i]@) == name,
{
    let all = source::source_views(calendars@);
    let list = choices(all);
    let parts = second_parts(list);
    lemma_choices(all);
    order::name_set_is_ordered_set(parts);
    assert forall|j: int| 0 <= j < all.len() implies given(#[trigger] all[j])
        == text::says_something(calendars@[j].source@) && all[j] == calendars@[j]@ by {
        text::lemma_says_something(calendars@[j].source@);
    }
    if text::string_views(r@).contains(name) {
        let k = choose|k: int| 0 <= k < parts.len() && parts[k] == name;
        let i = list[k].0;
        assert(given(all[i]));
        assert(text::says_something(calendars@[i].source@));
    }
    if exists|i: int|
        0 <= i < calendars@.len() && text::says_something((#[trigger] calendars@[i]).source@)
            && source::display_name(calendars@[i]@) == name {
        let i = choose|i: int|
            0 <= i < calendars@.len() && text::says_something((#[trigger] calendars@[i]).source@)
                && source::display_name(calendars@[i]@) == name;
        assert(given(all[i]));
        let choice = (i, source::display_name(all[i]));
        let k = choose|k: int| 0 <= k < list.len() && list[k] == choice;
        assert(parts[k] == name);
    }
}

/// A source that was given on its own becomes the one calendar, named after its file, if there is
/// none yet and it says something; then nothing is left of it. Otherwise nothing changes.
pub proof fn a_single_source_becomes_the_first_calendar(
    calendars: Seq<SourceView>,
    source: Seq<char>,
)
    ensures
        calendars.len() == 0 && text::says_something(source) ==> {
            let (after, left) = with_single_source(calendars, source);
            &&& after.len() == 1
            &&& after[0].source == source
            &&& after[0].name == path::name_of_source(source)
            &&& left.len() == 0
        },
        calendars.len() > 0 || !text::says_something(source) ==> with_single_source(
            calendars,
            source,
        ) == (calendars, source),
{
    text::lemma_says_something(source);
}

/// A calendar for which a file was chosen has that file as its source. It keeps a name that says
/// something, and is named after the file otherwise.
pub proof fn a_chosen_file_becomes_the_source(calendar: SourceView, path: Seq<char>)
    ensures
        with_chosen_file(calendar, path).source == path,
        text::says_something(calendar.name) ==> with_chosen_file(calendar, path).name
            == calendar.name,
        !text::says_something(calendar.name) ==> with_chosen_file(calendar, path).name
            == path::name_of_source(path),
{
    text::lemma_says_something(calendar.name);
}

} // verus!
