//! Where calendars come from: the list of sources, and the calendar files of a directory that
//! join it.
use vstd::prelude::*;

use crate::path;
use crate::text;

verus! {

/// A calendar that the user has added.
#[derive(Debug)]
pub struct CalendarSource {
    /// What the user calls it, blank if they have not said.
    pub name: String,
    /// An address, a path or a data URI, blank if none was given yet.
    pub source: String,
}

/// What a calendar source says.
#[verifier::ext_equal]
pub struct SourceView {
    pub name: Seq<char>,
    pub source: Seq<char>,
}

impl View for CalendarSource {
    type V = SourceView;

    open spec fn view(&self) -> SourceView {
        SourceView { name: self.name@, source: self.source@ }
    }
}

impl Clone for CalendarSource {
    fn clone(&self) -> (r: CalendarSource)
        ensures
            r@ == self@,
    {
        CalendarSource { name: self.name.clone(), source: self.source.clone() }
    }
}

impl Default for CalendarSource {
    /// A calendar of which nothing was said yet.
    fn default() -> (r: CalendarSource)
        ensures
            r@.name.len() == 0,
            r@.source.len() == 0,
    {
        CalendarSource { name: String::new(), source: String::new() }
    }
}

pub open spec fn source_views(calendars: Seq<CalendarSource>) -> Seq<SourceView> {
    Seq::new(calendars.len(), |i: int| calendars[i]@)
}

/// What a calendar is called: by the name that the user gave it, or else after its source.
pub open spec fn display_name(calendar: SourceView) -> Seq<char> {
    if text::is_blank(calendar.name) {
        path::name_of_source(calendar.source)
    } else {
        text::trim(calendar.name)
    }
}

/// Every calendar is called something.
pub proof fn display_name_is_not_empty(calendar: SourceView)
    ensures
        display_name(calendar).len() > 0,
{
    path::source_gives_a_name(calendar.source);
}

/// What a calendar is called: by the name that the user gave it, or else after its source.
pub fn calendar_display_name(calendar: &CalendarSource) -> (r: String)
    ensures
        r@ == display_name(calendar@),
{
    if text::blank(calendar.name.as_str()) {
        path::calendar_name_from_source(calendar.source.as_str())
    } else {
        text::to_text(text::trimmed(text::to_chars(calendar.name.as_str()).as_slice()))
    }
}

/// A file that was found in a directory.
#[derive(Debug)]
pub struct DirectoryFile {
    /// Its path as text, with replacement characters where the path is no text.
    pub source: String,
    /// Its path, if that is text.
    pub path: Option<String>,
    /// Its name, if that is text.
    pub name: Option<String>,
}

/// What is known of a file in a directory.
pub struct FileView {
    pub source: Seq<char>,
    pub path: Option<Seq<char>>,
    pub name: Option<Seq<char>>,
}

pub open spec fn optional_text(s: Option<String>) -> Option<Seq<char>> {
    match s {
        Some(s) => Some(s@),
        None => None,
    }
}

impl View for DirectoryFile {
    type V = FileView;

    open spec fn view(&self) -> FileView {
        FileView {
            source: self.source@,
            path: optional_text(self.path),
            name: optional_text(self.name),
        }
    }
}

pub open spec fn file_views(files: Seq<DirectoryFile>) -> Seq<FileView> {
    Seq::new(files.len(), |i: int| files[i]@)
}

/// Whether the source of a calendar is the path of a file.
pub open spec fn leads_to(calendar: SourceView, file: FileView) -> bool {
    match file.path {
        Some(path) => path::same_path(calendar.source, path),
        None => false,
    }
}

/// Whether a file belongs to one of the calendars.
pub open spec fn covered(calendars: Seq<SourceView>, file: FileView) -> bool {
    exists|i: int| 0 <= i < calendars.len() && leads_to(#[trigger] calendars[i], file)
}

/// Whether a calendar has lost its file, and a file of the same name was found elsewhere.
pub open spec fn lost(calendar: SourceView, file: FileView, existing: Seq<Seq<char>>) -> bool {
    &&& !existing.contains(calendar.source)
    &&& file.name is Some
    &&& path::file_name(calendar.source) == file.name
}

/// The position of the first calendar that has lost its file to a found one; the number of
/// calendars if none has.
pub open spec fn first_lost(
    calendars: Seq<SourceView>,
    file: FileView,
    existing: Seq<Seq<char>>,
) -> nat
    decreases calendars.len(),
{
    if calendars.len() == 0 || lost(calendars[0], file, existing) {
        0
    } else {
        1 + first_lost(calendars.drop_first(), file, existing)
    }
}

/// The calendars after a file was found: the file of one of them, the new place of the file that
/// one of them has lost, or a calendar of its own. `existing` holds the sources under which there
/// is a file.
pub open spec fn with_file(
    calendars: Seq<SourceView>,
    file: FileView,
    existing: Seq<Seq<char>>,
) -> Seq<SourceView> {
    let i = first_lost(calendars, file, existing) as int;
    if covered(calendars, file) {
        calendars
    } else if i < calendars.len() {
        calendars.update(i, SourceView { source: file.source, ..calendars[i] })
    } else {
        calendars.push(
            SourceView { name: path::name_of_source(file.source), source: file.source },
        )
    }
}

/// The calendars after the files of a directory were found, one after the other.
pub open spec fn with_files(
    calendars: Seq<SourceView>,
    files: Seq<FileView>,
    existing: Seq<Seq<char>>,
) -> Seq<SourceView>
    decreases files.len(),
{
    if files.len() == 0 {
        calendars
    } else {
        with_file(with_files(calendars, files.drop_last(), existing), files.last(), existing)
    }
}

proof fn lemma_first_lost(calendars: Seq<SourceView>, file: FileView, existing: Seq<Seq<char>>)
    ensures
        ({
            let i = first_lost(calendars, file, existing) as int;
            &&& i <= calendars.len()
            &&& i < calendars.len() ==> lost(calendars[i], file, existing)
        }),
    decreases calendars.len(),
{
    if calendars.len() > 0 && !lost(calendars[0], file, existing) {
        lemma_first_lost(calendars.drop_first(), file, existing);
    }
}

/// Finding files takes no calendar away and renames none, and leaves each calendar alone whose
/// file is still there.
pub proof fn files_leave_calendars_alone(
    calendars: Seq<SourceView>,
    files: Seq<FileView>,
    existing: Seq<Seq<char>>,
)
    ensures
        calendars.len() <= with_files(calendars, files, existing).len() <= calendars.len()
            + files.len(),
        forall|i: int|
            0 <= i < calendars.len() ==> {
                let after = #[trigger] with_files(calendars, files, existing)[i];
                &&& after.name == calendars[i].name
                &&& existing.contains(calendars[i].source) ==> after == calendars[i]
            },
    decreases files.len(),
{
    if files.len() > 0 {
        let before = with_files(calendars, files.drop_last(), existing);
        files_leave_calendars_alone(calendars, files.drop_last(), existing);
        lemma_first_lost(before, files.last(), existing);
    }
}

/// Whether what is known of existing files is in accord with the files that were found: each
/// calendar and each file whose path is that of a found file exists, and the paths are texts.
pub open spec fn in_accord(
    calendars: Seq<SourceView>,
    files: Seq<FileView>,
    existing: Seq<Seq<char>>,
) -> bool {
    &&& forall|k: int|
        0 <= k < files.len() ==> (#[trigger] files[k]).path == Some(files[k].source)
    &&& forall|i: int, k: int|
        0 <= i < calendars.len() && 0 <= k < files.len() && leads_to(
            #[trigger] calendars[i],
            #[trigger] files[k],
        ) ==> existing.contains(calendars[i].source)
    &&& forall|k: int|
        0 <= k < files.len() ==> existing.contains((#[trigger] files[k]).source)
}

/// Every file that was found belongs to a calendar afterwards.
pub proof fn every_file_gets_a_calendar(
    calendars: Seq<SourceView>,
    files: Seq<FileView>,
    existing: Seq<Seq<char>>,
)
    requires
        in_accord(calendars, files, existing),
    ensures
        in_accord(with_files(calendars, files, existing), files, existing),
        forall|k: int|
            0 <= k < files.len() ==> covered(
                with_files(calendars, files, existing),
                #[trigger] files[k],
            ),
{
    lemma_files_covered(calendars, files, existing, files.len() as int);
    assert(files.take(files.len() as int) == files);
}

proof fn lemma_files_covered(
    calendars: Seq<SourceView>,
    files: Seq<FileView>,
    existing: Seq<Seq<char>>,
    n: int,
)
    requires
        in_accord(calendars, files, existing),
        0 <= n <= files.len(),
    ensures
        in_accord(with_files(calendars, files.take(n), existing), files, existing),
        forall|k: int|
            0 <= k < n ==> covered(
                with_files(calendars, files.take(n), existing),
                #[trigger] files[k],
            ),
    decreases n,
{
    if n > 0 {
        lemma_files_covered(calendars, files, existing, n - 1);
        assert(files.take(n).drop_last() == files.take(n - 1));
        let before = with_files(calendars, files.take(n - 1), existing);
        let after = with_files(calendars, files.take(n), existing);
        let file = files[n - 1];
        assert(files.take(n).last() == file);
        lemma_first_lost(before, file, existing);
        let i = first_lost(before, file, existing) as int;
        assert forall|k: int| 0 <= k < n implies covered(after, #[trigger] files[k]) by {
            if k < n - 1 {
                let j = choose|j: int|
                    0 <= j < before.len() && leads_to(#[trigger] before[j], files[k]);
                assert(existing.contains(before[j].source));
                assert(after[j] == before[j]);
            } else if !covered(before, file) {
                if i < before.len() {
                    assert(leads_to(after[i], file));
                } else {
                    assert(leads_to(after[before.len() as int], file));
                }
            }
        }
    }
}

/// Finding the same files again changes nothing.
pub proof fn finding_files_again_changes_nothing(
    calendars: Seq<SourceView>,
    files: Seq<FileView>,
    existing: Seq<Seq<char>>,
)
    requires
        in_accord(calendars, files, existing),
    ensures
        ({
            let once = with_files(calendars, files, existing);
            with_files(once, files, existing) == once
        }),
{
    every_file_gets_a_calendar(calendars, files, existing);
    lemma_covered_files(with_files(calendars, files, existing), files, existing);
}

proof fn lemma_covered_files(
    calendars: Seq<SourceView>,
    files: Seq<FileView>,
    existing: Seq<Seq<char>>,
)
    requires
        forall|k: int| 0 <= k < files.len() ==> covered(calendars, #[trigger] files[k]),
    ensures
        with_files(calendars, files, existing) == calendars,
    decreases files.len(),
{
    if files.len() > 0 {
        assert forall|k: int| 0 <= k < files.len() - 1 implies covered(
            calendars,
            #[trigger] files.drop_last()[k],
        ) by {
            assert(files.drop_last()[k] == files[k]);
        }
        lemma_covered_files(calendars, files.drop_last(), existing);
        assert(covered(calendars, files[files.len() - 1]));
    }
}

fn is_covered(calendars: &Vec<CalendarSource>, file: &DirectoryFile) -> (r: bool)
    ensures
        r == covered(source_views(calendars@), file@),
{
    let ghost all = source_views(calendars@);
    match &file.path {
        None => false,
        Some(path) => {
            let wanted = text::to_chars(path.as_str());
            let mut i: usize = 0;
            while i < calendars.len()
                invariant
                    all == source_views(calendars@),
                    file@.path == Some(path@),
                    wanted@ == path@,
                    i <= calendars@.len(),
                    forall|j: int| 0 <= j < i ==> !leads_to(#[trigger] all[j], file@),
                decreases calendars@.len() - i,
            {
                let source = text::to_chars(calendars[i].source.as_str());
                if path::equal_paths(source.as_slice(), wanted.as_slice()) {
                    proof {
                        assert(leads_to(all[i as int], file@));
                    }
                    return true;
                }
                i += 1;
            }
            false
        },
    }
}

fn has_lost(calendar: &CalendarSource, file: &DirectoryFile, existing: &Vec<String>) -> (r: bool)
    ensures
        r == lost(calendar@, file@, text::string_views(existing@)),
{
    if text::holds_name(existing, calendar.source.as_str()) {
        return false;
    }
    match (&file.name, path::name_of_file(text::to_chars(calendar.source.as_str()).as_slice())) {
        (Some(name), Some(own)) => text::is_text(own.as_slice(), name.as_str()),
        _ => false,
    }
}

/// The calendars after a file was found.
fn sync_file(calendars: &mut Vec<CalendarSource>, file: &DirectoryFile, existing: &Vec<String>)
    ensures
        source_views(final(calendars)@) == with_file(
            source_views(old(calendars)@),
            file@,
            text::string_views(existing@),
        ),
{
    let ghost all = source_views(calendars@);
    let ghost there = text::string_views(existing@);
    if is_covered(calendars, file) {
        return ;
    }
    let mut i: usize = 0;
    proof {
        assert(all.skip(0) == all);
    }
    while i < calendars.len() && !has_lost(&calendars[i], file, existing)
        invariant
            i <= calendars@.len(),
            all == source_views(calendars@),
            there == text::string_views(existing@),
            first_lost(all, file@, there) == i + first_lost(all.skip(i as int), file@, there),
        decreases calendars@.len() - i,
    {
        proof {
            assert(all.skip(i as int)[0] == calendars@[i as int]@);
            assert(all.skip(i as int).drop_first() == all.skip(i + 1));
        }
        i += 1;
    }
    proof {
        if i < all.len() {
            assert(all.skip(i as int)[0] == calendars@[i as int]@);
        }
        assert(first_lost(all, file@, there) == i);
    }
    if i < calendars.len() {
        calendars[i].source = file.source.clone();
        proof {
            assert(source_views(calendars@) == all.update(
                i as int,
                SourceView { source: file.source@, ..all[i as int] },
            ));
        }
    } else {
        let ghost before = calendars@;
        let name = path::calendar_name_from_source(file.source.as_str());
        let calendar = CalendarSource { name, source: file.source.clone() };
        let ghost said = calendar@;
        calendars.push(calendar);
        proof {
            assert(source_views(calendars@) == source_views(before).push(said));
        }
    }
}

/// Brings the calendars in accord with the files found in a directory: a file that belongs to no
/// calendar becomes the file of the first calendar that has lost one of that name, or else a
/// calendar of its own. `existing` holds the sources under which there is a file.
pub fn sync_ics_directory(
    calendars: &mut Vec<CalendarSource>,
    files: &Vec<DirectoryFile>,
    existing: &Vec<String>,
)
    ensures
        source_views(final(calendars)@) == with_files(
            source_views(old(calendars)@),
            file_views(files@),
            text::string_views(existing@),
        ),
{
    let ghost start = source_views(calendars@);
    let ghost all = file_views(files@);
    let ghost there = text::string_views(existing@);
    let mut i: usize = 0;
    while i < files.len()
        invariant
            i <= files@.len(),
            start == source_views(old(calendars)@),
            all == file_views(files@),
            there == text::string_views(existing@),
            source_views(calendars@) == with_files(start, all.take(i as int), there),
        decreases files@.len() - i,
    {
        proof {
            assert(all.take(i + 1).drop_last() == all.take(i as int));
            assert(all.take(i + 1).last() == files@[i as int]@);
        }
        sync_file(calendars, &files[i], existing);
        i += 1;
    }
    proof {
        assert(all.take(i as int) == all);
    }
}

/// A calendar goes by the name that the user gave it, without the white space around it: `ends`
/// holds what stood before and behind. Only if the user gave it none, or nothing but white space,
/// does it go by the name that its source gives.
pub proof fn calendars_go_by_their_given_name(
    calendar: &CalendarSource,
    r: String,
    source: &str,
    from_source: String,
) -> (ends: (Seq<char>, Seq<char>))
    requires
        call_ensures(calendar_display_name, (calendar,), r),
        call_ensures(path::calendar_name_from_source, (source,), from_source),
        source@ == calendar.source@,
    ensures
        text::says_something(calendar.name@) ==> {
            &&& calendar.name@ == ends.0 + r@ + ends.1
            &&& text::all_of(ends.0, text::CharClass::WhiteSpace)
            &&& text::all_of(ends.1, text::CharClass::WhiteSpace)
            &&& r@.len() > 0 && !text::is_white_space(r@[0]) && !text::is_white_space(r@.last())
        },
        !text::says_something(calendar.name@) ==> r@ == from_source@,
{
    text::lemma_says_something(calendar.name@);
    text::lemma_around_dropped(calendar.name@, text::CharClass::WhiteSpace)
}

/// Whether the source of a calendar is the path of a file, written one way or another.
pub open spec fn is_of(calendar: SourceView, file: FileView) -> bool {
    file.path matches Some(path) && path::same_path(calendar.source, path)
}

/// Whether a calendar is one whose file is gone and had the name of a found file.
pub open spec fn had(calendar: SourceView, file: FileView, existing: Seq<Seq<char>>) -> bool {
    &&& forall|k: int| 0 <= k < existing.len() ==> #[trigger] existing[k] != calendar.source
    &&& file.name matches Some(name) && path::file_name(calendar.source) == Some(name)
}

/// A file that was found changes nothing if it is that of some calendar. Otherwise it takes the
/// place of the source of the first calendar whose file is gone and had its name, and nothing else
/// changes. If there is no such calendar either, one is put behind the others, with the file's
/// path as its source and named after the file.
pub proof fn a_found_file_finds_its_calendar(
    calendars: Seq<SourceView>,
    file: FileView,
    existing: Seq<Seq<char>>,
    i: int,
)
    requires
        0 <= i <= calendars.len(),
    ensures
        i < calendars.len() && is_of(calendars[i], file) ==> with_file(calendars, file, existing)
            == calendars,
        (forall|j: int| 0 <= j < calendars.len() ==> !is_of(#[trigger] calendars[j], file)) && (
        forall|j: int| 0 <= j < i ==> !had(#[trigger] calendars[j], file, existing)) ==> {
            let after = with_file(calendars, file, existing);
            &&& i < calendars.len() && had(calendars[i], file, existing) ==> {
                &&& after.len() == calendars.len()
                &&& after[i].source == file.source
                &&& after[i].name == calendars[i].name
                &&& forall|j: int|
                    0 <= j < calendars.len() && j != i ==> #[trigger] after[j] == calendars[j]
            }
            &&& i == calendars.len() ==> {
                &&& after.len() == calendars.len() + 1
                &&& after[i].source == file.source
                &&& after[i].name == path::name_of_source(file.source)
                &&& forall|j: int|
                    0 <= j < calendars.len() ==> #[trigger] after[j] == calendars[j]
            }
        },
{
    assert forall|j: int| 0 <= j < calendars.len() implies lost(
        #[trigger] calendars[j],
        file,
        existing,
    ) == had(calendars[j], file, existing) by {
        let source = calendars[j].source;
        if existing.contains(source) {
            let k = choose|k: int| 0 <= k < existing.len() && existing[k] == source;
            assert(existing[k] == source);
        } else {
            assert forall|k: int| 0 <= k < existing.len() implies #[trigger] existing[k] != source by {
                assert(existing.contains(existing[k]));
            }
        }
    }
    assert forall|j: int| 0 <= j < calendars.len() implies leads_to(#[trigger] calendars[j], file)
        == is_of(calendars[j], file) by {}
    lemma_first_lost_is_first(calendars, file, existing);
    lemma_first_lost(calendars, file, existing);
    if i < calendars.len() && is_of(calendars[i], file) {
        assert(leads_to(calendars[i], file));
    }
}

proof fn lemma_first_lost_is_first(
    calendars: Seq<SourceView>,
    file: FileView,
    existing: Seq<Seq<char>>,
)
    ensures
        forall|j: int|
            0 <= j < first_lost(calendars, file, existing) && j < calendars.len() ==> !lost(
                #[trigger] calendars[j],
                file,
                existing,
            ),
    decreases calendars.len(),
{
    if calendars.len() > 0 && !lost(calendars[0], file, existing) {
        let rest = calendars.drop_first();
        lemma_first_lost_is_first(rest, file, existing);
        assert forall|j: int|
            0 <= j < first_lost(calendars, file, existing) && j < calendars.len() implies !lost(
            #[trigger] calendars[j],
            file,
            existing,
        ) by {
            if j > 0 {
                assert(rest[j - 1] == calendars[j]);
            }
        }
    }
}

/// The files of a directory find their calendars one after the other, in their order, however
/// their list is taken apart.
pub proof fn found_files_are_taken_one_by_one(
    calendars: Seq<SourceView>,
    files: Seq<FileView>,
    more: Seq<FileView>,
    file: FileView,
    existing: Seq<Seq<char>>,
)
    ensures
        with_files(calendars, seq![], existing) == calendars,
        with_files(calendars, seq![file], existing) == with_file(calendars, file, existing),
        with_files(calendars, files + more, existing) == with_files(
            with_files(calendars, files, existing),
            more,
            existing,
        ),
    decreases more.len(),
{
    assert(seq![file].drop_last() == Seq::<FileView>::empty());
    assert(with_files(calendars, Seq::<FileView>::empty(), existing) == calendars);
    if more.len() == 0 {
        assert(files + more == files);
    } else {
        found_files_are_taken_one_by_one(calendars, files, more.drop_last(), file, existing);
        assert((files + more).drop_last() == files + more.drop_last());
        assert((files + more).last() == more.last());
    }
}

} // verus!
