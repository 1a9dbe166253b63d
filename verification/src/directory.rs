//! The calendar files among the entries of a directory.
use vstd::prelude::*;

use crate::order;
use crate::source::{self, DirectoryFile, FileView};

verus! {

/// An entry of a directory.
#[derive(Debug)]
pub struct DirectoryEntry {
    /// The bytes of its name.
    pub name: Vec<u8>,
    pub is_file: bool,
    pub file: DirectoryFile,
}

/// What is known of a directory entry.
pub struct EntryView {
    pub name: Seq<u8>,
    pub is_file: bool,
    pub file: FileView,
}

impl View for DirectoryEntry {
    type V = EntryView;

    open spec fn view(&self) -> EntryView {
        EntryView { name: self.name@, is_file: self.is_file, file: self.file@ }
    }
}

pub open spec fn entry_views(entries: Seq<DirectoryEntry>) -> Seq<EntryView> {
    Seq::new(entries.len(), |i: int| entries[i]@)
}

/// The files of directory entries.
pub open spec fn files_of(entries: Seq<EntryView>) -> Seq<FileView> {
    Seq::new(entries.len(), |i: int| entries[i].file)
}

/// The position of the last dot in a name; -1 if there is none.
pub open spec fn last_dot(name: Seq<u8>) -> int
    decreases name.len(),
{
    if name.len() == 0 {
        -1
    } else if name.last() == '.' as u8 {
        name.len() - 1
    } else {
        last_dot(name.drop_last())
    }
}

/// Whether a byte is a letter, in capitals or not. The letter is given in small print.
pub open spec fn is_letter(b: u8, letter: char) -> bool {
    b == letter as u8 || b + 32 == letter as u8
}

/// Whether bytes spell a word, in capitals or not. The word is given in small print.
pub open spec fn spells(bytes: Seq<u8>, word: Seq<char>) -> bool {
    &&& bytes.len() == word.len()
    &&& forall|i: int| 0 <= i < bytes.len() ==> is_letter(#[trigger] bytes[i], word[i])
}

/// Whether a name has one of the extensions of calendar files. A dot at the start of a name starts
/// no extension.
pub open spec fn names_calendar(name: Seq<u8>) -> bool {
    let extension = name.skip(last_dot(name) + 1);
    last_dot(name) > 0 && (spells(extension, seq!['i', 'c', 's']) || spells(
        extension,
        seq!['i', 'c', 'a', 'l'],
    ))
}

pub open spec fn is_calendar_file(entry: EntryView) -> bool {
    entry.is_file && names_calendar(entry.name)
}

/// Whether the name of an entry stands before that of another.
pub open spec fn named_before(a: EntryView, b: EntryView) -> bool {
    order::lex_before(order::byte_codes(a.name), order::byte_codes(b.name))
}

/// A list of entries with one more put behind every entry whose name does not stand behind its own.
pub open spec fn insert_by_name(entries: Seq<EntryView>, entry: EntryView) -> Seq<EntryView>
    decreases entries.len(),
{
    if entries.len() > 0 && named_before(entry, entries.last()) {
        insert_by_name(entries.drop_last(), entry).push(entries.last())
    } else {
        entries.push(entry)
    }
}

/// The entries in the order of their names.
pub open spec fn by_name(entries: Seq<EntryView>) -> Seq<EntryView>
    decreases entries.len(),
{
    if entries.len() == 0 {
        entries
    } else {
        insert_by_name(by_name(entries.drop_last()), entries.last())
    }
}

/// The calendar files of a directory, in the order of their names.
pub open spec fn discovered(entries: Seq<EntryView>) -> Seq<EntryView> {
    by_name(entries.filter(|entry: EntryView| is_calendar_file(entry)))
}

/// Whether no entry stands before one whose name comes earlier.
pub open spec fn names_in_order(entries: Seq<EntryView>) -> bool {
    forall|i: int, j: int|
        0 <= i < j < entries.len() ==> !named_before(#[trigger] entries[j], #[trigger] entries[i])
}

/// What stands behind a list of numbers stands behind those that do not stand behind it.
proof fn lemma_behind(a: Seq<int>, b: Seq<int>, c: Seq<int>)
    requires
        order::lex_before(b, c),
        !order::lex_before(b, a),
    ensures
        !order::lex_before(c, a),
{
    if order::lex_before(c, a) {
        order::lemma_lex_transitive(b, c, a);
    }
}

proof fn lemma_insert_by_name(entries: Seq<EntryView>, entry: EntryView)
    requires
        names_in_order(entries),
    ensures
        names_in_order(insert_by_name(entries, entry)),
        insert_by_name(entries, entry).to_multiset() == entries.push(entry).to_multiset(),
    decreases entries.len(),
{
    broadcast use vstd::seq_lib::group_to_multiset_ensures;

    let result = insert_by_name(entries, entry);
    if entries.len() > 0 && named_before(entry, entries.last()) {
        let front = insert_by_name(entries.drop_last(), entry);
        lemma_insert_by_name(entries.drop_last(), entry);
        assert(entries == entries.drop_last().push(entries.last()));
        assert(result.to_multiset() =~= entries.push(entry).to_multiset());
        assert forall|i: int, j: int| 0 <= i < j < result.len() implies !named_before(
            #[trigger] result[j],
            #[trigger] result[i],
        ) by {
            if j == front.len() {
                assert(front.to_multiset().contains(front[i]));
                assert(entries.drop_last().push(entry).to_multiset().contains(front[i]));
                assert(entries.drop_last().push(entry).contains(front[i]));
                let k = choose|k: int|
                    0 <= k < entries.len() && entries.drop_last().push(entry)[k] == front[i];
                if k == entries.len() - 1 {
                    order::lemma_lex_asymmetric(
                        order::byte_codes(entry.name),
                        order::byte_codes(entries.last().name),
                    );
                } else {
                    assert(entries[k] == front[i]);
                }
            }
        }
    } else {
        assert forall|i: int, j: int| 0 <= i < j < result.len() implies !named_before(
            #[trigger] result[j],
            #[trigger] result[i],
        ) by {
            if j == entries.len() && i < entries.len() - 1 {
                let (a, b, c) = (
                    order::byte_codes(entries[i].name),
                    order::byte_codes(entries.last().name),
                    order::byte_codes(entry.name),
                );
                assert(!order::lex_before(b, a));
                order::lemma_lex_total(b, c);
                if order::lex_before(b, c) {
                    lemma_behind(a, b, c);
                }
            }
        }
    }
}

proof fn lemma_by_name(entries: Seq<EntryView>)
    ensures
        names_in_order(by_name(entries)),
        by_name(entries).to_multiset() == entries.to_multiset(),
    decreases entries.len(),
{
    broadcast use vstd::seq_lib::group_to_multiset_ensures;

    if entries.len() > 0 {
        lemma_by_name(entries.drop_last());
        lemma_insert_by_name(by_name(entries.drop_last()), entries.last());
        assert(entries == entries.drop_last().push(entries.last()));
    }
}

/// What is found in a directory is its calendar files, each as often as it is there, and in the
/// order of their names.
pub proof fn discovery_finds_calendar_files_in_order(entries: Seq<EntryView>)
    ensures
        names_in_order(discovered(entries)),
        discovered(entries).to_multiset() == entries.filter(
            |entry: EntryView| is_calendar_file(entry),
        ).to_multiset(),
{
    lemma_by_name(entries.filter(|entry: EntryView| is_calendar_file(entry)));
}

fn letter(b: u8, small: u8, capital: u8) -> (r: bool)
    requires
        capital + 32 == small,
    ensures
        r == (b == small || b + 32 == small),
{
    b == small || b == capital
}

/// Whether a name has one of the extensions of calendar files.
pub fn is_calendar_name(name: &[u8]) -> (r: bool)
    ensures
        r == names_calendar(name@),
{
    let mut n: usize = name.len();
    proof {
        assert(name@.take(n as int) == name@);
    }
    while n > 0 && name[n - 1] != 46
        invariant
            n <= name@.len(),
            last_dot(name@) == last_dot(name@.take(n as int)),
        decreases n,
    {
        proof {
            assert(name@.take(n as int).drop_last() == name@.take(n - 1));
        }
        n -= 1;
    }
    let ghost extension = name@.skip(n as int);
    if n < 2 {
        return false;
    }
    let length: usize = name.len() - n;
    let r = if length == 3 {
        letter(name[n], 105, 73) && letter(name[n + 1], 99, 67) && letter(name[n + 2], 115, 83)
    } else if length == 4 {
        letter(name[n], 105, 73) && letter(name[n + 1], 99, 67) && letter(name[n + 2], 97, 65)
            && letter(name[n + 3], 108, 76)
    } else {
        false
    };
    proof {
        assert(last_dot(name@) == n - 1);
        let ics = seq!['i', 'c', 's'];
        let ical = seq!['i', 'c', 'a', 'l'];
        if length == 3 {
            assert(extension[0] == name@[n as int]);
            assert(extension[1] == name@[n + 1]);
            assert(extension[2] == name@[n + 2]);
            assert(spells(extension, ics) == (is_letter(extension[0], ics[0]) && is_letter(
                extension[1],
                ics[1],
            ) && is_letter(extension[2], ics[2])));
        } else if length == 4 {
            assert(extension[0] == name@[n as int]);
            assert(extension[1] == name@[n + 1]);
            assert(extension[2] == name@[n + 2]);
            assert(extension[3] == name@[n + 3]);
            assert(spells(extension, ical) == (is_letter(extension[0], ical[0]) && is_letter(
                extension[1],
                ical[1],
            ) && is_letter(extension[2], ical[2]) && is_letter(extension[3], ical[3])));
        }
    }
    r
}

fn place_by_name(entries: &mut Vec<DirectoryEntry>, entry: DirectoryEntry)
    ensures
        entry_views(final(entries)@) == insert_by_name(entry_views(old(entries)@), entry@),
{
    let ghost all = entry_views(entries@);
    let mut n: usize = entries.len();
    proof {
        assert(all.take(n as int) == all);
        assert(insert_by_name(all, entry@) == insert_by_name(all.take(n as int), entry@)
            + all.skip(n as int));
    }
    while n > 0 && order::bytes_before(entry.name.as_slice(), entries[n - 1].name.as_slice())
        invariant
            all == entry_views(entries@),
            n <= all.len(),
            insert_by_name(all, entry@) == insert_by_name(all.take(n as int), entry@) + all.skip(
                n as int,
            ),
        decreases n,
    {
        proof {
            assert(all.take(n as int).drop_last() == all.take(n - 1));
            assert(all.take(n as int).last() == all[n - 1]);
            let front = insert_by_name(all.take(n - 1), entry@);
            assert(front.push(all[n - 1]) + all.skip(n as int) == front + all.skip(n - 1));
        }
        n -= 1;
    }
    proof {
        assert(n > 0 ==> all.take(n as int).last() == all[n - 1]);
    }
    let ghost said = entry@;
    entries.insert(n, entry);
    proof {
        assert(entry_views(entries@) == all.take(n as int).push(said) + all.skip(n as int));
    }
}

/// Picks the calendar files out of the entries of a directory, in the order of their names.
pub fn discover_ics_files(entries: Vec<DirectoryEntry>) -> (r: Vec<DirectoryFile>)
    ensures
        source::file_views(r@) == files_of(discovered(entry_views(entries@))),
{
    let ghost all = entry_views(entries@);
    let ghost keep = |entry: EntryView| is_calendar_file(entry);
    let mut found: Vec<DirectoryEntry> = Vec::new();
    proof {
        reveal(Seq::filter);
        assert(entry_views(found@) == by_name(all.take(0).filter(keep)));
    }
    for entry in iter: entries
        invariant
            iter.seq() == entries@,
            all == entry_views(entries@),
            keep == (|entry: EntryView| is_calendar_file(entry)),
            entry_views(found@) == by_name(all.take(iter.index() as int).filter(keep)),
    {
        proof {
            let n = iter.index();
            let kept = all.take(n as int).filter(keep);
            reveal(Seq::filter);
            assert(all.take(n + 1).drop_last() == all.take(n as int));
            assert(all.take(n + 1).last() == entry@);
            assert(kept.push(entry@).drop_last() == kept);
        }
        if entry.is_file && is_calendar_name(entry.name.as_slice()) {
            place_by_name(&mut found, entry);
        }
    }
    proof {
        assert(all.take(all.len() as int) == all);
    }
    let ghost sorted = entry_views(found@);
    let mut files: Vec<DirectoryFile> = Vec::new();
    for entry in iter: found
        invariant
            iter.seq() == found@,
            sorted == entry_views(found@),
            source::file_views(files@) == files_of(sorted.take(iter.index() as int)),
    {
        let ghost before = files@;
        proof {
            assert(sorted[iter.index() as int] == entry@);
        }
        let file = entry.file;
        let ghost said = file@;
        files.push(file);
        proof {
            assert(source::file_views(files@) == source::file_views(before).push(said));
            assert(files_of(sorted.take(iter.index() + 1)) == files_of(
                sorted.take(iter.index() as int),
            ).push(said));
        }
    }
    proof {
        assert(sorted.take(sorted.len() as int) == sorted);
    }
    files
}

/// Whether a byte is a letter of the Latin alphabet, given by its number in small print.
pub open spec fn either_case(b: u8, small: int) -> bool {
    b == small || b == small - 32
}

/// Whether a name ends in `.ics` or `.ical`, in capitals or not, with something before the dot.
pub open spec fn ends_like_a_calendar(name: Seq<u8>) -> bool {
    let n = name.len() as int;
    ||| {
        &&& n >= 5
        &&& name[n - 4] == 46
        &&& either_case(name[n - 3], 105)
        &&& either_case(name[n - 2], 99)
        &&& either_case(name[n - 1], 115)
    }
    ||| {
        &&& n >= 6
        &&& name[n - 5] == 46
        &&& either_case(name[n - 4], 105)
        &&& either_case(name[n - 3], 99)
        &&& either_case(name[n - 2], 97)
        &&& either_case(name[n - 1], 108)
    }
}

proof fn lemma_last_dot(name: Seq<u8>)
    ensures
        -1 <= last_dot(name) < name.len(),
        last_dot(name) >= 0 ==> name[last_dot(name)] == 46,
        forall|j: int| last_dot(name) < j < name.len() ==> name[j] != 46,
    decreases name.len(),
{
    if name.len() > 0 && name.last() != '.' as u8 {
        let front = name.drop_last();
        lemma_last_dot(front);
        assert forall|j: int| last_dot(name) < j < name.len() implies name[j] != 46 by {
            if j < front.len() {
                assert(front[j] == name[j]);
            }
        }
    }
}

proof fn lemma_calendar_names(name: Seq<u8>)
    ensures
        names_calendar(name) == ends_like_a_calendar(name),
{
    let n = name.len() as int;
    let d = last_dot(name);
    let extension = name.skip(d + 1);
    let ics = seq!['i', 'c', 's'];
    let ical = seq!['i', 'c', 'a', 'l'];
    lemma_last_dot(name);
    assert(ics[0] == 'i' && ics[1] == 'c' && ics[2] == 's');
    assert(ical[0] == 'i' && ical[1] == 'c' && ical[2] == 'a' && ical[3] == 'l');
    if names_calendar(name) {
        if spells(extension, ics) {
            assert(is_letter(extension[0], ics[0]) && is_letter(extension[1], ics[1]) && is_letter(
                extension[2],
                ics[2],
            ));
            assert(extension[0] == name[n - 3] && extension[1] == name[n - 2] && extension[2]
                == name[n - 1]);
        } else {
            assert(is_letter(extension[0], ical[0]) && is_letter(extension[1], ical[1])
                && is_letter(extension[2], ical[2]) && is_letter(extension[3], ical[3]));
            assert(extension[0] == name[n - 4] && extension[1] == name[n - 3] && extension[2]
                == name[n - 2] && extension[3] == name[n - 1]);
        }
    }
    if ends_like_a_calendar(name) {
        if n >= 5 && name[n - 4] == 46 && either_case(name[n - 1], 115) {
            assert(d == n - 4);
            assert(spells(extension, ics));
        } else {
            assert(d == n - 5);
            assert(spells(extension, ical));
        }
    }
}

/// A name is that of a calendar file exactly if it ends in one of the two extensions, in capitals
/// or not, and something stands before the dot.
pub proof fn calendar_files_end_in_their_extension(name: &[u8], r: bool)
    requires
        call_ensures(is_calendar_name, (name,), r),
    ensures
        r <==> ends_like_a_calendar(name@),
{
    lemma_calendar_names(name@);
}

proof fn lemma_filter_counts(
    entries: Seq<EntryView>,
    keep: spec_fn(EntryView) -> bool,
    entry: EntryView,
)
    ensures
        entries.filter(keep).to_multiset().count(entry) == (if keep(entry) {
            entries.to_multiset().count(entry)
        } else {
            0
        }),
    decreases entries.len(),
{
    broadcast use vstd::seq_lib::group_to_multiset_ensures;

    reveal(Seq::filter);
    if entries.len() > 0 {
        lemma_filter_counts(entries.drop_last(), keep, entry);
        assert(entries == entries.drop_last().push(entries.last()));
    }
}

/// What is found are the files of the entries that are files and have a name of a calendar file,
/// each as often as it is there, and in the order of their names: `found` holds these entries.
pub proof fn discovery_finds_what_is_named_like_a_calendar(
    entries: Vec<DirectoryEntry>,
    r: Vec<DirectoryFile>,
    entry: EntryView,
) -> (found: Seq<EntryView>)
    requires
        call_ensures(discover_ics_files, (entries,), r),
    ensures
        found.len() == r@.len(),
        forall|i: int| 0 <= i < r@.len() ==> (#[trigger] r@[i])@ == found[i].file,
        found.to_multiset().count(entry) == (if entry.is_file && ends_like_a_calendar(entry.name) {
            entry_views(entries@).to_multiset().count(entry)
        } else {
            0
        }),
        forall|i: int, j: int|
            0 <= i < j < found.len() ==> !order::lex_before(
                order::byte_codes((#[trigger] found[j]).name),
                order::byte_codes((#[trigger] found[i]).name),
            ),
{
    let all = entry_views(entries@);
    let found = discovered(all);
    discovery_finds_calendar_files_in_order(all);
    lemma_filter_counts(all, |entry: EntryView| is_calendar_file(entry), entry);
    lemma_calendar_names(entry.name);
    assert(source::file_views(r@).len() == r@.len());
    assert forall|i: int| 0 <= i < r@.len() implies (#[trigger] r@[i])@ == found[i].file by {
        assert(source::file_views(r@)[i] == r@[i]@);
    }
    assert forall|i: int, j: int| 0 <= i < j < found.len() implies !order::lex_before(
        order::byte_codes((#[trigger] found[j]).name),
        order::byte_codes((#[trigger] found[i]).name),
    ) by {
        assert(!named_before(found[j], found[i]));
    }
    found
}

} // verus!
