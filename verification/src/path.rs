//! Paths of files, written with slashes between their names, as Unix and macOS have them. No other
//! character separates names.
use vstd::prelude::*;
use vstd::slice::slice_subrange;

use crate::text;

verus! {

/// What a path leads through.
#[verifier::ext_equal]
pub struct PathView {
    /// Whether the path starts at the root.
    pub rooted: bool,
    /// Whether the path starts at the current directory and says so.
    pub here: bool,
    pub names: Seq<Seq<char>>,
}

/// Whether a segment of a path leads anywhere: an empty one and a single dot do not.
pub open spec fn is_name(segment: Seq<char>) -> bool {
    segment.len() > 0 && segment != seq!['.']
}

/// The names that a path leads through.
pub open spec fn names(path: Seq<char>) -> Seq<Seq<char>> {
    text::split(path, '/').filter(|segment: Seq<char>| is_name(segment))
}

/// What a path leads through. Doubled slashes, slashes at its end and single dots behind its
/// start make no difference.
pub open spec fn path_view(path: Seq<char>) -> PathView {
    PathView {
        rooted: path.len() > 0 && path[0] == '/',
        here: text::split(path, '/')[0] == seq!['.'],
        names: names(path),
    }
}

/// Whether two paths are the same.
pub open spec fn same_path(a: Seq<char>, b: Seq<char>) -> bool {
    path_view(a) == path_view(b)
}

/// The name of the file that a path leads to, if it ends in a name.
pub open spec fn file_name(path: Seq<char>) -> Option<Seq<char>> {
    if names(path).len() > 0 && names(path).last() != seq!['.', '.'] {
        Some(names(path).last())
    } else {
        None
    }
}

/// The position of the last dot in a name; -1 if there is none.
pub open spec fn last_dot(name: Seq<char>) -> int
    decreases name.len(),
{
    if name.len() == 0 {
        -1
    } else if name.last() == '.' {
        name.len() - 1
    } else {
        last_dot(name.drop_last())
    }
}

/// A file's name without its extension. A dot at the start of a name starts no extension.
pub open spec fn stem(name: Seq<char>) -> Seq<char> {
    if last_dot(name) > 0 {
        name.take(last_dot(name))
    } else {
        name
    }
}

/// The name of a calendar that is known by its source alone.
pub open spec fn name_of_source(source: Seq<char>) -> Seq<char> {
    match file_name(source) {
        Some(name) => stem(name),
        None => "Calendar"@,
    }
}

proof fn lemma_last_dot(name: Seq<char>)
    ensures
        -1 <= last_dot(name) < name.len(),
    decreases name.len(),
{
    if name.len() > 0 && name.last() != '.' {
        lemma_last_dot(name.drop_last());
    }
}

/// A calendar's source never gives it an empty name.
pub proof fn source_gives_a_name(source: Seq<char>)
    ensures
        name_of_source(source).len() > 0,
{
    reveal_strlit("Calendar");
    let segments = text::split(source, '/');
    let keep = |segment: Seq<char>| is_name(segment);
    if let Some(name) = file_name(source) {
        segments.lemma_filter_pred(keep, names(source).len() - 1);
        lemma_last_dot(name);
    }
}

/// A file is called by the last name of its path, whatever directory it is in.
pub proof fn directory_makes_no_difference(directory: Seq<char>, name: Seq<char>)
    requires
        !name.contains('/'),
        is_name(name),
        name != seq!['.', '.'],
    ensures
        file_name(directory.push('/') + name) == Some(name),
    decreases directory.len(),
{
    let path = directory.push('/') + name;
    let keep = |segment: Seq<char>| is_name(segment);
    let i = text::index_of(path, '/');
    lemma_index_in_front(directory, name);
    assert(path.skip(i as int + 1).len() < path.len());
    let head = seq![path.take(i as int)];
    if i < directory.len() {
        let rest = directory.skip(i as int + 1);
        assert(path.skip(i as int + 1) == rest.push('/') + name);
        directory_makes_no_difference(rest, name);
        lemma_filter_behind(head, text::split(rest.push('/') + name, '/'));
        assert(names(path).last() == names(rest.push('/') + name).last());
    } else {
        assert(path.skip(i as int + 1) == name);
        lemma_no_slash(name);
        assert(text::split(name, '/') == seq![name]);
        lemma_filter_behind(head, seq![name]);
        reveal(Seq::filter);
        assert(seq![name].drop_last().filter(keep) == Seq::<Seq<char>>::empty());
        assert(seq![name].filter(keep) == seq![name]);
        assert(names(path).last() == name);
    }
}

proof fn lemma_filter_behind(head: Seq<Seq<char>>, rest: Seq<Seq<char>>)
    ensures
        ({
            let keep = |segment: Seq<char>| is_name(segment);
            (head + rest).filter(keep) == head.filter(keep) + rest.filter(keep)
        }),
{
    Seq::filter_distributes_over_add(head, rest, |segment: Seq<char>| is_name(segment));
}

proof fn lemma_index_in_front(directory: Seq<char>, name: Seq<char>)
    ensures
        text::index_of(directory.push('/') + name, '/') <= directory.len(),
    decreases directory.len(),
{
    let path = directory.push('/') + name;
    if directory.len() > 0 && directory[0] != '/' {
        assert(path.drop_first() == directory.drop_first().push('/') + name);
        lemma_index_in_front(directory.drop_first(), name);
    }
}

proof fn lemma_no_slash(name: Seq<char>)
    requires
        !name.contains('/'),
    ensures
        text::index_of(name, '/') == name.len(),
    decreases name.len(),
{
    if name.len() > 0 {
        assert(name.contains(name[0]));
        assert forall|c: char| name.drop_first().contains(c) implies name.contains(c) by {
            let k = choose|k: int| 0 <= k < name.drop_first().len() && name.drop_first()[k] == c;
            assert(name[k + 1] == c);
        }
        lemma_no_slash(name.drop_first());
    }
}

fn leads_on(segment: &[char]) -> (r: bool)
    ensures
        r == is_name(segment@),
{
    let r = segment.len() > 0 && !(segment.len() == 1 && segment[0] == '.');
    proof {
        if segment@.len() == 1 && segment@[0] == '.' {
            assert(segment@ == seq!['.']);
        }
    }
    r
}

/// The names that a path leads through.
fn name_list(path: &[char]) -> (r: Vec<Vec<char>>)
    ensures
        text::views(r@) == names(path@),
{
    let segments = text::pieces(path, '/');
    let ghost all = text::views(segments@);
    let ghost keep = |segment: Seq<char>| is_name(segment);
    let mut out: Vec<Vec<char>> = Vec::new();
    let mut i: usize = 0;
    proof {
        reveal(Seq::filter);
        assert(text::views(out@) == all.take(0).filter(keep));
    }
    while i < segments.len()
        invariant
            all == text::views(segments@),
            keep == (|segment: Seq<char>| is_name(segment)),
            i <= segments@.len(),
            text::views(out@) == all.take(i as int).filter(keep),
        decreases segments@.len() - i,
    {
        let ghost before = out@;
        proof {
            reveal(Seq::filter);
            assert(all.take(i + 1).drop_last() == all.take(i as int));
            assert(all.take(i + 1).last() == segments@[i as int]@);
        }
        if leads_on(segments[i].as_slice()) {
            out.push(text::copy_chars(segments[i].as_slice()));
            proof {
                assert(text::views(out@) == text::views(before).push(segments@[i as int]@));
            }
        }
        i += 1;
    }
    proof {
        assert(all.take(i as int) == all);
    }
    out
}

fn starts_here(path: &[char]) -> (r: bool)
    ensures
        r == (text::split(path@, '/')[0] == seq!['.']),
{
    let segments = text::pieces(path, '/');
    proof {
        assert(text::views(segments@).len() >= 1);
        assert(text::views(segments@)[0] == segments@[0]@);
    }
    let first = &segments[0];
    let r = first.len() == 1 && first[0] == '.';
    proof {
        if r {
            assert(first@ == seq!['.']);
        }
    }
    r
}

/// Whether two paths are the same.
pub fn equal_paths(a: &[char], b: &[char]) -> (r: bool)
    ensures
        r == same_path(a@, b@),
{
    let rooted_a = a.len() > 0 && a[0] == '/';
    let rooted_b = b.len() > 0 && b[0] == '/';
    if rooted_a != rooted_b || starts_here(a) != starts_here(b) {
        return false;
    }
    let names_a = name_list(a);
    let names_b = name_list(b);
    if names_a.len() != names_b.len() {
        proof {
            assert(text::views(names_a@).len() != text::views(names_b@).len());
        }
        return false;
    }
    let mut i: usize = 0;
    while i < names_a.len()
        invariant
            i <= names_a@.len(),
            names_a@.len() == names_b@.len(),
            text::views(names_a@) == names(a@),
            text::views(names_b@) == names(b@),
            forall|j: int| 0 <= j < i ==> (#[trigger] names_a@[j])@ == names_b@[j]@,
        decreases names_a@.len() - i,
    {
        if !text::same_chars(names_a[i].as_slice(), names_b[i].as_slice()) {
            proof {
                assert(names(a@)[i as int] == names_a@[i as int]@);
                assert(names(b@)[i as int] == names_b@[i as int]@);
            }
            return false;
        }
        i += 1;
    }
    proof {
        assert(text::views(names_a@) == text::views(names_b@));
        assert(path_view(a@) =~= path_view(b@));
    }
    true
}

/// The name of the file that a path leads to, if it ends in a name.
pub fn name_of_file(path: &[char]) -> (r: Option<Vec<char>>)
    ensures
        match r {
            Some(name) => file_name(path@) == Some(name@),
            None => file_name(path@) is None,
        },
{
    let mut all = name_list(path);
    let ghost every = text::views(all@);
    match all.pop() {
        Some(name) => {
            proof {
                assert(every.last() == name@);
            }
            if name.len() == 2 && name[0] == '.' && name[1] == '.' {
                proof {
                    assert(name@ == seq!['.', '.']);
                }
                None
            } else {
                Some(name)
            }
        },
        None => None,
    }
}

/// A file's name without its extension.
fn without_extension<'a>(name: &'a [char]) -> (r: &'a [char])
    ensures
        r@ == stem(name@),
{
    let mut n: usize = name.len();
    proof {
        assert(name@.take(n as int) == name@);
    }
    while n > 0 && name[n - 1] != '.'
        invariant
            n <= name@.len(),
            last_dot(name@) == last_dot(name@.take(n as int)),
        decreases n,
    {
        proof {
            assert(name@.take(n as int).drop_last() == name@.take(n - 1));
        }
        n -= 1;
    }
    if n > 1 {
        proof {
            assert(last_dot(name@) == n - 1);
        }
        slice_subrange(name, 0, n - 1)
    } else {
        name
    }
}

/// Names a calendar after the file that its source leads to.
pub fn calendar_name_from_source(source: &str) -> (r: String)
    ensures
        r@ == name_of_source(source@),
        r@.len() > 0,
{
    proof {
        source_gives_a_name(source@);
    }
    match name_of_file(text::to_chars(source).as_slice()) {
        Some(name) => text::to_text(without_extension(name.as_slice())),
        None => "Calendar".to_owned(),
    }
}

proof fn lemma_names_behind(directory: Seq<char>, rest: Seq<char>)
    ensures
        names(directory.push('/') + rest) == names(directory) + names(rest),
        text::split(directory.push('/') + rest, '/')[0] == text::split(directory, '/')[0],
{
    text::lemma_split_join(directory, rest, '/');
    lemma_filter_behind(text::split(directory, '/'), text::split(rest, '/'));
    assert(text::split(directory, '/').len() >= 1);
}

proof fn lemma_single_name(name: Seq<char>)
    requires
        !name.contains('/'),
    ensures
        text::split(name, '/') == seq![name],
        is_name(name) ==> names(name) == seq![name],
        !is_name(name) ==> names(name) == Seq::<Seq<char>>::empty(),
{
    let keep = |segment: Seq<char>| is_name(segment);
    lemma_no_slash(name);
    reveal(Seq::filter);
    assert(seq![name].drop_last().filter(keep) == Seq::<Seq<char>>::empty());
}

/// A slash at the end of a path, and a single dot behind one, make no difference.
pub proof fn slashes_and_dots_at_the_end_make_no_difference(directory: Seq<char>)
    requires
        directory.len() > 0,
    ensures
        same_path(directory + seq!['/'], directory),
        same_path(directory + seq!['/', '.'], directory),
{
    let none = Seq::<char>::empty();
    let dot = seq!['.'];
    lemma_single_name(none);
    lemma_single_name(dot);
    lemma_names_behind(directory, none);
    lemma_names_behind(directory, dot);
    assert(directory + seq!['/'] == directory.push('/') + none);
    assert(directory + seq!['/', '.'] == directory.push('/') + dot);
    assert(names(directory) + Seq::<Seq<char>>::empty() == names(directory));
    assert(path_view(directory.push('/') + none) =~= path_view(directory));
    assert(path_view(directory.push('/') + dot) =~= path_view(directory));
}

/// Two names are the same path exactly if they are the same text, at the root as well as not. A
/// name at the root is never the same path as one that is not.
pub proof fn names_are_compared_as_texts(name: Seq<char>, other: Seq<char>)
    requires
        !name.contains('/'),
        !other.contains('/'),
        name.len() > 0 && name != seq!['.'],
        other.len() > 0 && other != seq!['.'],
    ensures
        same_path(name, other) <==> name == other,
        same_path(seq!['/'] + name, seq!['/'] + other) <==> name == other,
        !same_path(seq!['/'] + name, other),
{
    let none = Seq::<char>::empty();
    lemma_single_name(none);
    lemma_single_name(name);
    lemma_single_name(other);
    lemma_names_behind(none, name);
    lemma_names_behind(none, other);
    assert(other.contains(other[0]));
    assert(seq!['/'] + name == none.push('/') + name);
    assert(seq!['/'] + other == none.push('/') + other);
    assert(names(none.push('/') + name) == seq![name]);
    assert(names(none.push('/') + other) == seq![other]);
    assert(seq![name][0] == name && seq![other][0] == other);
}

/// Two files in directories are the same path exactly if the directories are, and the names are
/// the same text.
pub proof fn paths_are_compared_name_by_name(
    directory: Seq<char>,
    name: Seq<char>,
    other_directory: Seq<char>,
    other: Seq<char>,
)
    requires
        !name.contains('/'),
        !other.contains('/'),
        name.len() > 0 && name != seq!['.'],
        other.len() > 0 && other != seq!['.'],
        directory.len() > 0,
        other_directory.len() > 0,
    ensures
        same_path(directory + seq!['/'] + name, other_directory + seq!['/'] + other)
            <==> same_path(directory, other_directory) && name == other,
{
    let (one, two) = (directory.push('/') + name, other_directory.push('/') + other);
    lemma_single_name(name);
    lemma_single_name(other);
    lemma_names_behind(directory, name);
    lemma_names_behind(other_directory, other);
    assert(directory + seq!['/'] + name == one);
    assert(other_directory + seq!['/'] + other == two);
    assert(one[0] == directory[0] && two[0] == other_directory[0]);
    let (a, b) = (names(directory), names(other_directory));
    assert(a + seq![name] == a.push(name));
    assert(b + seq![other] == b.push(other));
    if same_path(one, two) {
        assert(a.push(name).last() == name && b.push(other).last() == other);
        assert(a.push(name).drop_last() == a && b.push(other).drop_last() == b);
        assert(path_view(directory) =~= path_view(other_directory));
    }
    if same_path(directory, other_directory) && name == other {
        assert(path_view(one) =~= path_view(two));
    }
}

/// Whether a path ends in a name, with a directory before it or none, and a slash behind it or
/// none.
pub open spec fn ends_in(path: Seq<char>, directory: Seq<char>, name: Seq<char>) -> bool {
    ||| path == name
    ||| path == name + seq!['/']
    ||| path == directory + seq!['/'] + name
    ||| path == directory + seq!['/'] + name + seq!['/']
}

proof fn lemma_ends_in(path: Seq<char>, directory: Seq<char>, name: Seq<char>)
    requires
        ends_in(path, directory, name),
        !name.contains('/'),
        is_name(name),
        name != seq!['.', '.'],
    ensures
        file_name(path) == Some(name),
{
    let none = Seq::<char>::empty();
    let below = directory.push('/') + name;
    lemma_single_name(none);
    lemma_single_name(name);
    lemma_names_behind(directory, name);
    lemma_names_behind(below, none);
    lemma_names_behind(name, none);
    let empty = Seq::<Seq<char>>::empty();
    assert(names(directory) + seq![name] == names(directory).push(name));
    assert(names(directory).push(name) + empty == names(directory).push(name));
    assert(seq![name] + empty == seq![name]);
    assert(directory + seq!['/'] + name == below);
    assert(directory + seq!['/'] + name + seq!['/'] == below.push('/') + none);
    assert(name + seq!['/'] == name.push('/') + none);
    assert(names(directory).push(name).last() == name);
    assert(seq![name].last() == name);
}

proof fn lemma_dot_found(name: Seq<char>, base: Seq<char>, extension: Seq<char>)
    requires
        name == base + seq!['.'] + extension,
        !extension.contains('.'),
    ensures
        last_dot(name) == base.len(),
    decreases extension.len(),
{
    if extension.len() > 0 {
        assert(extension.contains(extension.last()));
        assert(name.last() == extension.last());
        let shorter = extension.drop_last();
        assert(name.drop_last() == base + seq!['.'] + shorter);
        assert forall|c: char| shorter.contains(c) implies extension.contains(c) by {
            let k = choose|k: int| 0 <= k < shorter.len() && shorter[k] == c;
            assert(extension[k] == c);
        }
        lemma_dot_found(name.drop_last(), base, shorter);
    }
}

proof fn lemma_no_dot(name: Seq<char>)
    requires
        !name.contains('.'),
    ensures
        last_dot(name) == -1,
    decreases name.len(),
{
    if name.len() > 0 {
        let shorter = name.drop_last();
        assert(name.contains(name.last()));
        assert forall|c: char| shorter.contains(c) implies name.contains(c) by {
            let k = choose|k: int| 0 <= k < shorter.len() && shorter[k] == c;
            assert(name[k] == c);
        }
        lemma_no_dot(shorter);
    }
}

/// A calendar is named after the file that its source ends in, without the last dot and what is
/// behind it, wherever the file is.
pub proof fn calendars_are_named_without_extension(
    source: &str,
    r: String,
    directory: Seq<char>,
    base: Seq<char>,
    extension: Seq<char>,
)
    requires
        call_ensures(calendar_name_from_source, (source,), r),
        ends_in(source@, directory, base + seq!['.'] + extension),
        base.len() > 0,
        !base.contains('/'),
        !extension.contains('/'),
        !extension.contains('.'),
        base + seq!['.'] + extension != seq!['.', '.'],
    ensures
        r@ == base,
{
    let file = base + seq!['.'] + extension;
    assert forall|i: int| 0 <= i < file.len() implies file[i] != '/' by {
        if i < base.len() {
            assert(base.contains(base[i]));
        } else if i > base.len() {
            assert(extension.contains(extension[i - base.len() - 1]));
        }
    }
    assert(!file.contains('/'));
    assert(file.len() >= 2);
    lemma_ends_in(source@, directory, file);
    lemma_dot_found(file, base, extension);
    assert(file.take(base.len() as int) == base);
}

/// A calendar whose source ends in a file without a dot, or with none but at its start, is named
/// by all of that file's name. One whose source ends in no name is just called a calendar.
pub proof fn calendars_are_named_after_their_file(
    source: &str,
    r: String,
    directory: Seq<char>,
    name: Seq<char>,
)
    requires
        call_ensures(calendar_name_from_source, (source,), r),
        !name.contains('/'),
    ensures
        ends_in(source@, directory, name) && name.len() > 0 && !name.contains('.') ==> r@ == name,
        ends_in(source@, directory, seq!['.'] + name) && name.len() > 0 && !name.contains('.') ==> r@
            == seq!['.'] + name,
        source@.len() == 0 || source@ == seq!['/'] || source@ == seq!['.', '.'] ==> r@
            == "Calendar"@,
{
    let none = Seq::<char>::empty();
    let hidden = seq!['.'] + name;
    if name.len() > 0 && !name.contains('.') {
        assert(name.contains(name[0]));
        if ends_in(source@, directory, name) {
            lemma_ends_in(source@, directory, name);
            lemma_no_dot(name);
        }
        if ends_in(source@, directory, hidden) {
            assert forall|i: int| 0 <= i < hidden.len() implies hidden[i] != '/' by {
                if i > 0 {
                    assert(name.contains(name[i - 1]));
                }
            }
            assert(!hidden.contains('/'));
            assert(hidden[1] == name[0]);
            lemma_ends_in(source@, directory, hidden);
            assert(hidden == none + seq!['.'] + name);
            lemma_dot_found(hidden, none, name);
        }
    }
    lemma_single_name(none);
    lemma_names_behind(none, none);
    lemma_single_name(seq!['.', '.']);
    assert(none.push('/') + none == seq!['/']);
    if source@.len() == 0 {
        assert(source@ == none);
    }
}

} // verus!
