//! Text as sequences of characters: searching, splitting, trimming and replacing.
//!
//! The specification functions say what each operation yields on a `Seq<char>`; the executable
//! functions work on slices of characters and are proved to yield exactly that.
use vstd::prelude::*;
use vstd::slice::slice_subrange;

verus! {

/// `String::push` of the standard library: it appends the given character to the end of the
/// string and changes nothing else.
pub assume_specification[ String::push ](s: &mut String, c: char)
    ensures
        final(s)@ == old(s)@.push(c),
;

/// The sets of characters that are trimmed from the ends of a text.
pub enum CharClass {
    /// Unicode white space.
    WhiteSpace,
    /// A single character.
    Only(char),
    /// A sign or an ASCII digit, as written before the weekday of a recurrence rule.
    SignOrDigit,
}

/// The Unicode property `White_Space`.
pub open spec fn is_white_space(c: char) -> bool {
    ||| '\u{9}' <= c <= '\u{d}'
    ||| c == ' '
    ||| c == '\u{85}'
    ||| c == '\u{a0}'
    ||| c == '\u{1680}'
    ||| '\u{2000}' <= c <= '\u{200a}'
    ||| c == '\u{2028}'
    ||| c == '\u{2029}'
    ||| c == '\u{202f}'
    ||| c == '\u{205f}'
    ||| c == '\u{3000}'
}

pub open spec fn is_digit(c: char) -> bool {
    '0' <= c <= '9'
}

impl CharClass {
    pub open spec fn has(self, c: char) -> bool {
        match self {
            CharClass::WhiteSpace => is_white_space(c),
            CharClass::Only(only) => c == only,
            CharClass::SignOrDigit => c == '+' || c == '-' || is_digit(c),
        }
    }

    pub fn holds(&self, c: char) -> (r: bool)
        ensures
            r == self.has(c),
    {
        match self {
            CharClass::WhiteSpace => {
                ('\u{9}' <= c && c <= '\u{d}') || c == ' ' || c == '\u{85}' || c == '\u{a0}' || c
                    == '\u{1680}' || ('\u{2000}' <= c && c <= '\u{200a}') || c == '\u{2028}' || c
                    == '\u{2029}' || c == '\u{202f}' || c == '\u{205f}' || c == '\u{3000}'
            },
            CharClass::Only(only) => c == *only,
            CharClass::SignOrDigit => c == '+' || c == '-' || ('0' <= c && c <= '9'),
        }
    }
}

/// What is left of a text without the characters of a class at its start.
pub open spec fn drop_leading(s: Seq<char>, class: CharClass) -> Seq<char>
    decreases s.len(),
{
    if s.len() > 0 && class.has(s[0]) {
        drop_leading(s.drop_first(), class)
    } else {
        s
    }
}

/// What is left of a text without the characters of a class at its end.
pub open spec fn drop_trailing(s: Seq<char>, class: CharClass) -> Seq<char>
    decreases s.len(),
{
    if s.len() > 0 && class.has(s.last()) {
        drop_trailing(s.drop_last(), class)
    } else {
        s
    }
}

/// A text without the characters of a class at either end.
pub open spec fn drop_around(s: Seq<char>, class: CharClass) -> Seq<char> {
    drop_trailing(drop_leading(s, class), class)
}

/// A text without white space at either end.
pub open spec fn trim(s: Seq<char>) -> Seq<char> {
    drop_around(s, CharClass::WhiteSpace)
}

/// Whether a text holds nothing but white space.
pub open spec fn is_blank(s: Seq<char>) -> bool {
    trim(s).len() == 0
}

/// The first position of a character in a text; the text's length if it does not occur.
pub open spec fn index_of(s: Seq<char>, c: char) -> nat
    decreases s.len(),
{
    if s.len() == 0 || s[0] == c {
        0
    } else {
        1 + index_of(s.drop_first(), c)
    }
}

/// The parts of a text before and after the first occurrence of a character.
pub open spec fn split_once(s: Seq<char>, c: char) -> Option<(Seq<char>, Seq<char>)> {
    if index_of(s, c) < s.len() {
        Some((s.take(index_of(s, c) as int), s.skip(index_of(s, c) as int + 1)))
    } else {
        None
    }
}

/// The pieces of a text between the occurrences of a character, always at least one.
pub open spec fn split(s: Seq<char>, c: char) -> Seq<Seq<char>>
    decreases s.len(),
{
    if index_of(s, c) < s.len() {
        seq![s.take(index_of(s, c) as int)] + split(s.skip(index_of(s, c) as int + 1), c)
    } else {
        seq![s]
    }
}

/// A character put behind a text is found no later than there.
pub(crate) proof fn lemma_index_before(s: Seq<char>, rest: Seq<char>, c: char)
    ensures
        index_of(s, c) <= s.len(),
        index_of(s.push(c) + rest, c) == index_of(s, c),
    decreases s.len(),
{
    let all = s.push(c) + rest;
    if s.len() == 0 {
        assert(all[0] == c);
    } else {
        assert(all[0] == s[0]);
        if s[0] != c {
            lemma_index_before(s.drop_first(), rest, c);
            assert(all.drop_first() == s.drop_first().push(c) + rest);
        }
    }
}

/// The pieces of two texts with the character between them are those of the one and the other.
pub(crate) proof fn lemma_split_join(s: Seq<char>, rest: Seq<char>, c: char)
    ensures
        split(s.push(c) + rest, c) == split(s, c) + split(rest, c),
    decreases s.len(),
{
    let all = s.push(c) + rest;
    let i = index_of(s, c) as int;
    lemma_index_before(s, rest, c);
    assert(all.take(i) == s.take(i));
    if i < s.len() {
        lemma_split_join(s.skip(i + 1), rest, c);
        assert(all.skip(i + 1) == s.skip(i + 1).push(c) + rest);
        let head = seq![s.take(i)];
        assert(head + (split(s.skip(i + 1), c) + split(rest, c)) == (head + split(s.skip(i + 1), c))
            + split(rest, c));
    } else {
        assert(s.take(i) == s);
        assert(all.skip(i + 1) == rest);
    }
}

/// A character that does not occur in a text is not found there.
pub(crate) proof fn lemma_not_found(s: Seq<char>, c: char)
    requires
        forall|i: int| 0 <= i < s.len() ==> s[i] != c,
    ensures
        index_of(s, c) == s.len(),
    decreases s.len(),
{
    if s.len() > 0 {
        lemma_not_found(s.drop_first(), c);
    }
}

pub open spec fn starts_with(s: Seq<char>, prefix: Seq<char>) -> bool {
    prefix.len() <= s.len() && s.take(prefix.len() as int) == prefix
}

/// Whether a text occurs in another.
pub open spec fn occurs_in(part: Seq<char>, s: Seq<char>) -> bool {
    exists|i: int| 0 <= i <= s.len() && #[trigger] starts_with(s.skip(i), part)
}

/// A text with each occurrence of `from` replaced by `to`, found from left to right and never
/// overlapping.
pub open spec fn replace_all(s: Seq<char>, from: Seq<char>, to: Seq<char>) -> Seq<char>
    decreases s.len(),
{
    if from.len() == 0 || s.len() == 0 {
        s
    } else if starts_with(s, from) {
        to + replace_all(s.skip(from.len() as int), from, to)
    } else {
        seq![s[0]] + replace_all(s.drop_first(), from, to)
    }
}

/// A text in which `from` cannot start stays as it is.
pub(crate) proof fn lemma_nothing_to_replace(s: Seq<char>, from: Seq<char>, to: Seq<char>)
    requires
        from.len() > 0,
        !s.contains(from[0]),
    ensures
        replace_all(s, from, to) == s,
    decreases s.len(),
{
    if s.len() > 0 {
        let rest = s.drop_first();
        assert(s.contains(s[0]));
        assert forall|c: char| rest.contains(c) implies s.contains(c) by {
            let k = choose|k: int| 0 <= k < rest.len() && rest[k] == c;
            assert(s[k + 1] == c);
        }
        lemma_nothing_to_replace(rest, from, to);
        if starts_with(s, from) {
            assert(s.take(from.len() as int)[0] == s[0]);
        }
        assert(seq![s[0]] + rest == s);
    }
}

/// A text with the first occurrence of `from` replaced by `to`.
pub open spec fn replace_first(s: Seq<char>, from: Seq<char>, to: Seq<char>) -> Seq<char>
    decreases s.len(),
{
    if from.len() == 0 || s.len() == 0 {
        s
    } else if starts_with(s, from) {
        to + s.skip(from.len() as int)
    } else {
        seq![s[0]] + replace_first(s.drop_first(), from, to)
    }
}

/// A line without the carriage return that stood before its line feed.
pub open spec fn without_carriage_return(s: Seq<char>) -> Seq<char> {
    if s.len() > 0 && s.last() == '\r' {
        s.drop_last()
    } else {
        s
    }
}

/// The lines of a text. A line ends at a line feed or at the end of the text; a carriage return
/// directly before the line feed belongs to the line's ending.
pub open spec fn lines(s: Seq<char>) -> Seq<Seq<char>>
    decreases s.len(),
{
    if s.len() == 0 {
        seq![]
    } else if index_of(s, '\n') < s.len() {
        seq![without_carriage_return(s.take(index_of(s, '\n') as int))] + lines(
            s.skip(index_of(s, '\n') as int + 1),
        )
    } else {
        seq![s]
    }
}

pub open spec fn ascii_lower(c: char) -> char {
    if 'A' <= c <= 'Z' {
        ((c as u32 + 32) as u32) as char
    } else {
        c
    }
}

/// The views of a list of texts.
pub open spec fn views(texts: Seq<Vec<char>>) -> Seq<Seq<char>> {
    Seq::new(texts.len(), |i: int| texts[i]@)
}

/// The views of a list of strings.
pub open spec fn string_views(texts: Seq<String>) -> Seq<Seq<char>> {
    Seq::new(texts.len(), |i: int| texts[i]@)
}

/// The characters of a text.
pub fn to_chars(s: &str) -> (r: Vec<char>)
    ensures
        r@ == s@,
{
    let mut out: Vec<char> = Vec::new();
    for c in iter: s.chars()
        invariant
            iter.seq() == s@,
            out@ == s@.take(iter.index() as int),
    {
        proof {
            assert(s@.take(iter.index() as int).push(c) == s@.take(iter.index() + 1));
        }
        out.push(c);
    }
    proof {
        assert(s@.take(s@.len() as int) == s@);
    }
    out
}

/// The text of characters.
pub fn to_text(chars: &[char]) -> (r: String)
    ensures
        r@ == chars@,
{
    let mut out = String::new();
    push_chars(&mut out, chars);
    out
}

/// Writes characters behind a text.
pub fn push_chars(out: &mut String, chars: &[char])
    ensures
        final(out)@ == old(out)@ + chars@,
{
    let ghost start = out@;
    let mut i: usize = 0;
    while i < chars.len()
        invariant
            i <= chars@.len(),
            out@ == start + chars@.take(i as int),
        decreases chars@.len() - i,
    {
        proof {
            assert(chars@.take(i as int).push(chars@[i as int]) == chars@.take(i + 1));
        }
        out.push(chars[i]);
        i += 1;
    }
    proof {
        assert(chars@.take(chars@.len() as int) == chars@);
    }
}

/// Writes a text behind another.
pub fn push_text(out: &mut String, s: &str)
    ensures
        final(out)@ == old(out)@ + s@,
{
    push_chars(out, to_chars(s).as_slice());
}

/// A copy of characters.
pub fn copy_chars(chars: &[char]) -> (r: Vec<char>)
    ensures
        r@ == chars@,
{
    let mut out: Vec<char> = Vec::new();
    push_all(&mut out, chars);
    out
}

/// Puts characters behind others.
pub fn push_all(out: &mut Vec<char>, chars: &[char])
    ensures
        final(out)@ == old(out)@ + chars@,
{
    let ghost start = out@;
    let mut i: usize = 0;
    while i < chars.len()
        invariant
            i <= chars@.len(),
            out@ == start + chars@.take(i as int),
        decreases chars@.len() - i,
    {
        proof {
            assert(chars@.take(i as int).push(chars@[i as int]) == chars@.take(i + 1));
        }
        out.push(chars[i]);
        i += 1;
    }
    proof {
        assert(chars@.take(chars@.len() as int) == chars@);
    }
}

/// Whether two lists of characters are the same.
pub fn same_chars(a: &[char], b: &[char]) -> (r: bool)
    ensures
        r == (a@ == b@),
{
    if a.len() != b.len() {
        return false;
    }
    let mut i: usize = 0;
    while i < a.len()
        invariant
            i <= a@.len(),
            a@.len() == b@.len(),
            forall|j: int| 0 <= j < i ==> a@[j] == b@[j],
        decreases a@.len() - i,
    {
        if a[i] != b[i] {
            return false;
        }
        i += 1;
    }
    proof {
        assert(a@ =~= b@);
    }
    true
}

/// Whether two texts are the same.
pub fn same_text(a: &str, b: &str) -> (r: bool)
    ensures
        r == (a@ == b@),
{
    same_chars(to_chars(a).as_slice(), to_chars(b).as_slice())
}

/// Whether characters are those of a text.
pub fn is_text(chars: &[char], s: &str) -> (r: bool)
    ensures
        r == (chars@ == s@),
{
    same_chars(chars, to_chars(s).as_slice())
}

/// Whether characters start with others.
pub fn has_prefix(chars: &[char], prefix: &[char]) -> (r: bool)
    ensures
        r == starts_with(chars@, prefix@),
{
    if chars.len() < prefix.len() {
        return false;
    }
    same_chars(slice_subrange(chars, 0, prefix.len()), prefix)
}

/// Characters without those of a class at their start.
pub fn without_leading<'a>(chars: &'a [char], class: &CharClass) -> (r: &'a [char])
    ensures
        r@ == drop_leading(chars@, *class),
{
    let mut i: usize = 0;
    proof {
        assert(chars@.skip(0) == chars@);
    }
    while i < chars.len() && class.holds(chars[i])
        invariant
            i <= chars@.len(),
            drop_leading(chars@, *class) == drop_leading(chars@.skip(i as int), *class),
        decreases chars@.len() - i,
    {
        proof {
            assert(chars@.skip(i as int).drop_first() == chars@.skip(i + 1));
        }
        i += 1;
    }
    proof {
        assert(chars@.skip(i as int) == chars@.subrange(i as int, chars@.len() as int));
    }
    slice_subrange(chars, i, chars.len())
}

/// Characters without those of a class at their end.
pub fn without_trailing<'a>(chars: &'a [char], class: &CharClass) -> (r: &'a [char])
    ensures
        r@ == drop_trailing(chars@, *class),
{
    let mut n: usize = chars.len();
    proof {
        assert(chars@.take(n as int) == chars@);
    }
    while n > 0 && class.holds(chars[n - 1])
        invariant
            n <= chars@.len(),
            drop_trailing(chars@, *class) == drop_trailing(chars@.take(n as int), *class),
        decreases n,
    {
        proof {
            assert(chars@.take(n as int).drop_last() == chars@.take(n - 1));
        }
        n -= 1;
    }
    proof {
        assert(chars@.take(n as int) == chars@.subrange(0, n as int));
    }
    slice_subrange(chars, 0, n)
}

/// Characters without those of a class at their start and end.
pub fn without_around<'a>(chars: &'a [char], class: &CharClass) -> (r: &'a [char])
    ensures
        r@ == drop_around(chars@, *class),
{
    without_trailing(without_leading(chars, class), class)
}

/// Characters without white space at their start and end.
pub fn trimmed<'a>(chars: &'a [char]) -> (r: &'a [char])
    ensures
        r@ == trim(chars@),
{
    without_around(chars, &CharClass::WhiteSpace)
}

/// Whether a text holds nothing but white space.
pub fn blank(s: &str) -> (r: bool)
    ensures
        r == is_blank(s@),
{
    trimmed(to_chars(s).as_slice()).len() == 0
}

/// The first position of a character; the number of characters if it does not occur.
pub fn position(chars: &[char], c: char) -> (r: usize)
    ensures
        r == index_of(chars@, c),
        r <= chars@.len(),
        r < chars@.len() ==> chars@[r as int] == c,
        forall|j: int| 0 <= j < r ==> chars@[j] != c,
{
    let mut i: usize = 0;
    proof {
        assert(chars@.skip(0) == chars@);
    }
    while i < chars.len() && chars[i] != c
        invariant
            i <= chars@.len(),
            index_of(chars@, c) == i + index_of(chars@.skip(i as int), c),
            forall|j: int| 0 <= j < i ==> chars@[j] != c,
        decreases chars@.len() - i,
    {
        proof {
            assert(chars@.skip(i as int).drop_first() == chars@.skip(i + 1));
        }
        i += 1;
    }
    i
}

/// Cuts a text at the first occurrence of a character.
pub fn cut_once<'a>(chars: &'a [char], c: char) -> (r: Option<(&'a [char], &'a [char])>)
    ensures
        match r {
            Some((before, after)) => split_once(chars@, c) == Some((before@, after@)),
            None => split_once(chars@, c) is None,
        },
{
    let i: usize = position(chars, c);
    if i < chars.len() {
        proof {
            assert(chars@.take(i as int) == chars@.subrange(0, i as int));
            assert(chars@.skip(i + 1) == chars@.subrange(i + 1, chars@.len() as int));
        }
        Some((slice_subrange(chars, 0, i), slice_subrange(chars, i + 1, chars.len())))
    } else {
        None
    }
}

/// Cuts a text at each occurrence of a character.
pub fn pieces(chars: &[char], c: char) -> (r: Vec<Vec<char>>)
    ensures
        views(r@) == split(chars@, c),
{
    let mut out: Vec<Vec<char>> = Vec::new();
    let mut start: usize = 0;
    proof {
        assert(chars@.skip(0) == chars@);
        assert(views(out@) + split(chars@, c) == split(chars@, c));
    }
    loop
        invariant
            start <= chars@.len(),
            split(chars@, c) == views(out@) + split(chars@.skip(start as int), c),
        decreases chars@.len() - start,
    {
        let rest = slice_subrange(chars, start, chars.len());
        proof {
            assert(rest@ == chars@.skip(start as int));
        }
        let i: usize = position(rest, c);
        if i >= rest.len() {
            let ghost before = out@;
            out.push(copy_chars(rest));
            proof {
                assert(views(out@) == views(before) + seq![rest@]);
            }
            return out;
        }
        let ghost before = out@;
        let piece = slice_subrange(rest, 0, i);
        out.push(copy_chars(piece));
        proof {
            assert(piece@ == rest@.take(i as int));
            assert(views(out@) == views(before) + seq![piece@]);
            assert(rest@.skip(i + 1) == chars@.skip(start + i + 1));
            assert(views(before) + (seq![piece@] + split(rest@.skip(i + 1), c)) == (views(before)
                + seq![piece@]) + split(rest@.skip(i + 1), c));
        }
        start = start + i + 1;
    }
}

/// Cuts a text into its lines.
pub fn line_list(chars: &[char]) -> (r: Vec<Vec<char>>)
    ensures
        views(r@) == lines(chars@),
{
    let mut out: Vec<Vec<char>> = Vec::new();
    let mut start: usize = 0;
    proof {
        assert(chars@.skip(0) == chars@);
        assert(views(out@) + lines(chars@) == lines(chars@));
    }
    while start < chars.len()
        invariant
            start <= chars@.len(),
            lines(chars@) == views(out@) + lines(chars@.skip(start as int)),
        decreases chars@.len() - start,
    {
        let rest = slice_subrange(chars, start, chars.len());
        let ghost before = out@;
        proof {
            assert(rest@ == chars@.skip(start as int));
        }
        let i: usize = position(rest, '\n');
        if i >= rest.len() {
            out.push(copy_chars(rest));
            proof {
                assert(views(out@) == views(before) + seq![rest@]);
                assert(lines(chars@.skip(chars@.len() as int)) == Seq::<Seq<char>>::empty());
            }
            start = chars.len();
        } else {
            let end: usize = if i > 0 && rest[i - 1] == '\r' {
                i - 1
            } else {
                i
            };
            let line = slice_subrange(rest, 0, end);
            out.push(copy_chars(line));
            proof {
                assert(line@ == without_carriage_return(rest@.take(i as int)));
                assert(views(out@) == views(before) + seq![line@]);
                assert(rest@.skip(i + 1) == chars@.skip(start + i + 1));
                assert(views(before) + (seq![line@] + lines(rest@.skip(i + 1))) == (views(before)
                    + seq![line@]) + lines(rest@.skip(i + 1)));
            }
            start = start + i + 1;
        }
    }
    proof {
        assert(lines(chars@.skip(chars@.len() as int)) == Seq::<Seq<char>>::empty());
        assert(views(out@) + Seq::<Seq<char>>::empty() == views(out@));
    }
    out
}

/// Whether a text occurs in another.
pub fn holds_text(chars: &[char], part: &[char]) -> (r: bool)
    ensures
        r == occurs_in(part@, chars@),
{
    let mut i: usize = 0;
    while i <= chars.len()
        invariant
            i <= chars@.len() + 1,
            forall|j: int| 0 <= j < i ==> !#[trigger] starts_with(chars@.skip(j), part@),
        decreases chars@.len() + 1 - i,
    {
        let rest = slice_subrange(chars, i, chars.len());
        proof {
            assert(rest@ == chars@.skip(i as int));
        }
        if has_prefix(rest, part) {
            return true;
        }
        if i == chars.len() {
            return false;
        }
        i += 1;
    }
    false
}

/// Replaces each occurrence of `from`.
pub fn replaced(chars: &[char], from: &[char], to: &[char]) -> (r: Vec<char>)
    ensures
        r@ == replace_all(chars@, from@, to@),
{
    if from.len() == 0 {
        return copy_chars(chars);
    }
    let mut out: Vec<char> = Vec::new();
    let mut i: usize = 0;
    proof {
        assert(chars@.skip(0) == chars@);
        assert(out@ + replace_all(chars@, from@, to@) == replace_all(chars@, from@, to@));
    }
    while i < chars.len()
        invariant
            from@.len() > 0,
            i <= chars@.len(),
            replace_all(chars@, from@, to@) == out@ + replace_all(
                chars@.skip(i as int),
                from@,
                to@,
            ),
        decreases chars@.len() - i,
    {
        let rest = slice_subrange(chars, i, chars.len());
        let ghost before = out@;
        proof {
            assert(rest@ == chars@.skip(i as int));
        }
        if has_prefix(rest, from) {
            push_all(&mut out, to);
            proof {
                assert(rest@.skip(from@.len() as int) == chars@.skip(i + from@.len()));
                let tail = replace_all(rest@.skip(from@.len() as int), from@, to@);
                assert(before + (to@ + tail) == (before + to@) + tail);
            }
            i += from.len();
        } else {
            out.push(chars[i]);
            proof {
                assert(rest@.drop_first() == chars@.skip(i + 1));
                let tail = replace_all(rest@.drop_first(), from@, to@);
                assert(before + (seq![rest@[0]] + tail) == before.push(rest@[0]) + tail);
            }
            i += 1;
        }
    }
    proof {
        assert(out@ + replace_all(chars@.skip(i as int), from@, to@) == out@);
    }
    out
}

/// Replaces the first occurrence of `from`.
pub fn replaced_first(chars: &[char], from: &[char], to: &[char]) -> (r: Vec<char>)
    ensures
        r@ == replace_first(chars@, from@, to@),
{
    if from.len() == 0 {
        return copy_chars(chars);
    }
    let mut out: Vec<char> = Vec::new();
    let mut i: usize = 0;
    proof {
        assert(chars@.skip(0) == chars@);
        assert(out@ + replace_first(chars@, from@, to@) == replace_first(chars@, from@, to@));
    }
    while i < chars.len()
        invariant
            from@.len() > 0,
            i <= chars@.len(),
            replace_first(chars@, from@, to@) == out@ + replace_first(
                chars@.skip(i as int),
                from@,
                to@,
            ),
        decreases chars@.len() - i,
    {
        let rest = slice_subrange(chars, i, chars.len());
        let ghost before = out@;
        proof {
            assert(rest@ == chars@.skip(i as int));
        }
        if has_prefix(rest, from) {
            let tail = slice_subrange(rest, from.len(), rest.len());
            push_all(&mut out, to);
            push_all(&mut out, tail);
            proof {
                assert(tail@ == rest@.skip(from@.len() as int));
                assert(before + (to@ + tail@) == (before + to@) + tail@);
            }
            return out;
        }
        out.push(chars[i]);
        proof {
            assert(rest@.drop_first() == chars@.skip(i + 1));
            let tail = replace_first(rest@.drop_first(), from@, to@);
            assert(before + (seq![rest@[0]] + tail) == before.push(rest@[0]) + tail);
        }
        i += 1;
    }
    proof {
        assert(out@ + replace_first(chars@.skip(i as int), from@, to@) == out@);
    }
    out
}

/// A copy of a list of texts.
pub fn copy_names(texts: &Vec<String>) -> (r: Vec<String>)
    ensures
        string_views(r@) == string_views(texts@),
{
    let mut out: Vec<String> = Vec::new();
    let mut i: usize = 0;
    while i < texts.len()
        invariant
            i <= texts@.len(),
            string_views(out@) == string_views(texts@).take(i as int),
        decreases texts@.len() - i,
    {
        let ghost before = out@;
        let copy = texts[i].clone();
        let ghost said = copy@;
        out.push(copy);
        proof {
            assert(string_views(out@) == string_views(before).push(said));
            assert(string_views(texts@).take(i + 1) == string_views(texts@).take(i as int).push(
                said,
            ));
        }
        i += 1;
    }
    proof {
        assert(string_views(texts@).take(i as int) == string_views(texts@));
    }
    out
}

/// Whether a text is one of a list.
pub fn holds_name(texts: &Vec<String>, s: &str) -> (r: bool)
    ensures
        r == string_views(texts@).contains(s@),
{
    let mut i: usize = 0;
    while i < texts.len()
        invariant
            i <= texts@.len(),
            forall|j: int| 0 <= j < i ==> (#[trigger] texts@[j])@ != s@,
        decreases texts@.len() - i,
    {
        if same_text(texts[i].as_str(), s) {
            proof {
                assert(string_views(texts@)[i as int] == s@);
            }
            return true;
        }
        i += 1;
    }
    proof {
        if string_views(texts@).contains(s@) {
            let j = choose|j: int|
                0 <= j < texts@.len() && #[trigger] string_views(texts@)[j] == s@;
            assert(texts@[j]@ == s@);
        }
    }
    false
}

/// The characters that are white space are those of the Unicode standard, by their numbers. A
/// class of one character holds that one alone, and signs and digits are `+`, `-` and `0` to `9`.
pub proof fn classes_hold_their_characters(class: &CharClass, c: char, r: bool)
    requires
        call_ensures(CharClass::holds, (class, c), r),
    ensures
        *class == CharClass::WhiteSpace ==> (r <==> {
            let n = c as int;
            9 <= n <= 13 || n == 32 || n == 133 || n == 160 || n == 5_760 || 8_192 <= n <= 8_202
                || n == 8_232 || n == 8_233 || n == 8_239 || n == 8_287 || n == 12_288
        }),
        *class matches CharClass::Only(only) ==> (r <==> c == only),
        *class == CharClass::SignOrDigit ==> (r <==> c == '+' || c == '-' || 48 <= c as int <= 57),
{
}

/// The first position of a character has that character, and none before it has. It is the length
/// of the text if the character does not occur.
pub(crate) proof fn lemma_first_found(s: Seq<char>, c: char)
    ensures
        0 <= index_of(s, c) <= s.len(),
        index_of(s, c) < s.len() ==> s[index_of(s, c) as int] == c,
        forall|j: int| 0 <= j < index_of(s, c) ==> s[j] != c,
    decreases s.len(),
{
    if s.len() > 0 && s[0] != c {
        let rest = s.drop_first();
        lemma_first_found(rest, c);
        assert forall|j: int| 0 <= j < index_of(s, c) implies s[j] != c by {
            if j > 0 {
                assert(rest[j - 1] == s[j]);
            }
        }
    }
}

/// A text that is cut once is the part before the character, the character, and the part behind
/// it, and the part before it does not hold the character. A text that is not cut does not hold it
/// at all.
pub proof fn cutting_once_finds_the_first<'a>(
    chars: &'a [char],
    c: char,
    r: Option<(&'a [char], &'a [char])>,
)
    requires
        call_ensures(cut_once, (chars, c), r),
    ensures
        match r {
            Some((before, after)) => chars@ == before@ + seq![c] + after@ && !before@.contains(c),
            None => !chars@.contains(c),
        },
{
    let i = index_of(chars@, c) as int;
    lemma_first_found(chars@, c);
    if i < chars@.len() {
        assert(chars@ == chars@.take(i) + seq![c] + chars@.skip(i + 1));
    }
}

/// The pieces of a text without the character are that text alone, and the pieces of two texts
/// with the character between them are those of the one, and behind them those of the other.
pub proof fn pieces_lie_between_the_separators(
    chars: &[char],
    c: char,
    r: Vec<Vec<char>>,
    head: Seq<char>,
    tail: Seq<char>,
)
    requires
        call_ensures(pieces, (chars, c), r),
    ensures
        !chars@.contains(c) ==> r@.len() == 1 && r@[0]@ == chars@,
        chars@ == head + seq![c] + tail ==> views(r@) == split(head, c) + split(tail, c),
        chars@ == head + seq![c] + tail && !head.contains(c) ==> r@[0]@ == head,
        chars@ == head + seq![c] + tail && !tail.contains(c) ==> r@.last()@ == tail,
        r@.len() >= 1,
{
    lemma_split_join(head, tail, c);
    assert(head.push(c) + tail == head + seq![c] + tail);
    assert(views(r@).len() == r@.len());
    if !chars@.contains(c) {
        assert forall|i: int| 0 <= i < chars@.len() implies chars@[i] != c by {
            assert(chars@.contains(chars@[i]));
        }
        lemma_not_found(chars@, c);
        assert(views(r@)[0] == r@[0]@);
    }
    assert(split(chars@, c).len() >= 1);
    if chars@ == head + seq![c] + tail && !head.contains(c) {
        assert forall|i: int| 0 <= i < head.len() implies head[i] != c by {
            assert(head.contains(head[i]));
        }
        lemma_not_found(head, c);
        assert(views(r@)[0] == r@[0]@);
    }
    if chars@ == head + seq![c] + tail && !tail.contains(c) {
        assert forall|i: int| 0 <= i < tail.len() implies tail[i] != c by {
            assert(tail.contains(tail[i]));
        }
        lemma_not_found(tail, c);
        assert(views(r@).last() == tail);
        assert(views(r@)[r@.len() - 1] == r@[r@.len() - 1]@);
    }
}

/// A text starts with another exactly if it is that text with something behind it, or nothing.
pub proof fn a_prefix_stands_at_the_start(
    chars: &[char],
    prefix: &[char],
    r: bool,
    rest: Seq<char>,
)
    requires
        call_ensures(has_prefix, (chars, prefix), r),
    ensures
        chars@ == prefix@ + rest ==> r,
        r ==> chars@ == prefix@ + chars@.skip(prefix@.len() as int),
{
    if chars@ == prefix@ + rest {
        assert(chars@.take(prefix@.len() as int) == prefix@);
    }
    if r {
        let n = prefix@.len() as int;
        assert(chars@ == chars@.take(n) + chars@.skip(n));
    }
}

/// A text occurs in another exactly if that is something, the text, and something behind it.
pub proof fn a_part_stands_somewhere(
    chars: &[char],
    part: &[char],
    r: bool,
    before: Seq<char>,
    after: Seq<char>,
)
    requires
        call_ensures(holds_text, (chars, part), r),
    ensures
        chars@ == before + part@ + after ==> r,
        r ==> exists|i: int|
            0 <= i <= chars@.len() - part@.len() && #[trigger] chars@.subrange(i, i + part@.len())
                == part@,
{
    if chars@ == before + part@ + after {
        let rest = chars@.skip(before.len() as int);
        assert(rest.take(part@.len() as int) == part@);
        assert(starts_with(rest, part@));
    }
    if r {
        let i = choose|i: int| 0 <= i <= chars@.len() && #[trigger] starts_with(
            chars@.skip(i),
            part@,
        );
        assert(chars@.subrange(i, i + part@.len()) == chars@.skip(i).take(part@.len() as int));
    }
}

/// Whether all characters of a text are of a class.
pub open spec fn all_of(s: Seq<char>, class: CharClass) -> bool {
    forall|i: int| 0 <= i < s.len() ==> class.has(#[trigger] s[i])
}

proof fn lemma_leading_dropped(s: Seq<char>, class: CharClass)
    ensures
        ({
            let rest = drop_leading(s, class);
            let n = s.len() - rest.len();
            &&& 0 <= n
            &&& s == s.take(n) + rest
            &&& all_of(s.take(n), class)
            &&& rest.len() > 0 ==> !class.has(rest[0])
        }),
    decreases s.len(),
{
    let rest = drop_leading(s, class);
    let n = s.len() - rest.len();
    if s.len() > 0 && class.has(s[0]) {
        let tail = s.drop_first();
        lemma_leading_dropped(tail, class);
        assert(s == seq![s[0]] + tail);
        assert(s.take(n) == seq![s[0]] + tail.take(n - 1));
        assert forall|i: int| 0 <= i < n implies class.has(#[trigger] s.take(n)[i]) by {
            if i > 0 {
                assert(class.has(tail.take(n - 1)[i - 1]));
            }
        }
        assert(s == s.take(n) + rest);
    } else {
        assert(s.take(0) + s == s);
    }
}

proof fn lemma_trailing_dropped(s: Seq<char>, class: CharClass)
    ensures
        ({
            let rest = drop_trailing(s, class);
            let n = rest.len() as int;
            &&& n <= s.len()
            &&& s == rest + s.skip(n)
            &&& all_of(s.skip(n), class)
            &&& n > 0 ==> !class.has(rest.last())
        }),
    decreases s.len(),
{
    let rest = drop_trailing(s, class);
    let n = rest.len() as int;
    if s.len() > 0 && class.has(s.last()) {
        let front = s.drop_last();
        lemma_trailing_dropped(front, class);
        assert(s.skip(n) == front.skip(n).push(s.last()));
        assert forall|i: int| 0 <= i < s.skip(n).len() implies class.has(#[trigger] s.skip(n)[i]) by {
            if i < front.skip(n).len() {
                assert(class.has(front.skip(n)[i]));
            }
        }
        assert(s == front.push(s.last()));
        assert(front.push(s.last()) == rest + s.skip(n));
    } else {
        assert(s.skip(n) == Seq::<char>::empty());
        assert(s == rest + s.skip(n));
    }
}

/// A text without the characters of a class at its start is what is behind them: only characters
/// of the class stand before it, and it does not start with one.
pub proof fn only_leading_characters_are_dropped<'a>(
    chars: &'a [char],
    class: &CharClass,
    r: &'a [char],
)
    requires
        call_ensures(without_leading, (chars, class), r),
    ensures
        r@.len() <= chars@.len(),
        chars@ == chars@.take(chars@.len() - r@.len()) + r@,
        all_of(chars@.take(chars@.len() - r@.len()), *class),
        r@.len() > 0 ==> !class.has(r@[0]),
{
    lemma_leading_dropped(chars@, *class);
}

/// A text without the characters of a class at its end is what is before them: only characters of
/// the class stand behind it, and it does not end with one.
pub proof fn only_trailing_characters_are_dropped<'a>(
    chars: &'a [char],
    class: &CharClass,
    r: &'a [char],
)
    requires
        call_ensures(without_trailing, (chars, class), r),
    ensures
        r@.len() <= chars@.len(),
        chars@ == r@ + chars@.skip(r@.len() as int),
        all_of(chars@.skip(r@.len() as int), *class),
        r@.len() > 0 ==> !class.has(r@.last()),
{
    lemma_trailing_dropped(chars@, *class);
}

/// A text without the characters of a class around it is what is between them: `before` and
/// `after` are of that class alone, and it neither starts nor ends with a character of it.
pub proof fn only_characters_around_are_dropped<'a>(
    chars: &'a [char],
    class: &CharClass,
    r: &'a [char],
) -> (ends: (Seq<char>, Seq<char>))
    requires
        call_ensures(without_around, (chars, class), r),
    ensures
        chars@ == ends.0 + r@ + ends.1,
        all_of(ends.0, *class),
        all_of(ends.1, *class),
        r@.len() > 0 ==> !class.has(r@[0]) && !class.has(r@.last()),
{
    lemma_around_dropped(chars@, *class)
}

pub(crate) proof fn lemma_around_dropped(s: Seq<char>, class: CharClass) -> (ends: (
    Seq<char>,
    Seq<char>,
))
    ensures
        s == ends.0 + drop_around(s, class) + ends.1,
        all_of(ends.0, class),
        all_of(ends.1, class),
        drop_around(s, class).len() > 0 ==> !class.has(drop_around(s, class)[0]) && !class.has(
            drop_around(s, class).last(),
        ),
{
    let rest = drop_leading(s, class);
    let inner = drop_trailing(rest, class);
    lemma_leading_dropped(s, class);
    lemma_trailing_dropped(rest, class);
    let before = s.take(s.len() - rest.len());
    let after = rest.skip(inner.len() as int);
    assert(s == before + inner + after);
    if inner.len() > 0 {
        assert(rest[0] == inner[0]);
    }
    (before, after)
}

/// A text is blank exactly if each of its characters is white space.
pub proof fn blank_texts_are_white_space(s: &str, r: bool)
    requires
        call_ensures(blank, (s,), r),
    ensures
        r <==> forall|i: int| 0 <= i < s@.len() ==> is_white_space(#[trigger] s@[i]),
{
    lemma_says_something(s@);
}

/// Replacing a part goes from the left: where the text starts with it, it is replaced and the rest
/// is searched on its own; where it does not, the first character stays.
pub proof fn parts_are_replaced_from_the_left(
    from: Seq<char>,
    to: Seq<char>,
    c: char,
    rest: Seq<char>,
)
    requires
        from.len() > 0,
    ensures
        replace_all(from + rest, from, to) == to + replace_all(rest, from, to),
        replace_first(from + rest, from, to) == to + rest,
        rest.len() + 1 < from.len() || (seq![c] + rest).take(from.len() as int) != from ==> {
            &&& replace_all(seq![c] + rest, from, to) == seq![c] + replace_all(rest, from, to)
            &&& replace_first(seq![c] + rest, from, to) == seq![c] + replace_first(rest, from, to)
        },
        replace_all(seq![], from, to) == Seq::<char>::empty(),
        replace_first(seq![], from, to) == Seq::<char>::empty(),
{
    assert((from + rest).take(from.len() as int) == from);
    assert((from + rest).skip(from.len() as int) == rest);
    assert((seq![c] + rest).drop_first() == rest);
}

/// The lines of a text lie between its line feeds, a carriage return before one left off. What
/// stands behind the last line feed is a line of its own unless it is empty.
pub proof fn lines_lie_between_line_feeds(line: Seq<char>, rest: Seq<char>)
    requires
        !line.contains('\n'),
    ensures
        lines(seq![]) == Seq::<Seq<char>>::empty(),
        line.len() > 0 ==> lines(line) == seq![line],
        lines(line + seq!['\r', '\n'] + rest) == seq![line] + lines(rest),
        line.len() == 0 || line.last() != '\r' ==> lines(line + seq!['\n'] + rest) == seq![line]
            + lines(rest),
{
    assert forall|i: int| 0 <= i < line.len() implies line[i] != '\n' by {
        assert(line.contains(line[i]));
    }
    lemma_not_found(line, '\n');
    let long = line.push('\r');
    assert forall|i: int| 0 <= i < long.len() implies long[i] != '\n' by {}
    lemma_not_found(long, '\n');
    lemma_index_before(line, rest, '\n');
    lemma_index_before(long, rest, '\n');
    let (feed, both) = (line.push('\n') + rest, long.push('\n') + rest);
    assert(feed == line + seq!['\n'] + rest);
    assert(both == line + seq!['\r', '\n'] + rest);
    assert(feed.take(line.len() as int) == line);
    assert(feed.skip(line.len() as int + 1) == rest);
    assert(both.take(long.len() as int) == long);
    assert(both.skip(long.len() as int + 1) == rest);
    assert(long.drop_last() == line);
}

/// Whether a text holds something other than white space.
pub open spec fn says_something(s: Seq<char>) -> bool {
    exists|i: int| 0 <= i < s.len() && !is_white_space(#[trigger] s[i])
}

pub(crate) proof fn lemma_says_something(s: Seq<char>)
    ensures
        is_blank(s) == !says_something(s),
{
    let (before, after) = lemma_around_dropped(s, CharClass::WhiteSpace);
    let inner = trim(s);
    if !is_blank(s) {
        assert(s[before.len() as int] == inner[0]);
        assert(!is_white_space(s[before.len() as int]));
    } else {
        assert forall|i: int| 0 <= i < s.len() implies is_white_space(#[trigger] s[i]) by {
            if i < before.len() {
                assert(CharClass::WhiteSpace.has(before[i]));
            } else {
                assert(s[i] == after[i - before.len()]);
                assert(CharClass::WhiteSpace.has(after[i - before.len()]));
            }
        }
    }
}

} // verus!
