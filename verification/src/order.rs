//! Ordered lists without repetition: of names in the order of their characters, and of points in
//! time.
use vstd::prelude::*;

use crate::text;
use crate::time::UtcTime;

verus! {

/// Whether one list of numbers stands before another, the first difference deciding.
pub open spec fn lex_before(a: Seq<int>, b: Seq<int>) -> bool
    decreases a.len(),
{
    if b.len() == 0 {
        false
    } else if a.len() == 0 {
        true
    } else {
        a[0] < b[0] || (a[0] == b[0] && lex_before(a.drop_first(), b.drop_first()))
    }
}

/// The numbers of the characters of a name.
pub open spec fn codes(name: Seq<char>) -> Seq<int> {
    Seq::new(name.len(), |i: int| name[i] as int)
}

/// The numbers of bytes.
pub open spec fn byte_codes(bytes: Seq<u8>) -> Seq<int> {
    Seq::new(bytes.len(), |i: int| bytes[i] as int)
}

pub open spec fn name_before(a: Seq<char>, b: Seq<char>) -> bool {
    lex_before(codes(a), codes(b))
}

/// An ordered list of names with one more name in its place; unchanged if it holds the name.
pub open spec fn insert_name(names: Seq<Seq<char>>, name: Seq<char>) -> Seq<Seq<char>>
    decreases names.len(),
{
    if names.len() == 0 || name_before(names.last(), name) {
        names.push(name)
    } else if names.last() == name {
        names
    } else {
        insert_name(names.drop_last(), name).push(names.last())
    }
}

/// The names of a list, each once, in the order of their characters.
pub open spec fn name_set(names: Seq<Seq<char>>) -> Seq<Seq<char>>
    decreases names.len(),
{
    if names.len() == 0 {
        seq![]
    } else {
        insert_name(name_set(names.drop_last()), names.last())
    }
}

/// An ordered list of points in time with one more in its place; unchanged if it holds it.
pub open spec fn insert_time(times: Seq<UtcTime>, t: UtcTime) -> Seq<UtcTime>
    decreases times.len(),
{
    if times.len() == 0 || times.last().precedes(t) {
        times.push(t)
    } else if times.last() == t {
        times
    } else {
        insert_time(times.drop_last(), t).push(times.last())
    }
}

/// The points in time of a list, each once, in their order.
pub open spec fn time_set(times: Seq<UtcTime>) -> Seq<UtcTime>
    decreases times.len(),
{
    if times.len() == 0 {
        seq![]
    } else {
        insert_time(time_set(times.drop_last()), times.last())
    }
}

/// Whether a list of names is in strictly increasing order.
pub open spec fn names_increase(names: Seq<Seq<char>>) -> bool {
    forall|i: int, j: int|
        0 <= i < j < names.len() ==> name_before(#[trigger] names[i], #[trigger] names[j])
}

/// Whether a list of points in time is in strictly increasing order.
pub open spec fn times_increase(times: Seq<UtcTime>) -> bool {
    forall|i: int, j: int|
        0 <= i < j < times.len() ==> (#[trigger] times[i]).precedes(#[trigger] times[j])
}

/// Of two different lists of numbers one stands before the other.
pub proof fn lemma_lex_total(a: Seq<int>, b: Seq<int>)
    ensures
        a == b || lex_before(a, b) || lex_before(b, a),
    decreases a.len(),
{
    if a.len() == 0 || b.len() == 0 {
        if a.len() == 0 && b.len() == 0 {
            assert(a == b);
        }
    } else {
        lemma_lex_total(a.drop_first(), b.drop_first());
        if a[0] == b[0] && a.drop_first() == b.drop_first() {
            assert(a == seq![a[0]] + a.drop_first());
            assert(b == seq![b[0]] + b.drop_first());
        }
    }
}

/// No list of numbers stands both before and after another.
pub proof fn lemma_lex_asymmetric(a: Seq<int>, b: Seq<int>)
    requires
        lex_before(a, b),
    ensures
        !lex_before(b, a),
    decreases a.len(),
{
    if a.len() > 0 && a[0] == b[0] {
        lemma_lex_asymmetric(a.drop_first(), b.drop_first());
    }
}

/// What stands before a list of numbers stands before those behind it.
pub proof fn lemma_lex_transitive(a: Seq<int>, b: Seq<int>, c: Seq<int>)
    requires
        lex_before(a, b),
        lex_before(b, c),
    ensures
        lex_before(a, c),
    decreases a.len(),
{
    if a.len() > 0 && a[0] == b[0] && b[0] == c[0] {
        lemma_lex_transitive(a.drop_first(), b.drop_first(), c.drop_first());
    }
}

/// Names with the same numbers are the same.
pub proof fn lemma_codes_differ(a: Seq<char>, b: Seq<char>)
    requires
        codes(a) == codes(b),
    ensures
        a == b,
{
    assert(codes(a).len() == a.len() && codes(b).len() == b.len());
    assert forall|i: int| 0 <= i < a.len() implies a[i] == b[i] by {
        assert(codes(a)[i] == a[i] as int);
        assert(codes(b)[i] == b[i] as int);
    }
    assert(a =~= b);
}

/// Putting a name in its place keeps the order and adds that name alone.
proof fn lemma_insert_name(names: Seq<Seq<char>>, name: Seq<char>)
    requires
        names_increase(names),
    ensures
        names_increase(insert_name(names, name)),
        forall|n: Seq<char>| #[trigger]
            insert_name(names, name).contains(n) <==> n == name || names.contains(n),
    decreases names.len(),
{
    let result = insert_name(names, name);
    if names.len() == 0 || name_before(names.last(), name) {
        assert forall|i: int, j: int| 0 <= i < j < result.len() implies name_before(
            #[trigger] result[i],
            #[trigger] result[j],
        ) by {
            if j == names.len() && i < names.len() - 1 {
                lemma_lex_transitive(codes(names[i]), codes(names.last()), codes(name));
            }
        }
        assert forall|n: Seq<char>| #[trigger] result.contains(n) <==> n == name || names.contains(
            n,
        ) by {
            assert(result[names.len() as int] == name);
            if names.contains(n) {
                let k = choose|k: int| 0 <= k < names.len() && names[k] == n;
                assert(result[k] == n);
            }
        }
    } else if names.last() == name {
        assert(names.contains(name));
    } else {
        let shorter = names.drop_last();
        assert forall|i: int, j: int| 0 <= i < j < shorter.len() implies name_before(
            #[trigger] shorter[i],
            #[trigger] shorter[j],
        ) by {
            assert(shorter[i] == names[i] && shorter[j] == names[j]);
        }
        lemma_insert_name(shorter, name);
        let front = insert_name(shorter, name);
        lemma_lex_total(codes(names.last()), codes(name));
        if codes(names.last()) == codes(name) {
            lemma_codes_differ(names.last(), name);
        }
        assert forall|i: int, j: int| 0 <= i < j < result.len() implies name_before(
            #[trigger] result[i],
            #[trigger] result[j],
        ) by {
            if j == front.len() {
                assert(front.contains(front[i]));
                if front[i] != name {
                    let k = choose|k: int| 0 <= k < shorter.len() && shorter[k] == front[i];
                    assert(names[k] == front[i]);
                }
            }
        }
        assert forall|n: Seq<char>| #[trigger] result.contains(n) <==> n == name || names.contains(
            n,
        ) by {
            if result.contains(n) {
                let k = choose|k: int| 0 <= k < result.len() && result[k] == n;
                if k < front.len() {
                    assert(front.contains(n));
                    if n != name {
                        let m = choose|m: int| 0 <= m < shorter.len() && shorter[m] == n;
                        assert(names[m] == n);
                    }
                } else {
                    assert(names.contains(names.last()));
                }
            }
            if n == name || names.contains(n) {
                if n != name {
                    let m = choose|m: int| 0 <= m < names.len() && names[m] == n;
                    if m < shorter.len() {
                        assert(shorter[m] == n);
                        assert(shorter.contains(n));
                        assert(front.contains(n));
                    }
                } else {
                    assert(front.contains(n));
                }
                if front.contains(n) {
                    let k = choose|k: int| 0 <= k < front.len() && front[k] == n;
                    assert(result[k] == n);
                } else {
                    assert(result[front.len() as int] == n);
                }
            }
        }
    }
}

/// A name set holds the names of its list and no others, in strictly increasing order.
pub proof fn name_set_is_ordered_set(names: Seq<Seq<char>>)
    ensures
        names_increase(name_set(names)),
        forall|n: Seq<char>| #[trigger] name_set(names).contains(n) <==> names.contains(n),
    decreases names.len(),
{
    if names.len() > 0 {
        let shorter = names.drop_last();
        name_set_is_ordered_set(shorter);
        lemma_insert_name(name_set(shorter), names.last());
        assert forall|n: Seq<char>| #[trigger] name_set(names).contains(n) <==> names.contains(
            n,
        ) by {
            if shorter.contains(n) {
                let k = choose|k: int| 0 <= k < shorter.len() && shorter[k] == n;
                assert(names[k] == n);
            }
            if names.contains(n) && n != names.last() {
                let k = choose|k: int| 0 <= k < names.len() && names[k] == n;
                assert(shorter[k] == n);
            }
            assert(names.contains(names.last()));
        }
    }
}

/// Putting a point in time in its place keeps the order and adds that point alone.
proof fn lemma_insert_time(times: Seq<UtcTime>, t: UtcTime)
    requires
        times_increase(times),
    ensures
        times_increase(insert_time(times, t)),
        forall|x: UtcTime| #[trigger]
            insert_time(times, t).contains(x) <==> x == t || times.contains(x),
    decreases times.len(),
{
    let result = insert_time(times, t);
    if times.len() == 0 || times.last().precedes(t) {
        assert forall|x: UtcTime| #[trigger] result.contains(x) <==> x == t || times.contains(x) by {
            assert(result[times.len() as int] == t);
            if times.contains(x) {
                let k = choose|k: int| 0 <= k < times.len() && times[k] == x;
                assert(result[k] == x);
            }
        }
    } else if times.last() == t {
        assert(times.contains(t));
    } else {
        let shorter = times.drop_last();
        lemma_insert_time(shorter, t);
        let front = insert_time(shorter, t);
        assert forall|i: int, j: int| 0 <= i < j < result.len() implies (
        #[trigger] result[i]).precedes(#[trigger] result[j]) by {
            if j == front.len() {
                assert(front.contains(front[i]));
                if front[i] != t {
                    let k = choose|k: int| 0 <= k < shorter.len() && shorter[k] == front[i];
                    assert(times[k] == front[i]);
                }
            }
        }
        assert forall|x: UtcTime| #[trigger] result.contains(x) <==> x == t || times.contains(x) by {
            if result.contains(x) {
                let k = choose|k: int| 0 <= k < result.len() && result[k] == x;
                if k < front.len() {
                    assert(front.contains(x));
                    if x != t {
                        let m = choose|m: int| 0 <= m < shorter.len() && shorter[m] == x;
                        assert(times[m] == x);
                    }
                } else {
                    assert(times.contains(times.last()));
                }
            }
            if x == t || times.contains(x) {
                if x != t {
                    let m = choose|m: int| 0 <= m < times.len() && times[m] == x;
                    if m < shorter.len() {
                        assert(shorter[m] == x);
                        assert(shorter.contains(x));
                        assert(front.contains(x));
                    }
                } else {
                    assert(front.contains(x));
                }
                if front.contains(x) {
                    let k = choose|k: int| 0 <= k < front.len() && front[k] == x;
                    assert(result[k] == x);
                } else {
                    assert(result[front.len() as int] == x);
                }
            }
        }
    }
}

/// A time set holds the points in time of its list and no others, in strictly increasing order.
pub proof fn time_set_is_ordered_set(times: Seq<UtcTime>)
    ensures
        times_increase(time_set(times)),
        forall|x: UtcTime| #[trigger] time_set(times).contains(x) <==> times.contains(x),
    decreases times.len(),
{
    if times.len() > 0 {
        let shorter = times.drop_last();
        time_set_is_ordered_set(shorter);
        lemma_insert_time(time_set(shorter), times.last());
        assert forall|x: UtcTime| #[trigger] time_set(times).contains(x) <==> times.contains(x) by {
            if shorter.contains(x) {
                let k = choose|k: int| 0 <= k < shorter.len() && shorter[k] == x;
                assert(times[k] == x);
            }
            if times.contains(x) && x != times.last() {
                let k = choose|k: int| 0 <= k < times.len() && times[k] == x;
                assert(shorter[k] == x);
            }
            assert(times.contains(times.last()));
        }
    }
}

/// Whether one text of characters stands before another.
pub fn chars_before(a: &[char], b: &[char]) -> (r: bool)
    ensures
        r == name_before(a@, b@),
{
    let mut i: usize = 0;
    proof {
        assert(codes(a@).skip(0) == codes(a@));
        assert(codes(b@).skip(0) == codes(b@));
    }
    loop
        invariant
            i <= a@.len(),
            i <= b@.len(),
            name_before(a@, b@) == lex_before(codes(a@).skip(i as int), codes(b@).skip(i as int)),
        decreases a@.len() - i,
    {
        if i >= b.len() {
            return false;
        }
        if i >= a.len() {
            return true;
        }
        let ghost rest_a = codes(a@).skip(i as int);
        let ghost rest_b = codes(b@).skip(i as int);
        proof {
            assert(rest_a[0] == a@[i as int] as int);
            assert(rest_b[0] == b@[i as int] as int);
            assert(rest_a.drop_first() == codes(a@).skip(i + 1));
            assert(rest_b.drop_first() == codes(b@).skip(i + 1));
        }
        if a[i] < b[i] {
            return true;
        }
        if b[i] < a[i] {
            return false;
        }
        i += 1;
    }
}

/// Whether one list of bytes stands before another.
pub fn bytes_before(a: &[u8], b: &[u8]) -> (r: bool)
    ensures
        r == lex_before(byte_codes(a@), byte_codes(b@)),
{
    let mut i: usize = 0;
    proof {
        assert(byte_codes(a@).skip(0) == byte_codes(a@));
        assert(byte_codes(b@).skip(0) == byte_codes(b@));
    }
    loop
        invariant
            i <= a@.len(),
            i <= b@.len(),
            lex_before(byte_codes(a@), byte_codes(b@)) == lex_before(
                byte_codes(a@).skip(i as int),
                byte_codes(b@).skip(i as int),
            ),
        decreases a@.len() - i,
    {
        if i >= b.len() {
            return false;
        }
        if i >= a.len() {
            return true;
        }
        let ghost rest_a = byte_codes(a@).skip(i as int);
        let ghost rest_b = byte_codes(b@).skip(i as int);
        proof {
            assert(rest_a[0] == a@[i as int] as int);
            assert(rest_b[0] == b@[i as int] as int);
            assert(rest_a.drop_first() == byte_codes(a@).skip(i + 1));
            assert(rest_b.drop_first() == byte_codes(b@).skip(i + 1));
        }
        if a[i] < b[i] {
            return true;
        }
        if b[i] < a[i] {
            return false;
        }
        i += 1;
    }
}

/// Puts a name in its place in an ordered list of names, unless the list holds it.
pub fn add_name(names: &mut Vec<String>, name: String)
    ensures
        text::string_views(final(names)@) == insert_name(text::string_views(old(names)@), name@),
{
    let ghost all = text::string_views(names@);
    let ghost said = name@;
    let chars = text::to_chars(name.as_str());
    let mut n: usize = names.len();
    proof {
        assert(all.take(n as int) == all);
        assert(insert_name(all, said) == insert_name(all, said) + all.skip(n as int));
    }
    while n > 0
        invariant
            chars@ == said,
            said == name@,
            all == text::string_views(names@),
            text::string_views(old(names)@) == all,
            n <= all.len(),
            insert_name(all, said) == insert_name(all.take(n as int), said) + all.skip(n as int),
        ensures
            n == 0 || name_before(all.take(n as int).last(), said),
        decreases n,
    {
        let last = text::to_chars(names[n - 1].as_str());
        proof {
            assert(all.take(n as int).last() == last@);
            assert(all.take(n as int).drop_last() == all.take(n - 1));
        }
        if chars_before(last.as_slice(), chars.as_slice()) {
            break ;
        }
        if text::same_chars(last.as_slice(), chars.as_slice()) {
            proof {
                assert(all.take(n as int) + all.skip(n as int) == all);
            }
            return ;
        }
        proof {
            let front = insert_name(all.take(n - 1), said);
            assert(front.push(all[n - 1]) + all.skip(n as int) == front + all.skip(n - 1));
        }
        n -= 1;
    }
    names.insert(n, name);
    proof {
        assert(text::string_views(names@) == all.take(n as int).push(said) + all.skip(n as int));
    }
}

/// Puts a point in time in its place in an ordered list, unless the list holds it.
pub fn add_time(times: &mut Vec<UtcTime>, t: UtcTime)
    ensures
        final(times)@ == insert_time(old(times)@, t),
{
    let ghost all = times@;
    let mut n: usize = times.len();
    proof {
        assert(all.take(n as int) == all);
        assert(insert_time(all, t) == insert_time(all, t) + all.skip(n as int));
    }
    while n > 0
        invariant
            all == times@,
            old(times)@ == all,
            n <= all.len(),
            insert_time(all, t) == insert_time(all.take(n as int), t) + all.skip(n as int),
        ensures
            n == 0 || all.take(n as int).last().precedes(t),
        decreases n,
    {
        proof {
            assert(all.take(n as int).last() == all[n - 1]);
            assert(all.take(n as int).drop_last() == all.take(n - 1));
        }
        if times[n - 1].before(&t) {
            break ;
        }
        if times[n - 1] == t {
            proof {
                assert(all.take(n as int) + all.skip(n as int) == all);
            }
            return ;
        }
        proof {
            let front = insert_time(all.take(n - 1), t);
            assert(front.push(all[n - 1]) + all.skip(n as int) == front + all.skip(n - 1));
        }
        n -= 1;
    }
    times.insert(n, t);
    proof {
        assert(times@ == all.take(n as int).push(t) + all.skip(n as int));
    }
}

proof fn lemma_same_start(a: Seq<int>, b: Seq<int>, n: int)
    requires
        0 <= n <= a.len(),
        n <= b.len(),
        forall|i: int| 0 <= i < n ==> a[i] == b[i],
    ensures
        lex_before(a, b) == lex_before(a.skip(n), b.skip(n)),
    decreases n,
{
    if n > 0 {
        assert forall|i: int| 0 <= i < n - 1 implies a.drop_first()[i] == b.drop_first()[i] by {
            assert(a[i + 1] == b[i + 1]);
        }
        lemma_same_start(a.drop_first(), b.drop_first(), n - 1);
        assert(a.drop_first().skip(n - 1) == a.skip(n));
        assert(b.drop_first().skip(n - 1) == b.skip(n));
    } else {
        assert(a.skip(0) == a);
        assert(b.skip(0) == b);
    }
}

/// Of two texts that are the same up to a position, the one with the smaller character there
/// comes first. A text comes before those that go on where it ends, and not before itself.
pub proof fn first_different_character_decides(a: &[char], b: &[char], r: bool, n: int)
    requires
        call_ensures(chars_before, (a, b), r),
        0 <= n <= a@.len(),
        n <= b@.len(),
        forall|i: int| 0 <= i < n ==> a@[i] == b@[i],
    ensures
        n < a@.len() && n < b@.len() && (a@[n] as int) < (b@[n] as int) ==> r,
        n < a@.len() && n < b@.len() && (b@[n] as int) < (a@[n] as int) ==> !r,
        n == a@.len() && n < b@.len() ==> r,
        n == b@.len() ==> !r,
{
    lemma_same_start(codes(a@), codes(b@), n);
}

/// Of two names in bytes that are the same up to a position, the one with the smaller byte there
/// comes first. A name comes before those that go on where it ends, and not before itself.
pub proof fn first_different_byte_decides(a: &[u8], b: &[u8], r: bool, n: int)
    requires
        call_ensures(bytes_before, (a, b), r),
        0 <= n <= a@.len(),
        n <= b@.len(),
        forall|i: int| 0 <= i < n ==> a@[i] == b@[i],
    ensures
        n < a@.len() && n < b@.len() && a@[n] < b@[n] ==> r,
        n < a@.len() && n < b@.len() && b@[n] < a@[n] ==> !r,
        n == a@.len() && n < b@.len() ==> r,
        n == b@.len() ==> !r,
{
    lemma_same_start(byte_codes(a@), byte_codes(b@), n);
}

} // verus!
