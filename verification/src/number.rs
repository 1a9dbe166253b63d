//! Decimal numbers, written and read.
use vstd::prelude::*;
use vstd::slice::slice_subrange;

use crate::text;

verus! {

/// The character of a digit.
pub open spec fn digit(d: nat) -> char {
    ('0' as u32 + d) as char
}

/// A number in decimal notation, without leading zeros.
pub open spec fn decimal(n: nat) -> Seq<char>
    decreases n,
{
    if n < 10 {
        seq![digit(n)]
    } else {
        decimal(n / 10).push(digit(n % 10))
    }
}

/// A number in decimal notation with at least two digits.
pub open spec fn two_digits(n: nat) -> Seq<char> {
    if n < 10 {
        seq!['0', digit(n)]
    } else {
        decimal(n)
    }
}

pub open spec fn all_digits(s: Seq<char>) -> bool {
    forall|i: int| 0 <= i < s.len() ==> text::is_digit(#[trigger] s[i])
}

/// The number that a text of digits spells out.
pub open spec fn digits_value(s: Seq<char>) -> nat
    decreases s.len(),
{
    if s.len() == 0 {
        0
    } else {
        digits_value(s.drop_last()) * 10 + (s.last() as u32 - '0' as u32) as nat
    }
}

/// A text without the plus sign at its start.
pub open spec fn without_plus(s: Seq<char>) -> Seq<char> {
    if s.len() > 0 && s[0] == '+' {
        s.drop_first()
    } else {
        s
    }
}

/// The signed 64-bit number that a text spells out: digits, with a sign before them or none.
pub open spec fn signed_number(s: Seq<char>) -> Option<i64> {
    if s.len() > 0 && s[0] == '-' {
        let digits = s.drop_first();
        if digits.len() > 0 && all_digits(digits) && -digits_value(digits) >= i64::MIN {
            Some((-digits_value(digits)) as i64)
        } else {
            None
        }
    } else {
        let digits = without_plus(s);
        if digits.len() > 0 && all_digits(digits) && digits_value(digits) <= i64::MAX {
            Some(digits_value(digits) as i64)
        } else {
            None
        }
    }
}

/// The count that a text spells out: digits, with a plus sign before them or none.
pub open spec fn count_number(s: Seq<char>) -> Option<usize> {
    let digits = without_plus(s);
    if digits.len() > 0 && all_digits(digits) && digits_value(digits) <= usize::MAX {
        Some(digits_value(digits) as usize)
    } else {
        None
    }
}

/// A number reads back from its decimal notation, which is made of digits alone.
pub proof fn decimal_reads_back(n: nat)
    ensures
        decimal(n).len() > 0,
        all_digits(decimal(n)),
        digits_value(decimal(n)) == n,
        n <= usize::MAX ==> count_number(decimal(n)) == Some(n as usize),
    decreases n,
{
    let all = decimal(n);
    if n < 10 {
        assert(all.drop_last() == Seq::<char>::empty());
        assert(digits_value(all.drop_last()) == 0);
    } else {
        decimal_reads_back(n / 10);
        assert(all.drop_last() == decimal(n / 10));
    }
    assert(all.last() == digit(n % 10));
    assert(all.last() as u32 - '0' as u32 == n % 10);
    assert(digits_value(all) == digits_value(all.drop_last()) * 10 + n % 10);
    assert forall|i: int| 0 <= i < all.len() implies text::is_digit(#[trigger] all[i]) by {
        if i < all.len() - 1 {
            assert(all[i] == decimal(n / 10)[i]);
        }
    }
    assert(text::is_digit(all[0]));
}

fn digit_char(d: u8) -> (r: char)
    requires
        d < 10,
    ensures
        r == digit(d as nat),
{
    (48 + d) as char
}

/// Writes a number in decimal notation behind a text.
pub fn push_decimal(out: &mut String, n: u64)
    ensures
        final(out)@ == old(out)@ + decimal(n as nat),
    decreases n,
{
    if n >= 10 {
        push_decimal(out, n / 10);
    }
    out.push(digit_char((n % 10) as u8));
}

/// Writes a number in decimal notation, with at least two digits, behind a text.
pub fn push_two_digits(out: &mut String, n: u64)
    ensures
        final(out)@ == old(out)@ + two_digits(n as nat),
{
    if n < 10 {
        out.push('0');
        out.push(digit_char(n as u8));
    } else {
        push_decimal(out, n);
    }
}

proof fn lemma_value_grows(s: Seq<char>, n: int)
    requires
        all_digits(s),
        0 <= n <= s.len(),
    ensures
        digits_value(s.take(n)) <= digits_value(s),
    decreases s.len() - n,
{
    if n < s.len() {
        lemma_value_grows(s, n + 1);
        assert(s.take(n + 1).drop_last() == s.take(n));
        assert(text::is_digit(s[n]));
    } else {
        assert(s.take(n) == s);
    }
}

/// The number that digits spell out, `None` if they are no digits or the number is too large.
fn read_digits(digits: &[char], largest: u64) -> (r: Option<u64>)
    ensures
        match r {
            Some(n) => digits@.len() > 0 && all_digits(digits@) && digits_value(digits@) == n && n
                <= largest,
            None => !(digits@.len() > 0 && all_digits(digits@) && digits_value(digits@)
                <= largest),
        },
{
    if digits.len() == 0 {
        return None;
    }
    let mut n: u64 = 0;
    let mut i: usize = 0;
    while i < digits.len()
        invariant
            i <= digits@.len(),
            all_digits(digits@.take(i as int)),
            n == digits_value(digits@.take(i as int)),
            n <= largest,
        decreases digits@.len() - i,
    {
        let c = digits[i];
        proof {
            assert(digits@.take(i + 1).drop_last() == digits@.take(i as int));
            assert(digits@.take(i + 1).last() == c);
        }
        if !('0' <= c && c <= '9') {
            return None;
        }
        let next: u128 = n as u128 * 10 + (c as u32 - 48) as u128;
        if next > largest as u128 {
            proof {
                if all_digits(digits@) {
                    lemma_value_grows(digits@, i + 1);
                }
            }
            return None;
        }
        proof {
            assert forall|j: int| 0 <= j < i + 1 implies text::is_digit(
                #[trigger] digits@.take(i + 1)[j],
            ) by {
                if j < i {
                    assert(digits@.take(i as int)[j] == digits@[j]);
                }
            }
        }
        n = next as u64;
        i += 1;
    }
    proof {
        assert(digits@.take(i as int) == digits@);
    }
    Some(n)
}

fn digits_after_plus<'a>(chars: &'a [char]) -> (r: &'a [char])
    ensures
        r@ == without_plus(chars@),
{
    if chars.len() > 0 && chars[0] == '+' {
        slice_subrange(chars, 1, chars.len())
    } else {
        chars
    }
}

/// Reads a signed 64-bit number.
pub fn read_signed(chars: &[char]) -> (r: Option<i64>)
    ensures
        r == signed_number(chars@),
{
    if chars.len() > 0 && chars[0] == '-' {
        let digits = slice_subrange(chars, 1, chars.len());
        proof {
            assert(digits@ == chars@.drop_first());
        }
        match read_digits(digits, 9_223_372_036_854_775_808) {
            Some(n) => Some((-(n as i128)) as i64),
            None => None,
        }
    } else {
        match read_digits(digits_after_plus(chars), 9_223_372_036_854_775_807) {
            Some(n) => Some(n as i64),
            None => None,
        }
    }
}

/// Reads a count.
pub fn read_count(chars: &[char]) -> (r: Option<usize>)
    ensures
        r == count_number(chars@),
{
    match read_digits(digits_after_plus(chars), usize::MAX as u64) {
        Some(n) => Some(n as usize),
        None => None,
    }
}

/// The decimal notation of a number of one digit is that digit, and a digit put behind the
/// notation of a number makes it ten times as large and adds the digit.
pub proof fn decimal_notation_grows_by_a_digit(n: nat, d: nat)
    requires
        d <= 9,
    ensures
        decimal(d) == seq![(48 + d) as char],
        n > 0 ==> decimal(10 * n + d) == decimal(n).push((48 + d) as char),
        two_digits(d) == seq!['0', (48 + d) as char],
        n > 0 ==> two_digits(10 * n + d) == decimal(10 * n + d),
{
    if n > 0 {
        assert((10 * n + d) / 10 == n);
        assert((10 * n + d) % 10 == d);
    }
}

proof fn lemma_one_more_digit(s: Seq<char>, c: char)
    ensures
        all_digits(s.push(c)) <==> all_digits(s) && '0' <= c <= '9',
        digits_value(s.push(c)) == digits_value(s) * 10 + (c as u32 - '0' as u32) as nat,
{
    let all = s.push(c);
    assert(all.drop_last() == s);
    if all_digits(all) {
        assert(text::is_digit(all[s.len() as int]));
        assert forall|i: int| 0 <= i < s.len() implies text::is_digit(#[trigger] s[i]) by {
            assert(text::is_digit(all[i]));
        }
    }
}

/// A digit put behind a text that reads as a count makes the count ten times as large and adds
/// the digit, up to the largest count; anything else put there makes it no count. A digit alone, or
/// behind a plus sign, reads as itself, and the empty text as no count. What is no count and no
/// plus sign does not start one either.
pub proof fn counts_are_read_digit_by_digit(
    chars: &[char],
    c: char,
    longer: &[char],
    r: Option<usize>,
    s: Option<usize>,
)
    requires
        call_ensures(read_count, (chars,), r),
        call_ensures(read_count, (longer,), s),
        longer@ == chars@.push(c),
    ensures
        chars@.len() == 0 ==> r is None,
        chars@.len() == 0 && '0' <= c <= '9' ==> s == Some((c as int - 48) as usize),
        r matches Some(n) ==> s == (if '0' <= c <= '9' && 10 * n + (c as int - 48) <= usize::MAX {
            Some((10 * n + (c as int - 48)) as usize)
        } else {
            None
        }),
        !('0' <= c <= '9') ==> s is None,
        chars@ == seq!['+'] && '0' <= c <= '9' ==> s == Some((c as int - 48) as usize),
        chars@.len() > 0 && chars@ != seq!['+'] && r is None ==> s is None,
{
    let digits = without_plus(chars@);
    lemma_one_more_digit(digits, c);
    if chars@.len() == 1 && chars@[0] == '+' {
        assert(chars@ == seq!['+']);
        assert(digits == Seq::<char>::empty());
        assert(digits_value(digits) == 0);
    }
    if chars@.len() > 0 && chars@[0] == '+' {
        assert(longer@[0] == '+');
        assert(longer@.drop_first() == chars@.drop_first().push(c));
    }
    assert(chars@.len() > 0 ==> longer@[0] == chars@[0]);
    if chars@.len() == 0 {
        assert(chars@ == Seq::<char>::empty());
        assert(digits_value(digits) == 0);
        assert(longer@[0] == c);
        if c == '+' {
            assert(longer@.drop_first() == Seq::<char>::empty());
        }
    }
}

/// A digit put behind a text that reads as a signed number makes the number ten times as large
/// and adds the digit, away from zero; anything else put there makes it no number. A digit alone,
/// or behind a sign, reads as itself with that sign. What is no number and no sign does not start
/// one either.
pub proof fn signed_numbers_are_read_digit_by_digit(
    chars: &[char],
    c: char,
    longer: &[char],
    r: Option<i64>,
    s: Option<i64>,
)
    requires
        call_ensures(read_signed, (chars,), r),
        call_ensures(read_signed, (longer,), s),
        longer@ == chars@.push(c),
    ensures
        chars@.len() == 0 ==> r is None,
        chars@.len() == 0 && '0' <= c <= '9' ==> s == Some((c as int - 48) as i64),
        (r matches Some(n) && chars@[0] != '-') ==> s == (if '0' <= c <= '9' && 10 * r.unwrap() + (
        c as int - 48) <= i64::MAX {
            Some((10 * r.unwrap() + (c as int - 48)) as i64)
        } else {
            None
        }),
        (r matches Some(n) && chars@[0] == '-') ==> s == (if '0' <= c <= '9' && 10 * r.unwrap() - (
        c as int - 48) >= i64::MIN {
            Some((10 * r.unwrap() - (c as int - 48)) as i64)
        } else {
            None
        }),
        !('0' <= c <= '9') ==> s is None,
        chars@ == seq!['+'] && '0' <= c <= '9' ==> s == Some((c as int - 48) as i64),
        chars@ == seq!['-'] && '0' <= c <= '9' ==> s == Some((48 - c as int) as i64),
        chars@.len() > 0 && chars@ != seq!['+'] && chars@ != seq!['-'] && r is None ==> s is None,
{
    let digits = if chars@.len() > 0 && chars@[0] == '-' {
        chars@.drop_first()
    } else {
        without_plus(chars@)
    };
    lemma_one_more_digit(digits, c);
    if chars@.len() == 1 && (chars@[0] == '+' || chars@[0] == '-') {
        assert(chars@ == seq![chars@[0]]);
        assert(digits == Seq::<char>::empty());
        assert(digits_value(digits) == 0);
    }
    assert(chars@.len() > 0 ==> longer@[0] == chars@[0]);
    assert(chars@.len() > 0 ==> longer@.drop_first() == chars@.drop_first().push(c));
    if chars@.len() == 0 {
        assert(chars@ == Seq::<char>::empty());
        assert(digits_value(digits) == 0);
        assert(longer@[0] == c);
        assert(longer@.drop_first() == Seq::<char>::empty());
    }
}

} // verus!
