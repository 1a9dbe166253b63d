//! Calendars that are written out in their own address, as a data URI.
use vstd::prelude::*;

use crate::text;

verus! {

/// The value of a hexadecimal digit.
pub open spec fn hex_digit(byte: u8) -> Option<u8> {
    if '0' as u8 <= byte <= '9' as u8 {
        Some((byte - '0' as u8) as u8)
    } else if 'a' as u8 <= byte <= 'f' as u8 {
        Some((byte - 'a' as u8 + 10) as u8)
    } else if 'A' as u8 <= byte <= 'F' as u8 {
        Some((byte - 'A' as u8 + 10) as u8)
    } else {
        None
    }
}

/// Bytes with their percent escapes undone; `None` if a percent sign is not followed by two
/// hexadecimal digits.
pub open spec fn percent_decoded(bytes: Seq<u8>) -> Option<Seq<u8>>
    decreases bytes.len(),
{
    if bytes.len() == 0 {
        Some(seq![])
    } else if bytes[0] != '%' as u8 {
        match percent_decoded(bytes.drop_first()) {
            Some(rest) => Some(seq![bytes[0]] + rest),
            None => None,
        }
    } else if bytes.len() < 3 {
        None
    } else {
        match (hex_digit(bytes[1]), hex_digit(bytes[2]), percent_decoded(bytes.skip(3))) {
            (Some(high), Some(low), Some(rest)) => Some(seq![(16 * high + low) as u8] + rest),
            _ => None,
        }
    }
}

/// A text with its capital letters of ASCII made small.
pub open spec fn small(s: Seq<char>) -> Seq<char> {
    Seq::new(s.len(), |i: int| text::ascii_lower(s[i]))
}

/// The text that the payload of a data URI holds, or what is wrong with it.
pub open spec fn payload_text(payload: Seq<char>) -> Result<Seq<char>, Seq<char>> {
    match percent_decoded(vstd::utf8::encode_utf8(payload)) {
        None => Err("Invalid percent escape in calendar data URI"@),
        Some(bytes) => if vstd::utf8::valid_utf8(bytes) {
            Ok(vstd::utf8::decode_utf8(bytes))
        } else {
            Err("Calendar data is not valid UTF-8: "@ + utf8_complaint(bytes))
        },
    }
}

/// Whether metadata of a data URI say that its payload is a text with percent escapes.
pub open spec fn is_plain_metadata(metadata: Seq<char>) -> bool {
    !metadata.contains(',') && !text::occurs_in(";base64"@, small(metadata))
}

/// The text of a calendar that is written out in a data URI, or what is wrong with the URI.
pub open spec fn decoded(source: Seq<char>) -> Result<Seq<char>, Seq<char>> {
    match text::split_once(source, ',') {
        None => Err("Invalid calendar data URI"@),
        Some((metadata, payload)) => if text::occurs_in(";base64"@, small(metadata)) {
            Err("Base64 calendar data URIs are not supported yet"@)
        } else {
            payload_text(payload)
        },
    }
}

/// What the error of `String::from_utf8` displays.
pub uninterp spec fn utf8_complaint(bytes: Seq<u8>) -> Seq<char>;

/// `String::from_utf8`: the text that bytes encode in UTF-8. If they encode none, what its error
/// displays; the wording of that is left to `std`.
#[verifier::external_body]
fn utf8_text(bytes: Vec<u8>) -> (r: Result<String, String>)
    ensures
        match r {
            Ok(s) => vstd::utf8::valid_utf8(bytes@) && s@ == vstd::utf8::decode_utf8(bytes@),
            Err(message) => !vstd::utf8::valid_utf8(bytes@) && message@ == utf8_complaint(bytes@),
        },
{
    match String::from_utf8(bytes) {
        Ok(s) => Ok(s),
        Err(error) => Err(format!("{}", error)),
    }
}

proof fn lemma_plain_bytes(bytes: Seq<u8>)
    requires
        !bytes.contains('%' as u8),
    ensures
        percent_decoded(bytes) == Some(bytes),
    decreases bytes.len(),
{
    if bytes.len() > 0 {
        assert(bytes.contains(bytes[0]));
        let rest = bytes.drop_first();
        assert forall|b: u8| rest.contains(b) implies bytes.contains(b) by {
            let k = choose|k: int| 0 <= k < rest.len() && rest[k] == b;
            assert(bytes[k + 1] == b);
        }
        lemma_plain_bytes(rest);
        assert(seq![bytes[0]] + rest == bytes);
    } else {
        assert(bytes == Seq::<u8>::empty());
    }
}

/// A payload without percent signs is the calendar as it stands.
pub proof fn plain_payload_is_the_calendar(metadata: Seq<char>, payload: Seq<char>)
    requires
        is_plain_metadata(metadata),
        !vstd::utf8::encode_utf8(payload).contains('%' as u8),
    ensures
        decoded(metadata.push(',') + payload) == Ok::<Seq<char>, Seq<char>>(payload),
{
    lemma_payload(metadata, payload);
    lemma_plain_bytes(vstd::utf8::encode_utf8(payload));
    vstd::utf8::encode_utf8_valid_utf8(payload);
    vstd::utf8::encode_utf8_decode_utf8(payload);
}

proof fn lemma_payload(metadata: Seq<char>, payload: Seq<char>)
    requires
        is_plain_metadata(metadata),
    ensures
        decoded(metadata.push(',') + payload) == payload_text(payload),
{
    let source = metadata.push(',') + payload;
    lemma_first_comma(metadata, payload);
    assert(source.take(metadata.len() as int) == metadata);
    assert(source.skip(metadata.len() as int + 1) == payload);
}

proof fn lemma_first_comma(metadata: Seq<char>, payload: Seq<char>)
    requires
        !metadata.contains(','),
    ensures
        text::index_of(metadata.push(',') + payload, ',') == metadata.len(),
    decreases metadata.len(),
{
    let source = metadata.push(',') + payload;
    if metadata.len() > 0 {
        let rest = metadata.drop_first();
        assert(metadata.contains(metadata[0]));
        assert(source[0] == metadata[0]);
        assert forall|c: char| rest.contains(c) implies metadata.contains(c) by {
            let k = choose|k: int| 0 <= k < rest.len() && rest[k] == c;
            assert(metadata[k + 1] == c);
        }
        lemma_first_comma(rest, payload);
        assert(source.drop_first() == rest.push(',') + payload);
    }
}

/// Whether at a position bytes hold the percent escape of a byte.
pub open spec fn is_escape(encoded: Seq<u8>, at: int, byte: u8) -> bool {
    &&& encoded[at] == '%' as u8
    &&& hex_digit(encoded[at + 1]) == Some((byte / 16) as u8)
    &&& hex_digit(encoded[at + 2]) == Some((byte % 16) as u8)
}

/// Whether bytes are others with each of them written as a percent escape, its digits in capitals
/// or in small print.
pub open spec fn is_percent_form(encoded: Seq<u8>, bytes: Seq<u8>) -> bool {
    &&& encoded.len() == 3 * bytes.len()
    &&& forall|i: int| 0 <= i < bytes.len() ==> is_escape(encoded, 3 * i, #[trigger] bytes[i])
}

/// Whatever bytes are written as percent escapes are read back.
pub proof fn percent_escapes_read_back(encoded: Seq<u8>, bytes: Seq<u8>)
    requires
        is_percent_form(encoded, bytes),
    ensures
        percent_decoded(encoded) == Some(bytes),
    decreases bytes.len(),
{
    if bytes.len() > 0 {
        let b = bytes[0];
        let rest = bytes.drop_first();
        let tail = encoded.skip(3);
        assert(is_escape(encoded, 0, b));
        assert forall|i: int| 0 <= i < rest.len() implies is_escape(
            tail,
            3 * i,
            #[trigger] rest[i],
        ) by {
            assert(rest[i] == bytes[i + 1]);
            assert(is_escape(encoded, 3 * (i + 1), bytes[i + 1]));
        }
        percent_escapes_read_back(tail, rest);
        assert(16 * (b / 16) + b % 16 == b);
        assert(seq![b] + rest == bytes);
    } else {
        assert(bytes == Seq::<u8>::empty());
    }
}

/// A calendar of whatever text is read back from a data URI that holds it in percent escapes.
pub proof fn percent_escaped_calendar_reads_back(
    metadata: Seq<char>,
    payload: Seq<char>,
    calendar: Seq<char>,
)
    requires
        is_plain_metadata(metadata),
        is_percent_form(
            vstd::utf8::encode_utf8(payload),
            vstd::utf8::encode_utf8(calendar),
        ),
    ensures
        decoded(metadata.push(',') + payload) == Ok::<Seq<char>, Seq<char>>(calendar),
{
    lemma_payload(metadata, payload);
    percent_escapes_read_back(
        vstd::utf8::encode_utf8(payload),
        vstd::utf8::encode_utf8(calendar),
    );
    vstd::utf8::encode_utf8_valid_utf8(calendar);
    vstd::utf8::encode_utf8_decode_utf8(calendar);
}

proof fn lemma_encoding_joins(a: Seq<char>, b: Seq<char>)
    ensures
        vstd::utf8::encode_utf8(a + b) == vstd::utf8::encode_utf8(a) + vstd::utf8::encode_utf8(b),
    decreases a.len(),
{
    if a.len() == 0 {
        assert(a + b == b);
        assert(vstd::utf8::encode_utf8(a) + vstd::utf8::encode_utf8(b)
            == vstd::utf8::encode_utf8(b));
    } else {
        let rest = a.drop_first();
        lemma_encoding_joins(rest, b);
        assert((a + b).drop_first() == rest + b);
        let head = vstd::utf8::encode_scalar(a[0] as u32);
        let (x, y) = (vstd::utf8::encode_utf8(rest), vstd::utf8::encode_utf8(b));
        assert(head + (x + y) == (head + x) + y);
    }
}

proof fn lemma_decoding_joins(a: Seq<u8>, b: Seq<u8>)
    requires
        percent_decoded(a) is Some,
        percent_decoded(b) is Some,
    ensures
        percent_decoded(a + b) == Some(
            percent_decoded(a).unwrap() + percent_decoded(b).unwrap(),
        ),
    decreases a.len(),
{
    let y = percent_decoded(b).unwrap();
    if a.len() == 0 {
        assert(a + b == b);
        assert(Seq::<u8>::empty() + y == y);
    } else if a[0] != '%' as u8 {
        let rest = a.drop_first();
        lemma_decoding_joins(rest, b);
        assert((a + b).drop_first() == rest + b);
        let x = percent_decoded(rest).unwrap();
        assert(seq![a[0]] + (x + y) == (seq![a[0]] + x) + y);
    } else {
        let rest = a.skip(3);
        lemma_decoding_joins(rest, b);
        assert((a + b).skip(3) == rest + b);
        let x = percent_decoded(rest).unwrap();
        let head = seq![(16 * hex_digit(a[1]).unwrap() + hex_digit(a[2]).unwrap()) as u8];
        assert(head + (x + y) == (head + x) + y);
    }
}

/// Payloads set one after the other hold the texts of both, one after the other.
pub proof fn joined_payloads_hold_both_texts(
    metadata: Seq<char>,
    a: Seq<char>,
    b: Seq<char>,
    one: Seq<char>,
    other: Seq<char>,
)
    requires
        is_plain_metadata(metadata),
        decoded(metadata.push(',') + a) == Ok::<Seq<char>, Seq<char>>(one),
        decoded(metadata.push(',') + b) == Ok::<Seq<char>, Seq<char>>(other),
    ensures
        decoded(metadata.push(',') + (a + b)) == Ok::<Seq<char>, Seq<char>>(one + other),
{
    lemma_payload(metadata, a);
    lemma_payload(metadata, b);
    lemma_payload(metadata, a + b);
    let (x, y) = (vstd::utf8::encode_utf8(a), vstd::utf8::encode_utf8(b));
    lemma_encoding_joins(a, b);
    lemma_decoding_joins(x, y);
    vstd::utf8::decode_utf8_encode_utf8(percent_decoded(x).unwrap());
    vstd::utf8::decode_utf8_encode_utf8(percent_decoded(y).unwrap());
    lemma_encoding_joins(one, other);
    vstd::utf8::encode_utf8_valid_utf8(one + other);
    vstd::utf8::encode_utf8_decode_utf8(one + other);
}

/// The value of a hexadecimal digit.
pub fn hex_value(byte: u8) -> (r: Option<u8>)
    ensures
        r == hex_digit(byte),
{
    if 48 <= byte && byte <= 57 {
        Some(byte - 48)
    } else if 97 <= byte && byte <= 102 {
        Some(byte - 97 + 10)
    } else if 65 <= byte && byte <= 70 {
        Some(byte - 65 + 10)
    } else {
        None
    }
}

/// Undoes percent escapes.
fn percent_decode(bytes: &[u8]) -> (r: Option<Vec<u8>>)
    ensures
        match r {
            Some(out) => percent_decoded(bytes@) == Some(out@),
            None => percent_decoded(bytes@) is None,
        },
{
    let mut out: Vec<u8> = Vec::new();
    let mut i: usize = 0;
    proof {
        assert(bytes@.skip(0) == bytes@);
        if let Some(rest) = percent_decoded(bytes@) {
            assert(out@ + rest == rest);
        }
    }
    while i < bytes.len()
        invariant
            i <= bytes@.len(),
            match (percent_decoded(bytes@), percent_decoded(bytes@.skip(i as int))) {
                (Some(all), Some(rest)) => all == out@ + rest,
                (None, None) => true,
                _ => false,
            },
        decreases bytes@.len() - i,
    {
        let ghost rest = bytes@.skip(i as int);
        let ghost before = out@;
        proof {
            assert(rest[0] == bytes@[i as int]);
        }
        if bytes[i] == 37 {
            if bytes.len() - i < 3 {
                return None;
            }
            proof {
                assert(rest[1] == bytes@[i + 1]);
                assert(rest[2] == bytes@[i + 2]);
                assert(rest.skip(3) == bytes@.skip(i + 3));
            }
            match (hex_value(bytes[i + 1]), hex_value(bytes[i + 2])) {
                (Some(high), Some(low)) => {
                    out.push(16 * high + low);
                    proof {
                        if let Some(tail) = percent_decoded(rest.skip(3)) {
                            assert(before + (seq![(16 * high + low) as u8] + tail) == out@ + tail);
                        }
                    }
                },
                _ => {
                    return None;
                },
            }
            i += 3;
        } else {
            out.push(bytes[i]);
            proof {
                assert(rest.drop_first() == bytes@.skip(i + 1));
                if let Some(tail) = percent_decoded(rest.drop_first()) {
                    assert(before + (seq![rest[0]] + tail) == out@ + tail);
                }
            }
            i += 1;
        }
    }
    proof {
        assert(bytes@.skip(i as int) == Seq::<u8>::empty());
    }
    Some(out)
}

/// Makes the capital letters of ASCII in a text small.
fn to_small(chars: &[char]) -> (r: Vec<char>)
    ensures
        r@ == small(chars@),
{
    let mut out: Vec<char> = Vec::new();
    let mut i: usize = 0;
    while i < chars.len()
        invariant
            i <= chars@.len(),
            out@ == small(chars@).take(i as int),
        decreases chars@.len() - i,
    {
        let c = chars[i];
        if 'A' <= c && c <= 'Z' {
            out.push((c as u8 + 32) as char);
        } else {
            out.push(c);
        }
        proof {
            assert(small(chars@).take(i + 1) == small(chars@).take(i as int).push(
                text::ascii_lower(c),
            ));
        }
        i += 1;
    }
    out
}

pub open spec fn text_result(result: Result<String, String>) -> Result<Seq<char>, Seq<char>> {
    match result {
        Ok(s) => Ok(s@),
        Err(message) => Err(message@),
    }
}

/// Reads the calendar that is written out in a data URI.
pub fn decode_calendar_data_uri(source: &str) -> (r: Result<String, String>)
    ensures
        text_result(r) == decoded(source@),
{
    let chars = text::to_chars(source);
    match text::cut_once(chars.as_slice(), ',') {
        None => Err("Invalid calendar data URI".to_owned()),
        Some((metadata, payload)) => {
            let metadata = to_small(metadata);
            if text::holds_text(metadata.as_slice(), text::to_chars(";base64").as_slice()) {
                return Err("Base64 calendar data URIs are not supported yet".to_owned());
            }
            let payload = text::to_text(payload);
            match percent_decode(payload.as_str().as_bytes()) {
                None => Err("Invalid percent escape in calendar data URI".to_owned()),
                Some(bytes) => match utf8_text(bytes) {
                    Ok(calendar) => Ok(calendar),
                    Err(error) => {
                        let mut message = "Calendar data is not valid UTF-8: ".to_owned();
                        text::push_text(&mut message, error.as_str());
                        Err(message)
                    },
                },
            }
        },
    }
}

/// The hexadecimal digits are `0` to `9` for nought to nine, and `a` to `f`, in capitals or not,
/// for ten to fifteen. Nothing else is one.
pub proof fn hexadecimal_digits_have_their_values(byte: u8, r: Option<u8>)
    requires
        call_ensures(hex_value, (byte,), r),
    ensures
        48 <= byte <= 57 ==> r == Some((byte - 48) as u8),
        65 <= byte <= 70 ==> r == Some((byte - 55) as u8),
        97 <= byte <= 102 ==> r == Some((byte - 87) as u8),
        !(48 <= byte <= 57 || 65 <= byte <= 70 || 97 <= byte <= 102) ==> r is None,
{
}

/// Whether a byte is a hexadecimal digit.
pub open spec fn is_hex(byte: u8) -> bool {
    48 <= byte <= 57 || 65 <= byte <= 70 || 97 <= byte <= 102
}

/// The value of a byte that is a hexadecimal digit.
pub open spec fn hex_number(byte: u8) -> int {
    if byte <= 57 {
        byte - 48
    } else if byte <= 70 {
        byte - 55
    } else {
        byte - 87
    }
}

/// A byte that is no percent sign stands for itself. A percent sign stands, with the two
/// hexadecimal digits behind it, for the byte of that value, and makes the whole text unreadable
/// if they are missing.
pub proof fn bytes_are_read_one_by_one(rest: Seq<u8>, byte: u8, high: u8, low: u8)
    ensures
        percent_decoded(seq![]) == Some(Seq::<u8>::empty()),
        byte != 37 ==> percent_decoded(seq![byte] + rest) == (match percent_decoded(rest) {
            Some(tail) => Some(seq![byte] + tail),
            None => None,
        }),
        is_hex(high) && is_hex(low) ==> percent_decoded(seq![37, high, low] + rest) == (
        match percent_decoded(rest) {
            Some(tail) => Some(seq![(16 * hex_number(high) + hex_number(low)) as u8] + tail),
            None => None,
        }),
        !is_hex(high) || !is_hex(low) ==> percent_decoded(seq![37, high, low] + rest) is None,
        percent_decoded(seq![37, high]) is None,
        percent_decoded(seq![37]) is None,
{
    assert((seq![byte] + rest).drop_first() == rest);
    let escape = seq![37, high, low] + rest;
    assert(escape.skip(3) == rest);
    assert(escape[0] == 37 && escape[1] == high && escape[2] == low);
}

/// Whether metadata hold the word `;base64`, in capitals or not, at a position.
pub open spec fn says_base64(metadata: Seq<char>, at: int) -> bool {
    &&& 0 <= at <= metadata.len() - 7
    &&& metadata[at] == ';'
    &&& metadata[at + 1] == 'b' || metadata[at + 1] == 'B'
    &&& metadata[at + 2] == 'a' || metadata[at + 2] == 'A'
    &&& metadata[at + 3] == 's' || metadata[at + 3] == 'S'
    &&& metadata[at + 4] == 'e' || metadata[at + 4] == 'E'
    &&& metadata[at + 5] == '6'
    &&& metadata[at + 6] == '4'
}

proof fn lemma_base64(metadata: Seq<char>)
    ensures
        text::occurs_in(";base64"@, small(metadata)) <==> exists|at: int| says_base64(metadata, at),
{
    reveal_strlit(";base64");
    let word = ";base64"@;
    let plain = small(metadata);
    if text::occurs_in(word, plain) {
        let at = choose|at: int| 0 <= at <= plain.len() && #[trigger] text::starts_with(
            plain.skip(at),
            word,
        );
        let found = plain.skip(at).take(7);
        assert(found == word);
        assert(found[0] == plain[at] && found[1] == plain[at + 1] && found[2] == plain[at + 2]);
        assert(found[3] == plain[at + 3] && found[4] == plain[at + 4] && found[5] == plain[at + 5]);
        assert(found[6] == plain[at + 6]);
        assert(says_base64(metadata, at));
    }
    if exists|at: int| says_base64(metadata, at) {
        let at = choose|at: int| says_base64(metadata, at);
        let found = plain.skip(at).take(7);
        assert(found == word) by {
            assert(found[0] == plain[at] && found[1] == plain[at + 1] && found[2] == plain[at + 2]);
            assert(found[3] == plain[at + 3] && found[4] == plain[at + 4] && found[5] == plain[at
                + 5]);
            assert(found[6] == plain[at + 6]);
            assert(found.len() == word.len());
        }
        assert(text::starts_with(plain.skip(at), word));
    }
}

/// A data URI without a comma holds no calendar, and neither does one whose metadata, before the
/// first comma, say that what is behind it is in Base64. Otherwise the calendar is what is behind
/// the first comma, unless that cannot be read.
pub proof fn data_uris_are_read_behind_their_first_comma(
    source: &str,
    r: Result<String, String>,
    metadata: Seq<char>,
    payload: Seq<char>,
)
    requires
        call_ensures(decode_calendar_data_uri, (source,), r),
    ensures
        !source@.contains(',') ==> (r matches Err(message) && message@
            == "Invalid calendar data URI"@),
        source@ == metadata + seq![','] + payload && !metadata.contains(',') ==> {
            if exists|at: int| says_base64(metadata, at) {
                r matches Err(message) && message@
                    == "Base64 calendar data URIs are not supported yet"@
            } else {
                match percent_decoded(vstd::utf8::encode_utf8(payload)) {
                    Some(bytes) => if vstd::utf8::valid_utf8(bytes) {
                        r matches Ok(calendar) && calendar@ == vstd::utf8::decode_utf8(bytes)
                    } else {
                        r matches Err(message) && message@ == "Calendar data is not valid UTF-8: "@
                            + utf8_complaint(bytes)
                    },
                    None => r matches Err(message) && message@
                        == "Invalid percent escape in calendar data URI"@,
                }
            }
        },
{
    if !source@.contains(',') {
        assert forall|i: int| 0 <= i < source@.len() implies source@[i] != ',' by {
            assert(source@.contains(source@[i]));
        }
        text::lemma_not_found(source@, ',');
    }
    if source@ == metadata + seq![','] + payload && !metadata.contains(',') {
        lemma_base64(metadata);
        lemma_first_comma(metadata, payload);
        assert(source@ == metadata.push(',') + payload);
        assert(source@.take(metadata.len() as int) == metadata);
        assert(source@.skip(metadata.len() as int + 1) == payload);
    }
}

} // verus!
