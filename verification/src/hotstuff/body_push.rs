//! When a leader sends the body of a small block along with its header.

use vstd::prelude::*;

use crate::types::data_types::{Data, Datum};

verus! {

/// The size in bytes beyond which a body is never pushed, nor kept when it comes unasked.
pub const BODY_PUSH_HARD_CAP_BYTES: u64 = 65536;

/// How many bodies that came unasked are kept.
pub const PUSHED_BODY_BUFFER_CAP: usize = 64;

/// Whether a character is white space.
pub open spec fn is_blank(c: char) -> bool {
    c == ' ' || c == '\t' || c == '\n' || c == '\r'
}

/// `text` without the white space at its front.
pub open spec fn trim_front(text: Seq<char>) -> Seq<char>
    decreases text.len(),
{
    if text.len() > 0 && is_blank(text[0]) {
        trim_front(text.skip(1))
    } else {
        text
    }
}

/// `text` without the white space at its back.
pub open spec fn trim_back(text: Seq<char>) -> Seq<char>
    decreases text.len(),
{
    if text.len() > 0 && is_blank(text.last()) {
        trim_back(text.drop_last())
    } else {
        text
    }
}

/// Whether a character is a decimal digit.
pub open spec fn is_digit(c: char) -> bool {
    '0' <= c <= '9'
}

/// The number that a row of decimal digits writes.
pub open spec fn decimal(digits: Seq<char>) -> Option<nat>
    decreases digits.len(),
{
    if digits.len() == 0 {
        Some(0)
    } else {
        match decimal(digits.drop_last()) {
            Some(number) => if is_digit(digits.last()) {
                Some(number * 10 + (digits.last() as nat - '0' as nat) as nat)
            } else {
                None
            },
            None => None,
        }
    }
}

/// The 64-bit number that a text writes, with white space around it allowed.
pub open spec fn written_number(text: Seq<char>) -> Option<u64> {
    let digits = trim_back(trim_front(text));
    match decimal(digits) {
        Some(number) => if digits.len() > 0 && number <= u64::MAX {
            Some(number as u64)
        } else {
            None
        },
        None => None,
    }
}

/// The limit that a setting means: none if it is not a number, and at most the hard cap.
pub open spec fn limit_of(setting: Option<Seq<char>>) -> u64 {
    match setting {
        None => 0,
        Some(text) => match written_number(text) {
            None => 0,
            Some(number) => if number <= BODY_PUSH_HARD_CAP_BYTES {
                number
            } else {
                BODY_PUSH_HARD_CAP_BYTES
            },
        },
    }
}

/// What an optional text holds.
pub open spec fn text_of(setting: Option<String>) -> Option<Seq<char>> {
    match setting {
        Some(text) => Some(text@),
        None => None,
    }
}

fn is_blank_char(c: char) -> (r: bool)
    ensures
        r == is_blank(c),
{
    c == ' ' || c == '\t' || c == '\n' || c == '\r'
}

proof fn lemma_decimal_fails(digits: Seq<char>, upto: int)
    requires
        0 <= upto <= digits.len(),
        decimal(digits.take(upto)) is None,
    ensures
        decimal(digits) is None,
    decreases digits.len() - upto,
{
    if upto < digits.len() {
        assert(digits.take(upto + 1).drop_last() =~= digits.take(upto));
        lemma_decimal_fails(digits, upto + 1);
    } else {
        assert(digits.take(upto) =~= digits);
    }
}

proof fn lemma_decimal_grows(digits: Seq<char>, upto: int)
    requires
        0 <= upto <= digits.len(),
        decimal(digits.take(upto)) is Some,
    ensures
        decimal(digits) is Some ==> decimal(digits)->0 >= decimal(digits.take(upto))->0,
    decreases digits.len() - upto,
{
    if upto < digits.len() {
        assert(digits.take(upto + 1).drop_last() =~= digits.take(upto));
        if decimal(digits.take(upto + 1)) is Some {
            lemma_decimal_grows(digits, upto + 1);
        } else {
            lemma_decimal_fails(digits, upto + 1);
        }
    } else {
        assert(digits.take(upto) =~= digits);
    }
}

fn parse_number(text: &String) -> (r: Option<u64>)
    ensures
        r == written_number(text@),
{
    let chars = text.as_str();
    let len: usize = chars.unicode_len();
    let mut from: usize = 0;
    assert(chars@.skip(0) =~= chars@);
    while from < len && is_blank_char(chars.get_char(from))
        invariant
            from <= len,
            len == chars@.len(),
            trim_front(chars@) == trim_front(chars@.skip(from as int)),
        decreases len - from,
    {
        assert(chars@.skip(from as int).skip(1) =~= chars@.skip(from + 1));
        from = from + 1;
    }
    assert(trim_front(chars@) =~= chars@.skip(from as int));
    let mut upto: usize = len;
    assert(chars@.subrange(from as int, upto as int) =~= chars@.skip(from as int));
    while upto > from && is_blank_char(chars.get_char(upto - 1))
        invariant
            from <= upto <= len,
            len == chars@.len(),
            trim_back(trim_front(chars@)) == trim_back(chars@.subrange(from as int, upto as int)),
        decreases upto,
    {
        assert(chars@.subrange(from as int, upto as int).drop_last() =~= chars@.subrange(
            from as int,
            upto - 1,
        ));
        upto = upto - 1;
    }
    let ghost digits = chars@.subrange(from as int, upto as int);
    assert(trim_back(trim_front(chars@)) == digits);
    if from == upto {
        return None;
    }
    let mut at: usize = from;
    let mut number: u64 = 0;
    assert(digits.take(0) =~= Seq::<char>::empty());
    while at < upto
        invariant
            from <= at <= upto <= len,
            from < upto,
            len == chars@.len(),
            chars@ == text@,
            digits == chars@.subrange(from as int, upto as int),
            trim_back(trim_front(chars@)) == digits,
            decimal(digits.take(at - from)) == Some(number as nat),
        decreases upto - at,
    {
        let c = chars.get_char(at);
        proof {
            assert(digits.take(at - from + 1).drop_last() =~= digits.take(at - from));
            assert(digits.take(at - from + 1).last() == c);
        }
        if !('0' <= c && c <= '9') {
            proof {
                lemma_decimal_fails(digits, at - from + 1);
            }
            return None;
        }
        let digit: u64 = (c as u32 - '0' as u32) as u64;
        if number > (u64::MAX - digit) / 10 {
            proof {
                if decimal(digits) is Some {
                    lemma_decimal_grows(digits, at - from + 1);
                }
            }
            return None;
        }
        number = number * 10 + digit;
        at = at + 1;
    }
    assert(digits.take(at - from) =~= digits);
    Some(number)
}

/// The push limit that the host's setting means. No setting and one that is no number turn pushing
/// off.
pub fn parse_body_push_max_bytes(setting: Option<String>) -> (r: u64)
    ensures
        r == limit_of(text_of(setting)),
{
    match &setting {
        None => 0,
        Some(text) => match parse_number(text) {
            None => 0,
            Some(number) => if number <= BODY_PUSH_HARD_CAP_BYTES {
                number
            } else {
                BODY_PUSH_HARD_CAP_BYTES
            },
        },
    }
}

/// Whether a body of `len` bytes is to be pushed under the limit `limit`.
pub open spec fn pushes(len: u64, limit: u64) -> bool {
    limit > 0 && len <= limit && len <= BODY_PUSH_HARD_CAP_BYTES
}

/// Whether a body of `body_len` bytes is to be pushed under the limit `max_bytes`. No body is
/// pushed under a limit of zero.
pub fn should_push_body(body_len: u64, max_bytes: u64) -> (r: bool)
    ensures
        r == pushes(body_len, max_bytes),
{
    max_bytes > 0 && body_len <= max_bytes && body_len <= BODY_PUSH_HARD_CAP_BYTES
}

/// The number of bytes in a block's data.
pub open spec fn data_bytes(data: Seq<Datum>) -> nat
    decreases data.len(),
{
    if data.len() == 0 {
        0
    } else {
        data_bytes(data.drop_last()) + data.last().bytes@.len()
    }
}

/// The number of bytes in a block's data, as far as it fits.
pub open spec fn body_size(data: Data) -> u64 {
    if data_bytes(data@) <= u64::MAX {
        data_bytes(data@) as u64
    } else {
        u64::MAX
    }
}

proof fn lemma_data_bytes_grow(data: Seq<Datum>, upto: int)
    requires
        0 <= upto <= data.len(),
    ensures
        data_bytes(data.take(upto)) <= data_bytes(data),
    decreases data.len(),
{
    if upto < data.len() {
        assert(data.drop_last().take(upto) =~= data.take(upto));
        lemma_data_bytes_grow(data.drop_last(), upto);
    } else {
        assert(data.take(upto) =~= data);
    }
}

/// The number of bytes in a block's data, as far as it fits.
pub fn body_len(data: &Data) -> (r: u64)
    ensures
        r == body_size(*data),
{
    let mut sum: u64 = 0;
    let mut i: usize = 0;
    assert(data@.take(0) =~= Seq::<Datum>::empty());
    while i < data.datums.len()
        invariant
            i <= data@.len(),
            sum == data_bytes(data@.take(i as int)),
        decreases data@.len() - i,
    {
        assert(data@.take(i + 1).drop_last() =~= data@.take(i as int));
        let len: u64 = data.datums[i].bytes.len() as u64;
        if sum > u64::MAX - len {
            proof {
                lemma_data_bytes_grow(data@, i + 1);
            }
            return u64::MAX;
        }
        sum = sum + len;
        i = i + 1;
    }
    assert(data@.take(i as int) =~= data@);
    sum
}

} // verus!
