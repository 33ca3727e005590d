//! Reading one line of a tab-separated interval file.
//!
//! A line holds a key, a start and an end, separated by tabs; further fields
//! may follow and are ignored. The last character of a line is its terminator
//! and belongs to no field. Positions are written in decimal, with an optional
//! `+` in front.
use crate::interval::Interval;
use vstd::prelude::*;

verus! {

/// The three leading fields of a line, as they stand in it.
#[derive(Clone, Copy, Debug, PartialEq, Eq)]
pub struct RecordText<'a> {
    pub key: &'a str,
    pub start: &'a str,
    pub stop: &'a str,
}

/// Why a line gives no reference record.
#[derive(Clone, Copy, Debug, PartialEq, Eq, Structural)]
pub enum RecordError {
    /// The start field is no position.
    BadStart,
    /// The end field is no position.
    BadEnd,
}

/// The index of the first tab of `text` at or after `from`, or the length of
/// `text` if there is none.
pub open spec fn tab_at(text: Seq<char>, from: int) -> int
    decreases text.len() - from,
{
    if from < 0 || from >= text.len() {
        text.len() as int
    } else if text[from] == '\t' {
        from
    } else {
        tab_at(text, from + 1)
    }
}

/// The key, start and end fields of `line`, or `None` where the line, without
/// its last character, has fewer than two tabs.
pub open spec fn record_fields(line: Seq<char>) -> Option<(Seq<char>, Seq<char>, Seq<char>)> {
    if line.len() == 0 {
        None
    } else {
        let body = line.drop_last();
        let first = tab_at(body, 0);
        let second = tab_at(body, first + 1);
        let third = tab_at(body, second + 1);
        if second >= body.len() {
            None
        } else {
            Some(
                (
                    body.subrange(0, first),
                    body.subrange(first + 1, second),
                    body.subrange(second + 1, third),
                ),
            )
        }
    }
}

/// Whether `c` is one of the ten decimal digits `0` to `9`.
pub open spec fn is_digit(c: char) -> bool {
    '0' <= c <= '9'
}

/// Whether `s` holds decimal digits only.
pub open spec fn all_digits(s: Seq<char>) -> bool {
    forall|i: int| 0 <= i < s.len() ==> is_digit(#[trigger] s[i])
}

/// The number that the decimal digits `s` write.
pub open spec fn decimal_value(s: Seq<char>) -> nat
    decreases s.len(),
{
    if s.len() == 0 {
        0
    } else {
        (10 * decimal_value(s.drop_last()) + (s.last() as int - '0' as int)) as nat
    }
}

/// `text` without a leading `+`.
pub open spec fn unsigned_part(text: Seq<char>) -> Seq<char> {
    if text.len() > 0 && text[0] == '+' {
        text.drop_first()
    } else {
        text
    }
}

/// The position that `text` writes: one or more decimal digits, with an
/// optional `+` in front, whose value fits in 32 bits. Anything else writes no
/// position.
pub open spec fn position_of(text: Seq<char>) -> Option<u32> {
    let digits = unsigned_part(text);
    if digits.len() > 0 && all_digits(digits) && decimal_value(digits) <= u32::MAX {
        Some(decimal_value(digits) as u32)
    } else {
        None
    }
}

/// The reference record that the fields write.
pub open spec fn record_of(key: Seq<char>, start: Seq<char>, stop: Seq<char>) -> Result<
    (Seq<char>, Interval),
    RecordError,
> {
    match position_of(start) {
        None => Err(RecordError::BadStart),
        Some(from) => match position_of(stop) {
            None => Err(RecordError::BadEnd),
            Some(to) => Ok((key, Interval { start: from, end: to })),
        },
    }
}

/// No tab stands in `text` from `from` up to `to`, the end of `text` at the
/// latest.
spec fn no_tab_between(text: Seq<char>, from: int, to: int) -> bool {
    forall|i: int| from <= i < to && i < text.len() ==> text[i] != '\t'
}

/// A tab stands at `t`, and it is the first one from `from` on.
spec fn tab_found(text: Seq<char>, from: int, t: int) -> bool {
    &&& 0 <= from <= t < text.len()
    &&& text[t] == '\t'
    &&& no_tab_between(text, from, t)
}

/// `t` is where `tab_at` arrives when it starts at `from`: at the first tab,
/// or at the end if no tab is left.
proof fn lemma_tab_at(text: Seq<char>, from: int, t: int)
    requires
        0 <= from <= t <= text.len(),
        no_tab_between(text, from, t),
        t < text.len() ==> text[t] == '\t',
    ensures
        tab_at(text, from) == t,
    decreases t - from,
{
    if from < t {
        lemma_tab_at(text, from + 1, t);
    }
}

/// Digits written after a number make it no smaller.
proof fn lemma_decimal_value_grows(s: Seq<char>, k: int)
    requires
        all_digits(s),
        0 <= k <= s.len(),
    ensures
        decimal_value(s.take(k)) <= decimal_value(s),
    decreases s.len() - k,
{
    if k < s.len() {
        lemma_decimal_value_grows(s, k + 1);
        let longer = s.take(k + 1);
        assert(longer.drop_last() =~= s.take(k));
    } else {
        assert(s.take(k) =~= s);
    }
}

/// Splits a line into its key, start and end fields.
///
/// The last character of the line is dropped first. The fields are what
/// stands before the first tab, between the first and the second, and between
/// the second and the third tab or the end. A line with fewer than two tabs
/// has no such fields.
pub fn split_record<'a>(line: &'a str) -> (fields: Option<RecordText<'a>>)
    ensures
        match fields {
            Some(f) => record_fields(line@) == Some((f.key@, f.start@, f.stop@)),
            None => record_fields(line@) is None,
        },
{
    broadcast use vstd::string::axiom_spec_iter;

    let n = line.unicode_len();
    if n == 0 {
        return None;
    }
    let body_len = n - 1;
    let ghost body = line@.drop_last();
    let mut first: usize = body_len;
    let mut second: usize = body_len;
    let mut third: usize = body_len;
    let mut seen: u8 = 0;
    let mut at: usize = 0;
    for c in it: line.chars()
        invariant
            it.seq() == line@,
            at == it.index(),
            n == line@.len(),
            body_len == n - 1,
            body == line@.drop_last(),
            seen <= 3,
            seen < 1 ==> first == body_len,
            seen < 2 ==> second == body_len,
            seen < 3 ==> third == body_len,
            seen >= 1 ==> first < at && tab_found(body, 0, first as int),
            seen >= 2 ==> second < at && tab_found(body, first as int + 1, second as int),
            seen >= 3 ==> third < at && tab_found(body, second as int + 1, third as int),
            seen == 0 ==> no_tab_between(body, 0, at as int),
            seen == 1 ==> no_tab_between(body, first as int + 1, at as int),
            seen == 2 ==> no_tab_between(body, second as int + 1, at as int),
    {
        if at < body_len && c == '\t' && seen < 3 {
            if seen == 0 {
                first = at;
            } else if seen == 1 {
                second = at;
            } else {
                third = at;
            }
            seen += 1;
        }
        at += 1;
    }
    proof {
        lemma_tab_at(body, 0, first as int);
        if seen >= 1 {
            lemma_tab_at(body, first as int + 1, second as int);
        }
        if seen >= 2 {
            lemma_tab_at(body, second as int + 1, third as int);
        }
    }
    if seen < 2 {
        return None;
    }
    let key = line.substring_char(0, first);
    let start = line.substring_char(first + 1, second);
    let stop = line.substring_char(second + 1, third);
    Some(RecordText { key, start, stop })
}

/// Reads a position: decimal digits, with an optional `+` in front.
///
/// An empty text, a sign alone, any other character, or a value beyond 32
/// bits gives no position.
pub fn parse_position(text: &str) -> (value: Option<u32>)
    ensures
        value == position_of(text@),
{
    broadcast use vstd::string::axiom_spec_iter;

    let ghost digits = unsigned_part(text@);
    let ghost sign: int = text@.len() - digits.len();
    let ghost mut count: int = 0;
    let mut total: u32 = 0;
    let mut at_start: bool = true;
    let mut any_digit: bool = false;
    for c in it: text.chars()
        invariant
            it.seq() == text@,
            digits == unsigned_part(text@),
            sign == text@.len() - digits.len(),
            0 <= sign <= 1,
            at_start == (it.index() == 0),
            it.index() == 0 ==> count == 0,
            it.index() > 0 ==> count == it.index() - sign,
            any_digit == (count > 0),
            0 <= count <= digits.len(),
            all_digits(digits.take(count)),
            total == decimal_value(digits.take(count)),
    {
        if at_start && c == '+' {
            // A sign in front writes no digit.
        } else {
            let ghost read = digits.take(count);
            let ghost more = digits.take(count + 1);
            proof {
                assert(more.drop_last() =~= read);
            }
            if !(c >= '0' && c <= '9') {
                assert(!is_digit(digits[count]));
                return None;
            }
            let wide: u64 = total as u64 * 10 + (c as u32 - '0' as u32) as u64;
            if wide > u32::MAX as u64 {
                proof {
                    if all_digits(digits) {
                        lemma_decimal_value_grows(digits, count + 1);
                    }
                }
                return None;
            }
            total = wide as u32;
            any_digit = true;
            proof {
                assert forall|i: int| 0 <= i < more.len() implies is_digit(#[trigger] more[i]) by {
                    if i < read.len() {
                        assert(more[i] == read[i]);
                    }
                }
                count = count + 1;
            }
        }
        at_start = false;
    }
    if any_digit {
        proof {
            assert(digits.take(count) =~= digits);
        }
        Some(total)
    } else {
        None
    }
}

/// Reads the reference record that the fields of a line write: its key, and
/// the interval between its start and its end.
///
/// The start is read first, so a line with two bad positions is refused for
/// its start. The interval is not checked here: a registry checks the
/// intervals it is built from.
pub fn reference_record(fields: RecordText<'_>) -> (record: Result<(String, Interval), RecordError>)
    ensures
        match record {
            Ok(pair) => record_of(fields.key@, fields.start@, fields.stop@) == Ok::<
                (Seq<char>, Interval),
                RecordError,
            >((pair.0@, pair.1)),
            Err(e) => record_of(fields.key@, fields.start@, fields.stop@) == Err::<
                (Seq<char>, Interval),
                RecordError,
            >(e),
        },
{
    match parse_position(fields.start) {
        None => Err(RecordError::BadStart),
        Some(from) => match parse_position(fields.stop) {
            None => Err(RecordError::BadEnd),
            Some(to) => Ok((fields.key.to_owned(), Interval { start: from, end: to })),
        },
    }
}

} // verus!
