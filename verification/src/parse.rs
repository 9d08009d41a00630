//! The text forms of an edge list.
//!
//! A text is read line by line. A line ends before a line feed, and a
//! carriage return just before that line feed is dropped; the last line
//! need not end in a line feed, and then nothing is dropped from it. A line
//! that starts with `#` is a comment. An identifier is a decimal number that
//! fits 32 bits, with an optional `+` before it.
//!
//! In the tabbed form every other line holds two node identifiers, each
//! followed by a tab or by the end of the line; what follows the second is
//! ignored. In the spaced form the fields of a line are separated by white
//! space, a line of white space alone is passed over, and every other line
//! holds two node identifiers in its first two fields.

use crate::error::GraphError;
use vstd::prelude::*;

verus! {

pub const LINE_FEED: u8 = 10;

pub const CARRIAGE_RETURN: u8 = 13;

pub const TAB: u8 = 9;

pub const HASH: u8 = 35;

pub const PLUS: u8 = 43;

pub const ZERO: u8 = 48;

pub const NINE: u8 = 57;

/// What is wrong with a line.
#[derive(Clone, Copy, Debug, PartialEq, Eq, Structural)]
pub enum Fault {
    /// The line holds fewer than two fields.
    LineFormat,
    /// One of the first two fields is no node identifier.
    NodeFormat,
    /// The line could not be read as text.
    Unreadable,
}

/// Every byte is a decimal digit.
pub open spec fn all_digits(s: Seq<u8>) -> bool {
    forall|i: int| 0 <= i < s.len() ==> ZERO <= #[trigger] s[i] <= NINE
}

/// The number that a sequence of decimal digits stands for.
pub open spec fn digits_value(s: Seq<u8>) -> int
    decreases s.len(),
{
    if s.len() == 0 {
        0
    } else {
        10 * digits_value(s.drop_last()) + (s.last() - ZERO)
    }
}

/// A field without the `+` that may stand before the digits.
pub open spec fn unsigned_part(s: Seq<u8>) -> Seq<u8> {
    if s.len() > 0 && s[0] == PLUS {
        s.skip(1)
    } else {
        s
    }
}

/// The node identifier that a field stands for, if it stands for one.
pub open spec fn node_value(s: Seq<u8>) -> Option<u32> {
    let digits = unsigned_part(s);
    if digits.len() > 0 && all_digits(digits) && digits_value(digits) <= u32::MAX {
        Some(digits_value(digits) as u32)
    } else {
        None
    }
}

/// The number of bytes of `s` before the first `stop`, or the length of `s`
/// where it holds none.
pub open spec fn span(s: Seq<u8>, stop: u8) -> int
    decreases s.len(),
{
    if s.len() == 0 || s[0] == stop {
        0
    } else {
        1 + span(s.skip(1), stop)
    }
}

/// A line without the carriage return that may end it.
pub open spec fn without_return(line: Seq<u8>) -> Seq<u8> {
    if line.len() > 0 && line.last() == CARRIAGE_RETURN {
        line.drop_last()
    } else {
        line
    }
}

/// What a line holds: nothing for a comment, the two nodes of an edge, or a
/// fault.
pub open spec fn line_value(line: Seq<u8>) -> Result<Option<(u32, u32)>, Fault> {
    if line.len() > 0 && line[0] == HASH {
        Ok(None)
    } else {
        let first = span(line, TAB);
        if first == line.len() {
            Err(Fault::LineFormat)
        } else {
            let rest = line.skip(first + 1);
            let second = span(rest, TAB);
            match (node_value(line.take(first)), node_value(rest.take(second))) {
                (Some(from), Some(to)) => Ok(Some((from, to))),
                _ => Err(Fault::NodeFormat),
            }
        }
    }
}

/// The width in bytes of the white-space character that `s` starts with, or
/// zero where it starts with none. White space is a tab, a line feed, a
/// vertical tab, a form feed, a carriage return, a space, or one of the
/// characters U+0085, U+00A0, U+1680, U+2000 to U+200A, U+2028, U+2029,
/// U+202F, U+205F and U+3000 in UTF-8.
pub open spec fn space_width(s: Seq<u8>) -> int {
    if s.len() >= 1 && (s[0] == 32 || 9 <= s[0] <= 13) {
        1
    } else if s.len() >= 2 && s[0] == 0xC2 && (s[1] == 0x85 || s[1] == 0xA0) {
        2
    } else if s.len() >= 3 && s[0] == 0xE1 && s[1] == 0x9A && s[2] == 0x80 {
        3
    } else if s.len() >= 3 && s[0] == 0xE2 && s[1] == 0x80 && (0x80 <= s[2] <= 0x8A || s[2] == 0xA8
        || s[2] == 0xA9 || s[2] == 0xAF) {
        3
    } else if s.len() >= 3 && s[0] == 0xE2 && s[1] == 0x81 && s[2] == 0x9F {
        3
    } else if s.len() >= 3 && s[0] == 0xE3 && s[1] == 0x80 && s[2] == 0x80 {
        3
    } else {
        0
    }
}

/// The number of bytes of white space that `s` starts with.
pub open spec fn spaces(s: Seq<u8>) -> int
    decreases s.len(),
{
    let width = space_width(s);
    if width <= 0 {
        0
    } else {
        width + spaces(s.skip(width))
    }
}

/// The number of bytes of `s` before its first white space, or the length
/// of `s` where it holds none.
pub open spec fn word(s: Seq<u8>) -> int
    decreases s.len(),
{
    if s.len() == 0 || space_width(s) > 0 {
        0
    } else {
        1 + word(s.skip(1))
    }
}

/// What a line of the spaced form holds: nothing for a comment and for a
/// line of white space alone, the two nodes of an edge, or a fault. A line
/// of one field has the fault of that field where it is no identifier, and
/// that of the line where it is one.
pub open spec fn spaced_line_value(line: Seq<u8>) -> Result<Option<(u32, u32)>, Fault> {
    if line.len() > 0 && line[0] == HASH {
        Ok(None)
    } else {
        let first = spaces(line);
        if first >= line.len() {
            Ok(None)
        } else {
            let first_end = first + word(line.skip(first));
            let second = first_end + spaces(line.skip(first_end));
            let from = node_value(line.subrange(first, first_end));
            if second >= line.len() {
                if from is None {
                    Err(Fault::NodeFormat)
                } else {
                    Err(Fault::LineFormat)
                }
            } else {
                let second_end = second + word(line.skip(second));
                match (from, node_value(line.subrange(second, second_end))) {
                    (Some(from), Some(to)) => Ok(Some((from, to))),
                    _ => Err(Fault::NodeFormat),
                }
            }
        }
    }
}

/// What a line holds, in the spaced form or in the tabbed one.
pub open spec fn line_value_in(line: Seq<u8>, spaced: bool) -> Result<Option<(u32, u32)>, Fault> {
    if spaced {
        spaced_line_value(line)
    } else {
        line_value(line)
    }
}

/// The edges that a text holds, in the order of its lines, or the fault of
/// the first line that has one.
#[verifier::opaque]
pub open spec fn lines_value(text: Seq<u8>, spaced: bool) -> Result<Seq<(u32, u32)>, Fault>
    decreases text.len(),
{
    if text.len() == 0 {
        Ok(Seq::empty())
    } else {
        let end = span(text, LINE_FEED);
        if 0 <= end < text.len() {
            match line_value_in(without_return(text.take(end)), spaced) {
                Err(fault) => Err(fault),
                Ok(None) => lines_value(text.skip(end + 1), spaced),
                Ok(Some(edge)) => match lines_value(text.skip(end + 1), spaced) {
                    Ok(more) => Ok(seq![edge] + more),
                    Err(fault) => Err(fault),
                },
            }
        } else {
            match line_value_in(text, spaced) {
                Err(fault) => Err(fault),
                Ok(None) => Ok(Seq::empty()),
                Ok(Some(edge)) => Ok(seq![edge]),
            }
        }
    }
}

/// The edges that a text of the tabbed form holds.
pub open spec fn text_value(text: Seq<u8>) -> Result<Seq<(u32, u32)>, Fault> {
    lines_value(text, false)
}

/// The edges that a text of the spaced form holds.
pub open spec fn spaced_value(text: Seq<u8>) -> Result<Seq<(u32, u32)>, Fault> {
    lines_value(text, true)
}

/// Where the line begins that holds the byte at `at`: after the last line
/// feed before `at`, or at the start of the text.
pub open spec fn line_start(text: Seq<u8>, at: int) -> int
    decreases at,
{
    if at <= 0 {
        0
    } else if text[at - 1] == LINE_FEED {
        at
    } else {
        line_start(text, at - 1)
    }
}

/// What is read from a text of which the first `readable` bytes can be read
/// as text: all its edges where that is the whole text; else what the lines
/// before the one that cannot be read hold, which ends in the fault of
/// the first line that has one, or in that of the line that cannot be read.
pub open spec fn read_value(text: Seq<u8>, readable: int, spaced: bool) -> Result<
    Seq<(u32, u32)>,
    Fault,
> {
    if readable >= text.len() {
        lines_value(text, spaced)
    } else {
        match lines_value(text.take(line_start(text, readable)), spaced) {
            Ok(edges) => Err(Fault::Unreadable),
            Err(fault) => Err(fault),
        }
    }
}

/// A position that no `stop` stands before and where one stands, or which is
/// the end, is the span.
pub proof fn lemma_span_found(s: Seq<u8>, stop: u8, n: int)
    requires
        0 <= n <= s.len(),
        forall|i: int| 0 <= i < n ==> s[i] != stop,
        n < s.len() ==> s[n] == stop,
    ensures
        span(s, stop) == n,
    decreases s.len(),
{
    if n > 0 {
        let rest = s.skip(1);
        assert forall|i: int| 0 <= i < n - 1 implies rest[i] != stop by {
            assert(rest[i] == s[i + 1]);
        }
        lemma_span_found(rest, stop, n - 1);
    }
}

/// The position of the next `stop` in `text` at or after `from`, or `end`
/// where there is none before it.
fn find(text: &[u8], from: usize, end: usize, stop: u8) -> (at: usize)
    requires
        from <= end <= text@.len(),
    ensures
        from <= at <= end,
        at - from == span(text@.subrange(from as int, end as int), stop),
{
    let mut at = from;
    while at < end && text[at] != stop
        invariant
            from <= at <= end <= text@.len(),
            forall|i: int| from <= i < at ==> text@[i] != stop,
        decreases end - at,
    {
        at += 1;
    }
    proof {
        lemma_span_found(text@.subrange(from as int, end as int), stop, at - from);
    }
    at
}

/// The value of digits followed by one more digit.
proof fn lemma_digits_step(s: Seq<u8>, k: int)
    requires
        0 <= k < s.len(),
    ensures
        digits_value(s.take(k + 1)) == 10 * digits_value(s.take(k)) + (s[k] - ZERO),
        all_digits(s.take(k + 1)) <==> all_digits(s.take(k)) && ZERO <= s[k] <= NINE,
{
    let longer = s.take(k + 1);
    let shorter = s.take(k);
    assert(longer.drop_last() == shorter);
    assert(longer.last() == s[k]);
    if all_digits(longer) {
        assert forall|i: int| 0 <= i < shorter.len() implies ZERO <= #[trigger] shorter[i]
            <= NINE by {
            assert(longer[i] == shorter[i]);
        }
        assert(longer[k] == s[k]);
    }
    if all_digits(shorter) && ZERO <= s[k] <= NINE {
        assert forall|i: int| 0 <= i < longer.len() implies ZERO <= #[trigger] longer[i] <= NINE by {
            if i < k {
                assert(longer[i] == shorter[i]);
            }
        }
    }
}

/// With more digits the value does not get less.
proof fn lemma_digits_grow(s: Seq<u8>, k: int)
    requires
        0 <= k <= s.len(),
        all_digits(s),
    ensures
        0 <= digits_value(s.take(k)) <= digits_value(s),
        all_digits(s.take(k)),
    decreases s.len() - k,
{
    if k == s.len() {
        assert(s.take(k) == s);
        lemma_digits_not_negative(s);
    } else {
        lemma_digits_grow(s, k + 1);
        lemma_digits_step(s, k);
        assert(ZERO <= s[k] <= NINE);
        lemma_digits_not_negative(s.take(k));
    }
}

/// The value of digits is not negative.
proof fn lemma_digits_not_negative(s: Seq<u8>)
    requires
        all_digits(s),
    ensures
        digits_value(s) >= 0,
    decreases s.len(),
{
    if s.len() > 0 {
        let rest = s.drop_last();
        assert forall|i: int| 0 <= i < rest.len() implies ZERO <= #[trigger] rest[i] <= NINE by {
            assert(rest[i] == s[i]);
        }
        lemma_digits_not_negative(rest);
        assert(ZERO <= s[s.len() - 1]);
    }
}

/// The node identifier that the bytes of `text` from `start` to `end` stand
/// for, if they stand for one.
pub fn parse_node(text: &[u8], start: usize, end: usize) -> (node: Option<u32>)
    requires
        start <= end <= text@.len(),
    ensures
        node == node_value(text@.subrange(start as int, end as int)),
{
    let ghost field = text@.subrange(start as int, end as int);
    let mut at = start;
    if at < end && text[at] == PLUS {
        at += 1;
    }
    let first = at;
    let ghost digits = text@.subrange(first as int, end as int);
    proof {
        assert(digits =~= unsigned_part(field));
        assert(digits.take(0) =~= Seq::<u8>::empty());
    }
    if at == end {
        return None;
    }
    let mut value: u32 = 0;
    while at < end
        invariant
            start <= first <= at <= end <= text@.len(),
            first < end,
            digits == text@.subrange(first as int, end as int),
            digits == unsigned_part(text@.subrange(start as int, end as int)),
            all_digits(digits.take(at - first)),
            value == digits_value(digits.take(at - first)),
        decreases end - at,
    {
        let byte = text[at];
        proof {
            lemma_digits_step(digits, at - first);
            assert(digits[at - first] == byte);
            if all_digits(digits) {
                lemma_digits_grow(digits, at - first + 1);
            }
        }
        if byte < ZERO || byte > NINE {
            assert(!all_digits(digits));
            return None;
        }
        let digit = (byte - ZERO) as u32;
        let tens = match value.checked_mul(10) {
            Some(tens) => tens,
            None => {
                return None;
            },
        };
        value = match tens.checked_add(digit) {
            Some(sum) => sum,
            None => {
                return None;
            },
        };
        at += 1;
    }
    proof {
        assert(digits.take(at - first) == digits);
    }
    Some(value)
}

/// What the line that the bytes of `text` from `start` to `end` make up
/// holds.
pub fn parse_line(text: &[u8], start: usize, end: usize) -> (found: Result<
    Option<(u32, u32)>,
    Fault,
>)
    requires
        start <= end <= text@.len(),
    ensures
        found == line_value(text@.subrange(start as int, end as int)),
{
    let ghost line = text@.subrange(start as int, end as int);
    if start < end && text[start] == HASH {
        assert(line[0] == HASH);
        return Ok(None);
    }
    proof {
        if line.len() > 0 {
            assert(line[0] == text@[start as int]);
        }
    }
    let tab = find(text, start, end, TAB);
    if tab == end {
        return Err(Fault::LineFormat);
    }
    let stop = find(text, tab + 1, end, TAB);
    proof {
        assert(line.skip(tab - start + 1) =~= text@.subrange(tab + 1, end as int));
        assert(line.take(tab - start) =~= text@.subrange(start as int, tab as int));
        assert(text@.subrange(tab + 1, end as int).take(stop - tab - 1) =~= text@.subrange(
            tab + 1,
            stop as int,
        ));
    }
    let from = parse_node(text, start, tab);
    let to = parse_node(text, tab + 1, stop);
    match (from, to) {
        (Some(from), Some(to)) => Ok(Some((from, to))),
        _ => Err(Fault::NodeFormat),
    }
}

/// The description of a fault.
pub open spec fn fault_message(fault: Fault) -> Seq<char> {
    match fault {
        Fault::LineFormat => "Line format is incorrect"@,
        Fault::NodeFormat => "Invalid node format"@,
        Fault::Unreadable => "Could not read line"@,
    }
}

impl Fault {
    /// The error that describes the fault.
    pub fn to_error(self) -> (error: GraphError)
        ensures
            error.details@ == fault_message(self),
    {
        match self {
            Fault::LineFormat => GraphError::new("Line format is incorrect"),
            Fault::NodeFormat => GraphError::new("Invalid node format"),
            Fault::Unreadable => GraphError::new("Could not read line"),
        }
    }
}

/// The edges read so far followed by what the rest of the text holds.
pub open spec fn joined(done: Seq<(u32, u32)>, rest: Result<Seq<(u32, u32)>, Fault>) -> Result<
    Seq<(u32, u32)>,
    Fault,
> {
    match rest {
        Ok(more) => Ok(done + more),
        Err(fault) => Err(fault),
    }
}

/// The width of the white-space character at `at`, or zero.
fn space_at(text: &[u8], at: usize, end: usize) -> (width: usize)
    requires
        at <= end <= text@.len(),
    ensures
        width == space_width(text@.subrange(at as int, end as int)),
        at + width <= end,
{
    let ghost s = text@.subrange(at as int, end as int);
    let left = end - at;
    if left >= 1 {
        assert(s[0] == text@[at as int]);
        let a = text[at];
        if a == 32 || (9 <= a && a <= 13) {
            return 1;
        }
        if left >= 2 {
            assert(s[1] == text@[at + 1]);
            let b = text[at + 1];
            if a == 0xC2 && (b == 0x85 || b == 0xA0) {
                return 2;
            }
            if left >= 3 {
                assert(s[2] == text@[at + 2]);
                let c = text[at + 2];
                if a == 0xE1 && b == 0x9A && c == 0x80 {
                    return 3;
                }
                if a == 0xE2 && b == 0x80 && ((0x80 <= c && c <= 0x8A) || c == 0xA8 || c == 0xA9
                    || c == 0xAF) {
                    return 3;
                }
                if a == 0xE2 && b == 0x81 && c == 0x9F {
                    return 3;
                }
                if a == 0xE3 && b == 0x80 && c == 0x80 {
                    return 3;
                }
            }
        }
    }
    0
}

/// The position after the white space that stands at `at`.
fn skip_spaces(text: &[u8], at: usize, end: usize) -> (to: usize)
    requires
        at <= end <= text@.len(),
    ensures
        at <= to <= end,
        to - at == spaces(text@.subrange(at as int, end as int)),
{
    let mut to = at;
    loop
        invariant
            at <= to <= end <= text@.len(),
            spaces(text@.subrange(at as int, end as int)) == to - at + spaces(
                text@.subrange(to as int, end as int),
            ),
        decreases end - to,
    {
        let width = space_at(text, to, end);
        if width == 0 {
            return to;
        }
        proof {
            assert(text@.subrange(to as int, end as int).skip(width as int) =~= text@.subrange(
                to + width,
                end as int,
            ));
        }
        to = to + width;
    }
}

/// The position of the first white space at or after `at`, or `end`.
fn skip_word(text: &[u8], at: usize, end: usize) -> (to: usize)
    requires
        at <= end <= text@.len(),
    ensures
        at <= to <= end,
        to - at == word(text@.subrange(at as int, end as int)),
{
    let mut to = at;
    loop
        invariant
            at <= to <= end <= text@.len(),
            word(text@.subrange(at as int, end as int)) == to - at + word(
                text@.subrange(to as int, end as int),
            ),
        decreases end - to,
    {
        if to == end {
            return to;
        }
        let width = space_at(text, to, end);
        if width > 0 {
            return to;
        }
        proof {
            assert(text@.subrange(to as int, end as int).skip(1) =~= text@.subrange(
                to + 1,
                end as int,
            ));
        }
        to = to + 1;
    }
}

/// What the line of the spaced form that the bytes of `text` from `start`
/// to `end` make up holds.
pub fn parse_spaced_line(text: &[u8], start: usize, end: usize) -> (found: Result<
    Option<(u32, u32)>,
    Fault,
>)
    requires
        start <= end <= text@.len(),
    ensures
        found == spaced_line_value(text@.subrange(start as int, end as int)),
{
    let ghost line = text@.subrange(start as int, end as int);
    if start < end && text[start] == HASH {
        assert(line[0] == HASH);
        return Ok(None);
    }
    proof {
        if line.len() > 0 {
            assert(line[0] == text@[start as int]);
        }
    }
    let first = skip_spaces(text, start, end);
    if first == end {
        return Ok(None);
    }
    let first_end = skip_word(text, first, end);
    let second = skip_spaces(text, first_end, end);
    proof {
        assert(line.skip(first - start) =~= text@.subrange(first as int, end as int));
        assert(line.skip(first_end - start) =~= text@.subrange(first_end as int, end as int));
        assert(line.subrange(first - start, first_end - start) =~= text@.subrange(
            first as int,
            first_end as int,
        ));
    }
    let from = parse_node(text, first, first_end);
    if second == end {
        return match from {
            None => Err(Fault::NodeFormat),
            Some(_) => Err(Fault::LineFormat),
        };
    }
    let second_end = skip_word(text, second, end);
    proof {
        assert(line.skip(second - start) =~= text@.subrange(second as int, end as int));
        assert(line.subrange(second - start, second_end - start) =~= text@.subrange(
            second as int,
            second_end as int,
        ));
    }
    let to = parse_node(text, second, second_end);
    match (from, to) {
        (Some(from), Some(to)) => Ok(Some((from, to))),
        _ => Err(Fault::NodeFormat),
    }
}

/// What a line holds followed by what the rest of the text holds.
pub open spec fn line_then(
    found: Result<Option<(u32, u32)>, Fault>,
    rest: Result<Seq<(u32, u32)>, Fault>,
) -> Result<Seq<(u32, u32)>, Fault> {
    match found {
        Err(fault) => Err(fault),
        Ok(None) => rest,
        Ok(Some(edge)) => match rest {
            Ok(more) => Ok(seq![edge] + more),
            Err(fault) => Err(fault),
        },
    }
}

/// The empty text holds no edge.
proof fn lemma_lines_empty(spaced: bool)
    ensures
        lines_value(Seq::empty(), spaced) == Ok::<Seq<(u32, u32)>, Fault>(Seq::empty()),
{
    reveal_with_fuel(lines_value, 1);
}

/// The text from `at` on holds what its first line holds, which ends at the
/// line feed at `feed` or with the text, and then what the text after that
/// line holds.
proof fn lemma_lines_step(text: Seq<u8>, at: int, feed: int, spaced: bool)
    requires
        0 <= at < text.len(),
        at <= feed <= text.len(),
        feed - at == span(text.subrange(at, text.len() as int), LINE_FEED),
    ensures
        feed < text.len() ==> lines_value(text.skip(at), spaced) == line_then(
            line_value_in(
                if feed > at && text[feed - 1] == CARRIAGE_RETURN {
                    text.subrange(at, feed - 1)
                } else {
                    text.subrange(at, feed)
                },
                spaced,
            ),
            lines_value(text.skip(feed + 1), spaced),
        ),
        feed == text.len() ==> lines_value(text.skip(at), spaced) == line_then(
            line_value_in(text.subrange(at, feed), spaced),
            Ok(Seq::empty()),
        ),
{
    reveal_with_fuel(lines_value, 2);
    let rest = text.skip(at);
    assert(rest =~= text.subrange(at, text.len() as int));
    if feed < text.len() {
        let line = rest.take(feed - at);
        assert(line =~= text.subrange(at, feed));
        if feed > at && text[feed - 1] == CARRIAGE_RETURN {
            assert(line.last() == text[feed - 1]);
            assert(without_return(line) =~= text.subrange(at, feed - 1));
        } else {
            if line.len() > 0 {
                assert(line.last() == text[feed - 1]);
            }
            assert(without_return(line) =~= line);
        }
        assert(rest.skip(feed - at + 1) =~= text.skip(feed + 1));
    } else {
        assert(rest =~= text.subrange(at, feed));
        match line_value_in(rest, spaced) {
            Ok(Some(edge)) => {
                assert(seq![edge] + Seq::<(u32, u32)>::empty() =~= seq![edge]);
            },
            _ => {},
        }
    }
}

/// Reads the edges of a text in the spaced form or in the tabbed one, in
/// the order of its lines, up to the first line that has a fault.
pub fn parse_lines(text: &[u8], spaced: bool) -> (read: Result<Vec<(u32, u32)>, Fault>)
    ensures
        match read {
            Ok(edges) => lines_value(text@, spaced) == Ok::<Seq<(u32, u32)>, Fault>(edges@),
            Err(fault) => lines_value(text@, spaced) == Err::<Seq<(u32, u32)>, Fault>(fault),
        },
{
    let mut edges: Vec<(u32, u32)> = Vec::new();
    let mut at: usize = 0;
    proof {
        assert(text@.skip(0) =~= text@);
        match lines_value(text@, spaced) {
            Ok(more) => {
                assert(Seq::<(u32, u32)>::empty() + more =~= more);
            },
            Err(fault) => {},
        }
    }
    while at < text.len()
        invariant
            at <= text@.len(),
            lines_value(text@, spaced) == joined(edges@, lines_value(text@.skip(at as int), spaced)),
        decreases text.len() - at,
    {
        let feed = find(text, at, text.len(), LINE_FEED);
        let end = if feed < text.len() && feed > at && text[feed - 1] == CARRIAGE_RETURN {
            feed - 1
        } else {
            feed
        };
        let next = if feed < text.len() {
            feed + 1
        } else {
            feed
        };
        let found = if spaced {
            parse_spaced_line(text, at, end)
        } else {
            parse_line(text, at, end)
        };
        let ghost after = lines_value(text@.skip(next as int), spaced);
        proof {
            lemma_lines_step(text@, at as int, feed as int, spaced);
            if feed == text@.len() {
                assert(text@.skip(next as int) =~= Seq::<u8>::empty());
                lemma_lines_empty(spaced);
            }
            assert(lines_value(text@.skip(at as int), spaced) == line_then(found, after));
        }
        match found {
            Err(fault) => {
                return Err(fault);
            },
            Ok(None) => {},
            Ok(Some(edge)) => {
                let ghost before = edges@;
                edges.push(edge);
                proof {
                    match after {
                        Ok(more) => {
                            assert(before + (seq![edge] + more) =~= edges@ + more);
                        },
                        Err(fault) => {},
                    }
                }
            },
        }
        at = next;
    }
    proof {
        assert(text@.skip(at as int) =~= Seq::<u8>::empty());
        assert(edges@ + Seq::<(u32, u32)>::empty() =~= edges@);
        lemma_lines_empty(spaced);
    }
    Ok(edges)
}

/// Reads the edges of a text in the tabbed form, in the order of its lines.
///
/// Comment lines are passed over. The first line that holds fewer than two
/// fields, or a field that is no node identifier, ends the reading with an
/// error that says which of the two it was.
pub fn parse_edges(text: &[u8]) -> (read: Result<Vec<(u32, u32)>, GraphError>)
    ensures
        match read {
            Ok(edges) => text_value(text@) == Ok::<Seq<(u32, u32)>, Fault>(edges@),
            Err(error) => text_value(text@) matches Err(fault) && error.details@ == fault_message(
                fault,
            ),
        },
{
    match parse_lines(text, false) {
        Ok(edges) => Ok(edges),
        Err(fault) => Err(fault.to_error()),
    }
}

/// Reads the edges of a text in the spaced form, in the order of its lines.
///
/// Comment lines and lines of white space alone are passed over. The first
/// line with a field that is no node identifier, or with one field only,
/// ends the reading with an error that says which of the two it was.
pub fn parse_spaced_edges(text: &[u8]) -> (read: Result<Vec<(u32, u32)>, GraphError>)
    ensures
        match read {
            Ok(edges) => spaced_value(text@) == Ok::<Seq<(u32, u32)>, Fault>(edges@),
            Err(error) => spaced_value(text@) matches Err(fault) && error.details@
                == fault_message(fault),
        },
{
    match parse_lines(text, true) {
        Ok(edges) => Ok(edges),
        Err(fault) => Err(fault.to_error()),
    }
}

/// Reads the edges of a text of which the first `readable` bytes, and no
/// more, can be read as text.
///
/// Where that is the whole text, its edges are read. Else the lines before
/// the one that cannot be read are read, and the reading ends in an error:
/// that of the first of them that has a fault, or that of the line that
/// cannot be read.
pub fn read_lines(text: &[u8], readable: usize, spaced: bool) -> (read: Result<
    Vec<(u32, u32)>,
    GraphError,
>)
    ensures
        match read {
            Ok(edges) => read_value(text@, readable as int, spaced) == Ok::<
                Seq<(u32, u32)>,
                Fault,
            >(edges@),
            Err(error) => read_value(text@, readable as int, spaced) matches Err(fault)
                && error.details@ == fault_message(fault),
        },
{
    if readable >= text.len() {
        return match parse_lines(text, spaced) {
            Ok(edges) => Ok(edges),
            Err(fault) => Err(fault.to_error()),
        };
    }
    let mut start = readable;
    while start > 0 && text[start - 1] != LINE_FEED
        invariant
            start <= readable < text@.len(),
            line_start(text@, readable as int) == line_start(text@, start as int),
        decreases start,
    {
        start -= 1;
    }
    let held = vstd::slice::slice_subrange(text, 0, start);
    proof {
        assert(held@ =~= text@.take(start as int));
    }
    match parse_lines(held, spaced) {
        Ok(_) => Err(Fault::Unreadable.to_error()),
        Err(fault) => Err(fault.to_error()),
    }
}

} // verus!
