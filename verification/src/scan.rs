//! Scanning of character sequences: lines, tab-separated fields and decimal counts.

use vstd::prelude::*;
use vstd::slice::slice_subrange;

verus! {

/// The first index at or after `from` at which `text` holds `c`; the length of
/// `text` if there is none.
pub open spec fn next_or_end(text: Seq<char>, c: char, from: int) -> int
    decreases text.len() - from,
{
    if from >= text.len() {
        text.len() as int
    } else if text[from] == c {
        from
    } else {
        next_or_end(text, c, from + 1)
    }
}

/// Nothing in front of `next_or_end` is `c`, and what stands there is.
pub proof fn lemma_next_or_end(text: Seq<char>, c: char, from: int)
    requires
        0 <= from <= text.len(),
    ensures
        from <= next_or_end(text, c, from) <= text.len(),
        forall|k: int| from <= k < next_or_end(text, c, from) ==> text[k] != c,
        next_or_end(text, c, from) < text.len() ==> text[next_or_end(text, c, from)] == c,
    decreases text.len() - from,
{
    if from < text.len() && text[from] != c {
        lemma_next_or_end(text, c, from + 1);
    }
}

/// Finds the first `c` in `text` at or after `from`.
pub fn find_from(text: &[char], c: char, from: usize) -> (at: usize)
    ensures
        at == next_or_end(text@, c, from as int),
        from <= text@.len() ==> from <= at,
        at <= text@.len(),
{
    if from >= text.len() {
        return text.len();
    }
    let mut at: usize = from;
    while at < text.len() && text[at] != c
        invariant
            from <= at <= text@.len(),
            next_or_end(text@, c, from as int) == next_or_end(text@, c, at as int),
        decreases text@.len() - at,
    {
        at += 1;
    }
    at
}

/// Where the line that starts at `from` ends: at its line feed, or at the end of `text`.
pub open spec fn line_break(text: Seq<char>, from: int) -> int {
    next_or_end(text, '\n', from)
}

/// The line that starts at `from`, without its line feed and without a carriage
/// return in front of that line feed. A carriage return that no line feed
/// follows belongs to the line.
pub open spec fn line_at(text: Seq<char>, from: int) -> Seq<char> {
    let end = line_break(text, from);
    if end < text.len() && from < end && text[end - 1] == '\r' {
        text.subrange(from, end - 1)
    } else {
        text.subrange(from, end)
    }
}

/// Where the line after the one that starts at `from` starts.
pub open spec fn line_after(text: Seq<char>, from: int) -> int {
    let end = line_break(text, from);
    if end < text.len() {
        end + 1
    } else {
        end
    }
}

/// The lines of `text` from index `from` on.
pub open spec fn lines_from(text: Seq<char>, from: int) -> Seq<Seq<char>>
    decreases text.len() - from,
    when 0 <= from
    via lines_from_decreases
{
    if from >= text.len() {
        Seq::empty()
    } else {
        seq![line_at(text, from)] + lines_from(text, line_after(text, from))
    }
}

#[via_fn]
proof fn lines_from_decreases(text: Seq<char>, from: int) {
    if from < text.len() {
        lemma_next_or_end(text, '\n', from);
    }
}

/// The lines of `text`. Lines end at a line feed or at a carriage return with a
/// line feed behind it; the last line needs no line ending, and a text that
/// ends in one has no empty line behind it.
pub open spec fn lines(text: Seq<char>) -> Seq<Seq<char>> {
    lines_from(text, 0)
}

/// The end of the line that starts at `from`, and the start of the next:
/// `text[from..end]` is the line.
pub(crate) fn line_bounds(text: &[char], from: usize) -> (bounds: (usize, usize))
    requires
        from < text@.len(),
    ensures
        from <= bounds.0 <= text@.len(),
        bounds.0 <= bounds.1 <= text@.len(),
        from < bounds.1,
        text@.subrange(from as int, bounds.0 as int) == line_at(text@, from as int),
        bounds.1 == line_after(text@, from as int),
{
    let end = find_from(text, '\n', from);
    if end < text.len() {
        if from < end && text[end - 1] == '\r' {
            (end - 1, end + 1)
        } else {
            (end, end + 1)
        }
    } else {
        (end, end)
    }
}

/// Whether `c` is one of the ten decimal digits.
pub open spec fn is_digit(c: char) -> bool {
    '0' <= c <= '9'
}

/// The value of the decimal digit `c`.
pub open spec fn digit_value(c: char) -> nat {
    (c as int - '0' as int) as nat
}

/// The number that the decimal digits `digits` write.
pub open spec fn decimal(digits: Seq<char>) -> nat
    decreases digits.len(),
{
    if digits.len() == 0 {
        0
    } else {
        10 * decimal(digits.drop_last()) + digit_value(digits.last())
    }
}

/// Whether `s` holds decimal digits only.
pub open spec fn all_digits(s: Seq<char>) -> bool {
    forall|k: int| 0 <= k < s.len() ==> is_digit(#[trigger] s[k])
}

/// `field` without the plus sign that may stand in front of a count.
pub open spec fn unsigned(field: Seq<char>) -> Seq<char> {
    if field.len() > 0 && field[0] == '+' {
        field.skip(1)
    } else {
        field
    }
}

/// Whether `field` writes a count: one or more decimal digits, with or without a
/// plus sign in front, whose value fits in `usize`.
pub open spec fn is_count(field: Seq<char>) -> bool {
    let digits = unsigned(field);
    digits.len() > 0 && all_digits(digits) && decimal(digits) <= usize::MAX
}

/// The count that `field` writes; zero if it writes none.
pub open spec fn count_of(field: Seq<char>) -> nat {
    if is_count(field) {
        decimal(unsigned(field))
    } else {
        0
    }
}

/// A longer numeral is not smaller than the numeral it starts with.
pub proof fn lemma_decimal_grows(digits: Seq<char>, n: int)
    requires
        0 <= n <= digits.len(),
    ensures
        decimal(digits.take(n)) <= decimal(digits),
    decreases digits.len(),
{
    if n == digits.len() {
        assert(digits.take(n) =~= digits);
    } else {
        lemma_decimal_grows(digits.drop_last(), n);
        assert(digits.drop_last().take(n) =~= digits.take(n));
    }
}

/// Reads the count in `field`. A field that writes no count, as the `-` that
/// stands for a binary file, reads as zero.
pub fn parse_count(field: &[char]) -> (count: usize)
    ensures
        count == count_of(field@),
{
    let start: usize = if field.len() > 0 && field[0] == '+' {
        1
    } else {
        0
    };
    let ghost digits = unsigned(field@);
    assert(digits =~= field@.skip(start as int));
    if start == field.len() {
        return 0;
    }
    let mut value: usize = 0;
    let mut i: usize = start;
    while i < field.len()
        invariant
            start <= i <= field@.len(),
            digits == unsigned(field@),
            digits == field@.skip(start as int),
            all_digits(digits.take(i - start)),
            value == decimal(digits.take(i - start)),
        decreases field@.len() - i,
    {
        let c = field[i];
        let ghost longer = digits.take(i - start + 1);
        proof {
            assert(longer.drop_last() =~= digits.take(i - start));
            assert(longer.last() == c);
            lemma_decimal_grows(digits, i - start + 1);
        }
        if c < '0' || c > '9' {
            assert(!is_digit(digits[i - start]));
            return 0;
        }
        let digit = (c as u32 - '0' as u32) as usize;
        assert(digit == digit_value(c));
        match value.checked_mul(10) {
            Some(tens) => match tens.checked_add(digit) {
                Some(next) => {
                    value = next;
                },
                None => {
                    return 0;
                },
            },
            None => {
                return 0;
            },
        }
        assert forall|k: int| 0 <= k < longer.len() implies is_digit(#[trigger] longer[k]) by {
            if k < i - start {
                assert(is_digit(digits.take(i - start)[k]));
            }
        }
        i += 1;
    }
    assert(digits.take(i - start) =~= digits);
    value
}

/// The fields of a line of file statistics: the line split at its first two
/// tabs. The third field runs to the end of the line and may hold tabs.
pub open spec fn stat_fields(line: Seq<char>) -> Seq<Seq<char>> {
    let first = next_or_end(line, '\t', 0);
    if first >= line.len() {
        seq![line]
    } else {
        let second = next_or_end(line, '\t', first + 1);
        if second >= line.len() {
            seq![line.take(first), line.skip(first + 1)]
        } else {
            seq![line.take(first), line.subrange(first + 1, second), line.skip(second + 1)]
        }
    }
}

/// Splits `line` at its first two tabs.
pub fn split_fields<'a>(line: &'a [char]) -> (fields: Vec<&'a [char]>)
    ensures
        fields@.len() == stat_fields(line@).len(),
        forall|k: int| 0 <= k < fields@.len() ==> (#[trigger] fields@[k])@ == stat_fields(line@)[k],
{
    let mut fields: Vec<&'a [char]> = Vec::new();
    let first = find_from(line, '\t', 0);
    if first >= line.len() {
        assert(line@.subrange(0, line@.len() as int) =~= line@);
        fields.push(slice_subrange(line, 0, line.len()));
        return fields;
    }
    fields.push(slice_subrange(line, 0, first));
    let second = find_from(line, '\t', first + 1);
    if second >= line.len() {
        fields.push(slice_subrange(line, first + 1, line.len()));
        return fields;
    }
    fields.push(slice_subrange(line, first + 1, second));
    fields.push(slice_subrange(line, second + 1, line.len()));
    fields
}

} // verus!
