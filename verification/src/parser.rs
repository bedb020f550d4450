//! The grammar of one index line: a name, four decimal numbers, each field
//! set off by a tab, and a line ending.

use crate::error::Error;
use crate::fai::{FaiEntry, FaiRecord};
use vstd::prelude::*;

verus! {

/// An ASCII decimal digit.
pub open spec fn is_digit(c: char) -> bool {
    '0' <= c && c <= '9'
}

/// The value of a decimal digit.
pub open spec fn digit_value(c: char) -> nat {
    (c as u32 - '0' as u32) as nat
}

/// Where the run of digits that starts at `from` ends.
pub open spec fn digits_end(s: Seq<char>, from: int) -> int
    decreases s.len() - from,
{
    if 0 <= from < s.len() && is_digit(s[from]) {
        digits_end(s, from + 1)
    } else {
        from
    }
}

/// The number that the digits `s[from..to)` write in base ten.
pub open spec fn decimal(s: Seq<char>, from: int, to: int) -> nat
    decreases to - from,
{
    if to <= from {
        0
    } else {
        decimal(s, from, to - 1) * 10 + digit_value(s[to - 1])
    }
}

/// Where the first tab at or after `from` stands; the length of `s` if there
/// is none.
pub open spec fn tab_from(s: Seq<char>, from: int) -> int
    decreases s.len() - from,
{
    if 0 <= from < s.len() && s[from] != '\t' {
        tab_from(s, from + 1)
    } else {
        from
    }
}

/// A tab stands at `at`.
pub open spec fn tab_at(s: Seq<char>, at: int) -> bool {
    0 <= at < s.len() && s[at] == '\t'
}

/// A line ending, `\n` or `\r\n`, starts at `at`.
pub open spec fn line_ending_at(s: Seq<char>, at: int) -> bool {
    ||| 0 <= at < s.len() && s[at] == '\n'
    ||| 0 <= at && at + 1 < s.len() && s[at] == '\r' && s[at + 1] == '\n'
}

/// A number that fits in 64 bits starts at `from` and ends before `to`.
pub open spec fn number_at(s: Seq<char>, from: int, to: int) -> bool {
    &&& to == digits_end(s, from)
    &&& from < to
    &&& decimal(s, from, to) <= u64::MAX
}

/// What a line of the index says, if it is one: the name runs up to the first
/// tab, then come length, offset, bases per line and bytes per line, each a
/// run of digits, with a tab between two fields and a line ending after the
/// last. What follows the line ending is not looked at.
pub open spec fn parsed_line(s: Seq<char>) -> Option<FaiRecord> {
    let n = tab_from(s, 0);
    let a = digits_end(s, n + 1);
    let b = digits_end(s, a + 1);
    let c = digits_end(s, b + 1);
    let d = digits_end(s, c + 1);
    if tab_at(s, n) && number_at(s, n + 1, a) && tab_at(s, a) && number_at(s, a + 1, b) && tab_at(
        s,
        b,
    ) && number_at(s, b + 1, c) && tab_at(s, c) && number_at(s, c + 1, d) && line_ending_at(s, d) {
        Some(
            FaiRecord {
                name: s.subrange(0, n),
                length: decimal(s, n + 1, a) as u64,
                offset: decimal(s, a + 1, b) as u64,
                line_bases: decimal(s, b + 1, c) as u64,
                line_width: decimal(s, c + 1, d) as u64,
            },
        )
    } else {
        None
    }
}

/// A run of digits ends at or after its start, and within the text.
pub proof fn lemma_digits_end_bounds(s: Seq<char>, from: int)
    requires
        0 <= from <= s.len(),
    ensures
        from <= digits_end(s, from) <= s.len(),
    decreases s.len() - from,
{
    if from < s.len() && is_digit(s[from]) {
        lemma_digits_end_bounds(s, from + 1);
    }
}

/// More digits never write a smaller number.
pub proof fn lemma_decimal_grows(s: Seq<char>, from: int, mid: int, to: int)
    requires
        from <= mid <= to,
    ensures
        decimal(s, from, mid) <= decimal(s, from, to),
    decreases to - mid,
{
    if mid < to {
        lemma_decimal_grows(s, from, mid, to - 1);
    }
}

/// The characters of a string.
pub fn chars_of(s: &str) -> (v: Vec<char>)
    ensures
        v@ == s@,
{
    let mut v: Vec<char> = Vec::new();
    for c in it: s.chars()
        invariant
            v@ == it.seq().take(it.index() as int),
            it.seq() == s@,
    {
        v.push(c);
    }
    v
}

/// Reads the number that starts at `from`: its value and where it ends.
fn scan_number(s: &Vec<char>, from: usize) -> (r: Option<(u64, usize)>)
    requires
        from <= s.len(),
    ensures
        match r {
            Some((value, to)) => number_at(s@, from as int, to as int) && value == decimal(
                s@,
                from as int,
                to as int,
            ) && to <= s.len(),
            None => !number_at(s@, from as int, digits_end(s@, from as int)),
        },
{
    let mut i: usize = from;
    let mut value: u64 = 0;
    while i < s.len() && s[i] >= '0' && s[i] <= '9'
        invariant
            from <= i <= s.len(),
            digits_end(s@, from as int) == digits_end(s@, i as int),
            value == decimal(s@, from as int, i as int),
        decreases s.len() - i,
    {
        let digit: u64 = (s[i] as u64) - ('0' as u64);
        assert(digit == digit_value(s@[i as int]));
        proof {
            lemma_digits_end_bounds(s@, i + 1);
            lemma_decimal_grows(s@, from as int, i + 1, digits_end(s@, from as int));
        }
        if value > (u64::MAX - digit) / 10 {
            return None;
        }
        value = value * 10 + digit;
        i += 1;
    }
    if i == from {
        None
    } else {
        Some((value, i))
    }
}

/// Reads one line of the index, line ending included.
pub fn parse_chars(s: &Vec<char>) -> (r: Result<FaiEntry, Error>)
    ensures
        match r {
            Ok(entry) => parsed_line(s@) == Some(entry@),
            Err(e) => parsed_line(s@) is None && e is ParseError,
        },
{
    let mut name = String::new();
    let mut n: usize = 0;
    while n < s.len() && s[n] != '\t'
        invariant
            n <= s.len(),
            tab_from(s@, 0) == tab_from(s@, n as int),
            name@ == s@.subrange(0, n as int),
        decreases s.len() - n,
    {
        name.push(s[n]);
        assert(s@.subrange(0, n + 1) =~= s@.subrange(0, n as int).push(s@[n as int]));
        n += 1;
    }
    if n >= s.len() {
        return Err(Error::ParseError);
    }
    let (length, a) = match scan_number(s, n + 1) {
        Some(found) => found,
        None => { return Err(Error::ParseError); },
    };
    if a >= s.len() || s[a] != '\t' {
        return Err(Error::ParseError);
    }
    let (offset, b) = match scan_number(s, a + 1) {
        Some(found) => found,
        None => { return Err(Error::ParseError); },
    };
    if b >= s.len() || s[b] != '\t' {
        return Err(Error::ParseError);
    }
    let (line_bases, c) = match scan_number(s, b + 1) {
        Some(found) => found,
        None => { return Err(Error::ParseError); },
    };
    if c >= s.len() || s[c] != '\t' {
        return Err(Error::ParseError);
    }
    let (line_width, d) = match scan_number(s, c + 1) {
        Some(found) => found,
        None => { return Err(Error::ParseError); },
    };
    let ends = (d < s.len() && s[d] == '\n') || (d < s.len() - 1 && s[d] == '\r' && s[d + 1]
        == '\n');
    if !ends {
        return Err(Error::ParseError);
    }
    Ok(FaiEntry { name, length, offset, line_bases, line_width })
}

/// Reads one line of the index: `name`, tab, `length`, tab, `offset`, tab,
/// `line_bases`, tab, `line_width`, line ending.
pub fn parse_fai_line(input: &str) -> (r: Result<FaiEntry, Error>)
    ensures
        match r {
            Ok(entry) => parsed_line(input@) == Some(entry@),
            Err(e) => parsed_line(input@) is None && e is ParseError,
        },
{
    let s = chars_of(input);
    parse_chars(&s)
}

} // verus!
