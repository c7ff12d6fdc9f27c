//! Characters, lines and depth prefixes of a dependency dump.
use vstd::prelude::*;

verus! {

/// `String::push` of the standard library: the string afterwards is the
/// string before with `c` appended as its last character. Taken on trust
/// from the documentation of `push`.
pub assume_specification[ String::push ](s: &mut String, c: char)
    ensures
        final(s)@ == old(s)@.push(c),
;

/// The characters of `text`, in order.
pub fn to_chars(text: &str) -> (out: Vec<char>)
    ensures
        out@ == text@,
{
    let mut out: Vec<char> = Vec::new();
    for c in it: text.chars()
        invariant
            out@ == it.seq().take(it.index() as int),
            it.seq() == text@,
    {
        out.push(c);
    }
    out
}

/// The string made of `chars`, in order.
pub fn to_string(chars: &Vec<char>) -> (out: String)
    ensures
        out@ == chars@,
{
    let mut out = String::new();
    let mut i: usize = 0;
    while i < chars.len()
        invariant
            i <= chars.len(),
            out@ == chars@.take(i as int),
        decreases chars.len() - i,
    {
        out.push(chars[i]);
        i += 1;
    }
    out
}

/// The views of a list of character vectors.
pub open spec fn rows(v: Seq<Vec<char>>) -> Seq<Seq<char>> {
    Seq::new(v.len(), |i: int| v[i]@)
}

/// First position at or after `from` that holds a line feed; the length of
/// the text if there is none.
pub open spec fn line_end(text: Seq<char>, from: int) -> int
    decreases text.len() - from,
{
    if from < 0 || from >= text.len() {
        text.len() as int
    } else if text[from] == '\n' {
        from
    } else {
        line_end(text, from + 1)
    }
}

/// A line without the carriage return that precedes its line feed.
pub open spec fn strip_cr(line: Seq<char>) -> Seq<char> {
    if line.len() > 0 && line.last() == '\r' {
        line.drop_last()
    } else {
        line
    }
}

/// The lines of `text` that start at or after position `from`.
///
/// A line ends at a line feed, or at a carriage return directly followed by
/// a line feed; neither belongs to the line. The last line needs no
/// terminator, and a text that ends with a terminator has no empty last line.
pub open spec fn lines_from(text: Seq<char>, from: int) -> Seq<Seq<char>>
    decreases text.len() - from,
    via lines_from_terminates
{
    if from < 0 || from >= text.len() {
        Seq::empty()
    } else {
        let end = line_end(text, from);
        if end >= text.len() {
            seq![text.subrange(from, text.len() as int)]
        } else {
            seq![strip_cr(text.subrange(from, end))] + lines_from(text, end + 1)
        }
    }
}

#[via_fn]
proof fn lines_from_terminates(text: Seq<char>, from: int) {
    if 0 <= from < text.len() {
        lemma_line_end_bounds(text, from);
    }
}

/// The lines of `text`.
pub open spec fn lines(text: Seq<char>) -> Seq<Seq<char>> {
    lines_from(text, 0)
}

proof fn lemma_line_end_bounds(text: Seq<char>, from: int)
    requires
        0 <= from <= text.len(),
    ensures
        from <= line_end(text, from) <= text.len(),
        line_end(text, from) < text.len() ==> text[line_end(text, from)] == '\n',
    decreases text.len() - from,
{
    if from < text.len() && text[from] != '\n' {
        lemma_line_end_bounds(text, from + 1);
    }
}

/// Splits a text into its lines.
pub fn split_lines(text: &Vec<char>) -> (out: Vec<Vec<char>>)
    ensures
        rows(out@) == lines(text@),
{
    let mut out: Vec<Vec<char>> = Vec::new();
    let mut start: usize = 0;
    while start < text.len()
        invariant
            start <= text.len(),
            lines(text@) == rows(out@) + lines_from(text@, start as int),
        decreases text.len() - start,
    {
        let mut line: Vec<char> = Vec::new();
        let mut i: usize = start;
        while i < text.len() && text[i] != '\n'
            invariant
                start <= i <= text.len(),
                line@ == text@.subrange(start as int, i as int),
                line_end(text@, start as int) == line_end(text@, i as int),
            decreases text.len() - i,
        {
            line.push(text[i]);
            i += 1;
        }
        let ghost before = rows(out@);
        let ghost whole = line@;
        if i < text.len() {
            let n = line.len();
            if n > 0 && line[n - 1] == '\r' {
                line.pop();
            }
            assert(line@ == strip_cr(whole));
            out.push(line);
            assert(rows(out@) == before + seq![strip_cr(whole)]);
            start = i + 1;
        } else {
            out.push(line);
            assert(rows(out@) == before + seq![whole]);
            start = i;
        }
    }
    out
}

/// Whether `c` is one of the ten ASCII digits.
pub open spec fn is_digit(c: char) -> bool {
    '0' <= c && c <= '9'
}

/// The number that a decimal digit stands for.
pub open spec fn digit_value(c: char) -> nat {
    (c as int - '0' as int) as nat
}

/// First position at or after `from` that holds no ASCII digit; the length
/// of `s` if there is none.
pub open spec fn digits_end(s: Seq<char>, from: int) -> int
    decreases s.len() - from,
{
    if 0 <= from < s.len() && is_digit(s[from]) {
        digits_end(s, from + 1)
    } else {
        from
    }
}

/// The number written by a sequence of decimal digits.
pub open spec fn decimal(s: Seq<char>) -> nat
    decreases s.len(),
{
    if s.len() == 0 {
        0
    } else {
        decimal(s.drop_last()) * 10 + digit_value(s.last())
    }
}

/// The depth that a line declares: the number written by its leading run of
/// digits. There is none where the line does not start with a digit, holds
/// nothing but digits, or writes a number that `usize` cannot hold.
pub open spec fn line_depth(line: Seq<char>) -> Option<nat> {
    let n = digits_end(line, 0);
    if 0 < n < line.len() && decimal(line.take(n)) <= usize::MAX {
        Some(decimal(line.take(n)))
    } else {
        None
    }
}

/// What follows the depth prefix of a line.
pub open spec fn package_part(line: Seq<char>) -> Seq<char> {
    line.skip(digits_end(line, 0))
}

proof fn lemma_digits_end_bounds(s: Seq<char>, from: int)
    requires
        0 <= from <= s.len(),
    ensures
        from <= digits_end(s, from) <= s.len(),
    decreases s.len() - from,
{
    if from < s.len() && is_digit(s[from]) {
        lemma_digits_end_bounds(s, from + 1);
    }
}

proof fn lemma_decimal_grows(s: Seq<char>, i: int, j: int)
    requires
        0 <= i <= j <= s.len(),
    ensures
        decimal(s.take(i)) <= decimal(s.take(j)),
    decreases j - i,
{
    if i < j {
        lemma_decimal_grows(s, i, j - 1);
        assert(s.take(j).drop_last() == s.take(j - 1));
    }
}

fn is_digit_char(c: char) -> (b: bool)
    ensures
        b == is_digit(c),
{
    c >= '0' && c <= '9'
}

/// Reads the depth prefix of a line: the depth, and where the prefix ends.
pub fn read_depth(line: &Vec<char>) -> (r: Option<(usize, usize)>)
    ensures
        match r {
            Some((depth, at)) => line_depth(line@) == Some(depth as nat) && at == digits_end(
                line@,
                0,
            ),
            None => line_depth(line@) is None,
        },
{
    let mut i: usize = 0;
    let mut value: usize = 0;
    while i < line.len() && is_digit_char(line[i])
        invariant
            i <= line.len(),
            digits_end(line@, 0) == digits_end(line@, i as int),
            value == decimal(line@.take(i as int)),
        decreases line.len() - i,
    {
        let d: usize = (line[i] as u32 - '0' as u32) as usize;
        proof {
            assert(line@.take(i + 1).drop_last() == line@.take(i as int));
            lemma_digits_end_bounds(line@, i + 1);
            lemma_decimal_grows(line@, i + 1, digits_end(line@, 0));
        }
        let shifted: usize = match value.checked_mul(10) {
            Some(v) => v,
            None => { return None; },
        };
        value = match shifted.checked_add(d) {
            Some(v) => v,
            None => { return None; },
        };
        i += 1;
    }
    if i == 0 || i == line.len() {
        None
    } else {
        Some((value, i))
    }
}

/// Copies what follows position `at` of a line.
pub fn tail_of(line: &Vec<char>, at: usize) -> (out: Vec<char>)
    requires
        at <= line.len(),
    ensures
        out@ == line@.skip(at as int),
{
    let mut out: Vec<char> = Vec::new();
    let mut i: usize = at;
    while i < line.len()
        invariant
            at <= i <= line.len(),
            out@ == line@.subrange(at as int, i as int),
        decreases line.len() - i,
    {
        out.push(line[i]);
        i += 1;
    }
    out
}

} // verus!
