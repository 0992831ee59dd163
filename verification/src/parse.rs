//! The text form of a list of connections: one connection on a line, as two
//! decimal identifiers with a comma between them, under a header line.

use vstd::prelude::*;
use vstd::slice::slice_subrange;

verus! {

pub const NEWLINE: u8 = 10;

pub const COMMA: u8 = 44;

pub const PLUS: u8 = 43;

/// What is wrong with a line.
#[derive(Clone, Copy, Debug, PartialEq, Eq, Structural)]
pub enum LineFault {
    /// The line holds no comma, and so one field only.
    MissingField,
    /// One of the first two fields is no identifier.
    BadNumber,
}

/// The first line of a text that is no connection, and what is wrong with
/// it. Lines count from zero, the header being line zero.
#[derive(Clone, Copy, Debug, PartialEq, Eq, Structural)]
pub struct ParseError {
    pub line: usize,
    pub fault: LineFault,
}

/// A space, or one of the control characters from the tabulator to the
/// carriage return.
pub open spec fn is_blank(b: u8) -> bool {
    b == 32 || (9 <= b && b <= 13)
}

pub open spec fn is_digit(b: u8) -> bool {
    48 <= b && b <= 57
}

/// The number of bytes that stand before the first `stop`, or the length
/// where there is none.
pub open spec fn run_len(s: Seq<u8>, stop: u8) -> nat
    decreases s.len(),
{
    if s.len() == 0 || s[0] == stop {
        0
    } else {
        1 + run_len(s.skip(1), stop)
    }
}

/// The text without its leading blanks.
pub open spec fn trim_start(s: Seq<u8>) -> Seq<u8>
    decreases s.len(),
{
    if s.len() > 0 && is_blank(s[0]) {
        trim_start(s.skip(1))
    } else {
        s
    }
}

/// The text without its trailing blanks.
pub open spec fn trim_end(s: Seq<u8>) -> Seq<u8>
    decreases s.len(),
{
    if s.len() > 0 && is_blank(s.last()) {
        trim_end(s.drop_last())
    } else {
        s
    }
}

/// The text without the blanks at its two ends.
pub open spec fn trimmed(s: Seq<u8>) -> Seq<u8> {
    trim_end(trim_start(s))
}

/// The number that a run of decimal digits writes.
pub open spec fn digits_value(s: Seq<u8>) -> nat
    decreases s.len(),
{
    if s.len() == 0 {
        0
    } else {
        digits_value(s.drop_last()) * 10 + (s.last() - 48) as nat
    }
}

pub open spec fn all_digits(s: Seq<u8>) -> bool {
    forall|i: int| 0 <= i < s.len() ==> is_digit(#[trigger] s[i])
}

/// The identifier that a field writes: one decimal digit or more, after a
/// plus sign or none, no greater than `u32::MAX`.
pub open spec fn number_of(field: Seq<u8>) -> Option<u32> {
    let body = if field.len() > 0 && field[0] == PLUS {
        field.skip(1)
    } else {
        field
    };
    if body.len() > 0 && all_digits(body) && digits_value(body) <= u32::MAX {
        Some(digits_value(body) as u32)
    } else {
        None
    }
}

/// What a line holds: nothing where it is blank, else the connection that
/// its first two fields write. Fields end at a comma; what follows the
/// second field is not read.
pub open spec fn record_of(line: Seq<u8>) -> Result<Option<(u32, u32)>, LineFault> {
    let text = trimmed(line);
    let first = run_len(text, COMMA);
    if text.len() == 0 {
        Ok(None)
    } else if first >= text.len() {
        Err(LineFault::MissingField)
    } else {
        let rest = text.skip(first as int + 1);
        let second = run_len(rest, COMMA);
        match (number_of(text.take(first as int)), number_of(rest.take(second as int))) {
            (Some(a), Some(b)) => Ok(Some((a, b))),
            _ => Err(LineFault::BadNumber),
        }
    }
}

/// The lines of a text: the runs between its line feeds, without them.
/// A line feed at the very end starts no further line.
pub open spec fn lines_of(text: Seq<u8>) -> Seq<Seq<u8>>
    decreases text.len(),
{
    let first = run_len(text, NEWLINE);
    if text.len() == 0 {
        Seq::empty()
    } else if first < text.len() {
        seq![text.take(first as int)] + lines_of(text.skip(first as int + 1))
    } else {
        seq![text]
    }
}

/// The connections that the first `upto` lines hold, the header left out,
/// up to `max` of them; or the first line among these that is wrong.
pub open spec fn gathered(lines: Seq<Seq<u8>>, max: nat, upto: nat) -> Result<
    Seq<(u32, u32)>,
    ParseError,
>
    decreases upto,
{
    if upto <= 1 {
        Ok(Seq::empty())
    } else {
        match gathered(lines, max, (upto - 1) as nat) {
            Err(e) => Err(e),
            Ok(found) => if found.len() >= max {
                Ok(found)
            } else {
                match record_of(lines[upto - 1]) {
                    Ok(None) => Ok(found),
                    Ok(Some(pair)) => Ok(found.push(pair)),
                    Err(fault) => Err(ParseError { line: (upto - 1) as usize, fault: fault }),
                }
            },
        }
    }
}

/// The connections that a text holds, up to `max` of them.
pub open spec fn edges_of(text: Seq<u8>, max: nat) -> Result<Seq<(u32, u32)>, ParseError> {
    gathered(lines_of(text), max, lines_of(text).len())
}

/// Once a line is wrong or `max` connections are found, further lines
/// change nothing.
pub proof fn lemma_gathered_settles(lines: Seq<Seq<u8>>, max: nat, at: nat, upto: nat)
    requires
        1 <= at <= upto,
        match gathered(lines, max, at) {
            Ok(found) => found.len() >= max,
            Err(_) => true,
        },
    ensures
        gathered(lines, max, upto) == gathered(lines, max, at),
    decreases upto,
{
    if at < upto {
        lemma_gathered_settles(lines, max, at, (upto - 1) as nat);
    }
}

/// The leading digits of a number write no more than the number.
pub proof fn lemma_digits_grow(s: Seq<u8>, k: int)
    requires
        0 <= k <= s.len(),
    ensures
        digits_value(s.take(k)) <= digits_value(s),
    decreases s.len(),
{
    if k < s.len() {
        lemma_digits_grow(s.drop_last(), k);
        assert(s.drop_last().take(k) =~= s.take(k));
    } else {
        assert(s.take(k) =~= s);
    }
}

/// Counts the bytes of `text` before the first `stop`.
pub fn run(text: &[u8], stop: u8) -> (n: usize)
    ensures
        n == run_len(text@, stop),
        n <= text@.len(),
{
    let mut i: usize = 0;
    proof {
        assert(text@.skip(0) =~= text@);
    }
    while i < text.len() && text[i] != stop
        invariant
            i <= text@.len(),
            run_len(text@, stop) == i + run_len(text@.skip(i as int), stop),
        decreases text@.len() - i,
    {
        proof {
            assert(text@.skip(i as int).skip(1) =~= text@.skip(i + 1));
        }
        i += 1;
    }
    i
}

/// Whether the byte is a blank.
pub fn blank(b: u8) -> (out: bool)
    ensures
        out == is_blank(b),
{
    b == 32 || (9 <= b && b <= 13)
}

/// The line without the blanks at its two ends.
pub fn trim(line: &[u8]) -> (out: &[u8])
    ensures
        out@ == trimmed(line@),
{
    let mut lo: usize = 0;
    proof {
        assert(line@.skip(0) =~= line@);
    }
    while lo < line.len() && blank(line[lo])
        invariant
            lo <= line@.len(),
            trim_start(line@) == trim_start(line@.skip(lo as int)),
        decreases line@.len() - lo,
    {
        proof {
            assert(line@.skip(lo as int).skip(1) =~= line@.skip(lo + 1));
        }
        lo += 1;
    }
    let mut hi: usize = line.len();
    proof {
        assert(line@.subrange(lo as int, hi as int) =~= line@.skip(lo as int));
    }
    while hi > lo && blank(line[hi - 1])
        invariant
            lo <= hi <= line@.len(),
            trim_end(line@.skip(lo as int)) == trim_end(line@.subrange(lo as int, hi as int)),
        decreases hi,
    {
        proof {
            assert(line@.subrange(lo as int, hi as int).drop_last() =~= line@.subrange(
                lo as int,
                hi - 1,
            ));
        }
        hi -= 1;
    }
    slice_subrange(line, lo, hi)
}

/// Reads a field as an identifier.
pub fn parse_number(field: &[u8]) -> (out: Option<u32>)
    ensures
        out == number_of(field@),
{
    let n = field.len();
    let start: usize = if n > 0 && field[0] == PLUS {
        1
    } else {
        0
    };
    if start == n {
        return None;
    }
    let ghost body = field@.skip(start as int);
    proof {
        assert(field@.skip(0) =~= field@);
    }
    let mut value: u64 = 0;
    let mut i: usize = start;
    proof {
        assert(body.take(0) =~= Seq::empty());
    }
    while i < n
        invariant
            start <= i <= n,
            n == field@.len(),
            body == field@.skip(start as int),
            body == (if field@.len() > 0 && field@[0] == PLUS {
                field@.skip(1)
            } else {
                field@
            }),
            body.len() > 0,
            all_digits(body.take(i - start)),
            value == digits_value(body.take(i - start)),
            value <= u32::MAX,
        decreases n - i,
    {
        let b = field[i];
        if b < 48 || b > 57 {
            proof {
                assert(body[i - start] == b);
            }
            return None;
        }
        let next = value * 10 + (b - 48) as u64;
        proof {
            let longer = body.take(i + 1 - start);
            assert(longer.drop_last() =~= body.take(i - start));
            assert(longer.last() == b);
            assert(all_digits(longer)) by {
                assert forall|k: int| 0 <= k < longer.len() implies is_digit(#[trigger] longer[k]) by {
                    if k < i - start {
                        assert(body.take(i - start)[k] == longer[k]);
                    }
                }
            }
            lemma_digits_grow(body, i + 1 - start);
        }
        if next > 0xffff_ffff {
            return None;
        }
        value = next;
        i += 1;
    }
    proof {
        assert(body.take(n - start) =~= body);
    }
    Some(value as u32)
}

/// Reads a line: nothing where it is blank, else the connection that it
/// writes, or what is wrong with it.
pub fn parse_line(line: &[u8]) -> (out: Result<Option<(u32, u32)>, LineFault>)
    ensures
        out == record_of(line@),
{
    let text = trim(line);
    if text.len() == 0 {
        return Ok(None);
    }
    let first = run(text, COMMA);
    if first >= text.len() {
        return Err(LineFault::MissingField);
    }
    let rest = slice_subrange(text, first + 1, text.len());
    let second = run(rest, COMMA);
    proof {
        assert(text@.subrange(0, first as int) =~= text@.take(first as int));
        assert(text@.subrange(first + 1, text@.len() as int) =~= text@.skip(first + 1));
        assert(rest@.subrange(0, second as int) =~= rest@.take(second as int));
    }
    let a = parse_number(slice_subrange(text, 0, first));
    let b = parse_number(slice_subrange(rest, 0, second));
    match (a, b) {
        (Some(a), Some(b)) => Ok(Some((a, b))),
        _ => Err(LineFault::BadNumber),
    }
}

/// Reads the connections of a text, up to `max_records` of them: skips the
/// header line and every blank line, and stops at the first line that is
/// wrong.
pub fn read_edges(text: &[u8], max_records: usize) -> (out: Result<Vec<(u32, u32)>, ParseError>)
    ensures
        match out {
            Ok(edges) => edges_of(text@, max_records as nat) == Ok::<Seq<(u32, u32)>, ParseError>(
                edges@,
            ),
            Err(e) => edges_of(text@, max_records as nat) == Err::<Seq<(u32, u32)>, ParseError>(e),
        },
        out is Ok ==> out->Ok_0@.len() <= max_records,
{
    let ghost lines = lines_of(text@);
    let ghost max = max_records as nat;
    let mut edges: Vec<(u32, u32)> = Vec::new();
    let mut pos: usize = 0;
    let mut line_no: usize = 0;
    proof {
        assert(text@.skip(0) =~= text@);
        assert(lines.skip(0) =~= lines);
    }
    while pos < text.len()
        invariant
            pos <= text@.len(),
            line_no <= pos,
            line_no <= lines.len(),
            lines == lines_of(text@),
            max == max_records as nat,
            lines.skip(line_no as int) == lines_of(text@.skip(pos as int)),
            gathered(lines, max, line_no as nat) == Ok::<Seq<(u32, u32)>, ParseError>(edges@),
            edges@.len() <= max || line_no == 0,
            line_no == 0 ==> edges@.len() == 0,
        decreases text@.len() - pos,
    {
        if line_no >= 1 && edges.len() >= max_records {
            proof {
                lemma_gathered_settles(lines, max, line_no as nat, lines.len());
            }
            return Ok(edges);
        }
        let rest = slice_subrange(text, pos, text.len());
        let n = run(rest, NEWLINE);
        let line = slice_subrange(rest, 0, n);
        proof {
            assert(rest@ =~= text@.skip(pos as int));
            assert(line@ =~= rest@.take(n as int));
            let tail = lines.skip(line_no as int);
            assert(tail.len() > 0);
            assert(tail[0] == line@) by {
                if n >= rest@.len() {
                    assert(rest@.take(n as int) =~= rest@);
                }
            }
            assert(lines[line_no as int] == line@);
        }
        if line_no >= 1 {
            match parse_line(line) {
                Ok(None) => {},
                Ok(Some(pair)) => {
                    edges.push(pair);
                },
                Err(fault) => {
                    proof {
                        lemma_gathered_settles(lines, max, (line_no + 1) as nat, lines.len());
                    }
                    return Err(ParseError { line: line_no, fault: fault });
                },
            }
        }
        proof {
            let tail = lines.skip(line_no as int);
            assert(tail.skip(1) =~= lines.skip(line_no + 1));
            if n < rest@.len() {
                assert(rest@.skip(n + 1) =~= text@.skip(pos + n + 1));
                assert((seq![rest@.take(n as int)] + lines_of(rest@.skip(n + 1))).skip(1)
                    =~= lines_of(rest@.skip(n + 1)));
            } else {
                assert(text@.skip(text@.len() as int) =~= Seq::<u8>::empty());
                assert(seq![rest@].skip(1) =~= Seq::<Seq<u8>>::empty());
            }
        }
        pos = if n < rest.len() {
            pos + n + 1
        } else {
            text.len()
        };
        line_no += 1;
    }
    proof {
        assert(text@.skip(pos as int) =~= Seq::<u8>::empty());
        assert(lines.skip(line_no as int).len() == 0);
    }
    Ok(edges)
}

} // verus!
