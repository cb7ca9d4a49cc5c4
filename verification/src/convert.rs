//! The converter: classifies the lines of an SRT document by their
//! position in the 4-line block cycle, parses each timing line, and
//! pairs it with the caption line after it to form one LRC output line.

use vstd::prelude::*;
use crate::text::{
    is_number, str_to_nat, dec_of, split_on, lines_of, split_vec, split_lines, parse_u32,
    u32_to_dec, lemma_deep_view_index, lemma_deep_view_push, LINE_FEED, DIGIT_ZERO,
};

verus! {

/// ASCII `':'`.
pub const COLON: u8 = 0x3a;

/// ASCII `','`.
pub const COMMA: u8 = 0x2c;

/// ASCII `'-'`.
pub const DASH: u8 = 0x2d;

/// ASCII `'>'`.
pub const GREATER: u8 = 0x3e;

/// ASCII `'['`.
pub const LBRACKET: u8 = 0x5b;

/// ASCII `']'`.
pub const RBRACKET: u8 = 0x5d;

/// ASCII `'.'`.
pub const DOT: u8 = 0x2e;

/// ASCII `' '`.
pub const SPACE: u8 = 0x20;

/// The start time of one cue: whole minutes with the hours folded in,
/// and the seconds within the minute as the timing line gave them.
#[derive(PartialEq, Eq, Structural, Clone, Copy, Debug)]
pub struct Timestamp {
    pub minutes: u32,
    pub seconds: u32,
}

/// Why a timing line, and with it the whole conversion, is rejected.
#[derive(PartialEq, Eq, Structural, Clone, Copy, Debug)]
pub enum ConvertError {
    /// The timing line has no `-->` separator.
    MissingArrow,
    /// The start time has fewer than three `:`-separated fields.
    MissingFields,
    /// A numeric field is empty or holds a byte that is no digit.
    BadNumber,
    /// The minutes or the seconds do not fit in 32 bits.
    Overflow,
}

/// The bytes `-->` stand in `s` at position `i`.
pub open spec fn arrow_at(s: Seq<u8>, i: int) -> bool {
    &&& 0 <= i
    &&& i + 3 <= s.len()
    &&& s[i] == DASH
    &&& s[i + 1] == DASH
    &&& s[i + 2] == GREATER
}

/// The position of the first `-->` in `s` at or after `i`, if any.
pub open spec fn find_arrow_from(s: Seq<u8>, i: int) -> Option<int>
    decreases s.len() - i,
{
    if i < 0 || i + 3 > s.len() {
        None
    } else if arrow_at(s, i) {
        Some(i)
    } else {
        find_arrow_from(s, i + 1)
    }
}

/// The position of the first `-->` in `s`, if any.
pub open spec fn find_arrow(s: Seq<u8>) -> Option<int> {
    find_arrow_from(s, 0)
}

/// The first `-->` of a line stands inside it.
proof fn lemma_find_arrow_in_range(s: Seq<u8>, i: int)
    ensures
        match find_arrow_from(s, i) {
            Some(p) => i <= p && p + 3 <= s.len() && arrow_at(s, p),
            None => true,
        },
    decreases s.len() - i,
{
    if !(i < 0 || i + 3 > s.len()) && !arrow_at(s, i) {
        lemma_find_arrow_in_range(s, i + 1);
    }
}

/// Scans for the first `-->`, matching `find_arrow`.
fn find_arrow_exec(s: &Vec<u8>) -> (r: Option<usize>)
    ensures
        match r {
            Some(i) => find_arrow(s@) == Some(i as int),
            None => find_arrow(s@) == None::<int>,
        },
{
    if s.len() < 3 {
        return None;
    }
    let mut i: usize = 0;
    while i <= s.len() - 3
        invariant
            s@.len() >= 3,
            i <= s@.len(),
            find_arrow(s@) == find_arrow_from(s@, i as int),
        decreases s@.len() - i,
    {
        if s[i] == DASH && s[i + 1] == DASH && s[i + 2] == GREATER {
            return Some(i);
        }
        i += 1;
    }
    None
}

/// The minutes and seconds that the timing line `line` denotes, or the
/// reason it is rejected.  The line is split at its first `-->`; the
/// left half is split on `:` into at least three fields; the third
/// field is split on `,` and its first part taken; then the minutes
/// are `hours * 60 + minutes` and the seconds stand alone.  Values
/// that do not fit in 32 bits are rejected as `Overflow`.
pub open spec fn spec_timing(line: Seq<u8>) -> Result<(nat, nat), ConvertError> {
    match find_arrow(line) {
        None => Err(ConvertError::MissingArrow),
        Some(p) => {
            let fields = split_on(line.take(p), COLON);
            if fields.len() < 3 {
                Err(ConvertError::MissingFields)
            } else {
                let secs = split_on(fields[2], COMMA);
                if !is_number(fields[0]) || !is_number(fields[1]) || !is_number(secs[0]) {
                    Err(ConvertError::BadNumber)
                } else {
                    let m = str_to_nat(fields[0]) * 60 + str_to_nat(fields[1]);
                    let s = str_to_nat(secs[0]);
                    if m > u32::MAX || s > u32::MAX {
                        Err(ConvertError::Overflow)
                    } else {
                        Ok((m, s))
                    }
                }
            }
        },
    }
}

/// Copies the first `n` bytes of `v`.
fn take_prefix(v: &Vec<u8>, n: usize) -> (r: Vec<u8>)
    requires
        n <= v@.len(),
    ensures
        r@ == v@.take(n as int),
{
    let mut r: Vec<u8> = Vec::new();
    let mut i: usize = 0;
    while i < n
        invariant
            i <= n,
            n <= v@.len(),
            r@ == v@.take(i as int),
        decreases n - i,
    {
        r.push(v[i]);
        proof {
            assert(r@ =~= v@.take(i as int + 1));
        }
        i += 1;
    }
    r
}

/// Tests whether `v` is a non-empty run of digits, matching `is_number`.
fn is_number_exec(v: &Vec<u8>) -> (r: bool)
    ensures
        r == is_number(v@),
{
    if v.len() == 0 {
        return false;
    }
    let mut i: usize = 0;
    while i < v.len()
        invariant
            v@.len() > 0,
            i <= v@.len(),
            forall|j: int| 0 <= j < i ==> crate::text::is_digit(v@[j]),
        decreases v@.len() - i,
    {
        let b = v[i];
        if !(0x30 <= b && b <= 0x39) {
            return false;
        }
        i += 1;
    }
    true
}

/// Parses one timing line, matching `spec_timing` result for result
/// and error for error.
pub fn parse_timing_line(line: &Vec<u8>) -> (r: Result<Timestamp, ConvertError>)
    ensures
        match r {
            Ok(ts) => spec_timing(line@) == Ok::<(nat, nat), ConvertError>(
                (ts.minutes as nat, ts.seconds as nat),
            ),
            Err(e) => spec_timing(line@) == Err::<(nat, nat), ConvertError>(e),
        },
{
    let p = match find_arrow_exec(line) {
        Some(p) => p,
        None => {
            return Err(ConvertError::MissingArrow);
        },
    };
    proof {
        lemma_find_arrow_in_range(line@, 0);
    }
    let left = take_prefix(line, p);
    let fields = split_vec(&left, COLON);
    if fields.len() < 3 {
        return Err(ConvertError::MissingFields);
    }
    proof {
        lemma_deep_view_index(&fields, 0);
        lemma_deep_view_index(&fields, 1);
        lemma_deep_view_index(&fields, 2);
    }
    let secs = split_vec(&fields[2], COMMA);
    proof {
        lemma_deep_view_index(&secs, 0);
    }
    if !is_number_exec(&fields[0]) || !is_number_exec(&fields[1]) || !is_number_exec(&secs[0]) {
        return Err(ConvertError::BadNumber);
    }
    let hours = parse_u32(&fields[0]);
    let minutes = parse_u32(&fields[1]);
    let seconds = parse_u32(&secs[0]);
    match (hours, minutes, seconds) {
        (Some(h), Some(m), Some(s)) => {
            let total = h as u64 * 60 + m as u64;
            if total > u32::MAX as u64 {
                Err(ConvertError::Overflow)
            } else {
                Ok(Timestamp { minutes: total as u32, seconds: s })
            }
        },
        _ => {
            Err(ConvertError::Overflow)
        },
    }
}

/// The seconds of a cue as two or more digits: one leading zero pads
/// a single digit, larger values keep all their digits.
pub open spec fn two_digit_of(s: nat) -> Seq<u8> {
    if s < 10 {
        seq![DIGIT_ZERO] + dec_of(s)
    } else {
        dec_of(s)
    }
}

/// One LRC output line: `[minutes:seconds.00] text`, the minutes
/// unpadded, the seconds padded to two digits, and the hundredths
/// always the literal `00`.
pub open spec fn cue_line(m: nat, s: nat, text: Seq<u8>) -> Seq<u8> {
    seq![LBRACKET] + dec_of(m) + seq![COLON] + two_digit_of(s) + seq![
        DOT,
        DIGIT_ZERO,
        DIGIT_ZERO,
        RBRACKET,
        SPACE,
    ] + text
}

/// Builds the LRC output line for one cue, matching `cue_line`.
pub fn format_cue(ts: &Timestamp, text: &Vec<u8>) -> (r: Vec<u8>)
    ensures
        r@ == cue_line(ts.minutes as nat, ts.seconds as nat, text@),
{
    let mut r: Vec<u8> = Vec::new();
    r.push(LBRACKET);
    let mut minutes = u32_to_dec(ts.minutes);
    r.append(&mut minutes);
    r.push(COLON);
    if ts.seconds < 10 {
        r.push(DIGIT_ZERO);
    }
    let mut seconds = u32_to_dec(ts.seconds);
    r.append(&mut seconds);
    r.push(DOT);
    r.push(DIGIT_ZERO);
    r.push(DIGIT_ZERO);
    r.push(RBRACKET);
    r.push(SPACE);
    let mut i: usize = 0;
    let ghost head = r@;
    while i < text.len()
        invariant
            i <= text@.len(),
            r@ == head + text@.take(i as int),
        decreases text@.len() - i,
    {
        r.push(text[i]);
        proof {
            assert(r@ =~= head + text@.take(i as int + 1));
        }
        i += 1;
    }
    proof {
        assert(text@.take(text@.len() as int) =~= text@);
        assert(r@ =~= cue_line(ts.minutes as nat, ts.seconds as nat, text@));
    }
    r
}

/// The output lines for the lines of an SRT document from position `i`
/// on, counting positions from 0: the line at a position `p` with
/// `p % 4 == 1` (the second line of its 4-line block) is parsed as a
/// timing line, and when a line follows it the two become one output
/// line; every other line produces nothing.  The first rejected timing
/// line rejects the whole document, and a timing line that no line
/// follows is still parsed before the walk ends.
pub open spec fn spec_convert_lines(lines: Seq<Seq<u8>>, i: int) -> Result<
    Seq<Seq<u8>>,
    ConvertError,
>
    decreases lines.len() - i,
{
    if i < 0 || i >= lines.len() {
        Ok(Seq::<Seq<u8>>::empty())
    } else if i % 4 == 1 {
        match spec_timing(lines[i]) {
            Err(e) => Err(e),
            Ok((m, s)) => {
                if i + 1 < lines.len() {
                    match spec_convert_lines(lines, i + 1) {
                        Err(e) => Err(e),
                        Ok(rest) => Ok(seq![cue_line(m, s, lines[i + 1])] + rest),
                    }
                } else {
                    Ok(Seq::<Seq<u8>>::empty())
                }
            },
        }
    } else {
        spec_convert_lines(lines, i + 1)
    }
}

/// The output lines for the whole SRT text: its lines walked from the
/// first position.
pub open spec fn spec_convert(text: Seq<u8>) -> Result<Seq<Seq<u8>>, ConvertError> {
    spec_convert_lines(lines_of(text), 0)
}

/// Converts SRT text into its LRC output lines, matching
/// `spec_convert`: one output line per cue, or the error of the first
/// rejected timing line.
pub fn srt_to_lrc(text: &Vec<u8>) -> (r: Result<Vec<Vec<u8>>, ConvertError>)
    ensures
        match r {
            Ok(out) => spec_convert(text@) == Ok::<Seq<Seq<u8>>, ConvertError>(out.deep_view()),
            Err(e) => spec_convert(text@) == Err::<Seq<Seq<u8>>, ConvertError>(e),
        },
{
    let lines = split_lines(text);
    let ghost gl: Seq<Seq<u8>> = lines.deep_view();
    let mut out: Vec<Vec<u8>> = Vec::new();
    let mut i: usize = 0;
    while i < lines.len()
        invariant
            i <= lines@.len(),
            gl.len() == lines@.len(),
            lines.deep_view() == gl,
            gl == lines_of(text@),
            spec_convert_lines(gl, 0) == (match spec_convert_lines(gl, i as int) {
                Ok(rest) => Ok::<Seq<Seq<u8>>, ConvertError>(out.deep_view() + rest),
                Err(e) => Err::<Seq<Seq<u8>>, ConvertError>(e),
            }),
        decreases lines@.len() - i,
    {
        proof {
            lemma_deep_view_index(&lines, i as int);
        }
        if i % 4 == 1 {
            let ts = match parse_timing_line(&lines[i]) {
                Ok(ts) => ts,
                Err(e) => {
                    return Err(e);
                },
            };
            if i + 1 < lines.len() {
                proof {
                    lemma_deep_view_index(&lines, i as int + 1);
                }
                let cue = format_cue(&ts, &lines[i + 1]);
                let ghost prev = out;
                out.push(cue);
                proof {
                    lemma_deep_view_push(prev, out, cue);
                    assert(out.deep_view() =~= prev.deep_view().push(cue@));
                    if let Ok(rest) = spec_convert_lines(gl, i as int + 1) {
                        assert(prev.deep_view() + (seq![cue@] + rest) =~= out.deep_view() + rest);
                    }
                }
            }
        }
        i += 1;
    }
    proof {
        assert(out.deep_view() + Seq::<Seq<u8>>::empty() =~= out.deep_view());
    }
    Ok(out)
}

/// The bytes of the destination file: every output line terminated
/// with one line feed, as the writer lays them down.
pub open spec fn joined_lines(ls: Seq<Seq<u8>>) -> Seq<u8>
    decreases ls.len(),
{
    if ls.len() == 0 {
        Seq::<u8>::empty()
    } else {
        joined_lines(ls.drop_last()) + ls.last() + seq![LINE_FEED]
    }
}

/// Joins output lines into file bytes, matching `joined_lines`.
pub fn render_lines(ls: &Vec<Vec<u8>>) -> (r: Vec<u8>)
    ensures
        r@ == joined_lines(ls.deep_view()),
{
    let mut r: Vec<u8> = Vec::new();
    let mut i: usize = 0;
    while i < ls.len()
        invariant
            i <= ls@.len(),
            ls.deep_view().len() == ls@.len(),
            r@ == joined_lines(ls.deep_view().take(i as int)),
        decreases ls@.len() - i,
    {
        proof {
            lemma_deep_view_index(ls, i as int);
        }
        let line = &ls[i];
        let mut j: usize = 0;
        let ghost head = r@;
        while j < line.len()
            invariant
                j <= line@.len(),
                r@ == head + line@.take(j as int),
            decreases line@.len() - j,
        {
            r.push(line[j]);
            proof {
                assert(r@ =~= head + line@.take(j as int + 1));
            }
            j += 1;
        }
        r.push(LINE_FEED);
        proof {
            assert(line@.take(line@.len() as int) =~= line@);
            assert(ls.deep_view().take(i as int + 1).drop_last() =~= ls.deep_view().take(i as int));
            assert(r@ =~= joined_lines(ls.deep_view().take(i as int + 1)));
        }
        i += 1;
    }
    proof {
        assert(ls.deep_view().take(ls@.len() as int) =~= ls.deep_view());
    }
    r
}

/// Converts a whole SRT document into the destination file's bytes:
/// the output lines joined, each closed with its line feed.
pub fn convert_document(text: &Vec<u8>) -> (r: Result<Vec<u8>, ConvertError>)
    ensures
        match r {
            Ok(bytes) => spec_convert(text@) is Ok && bytes@ == joined_lines(
                spec_convert(text@)->Ok_0,
            ),
            Err(e) => spec_convert(text@) == Err::<Seq<Seq<u8>>, ConvertError>(e),
        },
{
    match srt_to_lrc(text) {
        Ok(lines) => Ok(render_lines(&lines)),
        Err(e) => Err(e),
    }
}

} // verus!
