use crate::annotated::{AnnotatedText, Segment};
use crate::source::{line_count, line_range_ok, line_span, line_table, SourceFile};
use crate::text::{byte_len, is_blank, lemma_take_mono, str_is_blank};
use std::ops::Range;
use vstd::prelude::*;

verus! {

/// The characters of line `i`, its terminator included.
pub open spec fn line_text(t: Seq<char>, i: int) -> Seq<char> {
    t.subrange(line_span(t, i).0, line_span(t, i).1)
}

/// Moves `s` back over the non-blank lines before it: the start of its paragraph.
pub open spec fn para_start(t: Seq<char>, s: int) -> int
    decreases s,
{
    if s <= 0 || is_blank(line_text(t, s - 1)) {
        s
    } else {
        para_start(t, s - 1)
    }
}

/// Moves `e` forward over the non-blank lines from it on: the end of its paragraph.
pub open spec fn para_end(t: Seq<char>, e: int) -> int
    decreases line_count(t) - e,
{
    if e >= line_count(t) || is_blank(line_text(t, e)) {
        e
    } else {
        para_end(t, e + 1)
    }
}

/// Byte range from the start of line `s` to the end of line `e - 1`.
pub open spec fn byte_span(t: Seq<char>, s: int, e: int) -> (int, int) {
    (line_table(t)[s].0.byte as int, line_table(t)[e - 1].1.byte as int)
}

/// The text from the start of line `s` to the end of line `e - 1`.
pub open spec fn lines_text(t: Seq<char>, s: int, e: int) -> Seq<char> {
    t.subrange(line_span(t, s).0, line_span(t, e - 1).1)
}

/// A single blank line, checked as it is.
pub open spec fn blank_single(t: Seq<char>, s: int, e: int) -> bool {
    line_range_ok(t, s, e) && e == s + 1 && is_blank(line_text(t, s))
}

/// The outcome of `annotate` on lines `s .. e`: the byte range to check and the payload, or
/// `None` for lines that do not exist.
pub open spec fn annotation_of(t: Seq<char>, s: int, e: int) -> Option<((int, int), Seq<Segment>)> {
    if blank_single(t, s, e) {
        Some((byte_span(t, s, e), Seq::empty()))
    } else if s > line_count(t) {
        None
    } else {
        let ps = para_start(t, s);
        let pe = para_end(t, e);
        if !line_range_ok(t, ps, pe) {
            None
        } else if is_blank(lines_text(t, ps, pe)) {
            Some((byte_span(t, ps, pe), Seq::empty()))
        } else {
            Some((byte_span(t, ps, pe), seq![Segment::Text(lines_text(t, ps, pe))]))
        }
    }
}

pub proof fn lemma_para_bounds(t: Seq<char>, s: int, e: int)
    requires
        0 <= s,
    ensures
        0 <= para_start(t, s) <= s,
        e <= para_end(t, e),
    decreases s,
{
    if s > 0 && !is_blank(line_text(t, s - 1)) {
        lemma_para_bounds(t, s - 1, e);
    }
    lemma_para_end_bound(t, e);
}

proof fn lemma_para_end_bound(t: Seq<char>, e: int)
    ensures
        e <= para_end(t, e),
    decreases line_count(t) - e,
{
    if e < line_count(t) && !is_blank(line_text(t, e)) {
        lemma_para_end_bound(t, e + 1);
    }
}

/// The paragraph never reaches past a blank line after the edited lines.
pub proof fn lemma_para_end_stops(t: Seq<char>, e: int, j: int)
    requires
        0 <= e <= j < line_count(t),
        is_blank(line_text(t, j)),
    ensures
        para_end(t, e) <= j,
    decreases j - e,
{
    if e < j && !is_blank(line_text(t, e)) {
        lemma_para_end_stops(t, e + 1, j);
    }
}

/// The paragraph never reaches back past a blank line before the edited lines.
pub proof fn lemma_para_start_stops(t: Seq<char>, s: int, j: int)
    requires
        0 <= j < s,
        is_blank(line_text(t, j)),
    ensures
        para_start(t, s) > j,
    decreases s,
{
    if s - 1 > j && !is_blank(line_text(t, s - 1)) {
        lemma_para_start_stops(t, s - 1, j);
    }
}

/// Whatever lines `s .. e` are edited, the payload built for them ends before any blank line
/// at or after `e`: the lines past that blank line are never checked with them.
pub proof fn lemma_payload_stops_at_blank_line(t: Seq<char>, s: int, e: int, j: int)
    requires
        0 <= s,
        0 <= e <= j < line_count(t),
        is_blank(line_text(t, j)),
        byte_len(t) <= usize::MAX,
    ensures
        annotation_of(t, s, e) matches Some((span, _)) ==> span.1 <= line_table(t)[j].0.byte,
{
    crate::source::lemma_line_starts(t);
    let ls = crate::source::line_starts(t);
    if let Some((span, _)) = annotation_of(t, s, e) {
        let last = if blank_single(t, s, e) {
            s
        } else {
            lemma_para_end_stops(t, e, j);
            para_end(t, e) - 1
        };
        assert(last + 1 <= j);
        assert(ls[last + 1] <= ls[j]);
        lemma_take_mono(t, ls[last + 1], ls[j]);
        lemma_take_mono(t, ls[j], t.len() as int);
        assert(t.take(t.len() as int) =~= t);
    }
}

/// Lines `lines` could not be read from the text.
#[derive(Debug, Clone, Copy, PartialEq, Eq, Structural)]
pub struct InvalidLine;

/// Extends `lines` to whole paragraphs and builds the payload to check for them.
pub fn annotate(source: &SourceFile, lines: Range<usize>) -> (r: Result<
    (Range<usize>, AnnotatedText),
    InvalidLine,
>)
    ensures
        match annotation_of(source@, lines.start as int, lines.end as int) {
            Some((span, payload)) => r matches Ok((range, annot)) && range.start == span.0
                && range.end == span.1 && annot@ == payload,
            None => r is Err,
        },
{
    let ghost t = source@;
    let n = source.lines().len();
    // Skip white space
    if let Some((range, text)) = source.line_range(lines.start..lines.end) {
        if lines.end == lines.start + 1 && str_is_blank(text) {
            return Ok((range.0.byte..range.1.byte, AnnotatedText::new()));
        }
    }
    if lines.start > n {
        return Err(InvalidLine);
    }
    // Find start of paragraph
    let mut start = lines.start;
    while start > 0
        invariant
            0 <= start <= lines.start <= n,
            n == line_count(t),
            t == source@,
            para_start(t, start as int) == para_start(t, lines.start as int),
        ensures
            para_start(t, start as int) == start,
        decreases start,
    {
        let line = match source.line_range((start - 1)..start) {
            Some((_, text)) => text,
            None => {
                return Err(InvalidLine);
            },
        };
        if str_is_blank(line) {
            break;
        }
        start = start - 1;
    }
    // Find end of paragraph
    let mut end = lines.end;
    while end < n
        invariant
            lines.end <= end,
            n == line_count(t),
            t == source@,
            para_end(t, end as int) == para_end(t, lines.end as int),
        ensures
            para_end(t, end as int) == end,
        decreases n - end,
    {
        let line = match source.line_range(end..(end + 1)) {
            Some((_, text)) => text,
            None => {
                return Err(InvalidLine);
            },
        };
        if str_is_blank(line) {
            break;
        }
        end = end + 1;
    }
    let (range, text) = match source.line_range(start..end) {
        Some(p) => p,
        None => {
            return Err(InvalidLine);
        },
    };
    let mut annot = AnnotatedText::new();
    if !str_is_blank(text) {
        annot.add_text(String::from_str(text));
    }
    Ok((range.0.byte..range.1.byte, annot))
}

} // verus!
