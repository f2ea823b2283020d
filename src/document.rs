use crate::annotated::{optimized, total_len, AnnotatedText, Segment};
use crate::changes::{add_change_spec, span, spans_of, Changes};
use crate::diagnostics::{diagnostic, diagnostic_of, Diagnostic, DiagnosticView};
use crate::dictionary::{filter_dictionary, flags_word, spelling, suppressed, Dictionary};
use crate::issues::{matches_view, reconciled, shifted_issue, IssueStore, Match, MatchView};
use crate::plaintext::{annotate, annotation_of, lines_text, InvalidLine};
use crate::source::{
    can_replace, line_count, line_span, offset_of, position_of, replaced, Position,
    SourceFile,
};
use crate::text::{byte_len, lemma_len_concat, str_byte_len};
use std::ops::Range;
use vstd::prelude::*;

verus! {

/// Number of line feeds in `s`.
pub open spec fn newlines(s: Seq<char>) -> nat
    decreases s.len(),
{
    if s.len() == 0 {
        0
    } else {
        newlines(s.drop_last()) + if s.last() == '\n' {
            1nat
        } else {
            0nat
        }
    }
}

/// Number of lines that `s` spans once inserted: one more than its line feeds.
pub fn line_total(s: &str) -> (r: usize)
    requires
        s@.len() < usize::MAX,
    ensures
        r == newlines(s@) + 1,
{
    let mut n: usize = 1;
    let mut i: usize = 0;
    assert(s@.take(0) =~= Seq::<char>::empty());
    for c in it: s.chars()
        invariant
            it.seq() == s@,
            i == it.index(),
            s@.len() < usize::MAX,
            n == newlines(s@.take(i as int)) + 1,
            n <= i + 1,
    {
        assert(s@.take(i + 1).drop_last() =~= s@.take(i as int));
        assert(c == s@[i as int]);
        if c == '\n' {
            n = n + 1;
        }
        i = i + 1;
    }
    assert(s@.take(s@.len() as int) =~= s@);
    n
}

pub proof fn lemma_subrange_len(t: Seq<char>, a: int, b: int)
    requires
        0 <= a <= b <= t.len(),
    ensures
        byte_len(t.subrange(a, b)) == byte_len(t.take(b)) - byte_len(t.take(a)),
        byte_len(t.take(b)) <= byte_len(t),
{
    assert(t.take(b) =~= t.take(a) + t.subrange(a, b));
    lemma_len_concat(t.take(a), t.subrange(a, b));
    assert(t =~= t.take(b) + t.skip(b));
    lemma_len_concat(t.take(b), t.skip(b));
}

/// Why an edit or a command was refused; the document is left as it was.
#[derive(Debug, Clone, Copy, PartialEq, Eq, Structural)]
pub enum EditError {
    /// A position outside the text.
    InvalidPosition,
    /// A range that is reversed or splits a character.
    InvalidRange,
    /// Line or byte counts too large to compute with.
    Overflow,
}

/// Lines `start.line ..= end.line` as a half-open range.
pub open spec fn edit_lines(start: Position, end: Position) -> (int, int) {
    (start.line as int, end.line as int + 1)
}

/// An edit of `start .. end` into `s` can be applied: both positions exist and are ordered,
/// and the line and byte counts it moves fit in `usize`.
pub open spec fn edit_ok(
    t: Seq<char>,
    changed: Seq<(int, int)>,
    issues: Seq<MatchView>,
    start: Position,
    end: Position,
    s: Seq<char>,
) -> bool {
    let a = offset_of(t, start)->0;
    let b = offset_of(t, end)->0;
    &&& offset_of(t, start) is Some
    &&& offset_of(t, end) is Some
    &&& a <= b
    &&& end.line < usize::MAX
    &&& s.len() < usize::MAX
    &&& crate::changes::fits_shift(changed, edit_lines(start, end), (newlines(s) + 1) as int)
    &&& crate::issues::can_shift(issues, a, b, byte_len(s) as int)
    &&& can_replace(t, a, b)
}

/// One open document: its text, the lines changed since the last check, its matches, and the
/// version that the editor gave it.
pub struct Document {
    pub source: SourceFile,
    pub version: Option<i32>,
    pub matches: IssueStore,
    pub changed_lines: Changes,
}

/// The diagnostics of the matches whose ranges convert to editor positions, in order.
pub open spec fn diagnostics_of(t: Seq<char>, s: Seq<MatchView>) -> Seq<DiagnosticView>
    decreases s.len(),
{
    if s.len() == 0 {
        Seq::empty()
    } else {
        let m = s.last();
        let rest = diagnostics_of(t, s.drop_last());
        match (position_of(t, m.range.0), position_of(t, m.range.1)) {
            (Some(a), Some(b)) => rest.push(diagnostic_of(m, a, b)),
            _ => rest,
        }
    }
}

impl Document {
    /// A document whose lines are all still to be checked.
    pub fn new(source: SourceFile, version: Option<i32>) -> (r: Self)
        ensures
            r.source@ == source@,
            r.version == version,
            r.matches@ == Seq::<MatchView>::empty(),
            r.changed_lines@ == (if 2 * line_count(source@) <= usize::MAX {
                seq![(0int, line_count(source@) as int)]
            } else {
                Seq::<(int, int)>::empty()
            }),
    {
        let n = source.lines().len();
        let mut changed_lines = Changes::new();
        // Initially everything is changed
        let all = 0..n;
        if changed_lines.can_add(&all, n) {
            changed_lines.add_change(all, n);
            assert(changed_lines@ =~= seq![(0int, n as int)]) by {
                reveal_with_fuel(crate::changes::sort_by_start, 2);
                reveal_with_fuel(crate::changes::merge_runs, 2);
                let one = seq![(0int, n as int)];
                assert(Seq::new(0, |i: int| (0int, 0int)).push((0int, n as int)) =~= one);
                assert(one.drop_last() =~= Seq::<(int, int)>::empty());
            }
        }
        Document { source, version, matches: IssueStore::new(), changed_lines }
    }

    /// Applies one change from the editor: `range` replaced by `text`, or the whole text
    /// replaced when there is no range.
    pub fn apply_change(
        &mut self,
        range: Option<(Position, Position)>,
        text: String,
        version: i32,
    ) -> (r: Result<(), EditError>)
        ensures
            r is Err ==> final(self).source@ == old(self).source@ && final(self).matches@ == old(
                self,
            ).matches@ && final(self).changed_lines@ == old(self).changed_lines@
                && final(self).version == old(self).version,
            r is Ok ==> final(self).version == Some(version),
            range is None ==> r is Ok && final(self).source@ == text@ && final(self).matches@
                == Seq::<MatchView>::empty() && final(self).changed_lines@ == Seq::<
                (int, int),
            >::empty(),
            range matches Some((start, end)) ==> (r is Ok <==> edit_ok(
                old(self).source@,
                old(self).changed_lines@,
                old(self).matches@,
                start,
                end,
                text@,
            )),
            range matches Some((start, end)) ==> (r is Ok ==> ({
                let t = old(self).source@;
                let a = offset_of(t, start)->0;
                let b = offset_of(t, end)->0;
                &&& offset_of(t, start) is Some
                &&& offset_of(t, end) is Some
                &&& final(self).source@ == replaced(t, a, b, text@)
                &&& final(self).changed_lines@ == add_change_spec(
                    old(self).changed_lines@,
                    edit_lines(start, end),
                    (newlines(text@) + 1) as int,
                )
                &&& final(self).matches@ == Seq::new(
                    old(self).matches@.len(),
                    |i: int| shifted_issue(old(self).matches@[i], a, b, byte_len(text@) as int),
                )
            })),
    {
        match range {
            None => {
                // No range means replace the whole document
                self.source = SourceFile::new(text);
                self.version = Some(version);
                self.matches.clear();
                self.changed_lines.clear();
                Ok(())
            },
            Some((start, end)) => {
                let a = match self.source.to_offset(start) {
                    Some(o) => o,
                    None => {
                        return Err(EditError::InvalidPosition);
                    },
                };
                let b = match self.source.to_offset(end) {
                    Some(o) => o,
                    None => {
                        return Err(EditError::InvalidPosition);
                    },
                };
                if a > b {
                    return Err(EditError::InvalidRange);
                }
                let last_line = end.line as usize;
                let len = str_byte_len(text.as_str());
                proof {
                    crate::text::lemma_take_mono(text@, 0, text@.len() as int);
                    assert(text@.take(text@.len() as int) =~= text@);
                    assert(text@.take(0) =~= Seq::<char>::empty());
                }
                if last_line == usize::MAX || text.as_str().unicode_len() == usize::MAX {
                    return Err(EditError::Overflow);
                }
                let count = line_total(text.as_str());
                let lines = (start.line as usize)..(last_line + 1);
                if !self.changed_lines.can_add(&lines, count) {
                    return Err(EditError::Overflow);
                }
                if !self.matches.can_shift(a, b, len) {
                    return Err(EditError::Overflow);
                }
                if self.source.replace(a..b, text.as_str()).is_err() {
                    return Err(EditError::InvalidRange);
                }
                self.changed_lines.add_change(lines, count);
                self.version = Some(version);
                // Update positions for matches behind the change
                self.matches.shift_for_edit(a, b, len);
                Ok(())
            },
        }
    }

    /// Takes in the text the editor saved. Where it differs from the text held, the held text is
    /// replaced and every line is marked as changed; returns whether that happened.
    pub fn save(&mut self, text: Option<String>) -> (r: bool)
        ensures
            r == (text matches Some(s) && s@ != old(self).source@),
            !r ==> final(self).source@ == old(self).source@ && final(self).changed_lines@ == old(
                self,
            ).changed_lines@,
            r ==> final(self).source@ == text->0@ && final(self).changed_lines@ == (
            if crate::changes::fits_shift(
                old(self).changed_lines@,
                (0, line_count(text->0@) as int),
                line_count(text->0@) as int,
            ) {
                add_change_spec(
                    old(self).changed_lines@,
                    (0, line_count(text->0@) as int),
                    line_count(text->0@) as int,
                )
            } else {
                old(self).changed_lines@
            }),
            final(self).matches@ == old(self).matches@,
            final(self).version == old(self).version,
    {
        match text {
            Some(text) => {
                let differs = !crate::text::str_eq(text.as_str(), self.source.text());
                if differs {
                    self.source = SourceFile::new(text);
                    let n = self.source.lines().len();
                    let all = 0..n;
                    if self.changed_lines.can_add(&all, n) {
                        self.changed_lines.add_change(all, n);
                    }
                }
                differs
            },
            None => false,
        }
    }

    /// Marks lines `start.line ..= end.line` as changed, so that the next check covers them.
    pub fn mark_lines(&mut self, start: Position, end: Position) -> (r: Result<(), EditError>)
        ensures
            r is Ok <==> start.line <= end.line && end.line < usize::MAX && crate::changes::fits_shift(
                old(self).changed_lines@,
                edit_lines(start, end),
                end.line - start.line + 1,
            ),
            r is Ok ==> final(self).changed_lines@ == add_change_spec(
                old(self).changed_lines@,
                edit_lines(start, end),
                end.line - start.line + 1,
            ),
            r is Err ==> final(self).changed_lines@ == old(self).changed_lines@,
            final(self).source@ == old(self).source@,
            final(self).matches@ == old(self).matches@,
    {
        if start.line > end.line {
            return Err(EditError::InvalidRange);
        }
        if end.line as usize == usize::MAX {
            return Err(EditError::Overflow);
        }
        let lines = (start.line as usize)..(end.line as usize + 1);
        let count = (end.line - start.line) as usize + 1;
        if !self.changed_lines.can_add(&lines, count) {
            return Err(EditError::Overflow);
        }
        self.changed_lines.add_change(lines, count);
        Ok(())
    }

    /// Hands out the changed line ranges and forgets them.
    pub fn take_changes(&mut self) -> (r: Vec<Range<usize>>)
        ensures
            spans_of(r@) == old(self).changed_lines@,
            final(self).changed_lines@ == Seq::<(int, int)>::empty(),
            final(self).source@ == old(self).source@,
            final(self).matches@ == old(self).matches@,
    {
        let r = clone_ranges(self.changed_lines.changes());
        self.changed_lines.clear();
        r
    }

    /// The byte range and the payload to check for changed lines `lines`; `None` where the
    /// payload is empty and nothing needs checking.
    pub fn prepare_check(&self, lines: Range<usize>) -> (r: Result<
        Option<(Range<usize>, AnnotatedText)>,
        InvalidLine,
    >)
        ensures
            match annotation_of(self.source@, lines.start as int, lines.end as int) {
                None => r is Err,
                Some((span, payload)) => {
                    let (opt, cut) = optimized(payload);
                    r matches Ok(x) && (x matches Some((range, annot)) ==> range.start == span.0
                        + cut && range.end == span.1 && annot@ == opt && total_len(opt) > 0) && (
                    x is None ==> total_len(opt) == 0)
                },
            },
    {
        let ghost t = self.source@;
        let (mut range, mut annot) = match annotate(&self.source, lines) {
            Ok(p) => p,
            Err(e) => {
                return Err(e);
            },
        };
        let _ = self.source.len();
        proof {
            let (span, payload) = annotation_of(t, lines.start as int, lines.end as int)->0;
            crate::source::lemma_line_starts(t);
            let ps = crate::plaintext::para_start(t, lines.start as int);
            let pe = crate::plaintext::para_end(t, lines.end as int);
            crate::plaintext::lemma_para_bounds(t, lines.start as int, lines.end as int);
            if payload.len() > 0 {
                let a = line_span(t, ps).0;
                let b = line_span(t, pe - 1).1;
                let ls = crate::source::line_starts(t);
                if ps < pe {
                    assert(ls[ps] <= ls[pe - 1]);
                    assert(ls[pe - 1] <= line_span(t, pe - 1).1);
                }
                assert(b <= t.len());
                lemma_subrange_len(t, a, b);
                assert(payload =~= seq![Segment::Text(lines_text(t, ps, pe))]);
                assert(payload.drop_last() =~= Seq::<Segment>::empty());
                assert(total_len(Seq::<Segment>::empty()) == 0);
                assert(total_len(payload) == byte_len(lines_text(t, ps, pe)));
                assert(span.0 == byte_len(t.take(a)));
            } else {
                assert(total_len(payload) == 0);
            }
            crate::annotated::lemma_optimized_len(payload);
        }
        let cut = annot.optimize();
        range.start = range.start + cut;
        if annot.len() == 0 {
            return Ok(None);
        }
        Ok(Some((range, annot)))
    }

    /// Stores what a check of byte range `checked` reported: suppressed spelling matches are
    /// dropped, stored matches that touch `checked` give way, and the rest is sorted by start.
    pub fn finish_check(&mut self, checked: Range<usize>, found: Vec<Match>, dict: Option<&Dictionary>)
        ensures
            final(self).matches@ == reconciled(
                old(self).matches@,
                (checked.start as int, checked.end as int),
                match dict {
                    Some(d) => matches_view(found@).filter(
                        |m: MatchView| !suppressed(m, old(self).source@, d@),
                    ),
                    None => matches_view(found@),
                },
            ),
            final(self).source@ == old(self).source@,
            final(self).changed_lines@ == old(self).changed_lines@,
    {
        let kept = match dict {
            Some(d) => filter_dictionary(found, &self.source, d),
            None => found,
        };
        self.matches.reconcile(checked, kept);
    }

    /// Drops the matches that touch the range between two editor positions.
    pub fn ignore(&mut self, start: Position, end: Position) -> (r: Result<(), EditError>)
        ensures
            r is Ok <==> offset_of(old(self).source@, start) is Some && offset_of(
                old(self).source@,
                end,
            ) is Some,
            r is Ok ==> final(self).matches@ == crate::issues::clear_of(
                old(self).matches@,
                (offset_of(old(self).source@, start)->0, offset_of(old(self).source@, end)->0),
            ),
            r is Err ==> final(self).matches@ == old(self).matches@,
            final(self).source@ == old(self).source@,
    {
        let a = match self.source.to_offset(start) {
            Some(o) => o,
            None => {
                return Err(EditError::InvalidPosition);
            },
        };
        let b = match self.source.to_offset(end) {
            Some(o) => o,
            None => {
                return Err(EditError::InvalidPosition);
            },
        };
        self.matches.dismiss(a..b);
        Ok(())
    }

    /// The text between two editor positions.
    pub fn selection(&self, start: Position, end: Position) -> (r: Option<&str>)
        ensures
            r is Some <==> offset_of(self.source@, start) is Some && offset_of(self.source@, end)
                is Some && can_replace(
                self.source@,
                offset_of(self.source@, start)->0,
                offset_of(self.source@, end)->0,
            ),
            r matches Some(w) ==> w@ == crate::dictionary::flagged(
                self.source@,
                (offset_of(self.source@, start)->0, offset_of(self.source@, end)->0),
            )->0,
    {
        let a = match self.source.to_offset(start) {
            Some(o) => o,
            None => {
                return None;
            },
        };
        let b = match self.source.to_offset(end) {
            Some(o) => o,
            None => {
                return None;
            },
        };
        self.source.slice(a..b)
    }

    /// Drops the spelling matches that flag exactly `word`, once it is in a dictionary.
    pub fn remove_word(&mut self, word: &str)
        ensures
            final(self).matches@ == old(self).matches@.filter(
                |m: MatchView| !flags_word(m, old(self).source@, spelling(), word@),
            ),
            final(self).source@ == old(self).source@,
    {
        self.matches.remove_by_category_and_text("TYPOS", word, &self.source);
    }

    /// The diagnostics to publish, in the order of the matches.
    pub fn diagnostics(&self) -> (r: Vec<Diagnostic>)
        ensures
            Seq::new(r@.len(), |i: int| r@[i]@) == diagnostics_of(self.source@, self.matches@),
    {
        let ms = self.matches.matches();
        let ghost s = self.matches@;
        let mut r: Vec<Diagnostic> = Vec::new();
        let mut i: usize = 0;
        while i < ms.len()
            invariant
                0 <= i <= ms.len(),
                matches_view(ms@) == s,
                s == self.matches@,
                Seq::new(r@.len(), |k: int| r@[k]@) == diagnostics_of(
                    self.source@,
                    s.take(i as int),
                ),
            decreases ms.len() - i,
        {
            let m = &ms[i];
            let ghost before = r@;
            assert(s.take(i + 1).drop_last() =~= s.take(i as int));
            assert(s.take(i + 1).last() == m@);
            match (self.source.to_position(m.range.start), self.source.to_position(m.range.end)) {
                (Some(a), Some(b)) => {
                    r.push(diagnostic(m, a, b));
                    assert(Seq::new(r@.len(), |k: int| r@[k]@) =~= Seq::new(
                        before.len(),
                        |k: int| before[k]@,
                    ).push(r@[before.len() as int]@));
                },
                _ => {},
            }
            i += 1;
        }
        assert(s.take(ms.len() as int) =~= s);
        r
    }
}

/// A copy of each range.
fn clone_ranges(v: &Vec<Range<usize>>) -> (r: Vec<Range<usize>>)
    ensures
        spans_of(r@) == spans_of(v@),
{
    let mut r: Vec<Range<usize>> = Vec::new();
    for i in 0..v.len()
        invariant
            spans_of(r@) == spans_of(v@).take(i as int),
    {
        let ghost before = r@;
        let x = v[i].start..v[i].end;
        r.push(x);
        assert(r@ == before.push(x));
        assert(spans_of(r@) =~= spans_of(before).push(span(x)));
        assert(spans_of(r@) =~= spans_of(v@).take(i + 1));
    }
    assert(spans_of(v@).take(v@.len() as int) =~= spans_of(v@));
    r
}

} // verus!
