use std::ops::Range;
use vstd::prelude::*;

verus! {

/// A half-open line range as plain integers.
pub open spec fn span(r: Range<usize>) -> (int, int) {
    (r.start as int, r.end as int)
}

/// Number of lines in `r` (zero for a reversed range).
pub open spec fn span_len(r: (int, int)) -> int {
    if r.1 > r.0 {
        r.1 - r.0
    } else {
        0
    }
}

/// Moves one endpoint that lies at or after `edit_end` by `shift`.
pub open spec fn shift_point(p: int, edit_end: int, shift: int) -> int {
    if p >= edit_end {
        p + shift
    } else {
        p
    }
}

/// An existing dirty range after an edit of `edit` that now spans `count` lines.
pub open spec fn shift_span(r: (int, int), edit: (int, int), count: int) -> (int, int) {
    let shift = count - span_len(edit);
    (shift_point(r.0, edit.1, shift), shift_point(r.1, edit.1, shift))
}

/// The dirty range that an edit of `edit` adds, once it spans `count` lines.
pub open spec fn edited_span(edit: (int, int), count: int) -> (int, int) {
    (edit.0, edit.1 + count - span_len(edit))
}

/// Places `x` after every element whose start is not greater than its own.
pub open spec fn insert_by_start(s: Seq<(int, int)>, x: (int, int)) -> Seq<(int, int)>
    decreases s.len(),
{
    if s.len() == 0 {
        seq![x]
    } else if s.last().0 <= x.0 {
        s.push(x)
    } else {
        insert_by_start(s.drop_last(), x).push(s.last())
    }
}

/// Stable sort by start.
pub open spec fn sort_by_start(s: Seq<(int, int)>) -> Seq<(int, int)>
    decreases s.len(),
{
    if s.len() == 0 {
        s
    } else {
        insert_by_start(sort_by_start(s.drop_last()), s.last())
    }
}

/// Left-to-right merge: a range that starts at or before the end of the running range is
/// absorbed into it.
pub open spec fn merge_runs(s: Seq<(int, int)>) -> Seq<(int, int)>
    decreases s.len(),
{
    if s.len() == 0 {
        s
    } else {
        let m = merge_runs(s.drop_last());
        let x = s.last();
        if m.len() > 0 && x.0 <= m.last().1 {
            let l = m.last();
            m.update(
                m.len() - 1,
                (if l.0 <= x.0 { l.0 } else { x.0 }, if l.1 >= x.1 { l.1 } else { x.1 }),
            )
        } else {
            m.push(x)
        }
    }
}

/// What the tracker holds after recording an edit of `edit` that now spans `count` lines.
pub open spec fn add_change_spec(s: Seq<(int, int)>, edit: (int, int), count: int) -> Seq<
    (int, int),
> {
    let shifted = Seq::new(s.len(), |i: int| shift_span(s[i], edit, count));
    merge_runs(sort_by_start(shifted.push(edited_span(edit, count))))
}

/// Sorted by start, and each range ends strictly before any later range starts.
pub open spec fn separated(s: Seq<(int, int)>) -> bool {
    forall|i: int, j: int| 0 <= i < j < s.len() ==> s[i].1 < s[j].0
}

pub open spec fn sorted_by_start(s: Seq<(int, int)>) -> bool {
    forall|i: int, j: int| 0 <= i < j < s.len() ==> s[i].0 <= s[j].0
}

proof fn lemma_insert_bound(s: Seq<(int, int)>, x: (int, int), b: int)
    requires
        forall|j: int| 0 <= j < s.len() ==> #[trigger] s[j].0 <= b,
        x.0 <= b,
    ensures
        insert_by_start(s, x).len() == s.len() + 1,
        forall|k: int| 0 <= k < insert_by_start(s, x).len() ==> #[trigger] insert_by_start(s, x)[k].0 <= b,
    decreases s.len(),
{
    if s.len() > 0 && s.last().0 > x.0 {
        lemma_insert_bound(s.drop_last(), x, b);
    }
}

proof fn lemma_insert_by_start(s: Seq<(int, int)>, x: (int, int))
    requires
        sorted_by_start(s),
    ensures
        sorted_by_start(insert_by_start(s, x)),
        insert_by_start(s, x).len() == s.len() + 1,
    decreases s.len(),
{
    if s.len() > 0 && s.last().0 > x.0 {
        let d = s.drop_last();
        lemma_insert_by_start(d, x);
        lemma_insert_bound(d, x, s.last().0);
    }
}

pub proof fn lemma_sort_by_start(s: Seq<(int, int)>)
    ensures
        sorted_by_start(sort_by_start(s)),
        sort_by_start(s).len() == s.len(),
    decreases s.len(),
{
    if s.len() > 0 {
        lemma_sort_by_start(s.drop_last());
        lemma_insert_by_start(sort_by_start(s.drop_last()), s.last());
    }
}

proof fn lemma_merge_runs(s: Seq<(int, int)>)
    requires
        sorted_by_start(s),
    ensures
        separated(merge_runs(s)),
        s.len() > 0 ==> merge_runs(s).len() > 0,
        forall|k: int|
            0 <= k < merge_runs(s).len() ==> #[trigger] merge_runs(s)[k].0 <= s.last().0,
    decreases s.len(),
{
    if s.len() > 0 {
        let d = s.drop_last();
        assert(sorted_by_start(d));
        lemma_merge_runs(d);
        let m = merge_runs(d);
        if d.len() > 0 {
            assert(d.last().0 <= s.last().0);
        }
    }
}

/// Recording any edit leaves the ranges sorted and pairwise apart: no two of them overlap or
/// touch.
pub proof fn lemma_add_change_separated(s: Seq<(int, int)>, edit: (int, int), count: int)
    ensures
        separated(add_change_spec(s, edit, count)),
{
    let shifted = Seq::new(s.len(), |i: int| shift_span(s[i], edit, count));
    let all = shifted.push(edited_span(edit, count));
    lemma_sort_by_start(all);
    lemma_merge_runs(sort_by_start(all));
}

/// The line ranges that changed since the last check.
pub struct Changes {
    changes: Vec<Range<usize>>,
}

pub open spec fn spans_of(v: Seq<Range<usize>>) -> Seq<(int, int)> {
    Seq::new(v.len(), |i: int| span(v[i]))
}

impl View for Changes {
    type V = Seq<(int, int)>;

    closed spec fn view(&self) -> Seq<(int, int)> {
        spans_of(self.changes@)
    }
}

proof fn lemma_spans_push(v: Seq<Range<usize>>, r: Range<usize>)
    ensures
        spans_of(v.push(r)) == spans_of(v).push(span(r)),
{
    assert(spans_of(v.push(r)) =~= spans_of(v).push(span(r)));
}

/// Room for the endpoints that an edit growing by `count` lines may move.
pub open spec fn fits_shift(s: Seq<(int, int)>, edit: (int, int), count: int) -> bool {
    &&& edit.0 <= edit.1
    &&& edit.1 + count <= usize::MAX
    &&& forall|i: int| 0 <= i < s.len() ==> s[i].0 + count <= usize::MAX && s[i].1 + count <= usize::MAX
}

impl Changes {
    /// Sorted, and no two ranges overlap or touch.
    #[verifier::type_invariant]
    closed spec fn inv(self) -> bool {
        separated(spans_of(self.changes@))
    }

    pub fn new() -> (r: Self)
        ensures
            r@ == Seq::<(int, int)>::empty(),
    {
        Changes { changes: Vec::new() }
    }

    /// Whether `add_change(range, len)` has room for its arithmetic.
    pub fn can_add(&self, range: &Range<usize>, len: usize) -> (r: bool)
        ensures
            r == fits_shift(self@, span(*range), len as int),
    {
        if range.start > range.end || range.end > usize::MAX - len {
            return false;
        }
        let mut i: usize = 0;
        while i < self.changes.len()
            invariant
                0 <= i <= self.changes.len(),
                forall|k: int|
                    0 <= k < i ==> self@[k].0 + len <= usize::MAX && self@[k].1 + len
                        <= usize::MAX,
            decreases self.changes.len() - i,
        {
            assert(self@[i as int] == span(self.changes@[i as int]));
            if self.changes[i].start > usize::MAX - len || self.changes[i].end > usize::MAX - len {
                return false;
            }
            i += 1;
        }
        true
    }

    /// Records that the lines of `range` were replaced by `len` lines.
    pub fn add_change(&mut self, range: Range<usize>, len: usize)
        requires
            fits_shift(old(self)@, span(range), len as int),
        ensures
            final(self)@ == add_change_spec(old(self)@, span(range), len as int),
            separated(final(self)@),
    {
        let ghost edit = span(range);
        let ghost s0 = self@;
        let removed: usize = range.end - range.start;
        // Shift existing ranges
        let mut shifted: Vec<Range<usize>> = Vec::new();
        let mut i: usize = 0;
        while i < self.changes.len()
            invariant
                0 <= i <= self.changes.len(),
                self@ == s0,
                removed == span_len(edit),
                shifted.len() == i,
                edit == span(range),
                fits_shift(s0, edit, len as int),
                spans_of(shifted@) =~= Seq::new(
                    i as nat,
                    |k: int| shift_span(s0[k], edit, len as int),
                ),
            decreases self.changes.len() - i,
        {
            let c = &self.changes[i];
            assert(s0[i as int] == span(self.changes@[i as int]));
            let start = if c.start >= range.end {
                c.start + len - removed
            } else {
                c.start
            };
            let end = if c.end >= range.end {
                c.end + len - removed
            } else {
                c.end
            };
            let r = start..end;
            proof {
                lemma_spans_push(shifted@, r);
            }
            shifted.push(r);
            assert(spans_of(shifted@) =~= Seq::new(
                (i + 1) as nat,
                |k: int| shift_span(s0[k], edit, len as int),
            ));
            i += 1;
        }
        shifted.push(range.start..range.end + len - removed);
        let ghost all = Seq::new(s0.len(), |k: int| shift_span(s0[k], edit, len as int)).push(
            edited_span(edit, len as int),
        );
        assert(spans_of(shifted@) =~= all);
        let sorted = sort_ranges(shifted);
        // Merge overlapping ranges
        let mut merged: Vec<Range<usize>> = Vec::new();
        let mut j: usize = 0;
        while j < sorted.len()
            invariant
                0 <= j <= sorted.len(),
                spans_of(merged@) == merge_runs(spans_of(sorted@).take(j as int)),
            decreases sorted.len() - j,
        {
            let c = &sorted[j];
            let ghost t = spans_of(sorted@).take(j as int + 1);
            assert(t.drop_last() =~= spans_of(sorted@).take(j as int));
            let n = merged.len();
            if n > 0 && c.start <= merged[n - 1].end {
                let s = if merged[n - 1].start <= c.start {
                    merged[n - 1].start
                } else {
                    c.start
                };
                let e = if merged[n - 1].end >= c.end {
                    merged[n - 1].end
                } else {
                    c.end
                };
                merged.set(n - 1, s..e);
            } else {
                merged.push(c.start..c.end);
            }
            assert(spans_of(merged@) =~= merge_runs(t));
            j += 1;
        }
        assert(spans_of(sorted@).take(sorted.len() as int) =~= spans_of(sorted@));
        proof {
            lemma_add_change_separated(s0, edit, len as int);
        }
        self.changes = merged;
    }

    pub fn changes(&self) -> (r: &Vec<Range<usize>>)
        ensures
            spans_of(r@) == self@,
            separated(self@),
    {
        proof {
            use_type_invariant(self);
        }
        &self.changes
    }

    pub fn clear(&mut self)
        ensures
            final(self)@ == Seq::<(int, int)>::empty(),
    {
        self.changes = Vec::new();
    }
}

/// Stable insertion sort of ranges by start.
fn sort_ranges(v: Vec<Range<usize>>) -> (r: Vec<Range<usize>>)
    ensures
        spans_of(r@) == sort_by_start(spans_of(v@)),
{
    let mut out: Vec<Range<usize>> = Vec::new();
    let mut i: usize = 0;
    while i < v.len()
        invariant
            0 <= i <= v.len(),
            spans_of(out@) == sort_by_start(spans_of(v@).take(i as int)),
        decreases v.len() - i,
    {
        let x = v[i].start..v[i].end;
        let ghost t = spans_of(v@).take(i as int + 1);
        assert(t.drop_last() =~= spans_of(v@).take(i as int));
        let ghost prev = spans_of(out@);
        // find insertion point: after every element whose start is not greater
        let mut k: usize = out.len();
        assert(prev.take(k as int) =~= prev);
        assert(prev.skip(k as int) =~= Seq::<(int, int)>::empty());
        assert(insert_by_start(prev, span(x)) =~= insert_by_start(prev.take(k as int), span(x))
            + prev.skip(k as int));
        while k > 0 && out[k - 1].start > x.start
            invariant
                0 <= k <= out.len(),
                spans_of(out@) == prev,
                forall|m: int| k <= m < out.len() ==> out@[m].start > x.start,
                insert_by_start(prev, span(x)) == insert_by_start(prev.take(k as int), span(x))
                    + prev.skip(k as int),
            decreases k,
        {
            proof {
                let p = prev.take(k as int);
                assert(p.last().0 > span(x).0);
                assert(p.drop_last() =~= prev.take(k - 1));
                assert(insert_by_start(p, span(x)) =~= insert_by_start(prev.take(k - 1), span(x)).push(p.last()));
                assert(seq![p.last()] + prev.skip(k as int) =~= prev.skip(k - 1));
                assert(insert_by_start(prev.take(k - 1), span(x)).push(p.last()) + prev.skip(k as int) =~= insert_by_start(prev.take(k - 1), span(x)) + prev.skip(k - 1));
            }
            k -= 1;
        }
        proof {
            let p = prev.take(k as int);
            if k > 0 {
                assert(p.last().0 <= span(x).0);
            }
            assert(insert_by_start(p, span(x)) =~= p.push(span(x))) by {
                if k == 0 {
                    assert(p =~= Seq::<(int, int)>::empty());
                    assert(seq![span(x)] =~= p.push(span(x)));
                }
            }
        }
        out.insert(k, x);
        assert(spans_of(out@) =~= prev.take(k as int).push(span(v@[i as int])) + prev.skip(k as int));
        i += 1;
    }
    assert(spans_of(v@).take(v.len() as int) =~= spans_of(v@));
    out
}

} // verus!
