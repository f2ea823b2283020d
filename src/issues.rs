use crate::util::RangeExt;
use std::ops::Range;
use vstd::prelude::*;

verus! {

/// A match (potential issue) reported by the checking service, in buffer byte offsets.
pub struct Match {
    pub range: Range<usize>,
    pub title: String,
    pub message: String,
    pub replacements: Vec<String>,
    pub category: String,
    pub rule: String,
}

/// A match as plain values.
pub struct MatchView {
    pub range: (int, int),
    pub title: Seq<char>,
    pub message: Seq<char>,
    pub replacements: Seq<Seq<char>>,
    pub category: Seq<char>,
    pub rule: Seq<char>,
}

pub open spec fn strings_view(v: Seq<String>) -> Seq<Seq<char>> {
    Seq::new(v.len(), |i: int| v[i]@)
}

impl View for Match {
    type V = MatchView;

    open spec fn view(&self) -> MatchView {
        MatchView {
            range: (self.range.start as int, self.range.end as int),
            title: self.title@,
            message: self.message@,
            replacements: strings_view(self.replacements@),
            category: self.category@,
            rule: self.rule@,
        }
    }
}

pub open spec fn matches_view(v: Seq<Match>) -> Seq<MatchView> {
    Seq::new(v.len(), |i: int| v[i]@)
}

proof fn lemma_view_push(v: Seq<Match>, m: Match)
    ensures
        matches_view(v.push(m)) == matches_view(v).push(m@),
{
    assert(matches_view(v.push(m)) =~= matches_view(v).push(m@));
}

/// Two ranges overlap or share an end point.
pub open spec fn touches(r: (int, int), c: (int, int)) -> bool {
    r.0 <= c.1 && c.0 <= r.1
}

/// Places `x` after every match that starts no later than it.
pub open spec fn insert_issue(s: Seq<MatchView>, x: MatchView) -> Seq<MatchView>
    decreases s.len(),
{
    if s.len() == 0 {
        seq![x]
    } else if s.last().range.0 <= x.range.0 {
        s.push(x)
    } else {
        insert_issue(s.drop_last(), x).push(s.last())
    }
}

/// Stable sort of matches by the start of their range.
pub open spec fn sort_issues(s: Seq<MatchView>) -> Seq<MatchView>
    decreases s.len(),
{
    if s.len() == 0 {
        s
    } else {
        insert_issue(sort_issues(s.drop_last()), s.last())
    }
}

/// The matches that stay clear of `c`.
pub open spec fn clear_of(s: Seq<MatchView>, c: (int, int)) -> Seq<MatchView> {
    s.filter(|m: MatchView| !touches(m.range, c))
}

/// The stored matches once a check of byte range `checked` has reported `new`.
pub open spec fn reconciled(old: Seq<MatchView>, checked: (int, int), new: Seq<MatchView>) -> Seq<
    MatchView,
> {
    sort_issues(clear_of(old, checked) + new)
}

/// A match after an edit replaced bytes `es .. ee` by `ins` bytes: one that starts at or after
/// the end of the edit moves with the text after it; any other stays as it is.
pub open spec fn shifted_issue(m: MatchView, es: int, ee: int, ins: int) -> MatchView {
    if m.range.0 >= ee {
        MatchView { range: (m.range.0 - (ee - es) + ins, m.range.1 - (ee - es) + ins), ..m }
    } else {
        m
    }
}

/// An edit that keeps the byte length moves no match, and a match that starts before the end
/// of any edit stays where it was.
pub proof fn lemma_shift_in_place(m: MatchView, es: int, ee: int, ins: int)
    ensures
        ins == ee - es ==> shifted_issue(m, es, ee, ins) == m,
        m.range.0 < ee ==> shifted_issue(m, es, ee, ins) == m,
{
    if ins == ee - es && m.range.0 >= ee {
        assert(shifted_issue(m, es, ee, ins).range =~= m.range);
    }
}

/// Room for the arithmetic of shifting matches after an edit of `es .. ee` into `ins` bytes.
pub open spec fn can_shift(s: Seq<MatchView>, es: int, ee: int, ins: int) -> bool {
    &&& es <= ee
    &&& forall|i: int|
        0 <= i < s.len() && (#[trigger] s[i]).range.0 >= ee ==> s[i].range.0 <= s[i].range.1
            && s[i].range.1 - (ee - es) + ins <= usize::MAX
}

proof fn lemma_insert_issue_contains(s: Seq<MatchView>, x: MatchView, y: MatchView)
    ensures
        insert_issue(s, x).contains(y) <==> s.contains(y) || y == x,
        insert_issue(s, x).len() == s.len() + 1,
    decreases s.len(),
{
    if s.len() == 0 {
        assert(seq![x][0] == x);
    } else if s.last().range.0 <= x.range.0 {
        assert(s.push(x)[s.len() as int] == x);
        if s.contains(y) {
            let k = choose|k: int| 0 <= k < s.len() && s[k] == y;
            assert(s.push(x)[k] == y);
        }
    } else {
        let d = s.drop_last();
        lemma_insert_issue_contains(d, x, y);
        let r = insert_issue(d, x);
        assert(s =~= d.push(s.last()));
        if r.push(s.last()).contains(y) {
            let k = choose|k: int| 0 <= k < r.len() + 1 && r.push(s.last())[k] == y;
            if k < r.len() {
                assert(r[k] == y);
            }
        }
        if d.contains(y) {
            let k = choose|k: int| 0 <= k < d.len() && d[k] == y;
            assert(s[k] == y);
        }
        if s.contains(y) {
            let k = choose|k: int| 0 <= k < s.len() && s[k] == y;
            if k < d.len() {
                assert(d[k] == y);
            } else {
                assert(r.push(s.last())[r.len() as int] == y);
            }
        }
        if r.contains(y) {
            let k = choose|k: int| 0 <= k < r.len() && r[k] == y;
            assert(r.push(s.last())[k] == y);
        }
    }
}

proof fn lemma_sort_issues_contains(s: Seq<MatchView>, y: MatchView)
    ensures
        sort_issues(s).contains(y) <==> s.contains(y),
        sort_issues(s).len() == s.len(),
    decreases s.len(),
{
    if s.len() > 0 {
        let d = s.drop_last();
        lemma_sort_issues_contains(d, y);
        lemma_insert_issue_contains(sort_issues(d), s.last(), y);
        assert(s =~= d.push(s.last()));
        if s.contains(y) {
            let k = choose|k: int| 0 <= k < s.len() && s[k] == y;
            if k < d.len() {
                assert(d[k] == y);
            }
        }
        if d.contains(y) {
            let k = choose|k: int| 0 <= k < d.len() && d[k] == y;
            assert(s[k] == y);
        }
    }
}

/// A fresh check replaces every stored match that overlaps or touches the checked range, and
/// keeps every other stored match as it was, range included.
pub proof fn lemma_reconcile(old: Seq<MatchView>, checked: (int, int), new: Seq<MatchView>, m: MatchView)
    ensures
        reconciled(old, checked, new).contains(m) <==> new.contains(m) || (old.contains(m)
            && !touches(m.range, checked)),
        reconciled(old, checked, new).len() == clear_of(old, checked).len() + new.len(),
{
    let kept = clear_of(old, checked);
    lemma_sort_issues_contains(kept + new, m);
    let pred = |x: MatchView| !touches(x.range, checked);
    if old.contains(m) && pred(m) {
        let k = choose|k: int| 0 <= k < old.len() && old[k] == m;
        old.lemma_filter_contains(pred, k);
    }
    if kept.contains(m) {
        old.lemma_filter_contains_rev(pred, m);
    }
    if (kept + new).contains(m) {
        let k = choose|k: int| 0 <= k < kept.len() + new.len() && (kept + new)[k] == m;
        if k < kept.len() {
            assert(kept[k] == m);
            old.lemma_filter_pred(pred, k);
        } else {
            assert(new[k - kept.len()] == m);
        }
    }
    if new.contains(m) {
        let k = choose|k: int| 0 <= k < new.len() && new[k] == m;
        assert((kept + new)[kept.len() + k] == m);
    }
    if kept.contains(m) {
        let k = choose|k: int| 0 <= k < kept.len() && kept[k] == m;
        assert((kept + new)[k] == m);
    }
}

/// The matches of one document; each check leaves them sorted by where they start.
pub struct IssueStore {
    matches: Vec<Match>,
}

impl View for IssueStore {
    type V = Seq<MatchView>;

    closed spec fn view(&self) -> Seq<MatchView> {
        matches_view(self.matches@)
    }
}

impl IssueStore {
    pub fn new() -> (r: Self)
        ensures
            r@ == Seq::<MatchView>::empty(),
    {
        IssueStore { matches: Vec::new() }
    }

    pub fn matches(&self) -> (r: &Vec<Match>)
        ensures
            matches_view(r@) == self@,
    {
        &self.matches
    }

    pub fn into_matches(self) -> (r: Vec<Match>)
        ensures
            matches_view(r@) == self@,
    {
        self.matches
    }

    /// Adds `m` at the end, without sorting.
    pub fn push(&mut self, m: Match)
        ensures
            final(self)@ == old(self)@.push(m@),
    {
        self.matches.push(m);
        assert(self@ =~= old(self)@.push(m@));
    }

    pub fn clear(&mut self)
        ensures
            final(self)@ == Seq::<MatchView>::empty(),
    {
        self.matches = Vec::new();
    }

    /// Whether `shift_for_edit(es, ee, ins)` has room for its arithmetic.
    pub fn can_shift(&self, es: usize, ee: usize, ins: usize) -> (r: bool)
        ensures
            r == can_shift(self@, es as int, ee as int, ins as int),
    {
        if es > ee {
            return false;
        }
        let mut i: usize = 0;
        while i < self.matches.len()
            invariant
                0 <= i <= self.matches.len(),
                es <= ee,
                forall|k: int|
                    0 <= k < i && (#[trigger] self@[k]).range.0 >= ee ==> self@[k].range.0
                        <= self@[k].range.1 && self@[k].range.1 - (ee - es) + ins <= usize::MAX,
            decreases self.matches.len() - i,
        {
            let r = &self.matches[i].range;
            assert(self@[i as int].range == (r.start as int, r.end as int));
            if r.start >= ee && (r.start > r.end || r.end - (ee - es) > usize::MAX - ins) {
                return false;
            }
            i += 1;
        }
        true
    }

    /// Moves the matches that start at or after `ee` by the growth of an edit that replaced
    /// bytes `es .. ee` by `ins` bytes.
    pub fn shift_for_edit(&mut self, es: usize, ee: usize, ins: usize)
        requires
            can_shift(old(self)@, es as int, ee as int, ins as int),
        ensures
            final(self)@ == Seq::new(
                old(self)@.len(),
                |i: int| shifted_issue(old(self)@[i], es as int, ee as int, ins as int),
            ),
    {
        let ghost s = self@;
        let mut old: Vec<Match> = Vec::new();
        std::mem::swap(&mut self.matches, &mut old);
        assert(matches_view(old@) == s);
        let mut out: Vec<Match> = Vec::new();
        for m in it: old
            invariant
                it.seq() == old@,
                matches_view(old@) == s,
                can_shift(s, es as int, ee as int, ins as int),
                matches_view(out@) == Seq::new(
                    it.index() as nat,
                    |k: int| shifted_issue(s[k], es as int, ee as int, ins as int),
                ),
        {
            let ghost i = it.index() as int;
            assert(m@ == s[i]);
            let mut m = m;
            if m.range.start >= ee {
                m.range = (m.range.start - (ee - es) + ins)..(m.range.end - (ee - es) + ins);
            }
            let ghost mv = m@;
            assert(mv == shifted_issue(s[i], es as int, ee as int, ins as int));
            proof {
                lemma_view_push(out@, m);
            }
            out.push(m);
            assert(matches_view(out@) =~= Seq::new(
                (i + 1) as nat,
                |k: int| shifted_issue(s[k], es as int, ee as int, ins as int),
            ));
        }
        self.matches = out;
    }

    /// Drops the stored matches that touch `checked`, adds `new`, and sorts by start.
    pub fn reconcile(&mut self, checked: Range<usize>, new: Vec<Match>)
        ensures
            final(self)@ == reconciled(
                old(self)@,
                (checked.start as int, checked.end as int),
                matches_view(new@),
            ),
    {
        let ghost c = (checked.start as int, checked.end as int);
        let ghost s = self@;
        let mut all: Vec<Match> = Vec::new();
        let mut old: Vec<Match> = Vec::new();
        std::mem::swap(&mut self.matches, &mut old);
        assert(matches_view(old@) == s);
        for m in it: old
            invariant
                it.seq() == old@,
                matches_view(old@) == s,
                c == (checked.start as int, checked.end as int),
                matches_view(all@) == clear_of(s.take(it.index() as int), c),
        {
            let ghost i = it.index() as int;
            proof {
                assert(s.take(i + 1) =~= s.take(i).push(m@));
                s.take(i).lemma_filter_push(m@, |x: MatchView| !touches(x.range, c));
            }
            if !m.range.touches(&checked) {
                all.push(m);
            }
            assert(matches_view(all@) =~= clear_of(s.take(i + 1), c));
        }
        assert(s.take(s.len() as int) =~= s);
        let ghost kept = matches_view(all@);
        for m in it: new
            invariant
                it.seq() == new@,
                matches_view(all@) == kept + matches_view(new@).take(it.index() as int),
        {
            let ghost i = it.index() as int;
            assert(matches_view(new@).take(i + 1) =~= matches_view(new@).take(i).push(m@));
            proof {
                lemma_view_push(all@, m);
            }
            all.push(m);
            assert(matches_view(all@) =~= kept + matches_view(new@).take(i + 1));
        }
        assert(matches_view(new@).take(new@.len() as int) =~= matches_view(new@));
        self.matches = sort_matches(all);
    }

    /// Drops every match that touches `range`.
    pub fn dismiss(&mut self, range: Range<usize>)
        ensures
            final(self)@ == clear_of(old(self)@, (range.start as int, range.end as int)),
    {
        let ghost c = (range.start as int, range.end as int);
        let ghost s = self@;
        let mut kept: Vec<Match> = Vec::new();
        let mut old: Vec<Match> = Vec::new();
        std::mem::swap(&mut self.matches, &mut old);
        assert(matches_view(old@) == s);
        for m in it: old
            invariant
                it.seq() == old@,
                matches_view(old@) == s,
                c == (range.start as int, range.end as int),
                matches_view(kept@) == clear_of(s.take(it.index() as int), c),
        {
            let ghost i = it.index() as int;
            proof {
                assert(s.take(i + 1) =~= s.take(i).push(m@));
                s.take(i).lemma_filter_push(m@, |x: MatchView| !touches(x.range, c));
            }
            if !m.range.touches(&range) {
                kept.push(m);
            }
            assert(matches_view(kept@) =~= clear_of(s.take(i + 1), c));
        }
        assert(s.take(s.len() as int) =~= s);
        self.matches = kept;
    }
}

/// Stable insertion sort of matches by start.
fn sort_matches(v: Vec<Match>) -> (r: Vec<Match>)
    ensures
        matches_view(r@) == sort_issues(matches_view(v@)),
{
    let ghost sv = matches_view(v@);
    let mut out: Vec<Match> = Vec::new();
    for x in it: v
        invariant
            it.seq() == v@,
            sv == matches_view(v@),
            matches_view(out@) == sort_issues(sv.take(it.index() as int)),
    {
        let ghost i = it.index() as int;
        let ghost prev = matches_view(out@);
        assert(sv.take(i + 1).drop_last() =~= sv.take(i));
        assert(sv.take(i + 1).last() == x@);
        let mut k: usize = out.len();
        assert(prev.take(k as int) =~= prev);
        assert(prev.skip(k as int) =~= Seq::<MatchView>::empty());
        assert(insert_issue(prev, x@) =~= insert_issue(prev.take(k as int), x@) + prev.skip(
            k as int,
        ));
        while k > 0 && out[k - 1].range.start > x.range.start
            invariant
                0 <= k <= out.len(),
                matches_view(out@) == prev,
                insert_issue(prev, x@) == insert_issue(prev.take(k as int), x@) + prev.skip(
                    k as int,
                ),
            decreases k,
        {
            proof {
                let p = prev.take(k as int);
                assert(p.last() == out@[k - 1]@);
                assert(p.drop_last() =~= prev.take(k - 1));
                assert(seq![p.last()] + prev.skip(k as int) =~= prev.skip(k - 1));
                assert(insert_issue(prev.take(k - 1), x@).push(p.last()) + prev.skip(k as int)
                    =~= insert_issue(prev.take(k - 1), x@) + prev.skip(k - 1));
            }
            k -= 1;
        }
        proof {
            let p = prev.take(k as int);
            if k > 0 {
                assert(p.last() == out@[k - 1]@);
            }
            if k == 0 {
                assert(p =~= Seq::<MatchView>::empty());
                assert(seq![x@] =~= p.push(x@));
            }
        }
        let ghost xv = x@;
        out.insert(k, x);
        assert(matches_view(out@) =~= prev.take(k as int).push(xv) + prev.skip(k as int));
    }
    assert(sv.take(sv.len() as int) =~= sv);
    out
}

} // verus!
