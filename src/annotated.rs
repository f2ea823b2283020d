use crate::text::{
    byte_len, is_blank, lemma_blank_concat, lemma_len_concat, lemma_trimmed_len, str_byte_len,
    str_is_blank, str_trimmed_len, trim_end, trimmed_len,
};
use crate::util::{utf16_to_byte, utf16_to_byte_spec};
use vstd::prelude::*;

verus! {

/// One piece of a payload as plain values.
pub enum Segment {
    Text(Seq<char>),
    /// The markup, and the text that stands for it.
    Markup(Seq<char>, Seq<char>),
}

/// The text that a segment contributes to the payload.
pub open spec fn part_of(a: Segment) -> Seq<char> {
    match a {
        Segment::Text(t) => t,
        Segment::Markup(m, _) => m,
    }
}

/// The text that decides whether a segment is white space: the text itself, or what markup
/// stands for.
pub open spec fn tail_text(a: Segment) -> Seq<char> {
    match a {
        Segment::Text(t) => t,
        Segment::Markup(_, i) => i,
    }
}

pub open spec fn with_tail(a: Segment, x: Seq<char>) -> Segment {
    match a {
        Segment::Text(_) => Segment::Text(x),
        Segment::Markup(m, _) => Segment::Markup(m, x),
    }
}

/// A leading segment that is dropped: its text, or what its markup stands for, is blank.
pub open spec fn droppable(a: Segment) -> bool {
    is_blank(tail_text(a))
}

/// Two neighbours that are merged: two texts, or two markups that stand for nothing.
pub open spec fn joins(l: Segment, a: Segment) -> bool {
    match (l, a) {
        (Segment::Text(_), Segment::Text(_)) => true,
        (Segment::Markup(_, li), Segment::Markup(_, i)) => li.len() == 0 && i.len() == 0,
        _ => false,
    }
}

pub open spec fn join(l: Segment, a: Segment) -> Segment {
    match (l, a) {
        (Segment::Text(x), Segment::Text(y)) => Segment::Text(x + y),
        (Segment::Markup(x, li), Segment::Markup(y, _)) => Segment::Markup(x + y, li),
        _ => l,
    }
}

/// The segments after merging neighbours and dropping blank leading ones, with the byte
/// length of what was dropped.
pub open spec fn coalesce(s: Seq<Segment>) -> (Seq<Segment>, nat)
    decreases s.len(),
{
    if s.len() == 0 {
        (Seq::empty(), 0)
    } else {
        let (m, off) = coalesce(s.drop_last());
        let a = s.last();
        if m.len() == 0 && droppable(a) {
            (m, off + byte_len(part_of(a)))
        } else if m.len() > 0 && joins(m.last(), a) {
            (m.update(m.len() - 1, join(m.last(), a)), off)
        } else {
            (m.push(a), off)
        }
    }
}

/// Drops blank trailing segments and cuts the trailing white space of the last one left.
pub open spec fn trim_tail(s: Seq<Segment>) -> Seq<Segment>
    decreases s.len(),
{
    if s.len() == 0 {
        s
    } else if is_blank(tail_text(s.last())) {
        trim_tail(s.drop_last())
    } else {
        s.update(s.len() - 1, with_tail(s.last(), trim_end(tail_text(s.last()))))
    }
}

/// What `optimize` leaves, and the number of bytes it cut from the front.
pub open spec fn optimized(s: Seq<Segment>) -> (Seq<Segment>, nat) {
    (trim_tail(coalesce(s).0), coalesce(s).1)
}

/// Total byte length of the payload's parts.
pub open spec fn total_len(s: Seq<Segment>) -> nat
    decreases s.len(),
{
    if s.len() == 0 {
        0
    } else {
        total_len(s.drop_last()) + byte_len(part_of(s.last()))
    }
}

/// The payload's parts, one after the other.
pub open spec fn flatten(s: Seq<Segment>) -> Seq<char>
    decreases s.len(),
{
    if s.len() == 0 {
        Seq::empty()
    } else {
        flatten(s.drop_last()) + part_of(s.last())
    }
}

/// No blank first segment and no neighbours that would merge.
pub open spec fn coalesced(r: Seq<Segment>) -> bool {
    &&& (r.len() > 0 ==> !droppable(r[0]))
    &&& forall|i: int| 0 <= i < r.len() - 1 ==> !joins(#[trigger] r[i], r[i + 1])
}

/// Coalesced, and the last segment ends in neither blank nor trailing white space.
pub open spec fn settled(r: Seq<Segment>) -> bool {
    &&& coalesced(r)
    &&& (r.len() > 0 ==> tail_text(r.last()) == trim_end(tail_text(r.last())) && !is_blank(
        tail_text(r.last()),
    ))
}

pub proof fn lemma_coalesce(s: Seq<Segment>)
    ensures
        coalesced(coalesce(s).0),
        coalesce(s).1 + total_len(coalesce(s).0) == total_len(s),
    decreases s.len(),
{
    if s.len() > 0 {
        let d = s.drop_last();
        lemma_coalesce(d);
        let (m, off) = coalesce(d);
        let a = s.last();
        if m.len() == 0 && droppable(a) {
        } else if m.len() > 0 && joins(m.last(), a) {
            let l = m.last();
            let r = m.update(m.len() - 1, join(l, a));
            assert(r.drop_last() =~= m.drop_last());
            match (l, a) {
                (Segment::Text(x), Segment::Text(y)) => {
                    lemma_blank_concat(x, y);
                    lemma_len_concat(x, y);
                },
                (Segment::Markup(x, li), Segment::Markup(y, _)) => {
                    lemma_len_concat(x, y);
                },
                _ => {},
            }
            assert forall|i: int| 0 <= i < r.len() - 1 implies !joins(#[trigger] r[i], r[i + 1]) by {
                if i == r.len() - 2 {
                    assert(!joins(m[i], m[i + 1]));
                }
            }
        } else {
            let r = m.push(a);
            assert(r.drop_last() =~= m);
            assert forall|i: int| 0 <= i < r.len() - 1 implies !joins(#[trigger] r[i], r[i + 1]) by {
                if i < m.len() - 1 {
                    assert(!joins(m[i], m[i + 1]));
                }
            }
        }
    }
}

proof fn lemma_trim_tail(s: Seq<Segment>)
    requires
        coalesced(s),
    ensures
        settled(trim_tail(s)),
    decreases s.len(),
{
    if s.len() > 0 {
        let l = s.last();
        let d = s.drop_last();
        if is_blank(tail_text(l)) {
            assert forall|i: int| 0 <= i < d.len() - 1 implies !joins(#[trigger] d[i], d[i + 1]) by {
                assert(!joins(s[i], s[i + 1]));
            }
            lemma_trim_tail(d);
        } else {
            lemma_trimmed_len(tail_text(l));
            let r = s.update(s.len() - 1, with_tail(l, trim_end(tail_text(l))));
            assert(r.drop_last() =~= d);
            assert forall|i: int| 0 <= i < r.len() - 1 implies !joins(#[trigger] r[i], r[i + 1]) by {
                assert(!joins(s[i], s[i + 1]));
            }
        }
    }
}

proof fn lemma_trim_tail_len(s: Seq<Segment>)
    ensures
        total_len(trim_tail(s)) <= total_len(s),
    decreases s.len(),
{
    if s.len() > 0 {
        let l = s.last();
        let d = s.drop_last();
        if is_blank(tail_text(l)) {
            lemma_trim_tail_len(d);
        } else {
            let r = s.update(s.len() - 1, with_tail(l, trim_end(tail_text(l))));
            assert(r.drop_last() =~= d);
            lemma_trimmed_len(tail_text(l));
            let x = tail_text(l);
            crate::text::lemma_take_mono(x, trimmed_len(x) as int, x.len() as int);
            assert(x.take(x.len() as int) =~= x);
        }
    }
}

/// What `optimize` keeps and what it cuts together are no longer than the payload.
pub proof fn lemma_optimized_len(s: Seq<Segment>)
    ensures
        optimized(s).1 + total_len(optimized(s).0) <= total_len(s),
{
    lemma_coalesce(s);
    lemma_trim_tail_len(coalesce(s).0);
}

proof fn lemma_settled_fixed(r: Seq<Segment>)
    requires
        coalesced(r),
    ensures
        coalesce(r) == (r, 0nat),
    decreases r.len(),
{
    if r.len() > 0 {
        let d = r.drop_last();
        assert forall|i: int| 0 <= i < d.len() - 1 implies !joins(#[trigger] d[i], d[i + 1]) by {
            assert(!joins(r[i], r[i + 1]));
        }
        lemma_settled_fixed(d);
        if d.len() > 0 {
            assert(!joins(r[r.len() - 2], r[r.len() - 1]));
        }
        assert(d.push(r.last()) =~= r);
    }
}

/// An optimized payload starts with no blank segment, holds no two neighbours that would
/// merge, and its last segment ends in no white space.
pub proof fn lemma_optimized_settled(s: Seq<Segment>)
    ensures
        settled(optimized(s).0),
{
    lemma_coalesce(s);
    lemma_trim_tail(coalesce(s).0);
}

/// Optimizing an optimized payload changes nothing and cuts nothing more.
pub proof fn lemma_optimize_idempotent(s: Seq<Segment>)
    ensures
        optimized(optimized(s).0) == (optimized(s).0, 0nat),
{
    lemma_coalesce(s);
    let r = optimized(s).0;
    lemma_trim_tail(coalesce(s).0);
    lemma_settled_fixed(r);
    if r.len() > 0 {
        let l = r.last();
        assert(with_tail(l, tail_text(l)) == l);
        assert(r.update(r.len() - 1, l) =~= r);
    }
}

/// One piece of a payload.
pub enum Annotation {
    Text { text: String },
    Markup { markup: String, interpret_as: String },
}

impl View for Annotation {
    type V = Segment;

    open spec fn view(&self) -> Segment {
        match self {
            Annotation::Text { text } => Segment::Text(text@),
            Annotation::Markup { markup, interpret_as } => Segment::Markup(
                markup@,
                interpret_as@,
            ),
        }
    }
}

impl Annotation {
    fn duplicate(&self) -> (r: Annotation)
        ensures
            r@ == self@,
    {
        match self {
            Annotation::Text { text } => Annotation::Text { text: text.clone() },
            Annotation::Markup { markup, interpret_as } => Annotation::Markup {
                markup: markup.clone(),
                interpret_as: interpret_as.clone(),
            },
        }
    }

    /// The text this piece puts into the payload.
    pub fn part(&self) -> (r: &str)
        ensures
            r@ == part_of(self@),
    {
        match self {
            Annotation::Text { text } => text.as_str(),
            Annotation::Markup { markup, .. } => markup.as_str(),
        }
    }
}

pub open spec fn segments(v: Seq<Annotation>) -> Seq<Segment> {
    Seq::new(v.len(), |i: int| v[i]@)
}

/// A text with annotations, as the checking service takes it.
pub struct AnnotatedText {
    pub annotation: Vec<Annotation>,
}

impl View for AnnotatedText {
    type V = Seq<Segment>;

    open spec fn view(&self) -> Seq<Segment> {
        segments(self.annotation@)
    }
}

impl AnnotatedText {
    pub fn new() -> (r: Self)
        ensures
            r@ == Seq::<Segment>::empty(),
    {
        AnnotatedText { annotation: Vec::new() }
    }

    pub fn add_text(&mut self, text: String)
        ensures
            final(self)@ == old(self)@.push(Segment::Text(text@)),
    {
        self.annotation.push(Annotation::Text { text });
        assert(self@ =~= old(self)@.push(Segment::Text(text@)));
    }

    pub fn add_markup(&mut self, markup: String, interpret_as: String)
        ensures
            final(self)@ == old(self)@.push(Segment::Markup(markup@, interpret_as@)),
    {
        self.annotation.push(Annotation::Markup { markup, interpret_as });
        assert(self@ =~= old(self)@.push(Segment::Markup(markup@, interpret_as@)));
    }

    /// The text of each piece, in order.
    pub fn parts(&self) -> (r: Vec<&str>)
        ensures
            r@.len() == self@.len(),
            forall|i: int| 0 <= i < r@.len() ==> (#[trigger] r@[i])@ == part_of(self@[i]),
    {
        let mut r: Vec<&str> = Vec::new();
        for i in 0..self.annotation.len()
            invariant
                r@.len() == i,
                forall|k: int| 0 <= k < i ==> (#[trigger] r@[k])@ == part_of(self@[k]),
        {
            r.push(self.annotation[i].part());
        }
        r
    }

    /// Merges neighbouring pieces, drops white space at both ends, and returns the number of
    /// bytes dropped from the front.
    pub fn optimize(&mut self) -> (r: usize)
        requires
            total_len(old(self)@) <= usize::MAX,
        ensures
            (final(self)@, r as nat) == optimized(old(self)@),
    {
        let ghost s = self@;
        let mut taken: Vec<Annotation> = Vec::new();
        std::mem::swap(&mut self.annotation, &mut taken);
        let mut out: Vec<Annotation> = Vec::new();
        let mut offset: usize = 0;
        let mut i: usize = 0;
        proof {
            lemma_coalesce(s);
        }
        while i < taken.len()
            invariant
                0 <= i <= taken.len(),
                segments(taken@) == s,
                total_len(s) <= usize::MAX,
                (segments(out@), offset as nat) == coalesce(s.take(i as int)),
            decreases taken.len() - i,
        {
            let ghost t = s.take(i + 1);
            proof {
                assert(t.drop_last() =~= s.take(i as int));
                lemma_coalesce(t);
                lemma_total_prefix(s, i + 1);
            }
            let a = &taken[i];
            let n = out.len();
            let blank_head = n == 0 && match a {
                Annotation::Text { text } => str_is_blank(text.as_str()),
                Annotation::Markup { interpret_as, .. } => str_is_blank(interpret_as.as_str()),
            };
            if blank_head {
                offset = offset + str_byte_len(a.part());
            } else if n > 0 {
                let last = out.pop().unwrap();
                let ghost m = segments(out@).push(last@);
                assert(segments(out@.push(last)) =~= m);
                match (last, a) {
                    (Annotation::Text { text: mut x }, Annotation::Text { text: y }) => {
                        x.append(y.as_str());
                        out.push(Annotation::Text { text: x });
                    },
                    (
                        Annotation::Markup { markup: mut x, interpret_as: li },
                        Annotation::Markup { markup: y, interpret_as: yi },
                    ) => {
                        if li.as_str().is_empty() && yi.as_str().is_empty() {
                            x.append(y.as_str());
                            out.push(Annotation::Markup { markup: x, interpret_as: li });
                        } else {
                            out.push(Annotation::Markup { markup: x, interpret_as: li });
                            out.push(a.duplicate());
                        }
                    },
                    (last, _) => {
                        out.push(last);
                        out.push(a.duplicate());
                    },
                }
                assert(segments(out@) =~= coalesce(t).0);
            } else {
                out.push(a.duplicate());
                assert(segments(out@) =~= coalesce(t).0);
            }
            i += 1;
        }
        assert(s.take(taken.len() as int) =~= s);
        // Remove white space from the end
        let ghost c = segments(out@);
        while out.len() > 0
            invariant_except_break
                trim_tail(segments(out@)) == trim_tail(c),
            ensures
                segments(out@) == trim_tail(c),
            decreases out.len(),
        {
            let ghost before = out@;
            let last = out.pop().unwrap();
            let ghost d = segments(out@);
            assert(before == out@.push(last));
            assert(segments(out@.push(last)) =~= d.push(last@));
            assert(d.push(last@).drop_last() =~= d);
            let keep = match &last {
                Annotation::Text { text } => str_trimmed_len(text.as_str()),
                Annotation::Markup { interpret_as, .. } => str_trimmed_len(interpret_as.as_str()),
            };
            proof {
                lemma_trimmed_len(tail_text(last@));
            }
            if keep > 0 {
                let trimmed = match last {
                    Annotation::Text { text } => Annotation::Text {
                        text: String::from_str(text.as_str().substring_char(0, keep)),
                    },
                    Annotation::Markup { markup, interpret_as } => Annotation::Markup {
                        markup,
                        interpret_as: String::from_str(
                            interpret_as.as_str().substring_char(0, keep),
                        ),
                    },
                };
                out.push(trimmed);
                assert(segments(out@) =~= d.push(last@).update(
                    d.len() as int,
                    with_tail(last@, trim_end(tail_text(last@))),
                ));
                break;
            }
            assert(is_blank(tail_text(last@)));
            assert(trim_tail(d.push(last@)) == trim_tail(d));
        }
        self.annotation = out;
        offset
    }

    /// Total length of the parts in bytes.
    pub fn len(&self) -> (r: usize)
        requires
            total_len(self@) <= usize::MAX,
        ensures
            r == total_len(self@),
    {
        let mut sum: usize = 0;
        let mut i: usize = 0;
        while i < self.annotation.len()
            invariant
                0 <= i <= self.annotation.len(),
                total_len(self@) <= usize::MAX,
                sum == total_len(self@.take(i as int)),
            decreases self.annotation.len() - i,
        {
            proof {
                assert(self@.take(i + 1).drop_last() =~= self@.take(i as int));
                lemma_total_prefix(self@, i + 1);
            }
            sum = sum + str_byte_len(self.annotation[i].part());
            i += 1;
        }
        assert(self@.take(i as int) =~= self@);
        sum
    }

    /// Byte offset in the payload of UTF-16 offset `utf16`, as the checking service counts.
    pub fn byte_offset(&self, utf16: usize) -> (r: usize)
        requires
            total_len(self@) <= usize::MAX,
        ensures
            r == utf16_to_byte_spec(flatten(self@), utf16 as int),
    {
        let mut chars: Vec<char> = Vec::new();
        let mut i: usize = 0;
        while i < self.annotation.len()
            invariant
                0 <= i <= self.annotation.len(),
                chars@ == flatten(self@.take(i as int)),
            decreases self.annotation.len() - i,
        {
            let part = self.annotation[i].part();
            let ghost before = chars@;
            for c in it: part.chars()
                invariant
                    it.seq() == part@,
                    chars@ == before + part@.take(it.index() as int),
            {
                assert(part@.take(it.index() + 1) =~= part@.take(it.index() as int).push(c));
                chars.push(c);
                assert(chars@ =~= before + part@.take(it.index() + 1));
            }
            assert(part@.take(part@.len() as int) =~= part@);
            assert(self@.take(i + 1).drop_last() =~= self@.take(i as int));
            i += 1;
        }
        assert(self@.take(i as int) =~= self@);
        proof {
            lemma_flatten_len(self@);
        }
        utf16_to_byte(chars.as_slice(), utf16)
    }
}

proof fn lemma_total_prefix(s: Seq<Segment>, k: int)
    requires
        0 <= k <= s.len(),
    ensures
        total_len(s.take(k)) <= total_len(s),
    decreases s.len() - k,
{
    if k < s.len() {
        lemma_total_prefix(s, k + 1);
        assert(s.take(k + 1).drop_last() =~= s.take(k));
    } else {
        assert(s.take(k) =~= s);
    }
}

proof fn lemma_flatten_len(s: Seq<Segment>)
    ensures
        byte_len(flatten(s)) == total_len(s),
    decreases s.len(),
{
    if s.len() > 0 {
        lemma_flatten_len(s.drop_last());
        lemma_len_concat(flatten(s.drop_last()), part_of(s.last()));
    }
}

} // verus!
