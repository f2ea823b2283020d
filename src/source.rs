use crate::text::{
    byte_len, char_utf16_width, char_utf8_width, lemma_len_concat, lemma_take_mono,
    lemma_take_step, lemma_utf16_le_bytes, str_byte_len, utf16_len,
};
use crate::util::{
    lemma_utf16_stop_at, lemma_utf16_to_byte_bound, utf16_to_byte,
    utf16_to_byte_spec,
};
use vstd::prelude::*;

verus! {

/// A length or an offset counted both in UTF-8 bytes and in UTF-16 code units.
#[derive(Debug, Clone, Copy, Default, PartialEq, Eq, Structural)]
pub struct Size {
    pub byte: usize,
    pub utf16: usize,
}

/// A position as an editor sends it: a line, and a column in UTF-16 code units.
#[derive(Debug, Clone, Copy, Default, PartialEq, Eq, Structural)]
pub struct Position {
    pub line: u32,
    pub character: u32,
}

/// The size of the first `k` characters of `t`.
pub open spec fn size_at(t: Seq<char>, k: int) -> Size {
    Size { byte: byte_len(t.take(k)) as usize, utf16: utf16_len(t.take(k)) as usize }
}

/// Character indices where lines start: the start of the text and every index right after a
/// line feed.
pub open spec fn line_starts(t: Seq<char>) -> Seq<int>
    decreases t.len(),
{
    if t.len() == 0 {
        seq![0int]
    } else {
        let r = line_starts(t.drop_last());
        if t.last() == '\n' {
            r.push(t.len() as int)
        } else {
            r
        }
    }
}

pub open spec fn line_count(t: Seq<char>) -> nat {
    line_starts(t).len()
}

/// Character range of line `i`, its line terminator included.
pub open spec fn line_span(t: Seq<char>, i: int) -> (int, int) {
    let ls = line_starts(t);
    (ls[i], if i + 1 < ls.len() { ls[i + 1] } else { t.len() as int })
}

/// The line table: for each line, its start and end as sizes from the start of the text.
pub open spec fn line_table(t: Seq<char>) -> Seq<(Size, Size)> {
    Seq::new(
        line_count(t),
        |i: int| (size_at(t, line_span(t, i).0), size_at(t, line_span(t, i).1)),
    )
}

/// `b` falls between two characters of `t` (or at either end).
pub open spec fn is_boundary(t: Seq<char>, b: int) -> bool {
    exists|k: int| 0 <= k <= t.len() && #[trigger] byte_len(t.take(k)) == b
}

/// The number of characters that the first `b` bytes of `t` hold.
pub open spec fn char_index(t: Seq<char>, b: int) -> int {
    choose|k: int| 0 <= k <= t.len() && #[trigger] byte_len(t.take(k)) == b
}

pub proof fn lemma_line_starts(t: Seq<char>)
    ensures
        line_starts(t).len() >= 1,
        line_starts(t)[0] == 0,
        forall|j: int, k: int|
            0 <= j < k < line_starts(t).len() ==> line_starts(t)[j] < line_starts(t)[k],
        forall|j: int| 0 <= j < line_starts(t).len() ==> 0 <= #[trigger] line_starts(t)[j] <= t.len(),
    decreases t.len(),
{
    if t.len() > 0 {
        lemma_line_starts(t.drop_last());
    }
}

/// The line starts of a prefix are a prefix of the line starts, and the rest lie beyond it.
pub proof fn lemma_line_starts_prefix(t: Seq<char>, k: int)
    requires
        0 <= k <= t.len(),
    ensures
        line_starts(t.take(k)).len() <= line_starts(t).len(),
        line_starts(t.take(k)) =~= line_starts(t).take(line_starts(t.take(k)).len() as int),
        forall|j: int|
            line_starts(t.take(k)).len() <= j < line_starts(t).len() ==> #[trigger] line_starts(
                t,
            )[j] > k,
    decreases t.len(),
{
    if k == t.len() {
        assert(t.take(k) =~= t);
    } else {
        let d = t.drop_last();
        assert(t.take(k) =~= d.take(k));
        lemma_line_starts_prefix(d, k);
    }
}

/// Byte offsets of distinct prefixes differ.
pub proof fn lemma_char_index(t: Seq<char>, k: int)
    requires
        0 <= k <= t.len(),
    ensures
        is_boundary(t, byte_len(t.take(k)) as int),
        char_index(t, byte_len(t.take(k)) as int) == k,
{
    let b = byte_len(t.take(k)) as int;
    assert(is_boundary(t, b));
    let c = char_index(t, b);
    if c < k {
        lemma_take_mono(t, c, k);
    } else if c > k {
        lemma_take_mono(t, k, c);
    }
}

/// The line whose character range holds character index `k`.
pub open spec fn line_of(t: Seq<char>, k: int) -> int {
    choose|i: int| 0 <= i < line_count(t) && (#[trigger] line_span(t, i)).0 <= k < line_span(t, i).1
}

/// Byte offset of an editor position: `None` for a line past the end; a column past the end
/// of its line stops at the line's end.
pub open spec fn offset_of(t: Seq<char>, pos: Position) -> Option<int> {
    if pos.line >= line_count(t) {
        None
    } else {
        let sp = line_span(t, pos.line as int);
        Some(
            byte_len(t.take(sp.0)) + utf16_to_byte_spec(t.subrange(sp.0, sp.1), pos.character as int),
        )
    }
}

/// Editor position of byte offset `b`. The end of the text maps to the line after the last,
/// at the last line's width; an offset past the end, inside a character, or one whose line or
/// column does not fit in `u32`, has none.
pub open spec fn position_of(t: Seq<char>, b: int) -> Option<Position> {
    if b > byte_len(t) {
        None
    } else if b == byte_len(t) {
        let n = line_count(t) as int;
        let sp = line_span(t, n - 1);
        let ch = utf16_len(t.subrange(sp.0, sp.1));
        if n <= u32::MAX && ch <= u32::MAX {
            Some(Position { line: n as u32, character: ch as u32 })
        } else {
            None
        }
    } else if !is_boundary(t, b) {
        None
    } else {
        let k = char_index(t, b);
        let i = line_of(t, k);
        let ch = utf16_len(t.subrange(line_span(t, i).0, k));
        if i <= u32::MAX && ch <= u32::MAX {
            Some(Position { line: i as u32, character: ch as u32 })
        } else {
            None
        }
    }
}

/// Byte range `a .. b` can be replaced: it is ordered and both ends fall between characters.
pub open spec fn can_replace(t: Seq<char>, a: int, b: int) -> bool {
    a <= b && is_boundary(t, a) && is_boundary(t, b)
}

/// `t` with the bytes `a .. b` replaced by `s`.
pub open spec fn replaced(t: Seq<char>, a: int, b: int, s: Seq<char>) -> Seq<char> {
    t.take(char_index(t, a)) + s + t.skip(char_index(t, b))
}

/// Every character index before the end lies in exactly one line.
pub proof fn lemma_line_of(t: Seq<char>, k: int)
    requires
        0 <= k < t.len(),
    ensures
        0 <= line_of(t, k) < line_count(t),
        line_span(t, line_of(t, k)).0 <= k < line_span(t, line_of(t, k)).1,
        forall|i: int|
            0 <= i < line_count(t) && (#[trigger] line_span(t, i)).0 <= k < line_span(t, i).1 ==> i == line_of(
                t,
                k,
            ),
{
    lemma_line_starts(t);
    lemma_line_starts(t.take(k));
    lemma_line_starts_prefix(t, k);
    let m = line_starts(t.take(k)).len() as int;
    assert(line_starts(t)[m - 1] == line_starts(t.take(k))[m - 1]);
    assert(line_span(t, m - 1).0 <= k < line_span(t, m - 1).1);
    let w = line_of(t, k);
    assert forall|i: int|
        0 <= i < line_count(t) && (#[trigger] line_span(t, i)).0 <= k < line_span(t, i).1 implies i == w by {
        if i < w {
            assert(line_starts(t)[i + 1] <= line_starts(t)[w]);
        } else if w < i {
            assert(line_starts(t)[w + 1] <= line_starts(t)[i]);
        }
    }
}

/// A byte offset inside the text, converted to an editor position and back, is itself again.
pub proof fn lemma_position_round_trip(t: Seq<char>, b: int)
    requires
        0 <= b < byte_len(t),
        is_boundary(t, b),
        position_of(t, b) is Some,
    ensures
        offset_of(t, position_of(t, b)->0) == Some(b),
{
    let k = char_index(t, b);
    if k == t.len() {
        assert(t.take(k) =~= t);
    }
    lemma_line_of(t, k);
    let i = line_of(t, k);
    lemma_line_starts(t);
    let sp = line_span(t, i);
    let x = t.subrange(sp.0, sp.1);
    assert(x.take(k - sp.0) =~= t.subrange(sp.0, k));
    lemma_utf16_stop_at(x, k - sp.0);
    assert(t.take(k) =~= t.take(sp.0) + t.subrange(sp.0, k));
    lemma_len_concat(t.take(sp.0), t.subrange(sp.0, k));
}

impl Size {
    pub fn new(s: &str) -> (r: Self)
        ensures
            r.byte == byte_len(s@),
            r.utf16 == utf16_len(s@),
    {
        let byte = str_byte_len(s);
        let mut utf16: usize = 0;
        proof {
            lemma_utf16_le_bytes(s@);
        }
        for c in it: s.chars()
            invariant
                it.seq() == s@,
                byte == byte_len(s@),
                utf16 == utf16_len(s@.take(it.index() as int)),
                utf16_len(s@) <= byte_len(s@),
        {
            proof {
                lemma_take_step(s@, it.index() as int);
                lemma_take_mono(s@, it.index() + 1, s@.len() as int);
                assert(s@.take(s@.len() as int) =~= s@);
            }
            utf16 = utf16 + char_utf16_width(c);
        }
        assert(s@.take(s@.len() as int) =~= s@);
        Size { byte, utf16 }
    }

    pub fn zero() -> (r: Self)
        ensures
            r.byte == 0,
            r.utf16 == 0,
    {
        Size { byte: 0, utf16: 0 }
    }
}

/// A text together with its line table.
#[derive(Debug)]
pub struct SourceFile {
    text: String,
    chars: Vec<char>,
    /// Line ranges as (start, end)
    lines: Vec<(Size, Size)>,
    /// Line ranges as character indices
    line_chars: Vec<(usize, usize)>,
}

impl View for SourceFile {
    type V = Seq<char>;

    closed spec fn view(&self) -> Seq<char> {
        self.text@
    }
}

impl SourceFile {
    #[verifier::type_invariant]
    closed spec fn inv(self) -> bool {
        &&& self.chars@ == self.text@
        &&& byte_len(self.text@) <= usize::MAX
        &&& self.lines@ == line_table(self.text@)
        &&& self.line_chars@.len() == line_count(self.text@)
        &&& forall|i: int|
            0 <= i < self.line_chars@.len() ==> (#[trigger] self.line_chars@[i]).0 == line_span(
                self.text@,
                i,
            ).0 && self.line_chars@[i].1 == line_span(self.text@, i).1
    }

    /// Length of the text in bytes.
    pub fn len(&self) -> (r: usize)
        ensures
            r == byte_len(self@),
            self@.len() <= r,
    {
        proof {
            use_type_invariant(self);
            lemma_take_mono(self@, 0, self@.len() as int);
            assert(self@.take(self@.len() as int) =~= self@);
            assert(self@.take(0) =~= Seq::<char>::empty());
        }
        str_byte_len(self.text.as_str())
    }

    pub fn new(text: String) -> (r: Self)
        ensures
            r@ == text@,
    {
        let ghost t = text@;
        let total = str_byte_len(text.as_str());
        proof {
            lemma_take_mono(t, 0, t.len() as int);
            assert(t.take(t.len() as int) =~= t);
        }
        let mut chars: Vec<char> = Vec::new();
        let mut lines: Vec<(Size, Size)> = Vec::new();
        let mut line_chars: Vec<(usize, usize)> = Vec::new();
        let mut cur = Size { byte: 0, utf16: 0 };
        let mut start = Size { byte: 0, utf16: 0 };
        let mut start_char: usize = 0;
        let mut n: usize = 0;
        assert(t.take(0) =~= Seq::<char>::empty());
        for c in it: text.as_str().chars()
            invariant
                it.seq() == t,
                n == it.index(),
                total == byte_len(t),
                t.len() <= byte_len(t),
                t.take(t.len() as int) == t,
                chars@ =~= t.take(n as int),
                cur == size_at(t, n as int),
                start == size_at(t, start_char as int),
                start_char == line_starts(t.take(n as int)).last(),
                lines@.len() + 1 == line_starts(t.take(n as int)).len(),
                line_chars@.len() == lines@.len(),
                forall|j: int|
                    0 <= j < lines@.len() ==> #[trigger] lines@[j] == (
                        size_at(t, line_starts(t.take(n as int))[j]),
                        size_at(t, line_starts(t.take(n as int))[j + 1]),
                    ),
                forall|j: int|
                    0 <= j < line_chars@.len() ==> #[trigger] line_chars@[j] == (
                        line_starts(t.take(n as int))[j] as usize,
                        line_starts(t.take(n as int))[j + 1] as usize,
                    ),
        {
            let ghost p = t.take(n as int);
            let ghost q = t.take(n + 1);
            proof {
                assert(q.drop_last() =~= p);
                lemma_take_step(t, n as int);
                lemma_take_mono(t, n + 1, t.len() as int);
                lemma_utf16_le_bytes(q);
                assert(c == t[n as int]);
                lemma_line_starts(p);
                lemma_line_starts(q);
            }
            chars.push(c);
            cur = Size {
                byte: cur.byte + char_utf8_width(c),
                utf16: cur.utf16 + char_utf16_width(c),
            };
            n = n + 1;
            if c == '\n' {
                lines.push((start, cur));
                line_chars.push((start_char, n));
                start = cur;
                start_char = n;
            }
            proof {
                let lq = line_starts(q);
                assert forall|j: int| 0 <= j < lines@.len() implies #[trigger] lines@[j] == (
                    size_at(t, lq[j]),
                    size_at(t, lq[j + 1]),
                ) by {}
                assert forall|j: int| 0 <= j < line_chars@.len() implies #[trigger] line_chars@[j]
                    == (lq[j] as usize, lq[j + 1] as usize) by {}
            }
        }
        assert(t.take(n as int) =~= t);
        lines.push((start, cur));
        line_chars.push((start_char, n));
        proof {
            lemma_line_starts(t);
            assert(lines@ =~= line_table(t));
        }
        SourceFile { text, chars, lines, line_chars }
    }

    pub fn text(&self) -> (r: &str)
        ensures
            r@ == self@,
    {
        self.text.as_str()
    }

    pub fn lines(&self) -> (r: &[(Size, Size)])
        ensures
            r@ == line_table(self@),
    {
        proof {
            use_type_invariant(self);
        }
        self.lines.as_slice()
    }

    pub fn line_start(&self, i: usize) -> (r: Option<Size>)
        ensures
            r == (if i < line_count(self@) {
                Some(line_table(self@)[i as int].0)
            } else {
                None::<Size>
            }),
    {
        proof {
            use_type_invariant(self);
        }
        if i < self.lines.len() {
            Some(self.lines[i].0)
        } else {
            None
        }
    }

    pub fn line_end(&self, i: usize) -> (r: Option<Size>)
        ensures
            r == (if i < line_count(self@) {
                Some(line_table(self@)[i as int].1)
            } else {
                None::<Size>
            }),
    {
        proof {
            use_type_invariant(self);
        }
        if i < self.lines.len() {
            Some(self.lines[i].1)
        } else {
            None
        }
    }

    /// The sizes at the start of line `range.start` and at the end of line `range.end - 1`,
    /// with the text between them.
    pub fn line_range(&self, range: std::ops::Range<usize>) -> (r: Option<((Size, Size), &str)>)
        ensures
            r is Some <==> line_range_ok(self@, range.start as int, range.end as int),
            r is Some ==> (r->0).0 == (
                line_table(self@)[range.start as int].0,
                line_table(self@)[range.end - 1].1,
            ) && (r->0).1@ == self@.subrange(
                line_span(self@, range.start as int).0,
                line_span(self@, range.end - 1).1,
            ),
    {
        proof {
            use_type_invariant(self);
            lemma_line_starts(self@);
        }
        if range.end == 0 || range.end > self.lines.len() || range.start > range.end
            || range.start >= self.lines.len() {
            return None;
        }
        let (cs, _) = self.line_chars[range.start];
        let (_, ce) = self.line_chars[range.end - 1];
        let text = self.text.as_str().substring_char(cs, ce);
        Some(((self.lines[range.start].0, self.lines[range.end - 1].1), text))
    }

    /// Character index and UTF-16 offset of byte offset `b`, where `b` falls between
    /// characters.
    fn locate(&self, b: usize) -> (r: Option<(usize, usize)>)
        ensures
            r is Some <==> is_boundary(self@, b as int),
            r is Some ==> (r->0).0 == char_index(self@, b as int) && (r->0).1 == utf16_len(
                self@.take((r->0).0 as int),
            ),
    {
        proof {
            use_type_invariant(self);
        }
        let ghost t = self@;
        let mut k: usize = 0;
        let mut acc: usize = 0;
        let mut acc16: usize = 0;
        assert(t.take(0) =~= Seq::<char>::empty());
        proof {
            assert(t.take(t.len() as int) =~= t);
        }
        while k < self.chars.len() && acc < b
            invariant
                self.inv(),
                t == self@,
                0 <= k <= t.len(),
                acc == byte_len(t.take(k as int)),
                acc16 == utf16_len(t.take(k as int)),
                t.take(t.len() as int) == t,
                k > 0 ==> byte_len(t.take(k - 1)) < b,
            decreases t.len() - k,
        {
            proof {
                lemma_take_step(t, k as int);
                lemma_take_mono(t, k + 1, t.len() as int);
                lemma_utf16_le_bytes(t.take(k + 1));
            }
            acc += char_utf8_width(self.chars[k]);
            acc16 += char_utf16_width(self.chars[k]);
            k += 1;
        }
        if acc == b {
            proof {
                lemma_char_index(t, k as int);
            }
            Some((k, acc16))
        } else {
            proof {
                assert forall|j: int| 0 <= j <= t.len() implies #[trigger] byte_len(t.take(j))
                    != b by {
                    if j < k {
                        lemma_take_mono(t, j, k - 1);
                    } else {
                        lemma_take_mono(t, k as int, j);
                    }
                }
            }
            None
        }
    }

    /// Convert a UTF-16 line/column position to a UTF-8 byte offset.
    pub fn to_offset(&self, pos: Position) -> (r: Option<usize>)
        ensures
            r matches Some(o) ==> offset_of(self@, pos) == Some(o as int),
            r is None ==> offset_of(self@, pos) is None,
    {
        proof {
            use_type_invariant(self);
            lemma_line_starts(self@);
        }
        let line = pos.line as usize;
        if line >= self.lines.len() {
            return None;
        }
        let ghost t = self@;
        let (cs, ce) = self.line_chars[line];
        let chars = vstd::slice::slice_subrange(self.chars.as_slice(), cs, ce);
        proof {
            assert(t.take(ce as int) =~= t.take(cs as int) + t.subrange(cs as int, ce as int));
            lemma_len_concat(t.take(cs as int), t.subrange(cs as int, ce as int));
            lemma_take_mono(t, ce as int, t.len() as int);
            assert(t.take(t.len() as int) =~= t);
            lemma_utf16_to_byte_bound(t.subrange(cs as int, ce as int), pos.character as int);
        }
        let byte_offset = utf16_to_byte(chars, pos.character as usize);
        Some(self.lines[line].0.byte + byte_offset)
    }

    /// Convert a UTF-8 byte offset to a UTF-16 line/column position.
    pub fn to_position(&self, offset: usize) -> (r: Option<Position>)
        ensures
            r == position_of(self@, offset as int),
    {
        proof {
            use_type_invariant(self);
            lemma_line_starts(self@);
        }
        let ghost t = self@;
        let n = self.lines.len();
        let total = self.lines[n - 1].1.byte;
        proof {
            assert(t.take(t.len() as int) =~= t);
        }
        if offset > total {
            return None;
        }
        if offset == total {
            let (s, e) = self.lines[n - 1];
            proof {
                let sp = line_span(t, n - 1);
                assert(t.take(sp.1) =~= t.take(sp.0) + t.subrange(sp.0, sp.1));
                lemma_len_concat(t.take(sp.0), t.subrange(sp.0, sp.1));
                lemma_take_mono(t, sp.0, sp.1);
                lemma_take_mono(t, 0, sp.0);
                lemma_utf16_le_bytes(t);
                assert(t.take(0) =~= Seq::<char>::empty());
            }
            let character = e.utf16 - s.utf16;
            if n > 0xffff_ffff || character > 0xffff_ffff {
                return None;
            }
            return Some(Position { line: n as u32, character: character as u32 });
        }
        let located = self.locate(offset);
        let (k, k16) = match located {
            Some(p) => p,
            None => {
                return None;
            },
        };
        proof {
            if k == t.len() {
                assert(t.take(k as int) =~= t);
            }
            lemma_line_of(t, k as int);
        }
        let mut i: usize = 0;
        while i < n && !(self.line_chars[i].0 <= k && k < self.line_chars[i].1)
            invariant
                self.inv(),
                t == self@,
                n == line_count(t),
                0 <= k < t.len(),
                0 <= i <= n,
                forall|j: int|
                    0 <= j < i ==> !((#[trigger] line_span(t, j)).0 <= k < line_span(t, j).1),
            decreases n - i,
        {
            i += 1;
        }
        if i == n {
            return None;
        }
        let s16 = self.lines[i].0.utf16;
        proof {
            let sp = line_span(t, i as int);
            assert(t.take(k as int) =~= t.take(sp.0) + t.subrange(sp.0, k as int));
            lemma_len_concat(t.take(sp.0), t.subrange(sp.0, k as int));
            lemma_take_mono(t, k as int, t.len() as int);
            lemma_utf16_le_bytes(t);
        }
        let character = k16 - s16;
        if i > 0xffff_ffff || character > 0xffff_ffff {
            return None;
        }
        Some(Position { line: i as u32, character: character as u32 })
    }

    /// The text of byte range `range`, where it is ordered and falls between characters.
    pub fn slice(&self, range: std::ops::Range<usize>) -> (r: Option<&str>)
        ensures
            r is Some <==> can_replace(self@, range.start as int, range.end as int),
            r matches Some(x) ==> x@ == self@.subrange(
                char_index(self@, range.start as int),
                char_index(self@, range.end as int),
            ),
    {
        let ghost t = self@;
        if range.start > range.end {
            return None;
        }
        let (a, _) = match self.locate(range.start) {
            Some(p) => p,
            None => {
                return None;
            },
        };
        let (b, _) = match self.locate(range.end) {
            Some(p) => p,
            None => {
                return None;
            },
        };
        proof {
            use_type_invariant(self);
            if a > b {
                lemma_take_mono(t, b as int, a as int);
            }
        }
        Some(self.text.as_str().substring_char(a, b))
    }

    /// Replaces the bytes of `range` by `text` and rebuilds the line table.
    pub fn replace(&mut self, range: std::ops::Range<usize>, text: &str) -> (r: Result<
        (),
        InvalidRange,
    >)
        ensures
            r is Ok <==> can_replace(old(self)@, range.start as int, range.end as int),
            r is Ok ==> final(self)@ == replaced(
                old(self)@,
                range.start as int,
                range.end as int,
                text@,
            ),
            r is Err ==> final(self)@ == old(self)@,
    {
        let ghost t = self@;
        if range.start > range.end {
            return Err(InvalidRange);
        }
        let (a, _) = match self.locate(range.start) {
            Some(p) => p,
            None => {
                return Err(InvalidRange);
            },
        };
        let (b, _) = match self.locate(range.end) {
            Some(p) => p,
            None => {
                return Err(InvalidRange);
            },
        };
        proof {
            use_type_invariant(&*self);
            if a > b {
                lemma_take_mono(t, b as int, a as int);
            }
        }
        let n = self.chars.len();
        let mut new_text = String::from_str(self.text.as_str().substring_char(0, a));
        new_text.append(text);
        new_text.append(self.text.as_str().substring_char(b, n));
        assert(new_text@ =~= replaced(t, range.start as int, range.end as int, text@));
        *self = SourceFile::new(new_text);
        Ok(())
    }
}

/// A byte range that does not lie between characters of the text, or is reversed.
#[derive(Debug, Clone, Copy, PartialEq, Eq, Structural)]
pub struct InvalidRange;

/// Lines `start .. end` exist, with at least the line before `end`.
pub open spec fn line_range_ok(t: Seq<char>, start: int, end: int) -> bool {
    1 <= end <= line_count(t) && start < line_count(t) && start <= end
}

} // verus!
