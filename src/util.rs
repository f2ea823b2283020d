use crate::text::{
    byte_len, char_utf16_width, char_utf8_width, lemma_take_mono, lemma_take_step,
    lemma_utf16_le_bytes, utf16_len,
};
use std::ops::Range;
use vstd::prelude::*;

verus! {

/// The first prefix length, from `k` on, at which `s` reaches `u` UTF-16 units; the whole
/// length where no prefix does.
pub open spec fn utf16_stop(s: Seq<char>, u: int, k: int) -> int
    decreases s.len() - k,
{
    if k >= s.len() || utf16_len(s.take(k)) >= u {
        k
    } else {
        utf16_stop(s, u, k + 1)
    }
}

/// Byte offset in `s` of UTF-16 offset `u`: the characters are walked until `u` units are
/// reached or passed.
pub open spec fn utf16_to_byte_spec(s: Seq<char>, u: int) -> int {
    byte_len(s.take(utf16_stop(s, u, 0))) as int
}

pub proof fn lemma_utf16_stop_bounds(s: Seq<char>, u: int, k: int)
    requires
        0 <= k <= s.len(),
    ensures
        k <= utf16_stop(s, u, k) <= s.len(),
    decreases s.len() - k,
{
    if k < s.len() && utf16_len(s.take(k)) < u {
        lemma_utf16_stop_bounds(s, u, k + 1);
    }
}

/// The byte offset is never past the end of `s`.
pub proof fn lemma_utf16_to_byte_bound(s: Seq<char>, u: int)
    ensures
        0 <= utf16_to_byte_spec(s, u) <= byte_len(s),
{
    lemma_utf16_stop_bounds(s, u, 0);
    lemma_take_mono(s, utf16_stop(s, u, 0), s.len() as int);
    assert(s.take(s.len() as int) =~= s);
}

proof fn lemma_utf16_stop_from(s: Seq<char>, k: int, j: int)
    requires
        0 <= j <= k <= s.len(),
    ensures
        utf16_stop(s, utf16_len(s.take(k)) as int, j) == k,
    decreases k - j,
{
    if j < k {
        lemma_take_mono(s, j, k);
        lemma_utf16_stop_from(s, k, j + 1);
    }
}

/// The UTF-16 length of a prefix leads back to that prefix.
pub proof fn lemma_utf16_stop_at(s: Seq<char>, k: int)
    requires
        0 <= k <= s.len(),
    ensures
        utf16_stop(s, utf16_len(s.take(k)) as int, 0) == k,
{
    lemma_utf16_stop_from(s, k, 0);
}

/// Byte offset of the UTF-16 offset `utf16_pos` in `chars`.
pub fn utf16_to_byte(chars: &[char], utf16_pos: usize) -> (r: usize)
    requires
        byte_len(chars@) <= usize::MAX,
    ensures
        r == utf16_to_byte_spec(chars@, utf16_pos as int),
{
    let ghost s = chars@;
    let mut byte_offset: usize = 0;
    let mut utf16_offset: usize = 0;
    let mut i: usize = 0;
    assert(s.take(0) =~= Seq::<char>::empty());
    while i < chars.len() && utf16_offset < utf16_pos
        invariant
            0 <= i <= s.len(),
            chars@ == s,
            byte_len(s) <= usize::MAX,
            byte_offset == byte_len(s.take(i as int)),
            utf16_offset == utf16_len(s.take(i as int)),
            utf16_stop(s, utf16_pos as int, 0) == utf16_stop(s, utf16_pos as int, i as int),
        decreases s.len() - i,
    {
        proof {
            lemma_take_step(s, i as int);
            lemma_take_mono(s, i + 1, s.len() as int);
            lemma_utf16_le_bytes(s.take(i + 1));
            assert(s.take(s.len() as int) =~= s);
        }
        byte_offset += char_utf8_width(chars[i]);
        utf16_offset += char_utf16_width(chars[i]);
        i += 1;
    }
    byte_offset
}

/// Whether two ranges overlap or share an end point.
pub open spec fn touches_spec(a: Range<usize>, b: Range<usize>) -> bool {
    a.start <= b.end && b.start <= a.end
}

pub trait RangeExt {
    spec fn touches_view(&self, other: &Self) -> bool;

    fn touches(&self, other: &Self) -> (r: bool)
        ensures
            r == self.touches_view(other),
    ;
}

impl RangeExt for Range<usize> {
    open spec fn touches_view(&self, other: &Self) -> bool {
        touches_spec(*self, *other)
    }

    fn touches(&self, other: &Self) -> (r: bool) {
        self.start <= other.end && other.start <= self.end
    }
}

} // verus!
