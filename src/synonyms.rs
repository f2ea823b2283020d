use crate::source::{char_index, is_boundary, lemma_char_index};
use crate::text::{
    byte_len, char_is_whitespace, char_utf8_width, is_space, lemma_take_mono, lemma_take_step,
    str_byte_len,
};
use vstd::prelude::*;

verus! {

/// The synonym services, one per language; each takes its own request shape.
#[derive(Debug, Clone, Copy, PartialEq, Eq, Structural)]
pub enum Synonyms {
    En,
    De,
}

impl Synonyms {
    /// The endpoint of the service.
    pub fn url(self) -> (r: &'static str)
        ensures
            r@ == (match self {
                Synonyms::En => "https://qb-grammar-en.languagetool.org/phrasal-paraphraser/subscribe/"@,
                Synonyms::De => "https://synonyms.languagetool.org/synonyms/de/"@,
            }),
    {
        match self {
            Synonyms::En => "https://qb-grammar-en.languagetool.org/phrasal-paraphraser/subscribe/",
            Synonyms::De => "https://synonyms.languagetool.org/synonyms/de/",
        }
    }
}

/// Index of the last full stop among the first `k` characters, or -1.
pub open spec fn last_dot(t: Seq<char>, k: int) -> int
    decreases k,
{
    if k <= 0 {
        -1
    } else if t[k - 1] == '.' {
        k - 1
    } else {
        last_dot(t, k - 1)
    }
}

/// Index of the first full stop at or after character `k`, or the length.
pub open spec fn first_dot(t: Seq<char>, k: int) -> int
    decreases t.len() - k,
{
    if k >= t.len() {
        t.len() as int
    } else if t[k] == '.' {
        k
    } else {
        first_dot(t, k + 1)
    }
}

/// Byte bounds of the sentence around the selection `a .. b` of `t`: from the last full stop
/// before it (or the start) to the first full stop after it (or the end). `None` for a
/// selection that is reversed or splits a character.
pub open spec fn sentence_span(t: Seq<char>, a: int, b: int) -> Option<(int, int)> {
    if !(a <= b && is_boundary(t, a) && is_boundary(t, b)) {
        None
    } else {
        let d = last_dot(t, char_index(t, a));
        Some(
            (
                if d < 0 {
                    0
                } else {
                    byte_len(t.take(d)) as int
                },
                byte_len(t.take(first_dot(t, char_index(t, b)))) as int,
            ),
        )
    }
}

/// Number of words: maximal runs of characters that are not white space.
pub open spec fn word_count_spec(s: Seq<char>) -> nat
    decreases s.len(),
{
    if s.len() == 0 {
        0
    } else {
        word_count_spec(s.drop_last()) + if !is_space(s.last()) && (s.len() == 1 || is_space(
            s[s.len() - 2],
        )) {
            1nat
        } else {
            0nat
        }
    }
}

/// The words of `s`, one space between two of them.
pub open spec fn joined(s: Seq<char>) -> Seq<char>
    decreases s.len(),
{
    if s.len() == 0 {
        Seq::empty()
    } else {
        let j = joined(s.drop_last());
        let c = s.last();
        if is_space(c) {
            j
        } else if s.len() >= 2 && is_space(s[s.len() - 2]) && j.len() > 0 {
            j + seq![' ', c]
        } else {
            j.push(c)
        }
    }
}

/// The characters of `s` and the byte offset of every prefix.
fn prefix_bytes(s: &str) -> (r: (Vec<char>, Vec<usize>))
    ensures
        r.0@ == s@,
        r.1@.len() == s@.len() + 1,
        forall|k: int| 0 <= k <= s@.len() ==> #[trigger] r.1@[k] == byte_len(s@.take(k)),
{
    let _ = str_byte_len(s);
    let mut chars: Vec<char> = Vec::new();
    let mut offs: Vec<usize> = Vec::new();
    let mut acc: usize = 0;
    offs.push(0);
    assert(s@.take(0) =~= Seq::<char>::empty());
    proof {
        assert(s@.take(s@.len() as int) =~= s@);
    }
    for c in it: s.chars()
        invariant
            it.seq() == s@,
            byte_len(s@) <= usize::MAX,
            s@.take(s@.len() as int) == s@,
            chars@ == s@.take(it.index() as int),
            acc == byte_len(s@.take(it.index() as int)),
            offs@.len() == it.index() + 1,
            forall|k: int| 0 <= k <= it.index() ==> #[trigger] offs@[k] == byte_len(s@.take(k)),
    {
        let ghost i = it.index() as int;
        proof {
            lemma_take_step(s@, i);
            lemma_take_mono(s@, i + 1, s@.len() as int);
            assert(c == s@[i]);
            assert(s@.take(i + 1) =~= s@.take(i).push(c));
        }
        chars.push(c);
        acc = acc + char_utf8_width(c);
        offs.push(acc);
    }
    assert(s@.take(s@.len() as int) =~= s@);
    (chars, offs)
}

/// The prefix length whose byte offset is `b`, where there is one.
fn find_offset(offs: &Vec<usize>, t: Ghost<Seq<char>>, b: usize) -> (r: Option<usize>)
    requires
        offs@.len() == t@.len() + 1,
        forall|k: int| 0 <= k <= t@.len() ==> #[trigger] offs@[k] == byte_len(t@.take(k)),
    ensures
        r is Some <==> is_boundary(t@, b as int),
        r matches Some(k) ==> k == char_index(t@, b as int),
{
    let mut k: usize = 0;
    while k < offs.len() && offs[k] < b
        invariant
            0 <= k <= offs@.len(),
            offs@.len() == t@.len() + 1,
            forall|j: int| 0 <= j <= t@.len() ==> #[trigger] offs@[j] == byte_len(t@.take(j)),
            forall|j: int| 0 <= j < k ==> #[trigger] offs@[j] < b,
        decreases offs@.len() - k,
    {
        k += 1;
    }
    if k < offs.len() && offs[k] == b {
        proof {
            lemma_char_index(t@, k as int);
        }
        Some(k)
    } else {
        proof {
            assert forall|j: int| 0 <= j <= t@.len() implies #[trigger] byte_len(t@.take(j))
                != b by {
                if j < k {
                    assert(offs@[j] < b);
                } else if k < offs.len() {
                    lemma_take_mono(t@, k as int, j);
                }
            }
        }
        None
    }
}

/// Byte bounds of the sentence around the selection `start .. end` of `line`.
pub fn sentence_bounds(line: &str, start: usize, end: usize) -> (r: Option<(usize, usize)>)
    ensures
        r matches Some((a, b)) ==> sentence_span(line@, start as int, end as int) == Some(
            (a as int, b as int),
        ),
        r is None ==> sentence_span(line@, start as int, end as int) is None,
{
    let ghost t = line@;
    let (chars, offs) = prefix_bytes(line);
    if start > end {
        return None;
    }
    let ka = match find_offset(&offs, Ghost(t), start) {
        Some(k) => k,
        None => {
            return None;
        },
    };
    let kb = match find_offset(&offs, Ghost(t), end) {
        Some(k) => k,
        None => {
            return None;
        },
    };
    let mut d = ka;
    while d > 0 && chars[d - 1] != '.'
        invariant
            0 <= d <= ka <= t.len(),
            chars@ == t,
            last_dot(t, d as int) == last_dot(t, ka as int),
        decreases d,
    {
        d -= 1;
    }
    let s = if d == 0 {
        0
    } else {
        offs[d - 1]
    };
    let mut e = kb;
    while e < chars.len() && chars[e] != '.'
        invariant
            kb <= e <= t.len(),
            chars@ == t,
            first_dot(t, e as int) == first_dot(t, kb as int),
        decreases t.len() - e,
    {
        e += 1;
    }
    Some((s, offs[e]))
}

/// Number of words in `s`, as `split_whitespace` counts them.
pub fn word_count(s: &str) -> (r: usize)
    ensures
        r == word_count_spec(s@),
{
    let mut n: usize = 0;
    let mut prev_space = true;
    let mut i: usize = 0;
    let _ = str_byte_len(s);
    proof {
        lemma_take_mono(s@, 0, s@.len() as int);
        assert(s@.take(s@.len() as int) =~= s@);
        assert(s@.take(0) =~= Seq::<char>::empty());
    }
    for c in it: s.chars()
        invariant
            it.seq() == s@,
            i == it.index(),
            s@.len() <= usize::MAX,
            n <= i,
            n == word_count_spec(s@.take(i as int)),
            prev_space == (i == 0 || is_space(s@[i - 1])),
    {
        let ghost q = s@.take(i + 1);
        assert(q.drop_last() =~= s@.take(i as int));
        assert(c == s@[i as int]);
        let space = char_is_whitespace(c);
        if !space && prev_space {
            n = n + 1;
        }
        prev_space = space;
        i = i + 1;
    }
    assert(s@.take(s@.len() as int) =~= s@);
    n
}

/// The words of `s` joined by single spaces, as `split_whitespace` and `join(" ")` give them.
pub fn join_words(s: &str) -> (r: String)
    ensures
        r@ == joined(s@),
{
    let mut out = String::new();
    proof {
        reveal_strlit(" ");
    }
    let mut in_word = false;
    let mut ws: usize = 0;
    let mut i: usize = 0;
    let _ = str_byte_len(s);
    proof {
        lemma_take_mono(s@, 0, s@.len() as int);
        assert(s@.take(s@.len() as int) =~= s@);
        assert(s@.take(0) =~= Seq::<char>::empty());
    }
    for c in it: s.chars()
        invariant
            it.seq() == s@,
            i == it.index(),
            s@.len() <= usize::MAX,
            ws <= i,
            !in_word ==> out@ == joined(s@.take(i as int)) && (i == 0 || is_space(s@[i - 1])),
            in_word ==> ws < i && !is_space(s@[i - 1]) && joined(s@.take(i as int)) == out@ + (
            if out@.len() > 0 {
                seq![' ']
            } else {
                Seq::empty()
            }) + s@.subrange(ws as int, i as int),
    {
        let ghost q = s@.take(i + 1);
        assert(q.drop_last() =~= s@.take(i as int));
        assert(c == s@[i as int]);
        let ghost sep = if out@.len() > 0 {
            seq![' ']
        } else {
            Seq::<char>::empty()
        };
        if char_is_whitespace(c) {
            if in_word {
                proof {
                    reveal_strlit(" ");
                }
                let ghost o = out@;
                if out.as_str().unicode_len() > 0 {
                    out.append(" ");
                }
                assert(out@ =~= o + sep);
                out.append(s.substring_char(ws, i));
                assert(out@ =~= o + sep + s@.subrange(ws as int, i as int));
                assert(out@ =~= joined(s@.take(i as int)));
                in_word = false;
            }
        } else {
            if !in_word {
                ws = i;
                in_word = true;
                proof {
                    assert(s@.subrange(ws as int, i + 1) =~= seq![c]);
                    if out@.len() > 0 {
                        assert(joined(q) =~= out@ + seq![' '] + s@.subrange(ws as int, i + 1));
                    } else {
                        assert(joined(q) =~= out@ + Seq::<char>::empty() + s@.subrange(
                            ws as int,
                            i + 1,
                        ));
                    }
                }
            } else {
                assert(s@.subrange(ws as int, i + 1) =~= s@.subrange(ws as int, i as int).push(c));
                assert(joined(q) =~= out@ + sep + s@.subrange(ws as int, i + 1));
            }
        }
        i = i + 1;
    }
    assert(s@.take(s@.len() as int) =~= s@);
    if in_word {
        if out.as_str().unicode_len() > 0 {
            out.append(" ");
        }
        out.append(s.substring_char(ws, i));
        assert(out@ =~= joined(s@));
    }
    out
}

} // verus!
