use vstd::prelude::*;
use vstd::utf8::{char_is_scalar, encode_utf8};

verus! {

/// Number of bytes in the UTF-8 encoding of `c`.
pub open spec fn utf8_width(c: char) -> nat {
    let v = c as u32;
    if v < 0x80 {
        1
    } else if v < 0x800 {
        2
    } else if v < 0x10000 {
        3
    } else {
        4
    }
}

/// Number of UTF-16 code units of `c`: two for a character outside the basic plane.
pub open spec fn utf16_width(c: char) -> nat {
    if (c as u32) < 0x10000 {
        1
    } else {
        2
    }
}

/// Length of `s` in UTF-8 bytes.
pub open spec fn byte_len(s: Seq<char>) -> nat
    decreases s.len(),
{
    if s.len() == 0 {
        0
    } else {
        byte_len(s.drop_last()) + utf8_width(s.last())
    }
}

/// Length of `s` in UTF-16 code units.
pub open spec fn utf16_len(s: Seq<char>) -> nat
    decreases s.len(),
{
    if s.len() == 0 {
        0
    } else {
        utf16_len(s.drop_last()) + utf16_width(s.last())
    }
}

/// The characters that carry the Unicode `White_Space` property.
pub open spec fn is_space(c: char) -> bool {
    let v = c as u32;
    (0x09 <= v <= 0x0d) || v == 0x20 || v == 0x85 || v == 0xa0 || v == 0x1680 || (0x2000 <= v
        <= 0x200a) || v == 0x2028 || v == 0x2029 || v == 0x202f || v == 0x205f || v == 0x3000
}

/// Every character of `s` is white space (so `s` trims to nothing).
pub open spec fn is_blank(s: Seq<char>) -> bool {
    forall|i: int| 0 <= i < s.len() ==> is_space(#[trigger] s[i])
}

/// Number of characters left once trailing white space is cut off.
pub open spec fn trimmed_len(s: Seq<char>) -> nat
    decreases s.len(),
{
    if s.len() == 0 {
        0
    } else if !is_space(s.last()) {
        s.len()
    } else {
        trimmed_len(s.drop_last())
    }
}

/// Number of white-space characters at the start of `s`.
pub open spec fn leading_spaces(s: Seq<char>) -> nat
    decreases s.len(),
{
    if s.len() == 0 {
        0
    } else {
        let l = leading_spaces(s.drop_last());
        if l == s.len() - 1 && is_space(s.last()) {
            s.len()
        } else {
            l
        }
    }
}

/// `s` without white space at either end.
pub open spec fn trim(s: Seq<char>) -> Seq<char> {
    if leading_spaces(s) >= trimmed_len(s) {
        Seq::empty()
    } else {
        s.subrange(leading_spaces(s) as int, trimmed_len(s) as int)
    }
}

/// Some character of `s` is white space.
pub open spec fn has_space(s: Seq<char>) -> bool {
    exists|i: int| 0 <= i < s.len() && is_space(#[trigger] s[i])
}

/// `s` without its trailing white space.
pub open spec fn trim_end(s: Seq<char>) -> Seq<char> {
    s.take(trimmed_len(s) as int)
}

pub proof fn lemma_len_concat(a: Seq<char>, b: Seq<char>)
    ensures
        byte_len(a + b) == byte_len(a) + byte_len(b),
        utf16_len(a + b) == utf16_len(a) + utf16_len(b),
    decreases b.len(),
{
    if b.len() == 0 {
        assert(a + b =~= a);
    } else {
        lemma_len_concat(a, b.drop_last());
        assert((a + b).drop_last() =~= a + b.drop_last());
    }
}

pub proof fn lemma_take_step(s: Seq<char>, k: int)
    requires
        0 <= k < s.len(),
    ensures
        byte_len(s.take(k + 1)) == byte_len(s.take(k)) + utf8_width(s[k]),
        utf16_len(s.take(k + 1)) == utf16_len(s.take(k)) + utf16_width(s[k]),
{
    assert(s.take(k + 1).drop_last() =~= s.take(k));
}

/// A longer prefix is longer in bytes and in UTF-16 units.
pub proof fn lemma_take_mono(s: Seq<char>, j: int, k: int)
    requires
        0 <= j <= k <= s.len(),
    ensures
        byte_len(s.take(j)) + (k - j) <= byte_len(s.take(k)),
        utf16_len(s.take(j)) + (k - j) <= utf16_len(s.take(k)),
        utf16_len(s.take(k)) - utf16_len(s.take(j)) <= byte_len(s.take(k)) - byte_len(s.take(j)),
    decreases k - j,
{
    if j < k {
        lemma_take_mono(s, j, k - 1);
        lemma_take_step(s, k - 1);
    }
}

pub proof fn lemma_utf16_le_bytes(s: Seq<char>)
    ensures
        utf16_len(s) <= byte_len(s),
{
    lemma_take_mono(s, 0, s.len() as int);
    assert(s.take(s.len() as int) =~= s);
    assert(s.take(0) =~= Seq::<char>::empty());
}

proof fn lemma_encode_len(s: Seq<char>)
    ensures
        encode_utf8(s).len() == byte_len(s),
    decreases s.len(),
{
    if s.len() > 0 {
        lemma_encode_len(s.drop_first());
        lemma_len_concat(seq![s[0]], s.drop_first());
        assert(s =~= seq![s[0]] + s.drop_first());
        assert(seq![s[0]].drop_last() =~= Seq::<char>::empty());
        assert(byte_len(Seq::<char>::empty()) == 0);
        assert(byte_len(seq![s[0]]) == utf8_width(s[0]));
        char_is_scalar(s[0]);
        assert(encode_utf8(s) == vstd::utf8::encode_scalar(s[0] as u32) + encode_utf8(s.drop_first()));
    }
}

/// Byte length of `s`.
pub fn str_byte_len(s: &str) -> (n: usize)
    ensures
        n == byte_len(s@),
{
    let n = s.as_bytes().len();
    proof {
        lemma_encode_len(s@);
    }
    n
}

/// Number of UTF-8 bytes of `c`.
pub fn char_utf8_width(c: char) -> (r: usize)
    ensures
        r == utf8_width(c),
{
    let v = c as u32;
    if v < 0x80 {
        1
    } else if v < 0x800 {
        2
    } else if v < 0x10000 {
        3
    } else {
        4
    }
}

/// Number of UTF-16 code units of `c`.
pub fn char_utf16_width(c: char) -> (r: usize)
    ensures
        r == utf16_width(c),
{
    if (c as u32) < 0x10000 {
        1
    } else {
        2
    }
}

/// Relies on `char::is_whitespace`, which tests the Unicode `White_Space` property.
#[verifier::external_body]
pub(crate) fn char_is_whitespace(c: char) -> (r: bool)
    ensures
        r == is_space(c),
{
    c.is_whitespace()
}

pub proof fn lemma_blank_step(s: Seq<char>, i: int)
    requires
        0 <= i < s.len(),
    ensures
        is_blank(s.take(i + 1)) == (is_blank(s.take(i)) && is_space(s[i])),
{
    assert(s.take(i + 1) =~= s.take(i).push(s[i]));
    if is_blank(s.take(i + 1)) {
        assert(is_space(s.take(i + 1)[i]));
        assert forall|k: int| 0 <= k < i implies is_space(#[trigger] s.take(i)[k]) by {
            assert(s.take(i)[k] == s.take(i + 1)[k]);
        }
    }
    if is_blank(s.take(i)) && is_space(s[i]) {
        assert forall|k: int| 0 <= k < i + 1 implies is_space(#[trigger] s.take(i + 1)[k]) by {
            if k < i {
                assert(s.take(i)[k] == s.take(i + 1)[k]);
            }
        }
    }
}

pub proof fn lemma_trimmed_len(s: Seq<char>)
    ensures
        trimmed_len(s) <= s.len(),
        trimmed_len(s) == 0 <==> is_blank(s),
        trimmed_len(trim_end(s)) == trimmed_len(s),
        trim_end(trim_end(s)) == trim_end(s),
        is_blank(trim_end(s)) == is_blank(s),
    decreases s.len(),
{
    if s.len() > 0 {
        let d = s.drop_last();
        lemma_trimmed_len(d);
        assert(s =~= d.push(s.last()));
        if !is_space(s.last()) {
            assert(s.take(s.len() as int) =~= s);
            assert(!is_space(s[s.len() - 1]));
        } else {
            assert(trim_end(s) =~= trim_end(d));
            if is_blank(d) {
                assert forall|i: int| 0 <= i < s.len() implies is_space(#[trigger] s[i]) by {
                    if i < d.len() {
                        assert(s[i] == d[i]);
                    }
                }
            }
            if is_blank(s) {
                assert forall|i: int| 0 <= i < d.len() implies is_space(#[trigger] d[i]) by {
                    assert(s[i] == d[i]);
                }
            }
        }
    }
}

/// A text that is not blank stays so when more text follows.
pub proof fn lemma_blank_concat(a: Seq<char>, b: Seq<char>)
    ensures
        is_blank(a + b) ==> is_blank(a) && is_blank(b),
{
    if is_blank(a + b) {
        assert forall|i: int| 0 <= i < a.len() implies is_space(#[trigger] a[i]) by {
            assert((a + b)[i] == a[i]);
        }
        assert forall|i: int| 0 <= i < b.len() implies is_space(#[trigger] b[i]) by {
            assert((a + b)[a.len() + i] == b[i]);
        }
    }
}

/// Number of characters of `s` once trailing white space is cut off.
pub fn str_trimmed_len(s: &str) -> (n: usize)
    ensures
        n == trimmed_len(s@),
{
    let mut keep: usize = 0;
    let mut i: usize = 0;
    let _ = str_byte_len(s);
    proof {
        lemma_take_mono(s@, 0, s@.len() as int);
        assert(s@.take(s@.len() as int) =~= s@);
    }
    assert(s@.take(0) =~= Seq::<char>::empty());
    for c in it: s.chars()
        invariant
            it.seq() == s@,
            i == it.index(),
            s@.len() <= usize::MAX,
            keep == trimmed_len(s@.take(i as int)),
    {
        assert(c == s@[i as int]);
        assert(s@.take(i + 1).drop_last() =~= s@.take(i as int));
        i = i + 1;
        if !char_is_whitespace(c) {
            keep = i;
        }
    }
    assert(s@.take(s@.len() as int) =~= s@);
    keep
}

/// `s` without white space at either end.
pub fn str_trim(s: &str) -> (r: &str)
    ensures
        r@ == trim(s@),
{
    let keep = str_trimmed_len(s);
    let mut lead: usize = 0;
    let mut i: usize = 0;
    let _ = str_byte_len(s);
    proof {
        lemma_trimmed_len(s@);
        lemma_take_mono(s@, 0, s@.len() as int);
        assert(s@.take(s@.len() as int) =~= s@);
        assert(s@.take(0) =~= Seq::<char>::empty());
    }
    assert(s@.take(0) =~= Seq::<char>::empty());
    for c in it: s.chars()
        invariant
            it.seq() == s@,
            i == it.index(),
            keep == trimmed_len(s@),
            keep <= s@.len(),
            s@.len() <= usize::MAX,
            lead <= i,
            lead == leading_spaces(s@.take(i as int)),
    {
        assert(s@.take(i + 1).drop_last() =~= s@.take(i as int));
        assert(c == s@[i as int]);
        if lead == i && char_is_whitespace(c) {
            lead = i + 1;
        }
        i = i + 1;
    }
    assert(s@.take(s@.len() as int) =~= s@);
    if lead >= keep {
        s.substring_char(0, 0)
    } else {
        s.substring_char(lead, keep)
    }
}

/// Whether some character of `s` is white space.
pub fn str_has_space(s: &str) -> (r: bool)
    ensures
        r == has_space(s@),
{
    let mut found = false;
    for c in it: s.chars()
        invariant
            it.seq() == s@,
            found == has_space(s@.take(it.index() as int)),
    {
        let ghost i = it.index() as int;
        assert(c == s@[i]);
        let ghost p = s@.take(i);
        let ghost q = s@.take(i + 1);
        assert(q =~= p.push(c));
        if char_is_whitespace(c) {
            found = true;
            assert(q[i] == c);
        }
        assert(found == has_space(q)) by {
            if has_space(q) && !is_space(c) {
                let k = choose|k: int| 0 <= k < q.len() && is_space(#[trigger] q[k]);
                assert(p[k] == q[k]);
            }
            if has_space(p) {
                let k = choose|k: int| 0 <= k < p.len() && is_space(#[trigger] p[k]);
                assert(q[k] == p[k]);
            }
        }
    }
    assert(s@.take(s@.len() as int) =~= s@);
    found
}

/// Whether two strings hold the same characters.
pub fn str_eq(a: &str, b: &str) -> (r: bool)
    ensures
        r == (a@ == b@),
{
    String::from_str(a) == String::from_str(b)
}

/// A copy of each string, in order.
pub fn clone_strings(v: &Vec<String>) -> (r: Vec<String>)
    ensures
        r@ == v@,
{
    let mut r: Vec<String> = Vec::new();
    for i in 0..v.len()
        invariant
            r@ == v@.take(i as int),
    {
        r.push(v[i].clone());
        assert(r@ =~= v@.take(i + 1));
    }
    assert(v@.take(v@.len() as int) =~= v@);
    r
}

/// Whether `s` holds only white space.
pub fn str_is_blank(s: &str) -> (r: bool)
    ensures
        r == is_blank(s@),
{
    let mut blank = true;
    for c in it: s.chars()
        invariant
            it.seq() == s@,
            blank == is_blank(s@.take(it.index() as int)),
    {
        let ghost i = it.index() as int;
        assert(c == s@[i]);
        proof {
            lemma_blank_step(s@, i);
        }
        if !char_is_whitespace(c) {
            blank = false;
        }
    }
    assert(s@.take(s@.len() as int) =~= s@);
    blank
}

} // verus!
