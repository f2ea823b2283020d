use crate::issues::{matches_view, IssueStore, Match, MatchView};
use crate::source::{can_replace, char_index, SourceFile};
use crate::text::str_eq;
use vstd::prelude::*;

verus! {

/// Words that the user accepts as spelled right; case matters.
pub struct Dictionary {
    words: Vec<String>,
}

impl View for Dictionary {
    type V = Set<Seq<char>>;

    closed spec fn view(&self) -> Set<Seq<char>> {
        Set::new(|w: Seq<char>| exists|i: int| 0 <= i < self.words@.len() && self.words@[i]@ == w)
    }
}

/// The text that match range `r` flags in `t`, where the range is ordered and falls between
/// characters.
pub open spec fn flagged(t: Seq<char>, r: (int, int)) -> Option<Seq<char>> {
    if can_replace(t, r.0, r.1) {
        Some(t.subrange(char_index(t, r.0), char_index(t, r.1)))
    } else {
        None
    }
}

/// The category of spelling matches.
pub open spec fn spelling() -> Seq<char> {
    "TYPOS"@
}

/// A match that the dictionary suppresses: a spelling match whose flagged text is a word of
/// the dictionary.
pub open spec fn suppressed(m: MatchView, t: Seq<char>, d: Set<Seq<char>>) -> bool {
    m.category == spelling() && (flagged(t, m.range) matches Some(w) && d.contains(w))
}

/// A match of category `c` that flags exactly `word`.
pub open spec fn flags_word(m: MatchView, t: Seq<char>, c: Seq<char>, word: Seq<char>) -> bool {
    m.category == c && flagged(t, m.range) == Some(word)
}

impl Dictionary {
    pub fn new() -> (r: Self)
        ensures
            r@ == Set::<Seq<char>>::empty(),
    {
        let r = Dictionary { words: Vec::new() };
        assert(r@ =~= Set::<Seq<char>>::empty());
        r
    }

    /// A dictionary of the given words.
    pub fn from_words(words: Vec<String>) -> (r: Self)
        ensures
            forall|w: Seq<char>|
                r@.contains(w) <==> exists|i: int| 0 <= i < words@.len() && words@[i]@ == w,
    {
        Dictionary { words }
    }

    pub fn contains(&self, word: &str) -> (r: bool)
        ensures
            r == self@.contains(word@),
    {
        let mut i: usize = 0;
        while i < self.words.len()
            invariant
                0 <= i <= self.words.len(),
                forall|k: int| 0 <= k < i ==> self.words@[k]@ != word@,
            decreases self.words.len() - i,
        {
            if str_eq(self.words[i].as_str(), word) {
                return true;
            }
            i += 1;
        }
        false
    }

    pub fn insert(&mut self, word: String)
        ensures
            final(self)@ == old(self)@.insert(word@),
    {
        if !self.contains(word.as_str()) {
            let ghost w = word@;
            self.words.push(word);
            assert(self.words@[self.words@.len() - 1]@ == w);
            assert forall|x: Seq<char>| self@.contains(x) <==> old(self)@.insert(w).contains(x) by {
                if old(self)@.contains(x) {
                    let i = choose|i: int| 0 <= i < old(self).words@.len() && old(self).words@[i]@ == x;
                    assert(self.words@[i]@ == x);
                }
                if self@.contains(x) {
                    let i = choose|i: int| 0 <= i < self.words@.len() && self.words@[i]@ == x;
                    if i < old(self).words@.len() {
                        assert(old(self).words@[i]@ == x);
                    }
                }
            }
            assert(self@ =~= old(self)@.insert(w));
        } else {
            assert(old(self)@.insert(word@) =~= old(self)@);
        }
    }
}

/// Whether `m` is a spelling match whose flagged text is in `dict`.
pub fn is_suppressed(m: &Match, source: &SourceFile, dict: &Dictionary) -> (r: bool)
    ensures
        r == suppressed(m@, source@, dict@),
{
    if !str_eq(m.category.as_str(), "TYPOS") {
        return false;
    }
    match source.slice(m.range.start..m.range.end) {
        Some(word) => dict.contains(word),
        None => false,
    }
}

/// Drops the spelling matches whose flagged text is in `dict`.
pub fn filter_dictionary(found: Vec<Match>, source: &SourceFile, dict: &Dictionary) -> (r: Vec<
    Match,
>)
    ensures
        matches_view(r@) == matches_view(found@).filter(
            |m: MatchView| !suppressed(m, source@, dict@),
        ),
{
    let ghost s = matches_view(found@);
    let ghost pred = |m: MatchView| !suppressed(m, source@, dict@);
    let mut kept: Vec<Match> = Vec::new();
    for m in it: found
        invariant
            it.seq() == found@,
            s == matches_view(found@),
            pred == (|m: MatchView| !suppressed(m, source@, dict@)),
            matches_view(kept@) == s.take(it.index() as int).filter(pred),
    {
        let ghost i = it.index() as int;
        proof {
            assert(s.take(i + 1) =~= s.take(i).push(m@));
            s.take(i).lemma_filter_push(m@, pred);
        }
        if !is_suppressed(&m, source, dict) {
            let ghost before = kept@;
            kept.push(m);
            assert(matches_view(kept@) =~= matches_view(before).push(m@));
        }
    }
    assert(s.take(s.len() as int) =~= s);
    kept
}

impl IssueStore {
    /// Drops the matches of category `category` that flag exactly `word`.
    pub fn remove_by_category_and_text(&mut self, category: &str, word: &str, source: &SourceFile)
        ensures
            final(self)@ == old(self)@.filter(
                |m: MatchView| !flags_word(m, source@, category@, word@),
            ),
    {
        let ghost pred = |m: MatchView| !flags_word(m, source@, category@, word@);
        let ghost s = self@;
        let mut all = IssueStore::new();
        std::mem::swap(self, &mut all);
        let found = all.into_matches();
        let mut kept = IssueStore::new();
        for m in it: found
            invariant
                it.seq() == found@,
                s == matches_view(found@),
                pred == (|m: MatchView| !flags_word(m, source@, category@, word@)),
                kept@ == s.take(it.index() as int).filter(pred),
        {
            let ghost i = it.index() as int;
            proof {
                assert(s.take(i + 1) =~= s.take(i).push(m@));
                s.take(i).lemma_filter_push(m@, pred);
            }
            let hit = str_eq(m.category.as_str(), category) && match source.slice(
                m.range.start..m.range.end,
            ) {
                Some(w) => str_eq(w, word),
                None => false,
            };
            if !hit {
                kept.push(m);
            }
        }
        assert(s.take(s.len() as int) =~= s);
        *self = kept;
    }
}

} // verus!
