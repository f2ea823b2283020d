use crate::dictionary::flagged;
use crate::document::Document;
use crate::issues::strings_view;
use crate::source::{can_replace, offset_of, Position};
use crate::text::{has_space, str_has_space, str_trim, trim};
use vstd::prelude::*;

verus! {

/// A diagnostic that the editor hands back with a request for actions, as plain values.
pub struct Offered {
    /// Whether this server published it.
    pub ours: bool,
    pub start: Position,
    pub end: Position,
    /// Whether it was published as a warning (a spelling match).
    pub warning: bool,
    pub replacements: Vec<String>,
}

/// What the editor may offer to do.
pub enum Action {
    /// Replace the range of diagnostic `diagnostic` by `text`.
    Replace { diagnostic: usize, text: String },
    /// Add `word`, the text of diagnostic `diagnostic`, to the dictionary.
    AddWord { diagnostic: usize, word: String },
    /// Drop the matches in the requested range; `diagnostics` are those it settles.
    Ignore { diagnostics: Vec<usize> },
    /// Check the requested range.
    Check,
    /// Look up synonyms of `word`, the selected text.
    Synonyms { word: String },
}

pub enum ActionView {
    Replace { diagnostic: int, text: Seq<char> },
    AddWord { diagnostic: int, word: Seq<char> },
    Ignore { diagnostics: Seq<int> },
    Check,
    Synonyms { word: Seq<char> },
}

impl View for Action {
    type V = ActionView;

    open spec fn view(&self) -> ActionView {
        match self {
            Action::Replace { diagnostic, text } => ActionView::Replace {
                diagnostic: *diagnostic as int,
                text: text@,
            },
            Action::AddWord { diagnostic, word } => ActionView::AddWord {
                diagnostic: *diagnostic as int,
                word: word@,
            },
            Action::Ignore { diagnostics } => ActionView::Ignore {
                diagnostics: Seq::new(diagnostics@.len(), |k: int| diagnostics@[k] as int),
            },
            Action::Check => ActionView::Check,
            Action::Synonyms { word } => ActionView::Synonyms { word: word@ },
        }
    }
}

pub open spec fn actions_view(v: Seq<Action>) -> Seq<ActionView> {
    Seq::new(v.len(), |i: int| v[i]@)
}

/// The text between two editor positions of `t`, where both exist and are in order.
pub open spec fn selected(t: Seq<char>, start: Position, end: Position) -> Option<Seq<char>> {
    if offset_of(t, start) is Some && offset_of(t, end) is Some && can_replace(
        t,
        offset_of(t, start)->0,
        offset_of(t, end)->0,
    ) {
        flagged(t, (offset_of(t, start)->0, offset_of(t, end)->0))
    } else {
        None
    }
}

/// The actions for diagnostic `i`: one replacement per suggestion, and for a warning whose
/// text can be read, adding that text to the dictionary.
pub open spec fn actions_for(t: Seq<char>, i: int, ours: bool, start: Position, end: Position, warning: bool, reps: Seq<Seq<char>>) -> Seq<ActionView> {
    if !ours {
        Seq::empty()
    } else {
        Seq::new(reps.len(), |k: int| ActionView::Replace { diagnostic: i, text: reps[k] }) + (
        if warning && selected(t, start, end) is Some {
            seq![ActionView::AddWord { diagnostic: i, word: selected(t, start, end)->0 }]
        } else {
            Seq::empty()
        })
    }
}

pub open spec fn per_diagnostic(t: Seq<char>, ds: Seq<Offered>) -> Seq<ActionView>
    decreases ds.len(),
{
    if ds.len() == 0 {
        Seq::empty()
    } else {
        let d = ds.last();
        per_diagnostic(t, ds.drop_last()) + actions_for(
            t,
            ds.len() - 1,
            d.ours,
            d.start,
            d.end,
            d.warning,
            strings_view(d.replacements@),
        )
    }
}

/// Indices of the diagnostics that this server published.
pub open spec fn ours(ds: Seq<Offered>) -> Seq<int>
    decreases ds.len(),
{
    if ds.len() == 0 {
        Seq::empty()
    } else if ds.last().ours {
        ours(ds.drop_last()).push(ds.len() - 1)
    } else {
        ours(ds.drop_last())
    }
}

/// The actions offered for the range `start .. end` with diagnostics `ds`: those of each
/// diagnostic, ignoring where any is ours, checking always, and synonyms where the trimmed
/// selection is one word.
pub open spec fn planned(t: Seq<char>, ds: Seq<Offered>, start: Position, end: Position) -> Seq<
    ActionView,
> {
    let own = ours(ds);
    let w = trim(selected(t, start, end)->0);
    per_diagnostic(t, ds) + (if own.len() > 0 {
        seq![ActionView::Ignore { diagnostics: own }]
    } else {
        Seq::empty()
    }) + seq![ActionView::Check] + (if selected(t, start, end) is Some && w.len() > 0
        && !has_space(w) {
        seq![ActionView::Synonyms { word: w }]
    } else {
        Seq::empty()
    })
}

/// The actions to offer for the range `start .. end` of `doc`, given the diagnostics there.
pub fn plan_actions(doc: &Document, ds: &Vec<Offered>, start: Position, end: Position) -> (r: Vec<
    Action,
>)
    ensures
        actions_view(r@) == planned(doc.source@, ds@, start, end),
{
    let ghost t = doc.source@;
    let mut r: Vec<Action> = Vec::new();
    let mut own: Vec<usize> = Vec::new();
    let mut i: usize = 0;
    while i < ds.len()
        invariant
            0 <= i <= ds.len(),
            t == doc.source@,
            actions_view(r@) == per_diagnostic(t, ds@.take(i as int)),
            Seq::new(own@.len(), |k: int| own@[k] as int) == ours(ds@.take(i as int)),
        decreases ds.len() - i,
    {
        let d = &ds[i];
        let ghost p = ds@.take(i as int);
        let ghost q = ds@.take(i + 1);
        assert(q.drop_last() =~= p);
        assert(q.last() == *d);
        let ghost before = actions_view(r@);
        if d.ours {
            let ghost reps = strings_view(d.replacements@);
            let mut k: usize = 0;
            while k < d.replacements.len()
                invariant
                    0 <= k <= d.replacements.len(),
                    reps == strings_view(d.replacements@),
                    actions_view(r@) == before + Seq::new(
                        k as nat,
                        |m: int| ActionView::Replace { diagnostic: i as int, text: reps[m] },
                    ),
                decreases d.replacements.len() - k,
            {
                let ghost b2 = r@;
                r.push(Action::Replace { diagnostic: i, text: d.replacements[k].clone() });
                assert(actions_view(r@) =~= actions_view(b2).push(
                    ActionView::Replace { diagnostic: i as int, text: reps[k as int] },
                ));
                assert(actions_view(r@) =~= before + Seq::new(
                    (k + 1) as nat,
                    |m: int| ActionView::Replace { diagnostic: i as int, text: reps[m] },
                ));
                k += 1;
            }
            let ghost mid = actions_view(r@);
            if d.warning {
                match doc.selection(d.start, d.end) {
                    Some(word) => {
                        let ghost b3 = r@;
                        r.push(Action::AddWord { diagnostic: i, word: String::from_str(word) });
                        assert(actions_view(r@) =~= actions_view(b3).push(
                            ActionView::AddWord { diagnostic: i as int, word: word@ },
                        ));
                        assert(actions_view(r@) =~= mid + seq![
                            ActionView::AddWord { diagnostic: i as int, word: word@ },
                        ]);
                    },
                    None => {
                        assert(mid =~= mid + Seq::<ActionView>::empty());
                    },
                }
            } else {
                assert(mid =~= mid + Seq::<ActionView>::empty());
            }
            let ghost o = own@;
            own.push(i);
            assert(Seq::new(own@.len(), |k: int| own@[k] as int) =~= Seq::new(
                o.len(),
                |k: int| o[k] as int,
            ).push(i as int));
        } else {
            assert(before =~= before + Seq::<ActionView>::empty());
        }
        i += 1;
    }
    assert(ds@.take(ds.len() as int) =~= ds@);
    let ghost diag_part = actions_view(r@);
    if own.len() > 0 {
        let ghost b4 = r@;
        let ghost ov = Seq::new(own@.len(), |k: int| own@[k] as int);
        r.push(Action::Ignore { diagnostics: own });
        assert(actions_view(r@) =~= actions_view(b4).push(ActionView::Ignore { diagnostics: ov }));
    }
    let ghost b5 = r@;
    r.push(Action::Check);
    assert(actions_view(r@) =~= actions_view(b5).push(ActionView::Check));
    let ghost with_check = actions_view(r@);
    match doc.selection(start, end) {
        Some(sel) => {
            let word = str_trim(sel);
            if word.unicode_len() > 0 && !str_has_space(word) {
                let ghost b6 = r@;
                r.push(Action::Synonyms { word: String::from_str(word) });
                assert(actions_view(r@) =~= actions_view(b6).push(
                    ActionView::Synonyms { word: word@ },
                ));
            }
        },
        None => {},
    }
    proof {
        let own_v = ours(ds@);
        let w = trim(selected(t, start, end)->0);
        let ig = if own_v.len() > 0 {
            seq![ActionView::Ignore { diagnostics: own_v }]
        } else {
            Seq::<ActionView>::empty()
        };
        let sy = if selected(t, start, end) is Some && w.len() > 0 && !has_space(w) {
            seq![ActionView::Synonyms { word: w }]
        } else {
            Seq::<ActionView>::empty()
        };
        assert(with_check =~= diag_part + ig + seq![ActionView::Check]);
        assert(actions_view(r@) =~= with_check + sy);
    }
    r
}

} // verus!
