use languagetool_lsp::diagnostics::{message, severity, Severity};
use languagetool_lsp::dictionary::{filter_dictionary, Dictionary};
use languagetool_lsp::issues::{IssueStore, Match};
use languagetool_lsp::source::SourceFile;

fn issue(start: usize, end: usize, category: &str) -> Match {
    Match {
        range: start..end,
        title: format!("t{start}"),
        message: String::new(),
        replacements: Vec::new(),
        category: category.to_string(),
        rule: "R".to_string(),
    }
}

fn ranges(store: &IssueStore) -> Vec<(usize, usize, String)> {
    store
        .matches()
        .iter()
        .map(|m| (m.range.start, m.range.end, m.title.clone()))
        .collect()
}

#[test]
fn reconcile_replaces_touching_and_keeps_the_rest() {
    let mut store = IssueStore::new();
    store.push(issue(0, 2, "A"));
    store.push(issue(5, 7, "A"));
    store.push(issue(10, 12, "A"));
    store.push(issue(20, 22, "A"));
    let mut fresh = issue(8, 9, "B");
    fresh.title = "new".to_string();
    store.reconcile(7..10, vec![fresh]);
    assert_eq!(
        ranges(&store),
        vec![
            (0, 2, "t0".to_string()),
            (8, 9, "new".to_string()),
            (20, 22, "t20".to_string()),
        ]
    );
}

#[test]
fn reconcile_sorts_by_start_stably() {
    let mut store = IssueStore::new();
    store.push(issue(30, 31, "A"));
    let mut x = issue(3, 4, "B");
    x.title = "first".to_string();
    let mut y = issue(3, 5, "B");
    y.title = "second".to_string();
    store.reconcile(10..12, vec![issue(40, 41, "B"), x, y]);
    assert_eq!(
        ranges(&store),
        vec![
            (3, 4, "first".to_string()),
            (3, 5, "second".to_string()),
            (30, 31, "t30".to_string()),
            (40, 41, "t40".to_string()),
        ]
    );
}

#[test]
fn shift_moves_only_matches_after_the_edit() {
    let mut store = IssueStore::new();
    store.push(issue(0, 3, "A"));
    store.push(issue(2, 8, "A"));
    store.push(issue(5, 8, "A"));
    store.push(issue(10, 12, "A"));
    assert!(store.can_shift(3, 5, 0));
    store.shift_for_edit(3, 5, 0);
    assert_eq!(
        ranges(&store),
        vec![
            (0, 3, "t0".to_string()),
            (2, 8, "t2".to_string()),
            (3, 6, "t5".to_string()),
            (8, 10, "t10".to_string()),
        ]
    );
    assert!(!store.can_shift(5, 3, 0));
    assert!(!store.can_shift(0, 0, usize::MAX));
}

#[test]
fn dismiss_drops_touching_matches() {
    let mut store = IssueStore::new();
    store.push(issue(0, 2, "A"));
    store.push(issue(4, 6, "A"));
    store.push(issue(9, 12, "A"));
    store.dismiss(2..4);
    assert_eq!(ranges(&store), vec![(9, 12, "t9".to_string())]);
}

#[test]
fn dictionary_filters_spelling_matches_only() {
    let file = SourceFile::new("Teh colour".to_string());
    let mut dict = Dictionary::new();
    dict.insert("colour".to_string());
    dict.insert("colour".to_string());
    assert!(dict.contains("colour"));
    assert!(!dict.contains("Colour"));
    let found = vec![issue(0, 3, "TYPOS"), issue(4, 10, "TYPOS"), issue(4, 10, "STYLE")];
    let kept = filter_dictionary(found, &file, &dict);
    let got: Vec<(usize, String)> = kept.iter().map(|m| (m.range.start, m.category.clone())).collect();
    assert_eq!(got, vec![(0, "TYPOS".to_string()), (4, "STYLE".to_string())]);
}

#[test]
fn remove_word_drops_flagged_spelling_matches() {
    let file = SourceFile::new("Teh colour Teh".to_string());
    let mut store = IssueStore::new();
    store.push(issue(0, 3, "TYPOS"));
    store.push(issue(4, 10, "TYPOS"));
    store.push(issue(11, 14, "TYPOS"));
    store.push(issue(11, 14, "GRAMMAR"));
    store.remove_by_category_and_text("TYPOS", "Teh", &file);
    let got: Vec<(usize, String)> =
        store.matches().iter().map(|m| (m.range.start, m.category.clone())).collect();
    assert_eq!(got, vec![(4, "TYPOS".to_string()), (11, "GRAMMAR".to_string())]);
}

#[test]
fn severities_by_category() {
    assert_eq!(severity("STYLE"), Severity::Hint);
    assert_eq!(severity("REDUNDANCY"), Severity::Hint);
    assert_eq!(severity("COLLOQUIALISMS"), Severity::Hint);
    assert_eq!(severity("SYNONYMS"), Severity::Hint);
    assert_eq!(severity("TYPOS"), Severity::Warning);
    assert_eq!(severity("GRAMMAR"), Severity::Information);
}

#[test]
fn diagnostic_message_layout() {
    let mut m = issue(0, 1, "TYPOS");
    m.title = "Spelling".to_string();
    m.message = "Possible typo".to_string();
    m.rule = "MORFOLOGIK".to_string();
    assert_eq!(message(&m), "Spelling\n\nPossible typo\nTYPOS > MORFOLOGIK\n");
}
