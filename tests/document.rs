use languagetool_lsp::diagnostics::Severity;
use languagetool_lsp::dictionary::Dictionary;
use languagetool_lsp::document::{line_total, Document, EditError};
use languagetool_lsp::issues::Match;
use languagetool_lsp::source::{Position, SourceFile};

fn issue(start: usize, end: usize, category: &str) -> Match {
    Match {
        range: start..end,
        title: "T".to_string(),
        message: "M".to_string(),
        replacements: vec!["r".to_string()],
        category: category.to_string(),
        rule: "R".to_string(),
    }
}

fn pos(line: u32, character: u32) -> Position {
    Position { line, character }
}

fn ranges(doc: &Document) -> Vec<(usize, usize)> {
    doc.matches.matches().iter().map(|m| (m.range.start, m.range.end)).collect()
}

#[test]
fn new_document_marks_every_line() {
    let doc = Document::new(SourceFile::new("a\nb\n".to_string()), Some(1));
    assert_eq!(doc.changed_lines.changes(), &vec![0..3]);
    assert_eq!(doc.version, Some(1));
}

#[test]
fn same_length_edit_keeps_later_issues_in_place() {
    let mut doc = Document::new(SourceFile::new("Teh cat sat.\n".to_string()), Some(1));
    doc.take_changes();
    doc.matches.push(issue(0, 3, "TYPOS"));
    doc.matches.push(issue(4, 7, "STYLE"));
    doc.matches.push(issue(8, 11, "STYLE"));
    let r = doc.apply_change(Some((pos(0, 0), pos(0, 3))), "The".to_string(), 2);
    assert_eq!(r, Ok(()));
    assert_eq!(doc.source.text(), "The cat sat.\n");
    assert_eq!(ranges(&doc), vec![(0, 3), (4, 7), (8, 11)]);
    assert_eq!(doc.changed_lines.changes(), &vec![0..1]);
    assert_eq!(doc.version, Some(2));
}

#[test]
fn longer_edit_shifts_later_issues() {
    let mut doc = Document::new(SourceFile::new("ab cd\nef".to_string()), None);
    doc.matches.push(issue(3, 5, "STYLE"));
    doc.matches.push(issue(0, 1, "STYLE"));
    let r = doc.apply_change(Some((pos(0, 1), pos(0, 2))), "XYZ\n".to_string(), 3);
    assert_eq!(r, Ok(()));
    assert_eq!(doc.source.text(), "aXYZ\n cd\nef");
    assert_eq!(ranges(&doc), vec![(6, 8), (0, 1)]);
}

#[test]
fn edit_at_a_missing_line_changes_nothing() {
    let mut doc = Document::new(SourceFile::new("ab".to_string()), Some(1));
    doc.matches.push(issue(0, 2, "STYLE"));
    let r = doc.apply_change(Some((pos(4, 0), pos(4, 1))), "x".to_string(), 2);
    assert_eq!(r, Err(EditError::InvalidPosition));
    assert_eq!(doc.source.text(), "ab");
    assert_eq!(doc.version, Some(1));
    assert_eq!(ranges(&doc), vec![(0, 2)]);
}

#[test]
fn reversed_edit_is_refused() {
    let mut doc = Document::new(SourceFile::new("abc".to_string()), Some(1));
    let r = doc.apply_change(Some((pos(0, 2), pos(0, 1))), "x".to_string(), 2);
    assert_eq!(r, Err(EditError::InvalidRange));
    assert_eq!(doc.source.text(), "abc");
}

#[test]
fn full_replacement_clears_state() {
    let mut doc = Document::new(SourceFile::new("abc".to_string()), Some(1));
    doc.matches.push(issue(0, 2, "STYLE"));
    assert_eq!(doc.apply_change(None, "xyz\n".to_string(), 5), Ok(()));
    assert_eq!(doc.source.text(), "xyz\n");
    assert!(doc.matches.matches().is_empty());
    assert!(doc.changed_lines.changes().is_empty());
    assert_eq!(doc.version, Some(5));
}

#[test]
fn save_with_drift_marks_everything() {
    let mut doc = Document::new(SourceFile::new("abc".to_string()), Some(1));
    doc.take_changes();
    assert!(!doc.save(Some("abc".to_string())));
    assert!(!doc.save(None));
    assert!(doc.changed_lines.changes().is_empty());
    assert!(doc.save(Some("a\nb".to_string())));
    assert_eq!(doc.source.text(), "a\nb");
    assert_eq!(doc.changed_lines.changes(), &vec![0..2]);
}

#[test]
fn check_cycle_on_edited_line_respects_blank_line() {
    let mut doc = Document::new(SourceFile::new("Teh cat.\n\nA dog.".to_string()), Some(1));
    doc.take_changes();
    doc.matches.push(issue(11, 14, "STYLE"));
    doc.apply_change(Some((pos(0, 0), pos(0, 3))), "The".to_string(), 2).unwrap();
    let changes = doc.take_changes();
    assert_eq!(changes, vec![0..1]);
    let (range, annot) = doc.prepare_check(changes[0].clone()).unwrap().unwrap();
    assert_eq!(range, 0..9);
    assert_eq!(annot.parts(), vec!["The cat."]);
    let mut dict = Dictionary::new();
    dict.insert("cat".to_string());
    doc.finish_check(range, vec![issue(4, 7, "TYPOS"), issue(0, 3, "GRAMMAR")], Some(&dict));
    assert_eq!(ranges(&doc), vec![(0, 3), (11, 14)]);
}

#[test]
fn blank_line_needs_no_check() {
    let doc = Document::new(SourceFile::new("a\n   \nb".to_string()), None);
    assert!(doc.prepare_check(1..2).unwrap().is_none());
    assert!(doc.prepare_check(7..9).is_err());
}

#[test]
fn leading_white_space_inside_text_stays() {
    let doc = Document::new(SourceFile::new("  Hi there\n".to_string()), None);
    let (range, annot) = doc.prepare_check(0..1).unwrap().unwrap();
    assert_eq!(range, 0..11);
    assert_eq!(annot.parts(), vec!["  Hi there"]);
}

#[test]
fn commands_on_ranges() {
    let mut doc = Document::new(SourceFile::new("Teh cat\nTeh dog".to_string()), None);
    doc.take_changes();
    doc.matches.push(issue(0, 3, "TYPOS"));
    doc.matches.push(issue(4, 7, "STYLE"));
    doc.matches.push(issue(8, 11, "TYPOS"));
    assert_eq!(doc.selection(pos(0, 0), pos(0, 3)), Some("Teh"));
    assert_eq!(doc.selection(pos(9, 0), pos(9, 3)), None);
    doc.remove_word("Teh");
    assert_eq!(ranges(&doc), vec![(4, 7)]);
    assert_eq!(doc.ignore(pos(0, 5), pos(0, 5)), Ok(()));
    assert!(doc.matches.matches().is_empty());
    assert_eq!(doc.ignore(pos(7, 0), pos(0, 1)), Err(EditError::InvalidPosition));
    assert_eq!(doc.mark_lines(pos(1, 0), pos(1, 2)), Ok(()));
    assert_eq!(doc.changed_lines.changes(), &vec![1..2]);
    assert_eq!(doc.mark_lines(pos(1, 0), pos(0, 2)), Err(EditError::InvalidRange));
}

#[test]
fn diagnostics_in_editor_positions() {
    let mut doc = Document::new(SourceFile::new("ab\n😀 Teh".to_string()), None);
    doc.matches.push(issue(8, 11, "TYPOS"));
    doc.matches.push(issue(1, 2, "STYLE"));
    // splits a character: left out
    doc.matches.push(issue(4, 5, "STYLE"));
    let diags = doc.diagnostics();
    assert_eq!(diags.len(), 2);
    assert_eq!(diags[0].start, pos(1, 3));
    assert_eq!(diags[0].end, pos(2, 6));
    assert_eq!(diags[0].severity, Severity::Warning);
    assert_eq!(diags[0].message, "T\n\nM\nTYPOS > R\n");
    assert_eq!(diags[0].replacements, vec!["r".to_string()]);
    assert_eq!(diags[1].start, pos(0, 1));
    assert_eq!(diags[1].end, pos(0, 2));
    assert_eq!(diags[1].severity, Severity::Hint);
}

#[test]
fn inserted_text_line_count() {
    assert_eq!(line_total(""), 1);
    assert_eq!(line_total("a\nb\n"), 3);
}

#[test]
fn marking_lines_past_the_counts_is_refused() {
    let mut doc = Document::new(SourceFile::new("a".to_string()), None);
    doc.take_changes();
    doc.changed_lines.add_change((usize::MAX - 3)..(usize::MAX - 3), 0);
    assert_eq!(doc.mark_lines(pos(0, 0), pos(3, 0)), Err(EditError::Overflow));
    assert_eq!(doc.changed_lines.changes().len(), 1);
}
