use languagetool_lsp::synonyms::{join_words, sentence_bounds, word_count};
use languagetool_lsp::text::{str_has_space, str_trim};

#[test]
fn sentence_around_a_selection() {
    let line = "One. This is a test sentence. Two";
    // "test" is at bytes 15..19
    assert_eq!(sentence_bounds(line, 15, 19), Some((3, 28)));
    assert_eq!(sentence_bounds("no stops here", 3, 5), Some((0, 13)));
    assert_eq!(sentence_bounds("ab", 2, 1), None);
    assert_eq!(sentence_bounds("é", 1, 2), None);
    assert_eq!(sentence_bounds("ab", 0, 9), None);
}

#[test]
fn words_are_counted_and_joined() {
    assert_eq!(word_count(""), 0);
    assert_eq!(word_count("  This is  a "), 3);
    assert_eq!(word_count("x"), 1);
    assert_eq!(join_words("  Dies  ist\tein "), "Dies ist ein");
    assert_eq!(join_words("   "), "");
    assert_eq!(join_words("a"), "a");
}

#[test]
fn trimming_both_ends() {
    assert_eq!(str_trim("  Test \n"), "Test");
    assert_eq!(str_trim(" \t "), "");
    assert_eq!(str_trim("a b"), "a b");
    assert!(str_has_space("a b"));
    assert!(!str_has_space("ab"));
}
