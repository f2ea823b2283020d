use languagetool_lsp::annotated::AnnotatedText;
use languagetool_lsp::service::{
    classify_status, has_credentials, level, to_match, word_target, Found, ServiceError,
    WordTarget,
};
use languagetool_lsp::synonyms::Synonyms;
use languagetool_lsp::text::{str_is_blank, str_trimmed_len};

fn found(offset: usize, length: usize, replacements: usize) -> Found {
    Found {
        message: "Possible spelling mistake".to_string(),
        short_message: "Spelling".to_string(),
        rule_id: "MORFOLOGIK".to_string(),
        category_id: "TYPOS".to_string(),
        replacements: (0..replacements).map(|i| format!("r{i}")).collect(),
        offset,
        length,
    }
}

#[test]
fn reported_offsets_become_buffer_bytes() {
    let mut payload = AnnotatedText::new();
    payload.add_text("😀 Teh".to_string());
    let m = to_match(&payload, 100, found(3, 3, 12)).unwrap();
    assert_eq!(m.range, 105..108);
    assert_eq!(m.title, "Spelling");
    assert_eq!(m.message, "Possible spelling mistake");
    assert_eq!(m.category, "TYPOS");
    assert_eq!(m.rule, "MORFOLOGIK");
    assert_eq!(m.replacements.len(), 10);
    assert_eq!(m.replacements[9], "r9");
}

#[test]
fn reported_offsets_that_overflow_are_dropped() {
    let mut payload = AnnotatedText::new();
    payload.add_text("abc".to_string());
    assert!(to_match(&payload, 0, found(usize::MAX, 1, 0)).is_none());
    assert!(to_match(&payload, usize::MAX, found(1, 1, 0)).is_none());
}

#[test]
fn status_codes() {
    assert!(classify_status(200, "").is_ok());
    assert!(classify_status(204, "").is_ok());
    assert!(matches!(classify_status(503, "busy"), Err(ServiceError::Unavailable)));
    assert!(matches!(classify_status(504, ""), Err(ServiceError::Unavailable)));
    let long = "é".repeat(400);
    match classify_status(400, &long) {
        Err(ServiceError::Status { code, excerpt }) => {
            assert_eq!(code, 400);
            assert_eq!(excerpt.chars().count(), 300);
        }
        _ => panic!("expected a status error"),
    }
    match classify_status(500, "oops") {
        Err(ServiceError::Status { code, excerpt }) => {
            assert_eq!(code, 500);
            assert_eq!(excerpt, "oops");
        }
        _ => panic!("expected a status error"),
    }
}

#[test]
fn credentials_and_word_targets() {
    assert!(has_credentials("me", "key"));
    assert!(!has_credentials("", "key"));
    assert!(!has_credentials("me", ""));
    assert_eq!(word_target(true, "me", "key"), WordTarget::Remote);
    assert_eq!(word_target(true, "", "key"), WordTarget::Local { warn: true });
    assert_eq!(word_target(false, "me", "key"), WordTarget::Local { warn: false });
    assert_eq!(level(true), "picky");
    assert_eq!(level(false), "default");
}

#[test]
fn synonym_endpoints() {
    assert_eq!(Synonyms::De.url(), "https://synonyms.languagetool.org/synonyms/de/");
    assert_eq!(
        Synonyms::En.url(),
        "https://qb-grammar-en.languagetool.org/phrasal-paraphraser/subscribe/"
    );
}

#[test]
fn unicode_white_space() {
    assert!(str_is_blank(" \t\r\n\u{3000}\u{a0}"));
    assert!(str_is_blank(""));
    assert!(!str_is_blank(" a "));
    assert!(!str_is_blank("\u{200b}"));
    assert_eq!(str_trimmed_len("ab \u{2003}\n"), 2);
    assert_eq!(str_trimmed_len("é"), 1);
}
