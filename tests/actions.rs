use languagetool_lsp::actions::{plan_actions, Action, Offered};
use languagetool_lsp::document::Document;
use languagetool_lsp::source::{Position, SourceFile};

fn pos(line: u32, character: u32) -> Position {
    Position { line, character }
}

fn describe(actions: &[Action]) -> Vec<String> {
    actions
        .iter()
        .map(|a| match a {
            Action::Replace { diagnostic, text } => format!("replace {diagnostic} {text}"),
            Action::AddWord { diagnostic, word } => format!("add {diagnostic} {word}"),
            Action::Ignore { diagnostics } => format!("ignore {diagnostics:?}"),
            Action::Check => "check".to_string(),
            Action::Synonyms { word } => format!("synonyms {word}"),
        })
        .collect()
}

#[test]
fn actions_for_our_diagnostics_and_a_word_selection() {
    let doc = Document::new(SourceFile::new("Teh cat sat".to_string()), None);
    let offered = vec![
        Offered {
            ours: true,
            start: pos(0, 0),
            end: pos(0, 3),
            warning: true,
            replacements: vec!["The".to_string(), "Ten".to_string()],
        },
        Offered {
            ours: false,
            start: pos(0, 4),
            end: pos(0, 7),
            warning: true,
            replacements: vec!["dog".to_string()],
        },
        Offered {
            ours: true,
            start: pos(0, 8),
            end: pos(0, 11),
            warning: false,
            replacements: Vec::new(),
        },
    ];
    let plan = plan_actions(&doc, &offered, pos(0, 3), pos(0, 8));
    assert_eq!(
        describe(&plan),
        vec![
            "replace 0 The",
            "replace 0 Ten",
            "add 0 Teh",
            "ignore [0, 2]",
            "check",
            "synonyms cat",
        ]
    );
}

#[test]
fn no_synonyms_for_several_words_and_no_ignore_without_ours() {
    let doc = Document::new(SourceFile::new("Teh cat sat".to_string()), None);
    let plan = plan_actions(&doc, &Vec::new(), pos(0, 0), pos(0, 7));
    assert_eq!(describe(&plan), vec!["check"]);
    let plan = plan_actions(&doc, &Vec::new(), pos(0, 3), pos(0, 3));
    assert_eq!(describe(&plan), vec!["check"]);
}
