use azurite::errors::{CombineIntoError, Error, ErrorOption, Part};
use azurite::types::SourceRange;

fn text(s: &str) -> ErrorOption {
    ErrorOption::Text(s.to_string())
}

#[test]
fn combining_separates_errors_with_newlines() {
    let errors = vec![Error::new(vec![text("a")]), Error::new(vec![text("b"), text("\n")]), Error::new(vec![])];
    let combined = errors.combine_into_error();
    assert_eq!(combined, Error::new(vec![text("a"), text("\n"), text("b"), text("\n")]));
}

#[test]
fn combining_nothing_is_empty() {
    let errors: Vec<Error> = vec![];
    assert_eq!(errors.combine_into_error(), Error::new(vec![]));
}

#[test]
fn highlight_parts_point_at_the_range() {
    let source = "let x = 1\nlet y = $\n";
    let option = ErrorOption::highlight(SourceRange::new(18, 19), None);
    let parts = option.parts("test", source);
    assert_eq!(
        parts,
        vec![
            Part::Plain(" --> test:1:8\n".to_string()),
            Part::Plain("  |".to_string()),
            Part::Plain("\n1 | let y = $\n".to_string()),
            Part::Plain(format!("  | {}", " ".repeat(7))),
            Part::Carets(1),
            Part::Plain("\n".to_string()),
        ]
    );
}

#[test]
fn highlight_over_several_lines_with_a_note() {
    let source = "ab\ncd\nef";
    // From `b` on the first line to `e` on the third.
    let option = ErrorOption::highlight(SourceRange::new(1, 7), Some("here".to_string()));
    let parts = option.parts("f", source);
    assert_eq!(
        parts,
        vec![
            Part::Plain(" --> f:0:1\n".to_string()),
            Part::Plain("  |".to_string()),
            Part::Plain("\n0 | ab\n".to_string()),
            Part::Plain("  | ".to_string()),
            Part::Carets(1),
            Part::Plain("\n1 | cd\n".to_string()),
            Part::Plain("  | ".to_string()),
            Part::Carets(2),
            Part::Plain("\n2 | ef\n".to_string()),
            Part::Plain("  | ".to_string()),
            Part::Carets(1),
            Part::Plain(" here\n".to_string()),
        ]
    );
}

#[test]
fn built_text_holds_the_parts() {
    let source = "let x = 1\nlet y = $\n";
    let option = ErrorOption::highlight(SourceRange::new(18, 19), Some("look".to_string()));
    let shown = option.build(("test", source));
    assert!(shown.starts_with(" --> test:1:8\n  |\n1 | let y = $\n  |        "));
    assert!(shown.contains('^'));
    assert!(shown.ends_with(" look\n"));
    let error = Error::new(vec![text("error: "), ErrorOption::highlight(SourceRange::new(18, 19), None)]);
    let shown = error.build(("test", source));
    assert!(shown.starts_with("error:  --> test:1:8\n"));
}
