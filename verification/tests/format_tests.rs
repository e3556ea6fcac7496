use brainfuck::analyzer::Position;
use brainfuck::formatter::{format_pretty_string, format_string};
use brainfuck::inlay_hint::InlayHint;

#[test]
fn test_should_success() {
    let actual = format_string(">[>[<,]]").unwrap();
    assert_eq!(
        ">\n[\n    >\n    [\n        <\n        ,\n    ]\n]",
        actual.format_result
    );
}

#[test]
fn test_format_pretty_string() {
    let actual = format_pretty_string(">[>>+]").unwrap();
    assert_eq!(">\n[\n    >>+\n]\n", actual.format_result);
}

#[test]
fn test_inlay_hint_string_should_success() {
    let actual = InlayHint::inlay_hint_string(">>+,,..>>[<]");
    assert_eq!(6, actual.unwrap().len());
}

#[test]
fn format_range_covers_document() {
    let actual = format_string(">\n+").unwrap();
    assert_eq!(actual.range.start, Position::new(0, 0));
    assert_eq!(actual.range.end, Position::new(1, 1));
}

#[test]
fn format_rejects_invalid_source() {
    assert_eq!(
        format_string("+a").unwrap_err().error_message,
        "Invalid token"
    );
    assert_eq!(
        format_pretty_string("[").unwrap_err().error_message,
        "More [ found"
    );
}

#[test]
fn pretty_format_keeps_comments_on_own_lines() {
    let actual = format_pretty_string("+//note\n-").unwrap();
    assert_eq!("+\n//note\n\n-", actual.format_result);
}

#[test]
fn inlay_hint_labels_sum_runs() {
    let hints = InlayHint::inlay_hint_string(">>>++<").unwrap();
    // the `<` starts a new run, flushing the first; the rest flushes at the end
    assert_eq!(2, hints.len());
    assert_eq!(hints[0].label, ">3 +2 ");
    assert_eq!(hints[1].label, "<1 ");
    let io_hints = InlayHint::inlay_hint_string("+,.").unwrap();
    assert_eq!(2, io_hints.len());
    assert_eq!(io_hints[0].label, "+1 input");
    assert_eq!(io_hints[1].label, "output");
}
