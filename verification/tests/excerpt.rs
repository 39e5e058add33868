use rscc::excerpt::{annotate_range, collect_lines, Span};
use rscc::parser::{parse, Diagnostic, DiagnosticType};

#[test]
fn an_invalid_operand_is_shown_with_the_next_line() {
    let source = "LDC abc\nSTP\n";
    let result = parse(source);
    assert_eq!(result.diagnostics.len(), 1);
    assert_eq!(
        result.diagnostics[0].annotate(source),
        "1. LDC abc\n       ^-- Invalid operand, expected a number\n2. STP"
    );
}

#[test]
fn each_type_of_diagnostic_has_its_message() {
    let source = "LDA 1\n";
    let shown = |ty: DiagnosticType| Diagnostic::new(ty, 0, 3).annotate(source);
    assert_eq!(
        shown(DiagnosticType::InvalidOpcode),
        "1. LDA 1\n   ^-- Invalid opcode"
    );
    assert_eq!(
        shown(DiagnosticType::MissingOperand),
        "1. LDA 1\n   ^-- Missing operand"
    );
    assert_eq!(
        shown(DiagnosticType::InvalidOperand),
        "1. LDA 1\n   ^-- Invalid operand, expected a number"
    );
    assert_eq!(
        shown(DiagnosticType::TooManyOperands),
        "1. LDA 1\n   ^-- Only one operand expected"
    );
    assert_eq!(
        shown(DiagnosticType::MissingStp),
        "1. LDA 1\n   ^-- Program must contain at least one STP instruction"
    );
    assert_eq!(
        Diagnostic::new(DiagnosticType::InvalidOpcode, 0, 3).message(),
        "Invalid opcode"
    );
}

#[test]
fn two_lines_are_shown_on_each_side() {
    let source = "LDC 1\nLDC 2\nLDC 3\nLDA x\nLDC 5\nLDC 6\nLDC 7\nSTP\n";
    let result = parse(source);
    assert_eq!(
        result.diagnostics,
        vec![Diagnostic::new(DiagnosticType::InvalidOperand, 22, 23)]
    );
    assert_eq!(
        result.diagnostics[0].annotate(source),
        "2. LDC 2\n3. LDC 3\n4. LDA x\n       ^ Invalid operand, expected a number\n5. LDC 5\n6. LDC 6"
    );
}

#[test]
fn blank_lines_are_neither_shown_nor_counted() {
    let source = "# add\n\nLDC 1\n   \n\nFOO\n\n \t \nSTP\n\n";
    let result = parse(source);
    let found: Vec<&Diagnostic> = result
        .diagnostics
        .iter()
        .filter(|d| d.start == 18)
        .collect();
    assert_eq!(found.len(), 1);
    assert_eq!(
        found[0].annotate(source),
        "1. # add\n2. LDC 1\n3. FOO\n   ^-- Invalid opcode\n4. STP"
    );
}

#[test]
fn a_missing_stp_is_shown_behind_the_last_line() {
    let source = "LDC 5\nOUT 1\n";
    let result = parse(source);
    assert_eq!(
        result.diagnostics,
        vec![Diagnostic::new(DiagnosticType::MissingStp, 12, 12)]
    );
    assert_eq!(
        result.diagnostics[0].annotate(source),
        "1. LDC 5\n2. OUT 1\n3. \n   ^ Program must contain at least one STP instruction"
    );
}

#[test]
fn a_missing_stp_in_a_source_without_a_last_line_feed_is_shown_under_the_last_line() {
    let source = "LDC 5\nOUT 1";
    let result = parse(source);
    assert_eq!(
        result.diagnostics[0].annotate(source),
        "1. LDC 5\n2. OUT 1\n        ^ Program must contain at least one STP instruction"
    );
}

#[test]
fn an_empty_source_can_be_shown() {
    let result = parse("");
    assert_eq!(
        result.diagnostics[0].annotate(""),
        "1. \n   ^ Program must contain at least one STP instruction"
    );
}

#[test]
fn the_marker_stands_under_the_bytes_of_the_range() {
    let source = "STP\n    MUL  seven 8\n";
    let result = parse(source);
    assert_eq!(
        result.diagnostics,
        vec![
            Diagnostic::new(DiagnosticType::TooManyOperands, 19, 20),
            Diagnostic::new(DiagnosticType::InvalidOperand, 13, 18),
        ]
    );
    assert_eq!(
        result.diagnostics[1].annotate(source),
        "1. STP\n2.     MUL  seven 8\n            ^---- Invalid operand, expected a number"
    );
    assert_eq!(
        result.diagnostics[0].annotate(source),
        "1. STP\n2.     MUL  seven 8\n                  ^ Only one operand expected"
    );
}

#[test]
fn the_marker_moves_with_the_width_of_the_number() {
    let mut source = String::new();
    for _ in 0..9 {
        source.push_str("LDC 1\n");
    }
    source.push_str("LDA x\nSTP\n");
    let result = parse(&source);
    assert_eq!(result.diagnostics.len(), 1);
    assert_eq!(
        result.diagnostics[0].annotate(&source),
        "8. LDC 1\n9. LDC 1\n10. LDA x\n        ^ Invalid operand, expected a number\n11. STP"
    );
}

#[test]
fn the_last_line_of_an_excerpt_has_no_white_space_at_its_end() {
    let source = "FOO\r\nLDC 1  \r\nSTP \t\r\nSTP\r\n";
    let result = parse(source);
    assert_eq!(
        result.diagnostics[0].annotate(source),
        "1. FOO\r\n   ^-- Invalid opcode\n2. LDC 1  \r\n3. STP"
    );
}

#[test]
fn a_range_of_one_byte_or_none_has_a_caret_only() {
    assert_eq!(
        annotate_range("LDA\nSTP", 3, 3, "Missing operand"),
        "1. LDA\n      ^ Missing operand\n2. STP"
    );
    assert_eq!(
        annotate_range("LDA\nSTP", 2, 3, "here"),
        "1. LDA\n     ^ here\n2. STP"
    );
    assert_eq!(
        annotate_range("LDA\nSTP", 4, 7, "here"),
        "1. LDA\n2. STP\n   ^-- here"
    );
}

#[test]
fn text_beyond_ascii_is_shown_as_it_is() {
    let source = "# café ☕\nLDA é\nSTP · fin\n";
    let result = parse(source);
    assert_eq!(result.diagnostics[0].start, 16);
    assert_eq!(
        result.diagnostics[0].annotate(source),
        "1. # café ☕\n2. LDA é\n       ^- Invalid operand, expected a number\n3. STP · fin"
    );
}

#[test]
fn every_diagnostic_of_a_parse_can_be_shown() {
    let source = "\n  FOO\nLDA\nLDC x y\nSTP 1\n\t\nADD 99999999999\n";
    let result = parse(source);
    assert_eq!(result.diagnostics.len(), 7);
    for diagnostic in &result.diagnostics {
        assert!(diagnostic.start <= diagnostic.end);
        assert!(diagnostic.end <= source.len());
        let shown = diagnostic.annotate(&result.code);
        assert!(shown.contains(diagnostic.message()));
        assert!(shown.contains('^'));
    }
}

#[test]
fn lines_that_are_not_blank_are_collected_in_order() {
    let source = "a\n\n b \n\r\nc";
    assert_eq!(
        collect_lines(source.as_bytes(), 0, source.len()),
        vec![
            Span { start: 0, end: 1 },
            Span { start: 3, end: 6 },
            Span { start: 9, end: 10 },
        ]
    );
    assert_eq!(collect_lines(source.as_bytes(), 7, 9), vec![]);
}

#[test]
fn all_diagnostics_of_a_parse_are_shown_in_their_order() {
    let source = "LDA\nFOO 1\n";
    let result = parse(source);
    assert_eq!(
        result.annotations(),
        vec![
            "1. LDA\n      ^ Missing operand\n2. FOO 1".to_string(),
            "1. LDA\n2. FOO 1\n   ^-- Invalid opcode".to_string(),
            "1. LDA\n2. FOO 1\n3. \n   ^ Program must contain at least one STP instruction".to_string(),
        ]
    );
    assert_eq!(parse("STP").annotations(), Vec::<String>::new());
}
