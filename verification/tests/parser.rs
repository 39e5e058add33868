use rscc::parser::{parse, Diagnostic, DiagnosticType, Instruction, Opcode};

fn diagnostic(ty: DiagnosticType, start: usize, end: usize) -> Diagnostic {
    Diagnostic::new(ty, start, end)
}

fn location_of(source: &str) -> Option<u32> {
    let result = parse(source);
    match result.instructions.first() {
        Some(Instruction::LDA(lda)) => Some(lda.location),
        _ => None,
    }
}

fn value_of(source: &str) -> Option<String> {
    let result = parse(source);
    match result.instructions.first() {
        Some(Instruction::LDC(ldc)) => Some(ldc.value.clone()),
        _ => None,
    }
}

#[test]
fn it_parses_basic_example_correctly() {
    let result = parse(r#"
            LDC 5
            INP 10
            STA 11
            OUT 11
            STP
        "#);

    assert!(result.instructions.len() == 5);

    match &result.instructions[0] {
        Instruction::LDC(ldc) => assert!(ldc.value.parse::<f64>().unwrap() == 5.0),
        _ => assert!(false, "Expected LDC on line 1")
    }

    match &result.instructions[1] {
        Instruction::INP(inp) => assert!(inp.location == 10),
        _ => assert!(false, "Expected INP on line 2")
    }

    match &result.instructions[2] {
        Instruction::STA(sta) => assert!(sta.location == 11),
        _ => assert!(false, "Expected LDC on line 3")
    }

    match &result.instructions[3] {
        Instruction::OUT(out) => assert!(out.location == 11),
        _ => assert!(false, "Expected OUT on line 4")
    }

    match &result.instructions[4] {
        Instruction::STP(_) => assert!(true),
        _ => assert!(false, "Expected STP on line 5")
    }
}

#[test]
fn it_parses_branches_correctly() {
    let result = parse(r#"
            BRU 5
            BPA 10
            BNA 15
            BZA 20
            STP
        "#);

    assert!(result.instructions.len() == 5);

    match &result.instructions[0] {
        Instruction::BRU(bru) => assert!(bru.location == 5),
        _ => assert!(false, "Expected BRU on line 1")
    }

    match &result.instructions[1] {
        Instruction::BPA(bpa) => assert!(bpa.location == 10),
        _ => assert!(false, "Expected BPA on line 2")
    }

    match &result.instructions[2] {
        Instruction::BNA(bna) => assert!(bna.location == 15),
        _ => assert!(false, "Expected BNA on line 3")
    }

    match &result.instructions[3] {
        Instruction::BZA(bza) => assert!(bza.location == 20),
        _ => assert!(false, "Expected BZA on line 4")
    }

    match &result.instructions[4] {
        Instruction::STP(_) => assert!(true),
        _ => assert!(false, "Expected STP on line 5")
    }
}

#[test]
fn it_parses_math_instructions_correctly() {
    let result = parse(r#"
            ADC 5
            ADD 10
            SUB 15
            MUL 20
            DIV 25
            STP
        "#);

    assert!(result.instructions.len() == 6);

    match &result.instructions[0] {
        Instruction::ADC(adc) => assert!(adc.value.parse::<f64>().unwrap() == 5.0),
        _ => assert!(false, "Expected ADC on line 1")
    }

    match &result.instructions[1] {
        Instruction::ADD(add) => assert!(add.location == 10),
        _ => assert!(false, "Expected ADD on line 2")
    }

    match &result.instructions[2] {
        Instruction::SUB(sub) => assert!(sub.location == 15),
        _ => assert!(false, "Expected SUB on line 3")
    }

    match &result.instructions[3] {
        Instruction::MUL(mul) => assert!(mul.location == 20),
        _ => assert!(false, "Expected MUL on line 4")
    }

    match &result.instructions[4] {
        Instruction::DIV(div) => assert!(div.location == 25),
        _ => assert!(false, "Expected DIV on line 5")
    }

    match &result.instructions[5] {
        Instruction::STP(_) => assert!(true),
        _ => assert!(false, "Expected STP on line 6")
    }
}

#[test]
fn the_examples_leave_one_diagnostic_for_their_last_line() {
    // The last line of the example sources holds white space only: it has no opcode.
    let source = "\n    LDC 5\n    STP\n    ";
    let result = parse(source);
    assert_eq!(result.instructions.len(), 2);
    assert_eq!(
        result.diagnostics,
        vec![diagnostic(DiagnosticType::InvalidOpcode, 19, 19)]
    );
}

#[test]
fn every_mnemonic_with_one_operand_of_its_kind_gives_one_instruction() {
    let lines = [
        ("LDA 1", Opcode::LDA),
        ("LDC 1.5", Opcode::LDC),
        ("STA 2", Opcode::STA),
        ("INP 3", Opcode::INP),
        ("OUT 4", Opcode::OUT),
        ("ADC -2", Opcode::ADC),
        ("ADD 5", Opcode::ADD),
        ("SUB 6", Opcode::SUB),
        ("MUL 7", Opcode::MUL),
        ("DIV 8", Opcode::DIV),
        ("BRU 9", Opcode::BRU),
        ("BPA 10", Opcode::BPA),
        ("BNA 11", Opcode::BNA),
        ("BZA 12", Opcode::BZA),
    ];
    for (line, opcode) in lines {
        let source = format!("{}\nSTP\n", line);
        let result = parse(&source);
        assert_eq!(result.diagnostics, vec![], "{}", line);
        assert_eq!(result.instructions.len(), 2, "{}", line);
        assert_eq!(result.instructions[0].kind(), opcode);
        assert_eq!(result.instructions[0].lineno(), 1);
        assert_eq!(result.instructions[0].opcode(), &line[0..3]);
        assert_eq!(result.instructions[1].kind(), Opcode::STP);
        assert_eq!(result.instructions[1].lineno(), 2);
    }
}

#[test]
fn a_source_without_stp_ends_with_missing_stp() {
    let result = parse("LDC 5\n");
    assert_eq!(result.instructions.len(), 1);
    assert_eq!(
        result.diagnostics,
        vec![diagnostic(DiagnosticType::MissingStp, 6, 6)]
    );

    let result = parse("FOO\nLDA\n# STP\nLDC 5");
    assert_eq!(
        result.diagnostics,
        vec![
            diagnostic(DiagnosticType::InvalidOpcode, 0, 3),
            diagnostic(DiagnosticType::MissingOperand, 7, 7),
            diagnostic(DiagnosticType::MissingStp, 19, 19),
        ]
    );
}

#[test]
fn an_empty_source_has_no_stp() {
    let result = parse("");
    assert!(result.instructions.is_empty());
    assert_eq!(
        result.diagnostics,
        vec![diagnostic(DiagnosticType::MissingStp, 0, 0)]
    );
    assert_eq!(result.code, "");
}

#[test]
fn an_invalid_operand_is_bounded_by_its_diagnostic() {
    let source = "LDC abc\nSTP\n";
    let result = parse(source);
    assert_eq!(
        result.diagnostics,
        vec![diagnostic(DiagnosticType::InvalidOperand, 4, 7)]
    );
    assert_eq!(&source[4..7], "abc");
    assert_eq!(result.instructions.len(), 1);
    assert_eq!(result.instructions[0].kind(), Opcode::STP);
    assert_eq!(result.code, source);
}

#[test]
fn an_invalid_opcode_is_bounded_by_its_diagnostic() {
    let result = parse("FOO 1\nSTP");
    assert_eq!(
        result.diagnostics,
        vec![diagnostic(DiagnosticType::InvalidOpcode, 0, 3)]
    );

    let source = "STP\n   halt 1";
    let result = parse(source);
    assert_eq!(
        result.diagnostics,
        vec![diagnostic(DiagnosticType::InvalidOpcode, 7, 11)]
    );
    assert_eq!(&source[7..11], "halt");
}

#[test]
fn mnemonics_are_in_upper_case() {
    let result = parse("lda 1\nSTP");
    assert_eq!(
        result.diagnostics,
        vec![diagnostic(DiagnosticType::InvalidOpcode, 0, 3)]
    );
    let result = parse("LDAX 1\nSTP");
    assert_eq!(
        result.diagnostics,
        vec![diagnostic(DiagnosticType::InvalidOpcode, 0, 4)]
    );
}

#[test]
fn a_line_of_white_space_has_no_opcode() {
    let result = parse("STP\n   \nSTP");
    assert_eq!(
        result.diagnostics,
        vec![diagnostic(DiagnosticType::InvalidOpcode, 4, 4)]
    );
    assert_eq!(result.instructions.len(), 2);
    assert_eq!(result.instructions[1].lineno(), 3);
}

#[test]
fn a_missing_operand_is_marked_behind_the_opcode() {
    let result = parse("LDA\nSTP");
    assert_eq!(
        result.diagnostics,
        vec![diagnostic(DiagnosticType::MissingOperand, 3, 3)]
    );
    assert_eq!(result.instructions.len(), 1);

    let result = parse("STP\n  ADC  ");
    assert_eq!(
        result.diagnostics,
        vec![diagnostic(DiagnosticType::MissingOperand, 9, 9)]
    );
}

#[test]
fn surplus_operands_are_marked_to_the_end_of_the_line() {
    let result = parse("LDA 1 2 3\nSTP");
    assert_eq!(
        result.diagnostics,
        vec![diagnostic(DiagnosticType::TooManyOperands, 6, 9)]
    );
    assert_eq!(result.instructions.len(), 2);
    match &result.instructions[0] {
        Instruction::LDA(lda) => assert_eq!(lda.location, 1),
        _ => panic!("expected LDA"),
    }
}

#[test]
fn stp_takes_no_operand() {
    let result = parse("STP 5");
    assert_eq!(
        result.diagnostics,
        vec![diagnostic(DiagnosticType::TooManyOperands, 4, 5)]
    );
    assert_eq!(result.instructions.len(), 1);
    assert_eq!(result.instructions[0].kind(), Opcode::STP);
}

#[test]
fn one_line_can_give_two_diagnostics() {
    let result = parse("LDA x y\nSTP");
    assert_eq!(
        result.diagnostics,
        vec![
            diagnostic(DiagnosticType::TooManyOperands, 6, 7),
            diagnostic(DiagnosticType::InvalidOperand, 4, 5),
        ]
    );
    let result = parse("FOO 1 2\nSTP");
    assert_eq!(
        result.diagnostics,
        vec![
            diagnostic(DiagnosticType::TooManyOperands, 6, 7),
            diagnostic(DiagnosticType::InvalidOpcode, 0, 3),
        ]
    );
}

#[test]
fn a_faulty_line_does_not_stop_the_parser() {
    let result = parse("LDA\nFOO\nLDC 2\nADD x\nSTP\n");
    assert_eq!(
        result.diagnostics,
        vec![
            diagnostic(DiagnosticType::MissingOperand, 3, 3),
            diagnostic(DiagnosticType::InvalidOpcode, 4, 7),
            diagnostic(DiagnosticType::InvalidOperand, 18, 19),
        ]
    );
    assert_eq!(result.instructions.len(), 2);
    assert_eq!(result.instructions[0].lineno(), 3);
    assert_eq!(result.instructions[1].lineno(), 5);
}

#[test]
fn comments_and_empty_lines_are_passed_over_and_counted() {
    let result = parse("# a program\n\nLDC 1\n#STP\n\nSTP\n");
    assert_eq!(result.diagnostics, vec![]);
    assert_eq!(result.instructions.len(), 2);
    assert_eq!(result.instructions[0].lineno(), 3);
    assert_eq!(result.instructions[1].lineno(), 6);
}

#[test]
fn a_comment_begins_at_the_start_of_its_line() {
    let result = parse(" # not a comment\nSTP");
    assert_eq!(
        result.diagnostics,
        vec![
            diagnostic(DiagnosticType::TooManyOperands, 7, 16),
            diagnostic(DiagnosticType::InvalidOpcode, 1, 2),
        ]
    );
}

#[test]
fn carriage_returns_and_tabs_are_white_space() {
    let result = parse("LDC 5\r\nLDA\t7\r\nSTP\r\n");
    assert_eq!(result.diagnostics, vec![]);
    assert_eq!(result.instructions.len(), 3);
    match &result.instructions[0] {
        Instruction::LDC(ldc) => assert_eq!(ldc.value, "5"),
        _ => panic!("expected LDC"),
    }
    match &result.instructions[1] {
        Instruction::LDA(lda) => assert_eq!(lda.location, 7),
        _ => panic!("expected LDA"),
    }
}

#[test]
fn locations_are_the_integers_of_32_bits() {
    assert_eq!(location_of("LDA 0\nSTP"), Some(0));
    assert_eq!(location_of("LDA 007\nSTP"), Some(7));
    assert_eq!(location_of("LDA +5\nSTP"), Some(5));
    assert_eq!(location_of("LDA 9999\nSTP"), Some(9999));
    assert_eq!(location_of("LDA 4294967295\nSTP"), Some(4294967295));
    assert_eq!(location_of("LDA 4294967296\nSTP"), None);
    assert_eq!(location_of("LDA 99999999999999999999999999\nSTP"), None);
    assert_eq!(location_of("LDA -1\nSTP"), None);
    assert_eq!(location_of("LDA +\nSTP"), None);
    assert_eq!(location_of("LDA 1.5\nSTP"), None);
    assert_eq!(location_of("LDA 12a\nSTP"), None);
}

#[test]
fn a_token_is_a_location_where_it_reads_as_an_unsigned_integer() {
    let tokens = [
        "0", "1", "+1", "-1", "-0", "+", "-", "++1", "1+", "00012", "4294967295", "4294967296",
        "42949672950", "18446744073709551616", "1e3", "1.0", ".5", "0x10", "1_000", "abc", "١٢",
        "12é", "+4294967295", "+4294967296",
    ];
    for token in tokens {
        let source = format!("LDA {}\nSTP\n", token);
        assert_eq!(location_of(&source), token.parse::<u32>().ok(), "{}", token);
    }
}

#[test]
fn values_are_kept_as_they_are_written() {
    assert_eq!(value_of("LDC 5\nSTP"), Some("5".to_string()));
    assert_eq!(value_of("LDC -2.50\nSTP"), Some("-2.50".to_string()));
    assert_eq!(value_of("LDC +1E-3\nSTP"), Some("+1E-3".to_string()));
    assert_eq!(value_of("  LDC   .5  \nSTP"), Some(".5".to_string()));
    assert_eq!(value_of("LDC NaN\nSTP"), Some("NaN".to_string()));
    assert_eq!(value_of("LDC abc\nSTP"), None);
}

#[test]
fn a_token_is_a_value_where_it_reads_as_a_float() {
    let tokens = [
        "0", "5", "-5", "+5", "5.", ".5", "5.25", "-.5", "+5.", ".", "+.", "-", "+", "1e5", "1E5",
        "1e+5", "1e-5", "1e", "1e+", "e5", ".e5", "1.e5", ".5e5", "1.5e10", "1.5e1.5", "1e5e5",
        "inf", "INF", "Inf", "-inf", "+inf", "infinity", "Infinity", "-INFINITY", "infinit",
        "infinityy", "in", "nan", "NaN", "NAN", "-nan", "+nan", "nane", "1.2.3", "0x10", "1_000",
        "1f", "12a", "a12", "--1", "+-1", "1-", "１", "1é", "é", "00000.00000", "1e00005",
        "123456789012345678901234567890", "1e999", "-1e-999", "0.1e", "e", "E5", "1E", "iNfInItY",
        "nAn", "in f", "1d5", "1,5",
    ];
    for token in tokens {
        if token.contains(' ') {
            continue;
        }
        let source = format!("LDC {}\nSTP\n", token);
        let expected = if token.parse::<f64>().is_ok() {
            Some(token.to_string())
        } else {
            None
        };
        assert_eq!(value_of(&source), expected, "{}", token);
    }
}

#[test]
fn every_value_that_is_kept_reads_as_a_float() {
    let result = parse("LDC 12.5\nADC -1e2\nLDC inf\nSTP");
    assert_eq!(result.diagnostics, vec![]);
    match &result.instructions[0] {
        Instruction::LDC(ldc) => assert_eq!(ldc.value.parse::<f64>().unwrap(), 12.5),
        _ => panic!("expected LDC"),
    }
    match &result.instructions[1] {
        Instruction::ADC(adc) => assert_eq!(adc.value.parse::<f64>().unwrap(), -100.0),
        _ => panic!("expected ADC"),
    }
    match &result.instructions[2] {
        Instruction::LDC(ldc) => assert_eq!(ldc.value.parse::<f64>().unwrap(), f64::INFINITY),
        _ => panic!("expected LDC"),
    }
}

#[test]
fn a_value_opcode_does_not_take_words() {
    let result = parse("ADC five\nSTP");
    assert_eq!(
        result.diagnostics,
        vec![diagnostic(DiagnosticType::InvalidOperand, 4, 8)]
    );
}

#[test]
fn parsing_twice_gives_the_same() {
    let source = "LDC 3\nBPA 4\nFOO\nLDA x y\nLDC 9\nOUT 9999\n";
    let first = parse(source);
    let second = parse(source);
    assert_eq!(first.diagnostics, second.diagnostics);
    assert_eq!(
        format!("{:?}", first.instructions),
        format!("{:?}", second.instructions)
    );
    assert_eq!(first.code, second.code);
}

#[test]
fn positions_are_counted_in_bytes() {
    let source = "# é\nLDA é\nSTP";
    let result = parse(source);
    assert_eq!(
        result.diagnostics,
        vec![diagnostic(DiagnosticType::InvalidOperand, 9, 11)]
    );
    assert_eq!(&source[9..11], "é");
}

#[test]
fn each_instruction_knows_its_mnemonic_and_its_location() {
    let result = parse("LDA 1\nLDC 2\nSTA 3\nINP 4\nOUT 5\nADC 6\nADD 7\nSUB 8\nMUL 9\nDIV 10\nBRU 11\nBPA 12\nBNA 13\nBZA 14\nSTP");
    assert_eq!(result.diagnostics, vec![]);
    let names: Vec<&str> = result.instructions.iter().map(|i| i.opcode()).collect();
    assert_eq!(
        names,
        vec![
            "LDA", "LDC", "STA", "INP", "OUT", "ADC", "ADD", "SUB", "MUL", "DIV", "BRU", "BPA",
            "BNA", "BZA", "STP"
        ]
    );
    let kinds: Vec<&str> = result.instructions.iter().map(|i| i.kind().mnemonic()).collect();
    assert_eq!(names, kinds);
    let locations: Vec<Option<u32>> = result.instructions.iter().map(|i| i.location()).collect();
    assert_eq!(
        locations,
        vec![
            Some(1), None, Some(3), Some(4), Some(5), None, Some(7), Some(8), Some(9), Some(10),
            Some(11), Some(12), Some(13), Some(14), None
        ]
    );
    match &result.instructions[0] {
        Instruction::LDA(lda) => assert_eq!(lda.opcode(), "LDA"),
        _ => panic!("expected LDA"),
    }
    match &result.instructions[14] {
        Instruction::STP(stp) => assert_eq!(stp.opcode(), "STP"),
        _ => panic!("expected STP"),
    }
}

#[test]
fn a_parse_without_diagnostics_gives_its_program() {
    let program = parse("LDC 1\nSTP").into_program();
    assert_eq!(program.map(|p| p.len()), Some(2));
    assert!(parse("LDC 1").into_program().is_none());
    assert!(parse("LDC x\nSTP").into_program().is_none());
}

#[test]
fn instructions_stand_on_ascending_lines() {
    let result = parse("\nLDC 1\n\n# note\nFOO\nSTA 1\nLDA\nOUT 1\nSTP\n");
    let lines: Vec<usize> = result.instructions.iter().map(|i| i.lineno()).collect();
    assert_eq!(lines, vec![2, 6, 8, 9]);
}

#[test]
fn the_parser_reads_the_mnemonic_that_an_opcode_prints() {
    let opcodes = [
        Opcode::LDA, Opcode::LDC, Opcode::STA, Opcode::INP, Opcode::OUT, Opcode::ADC,
        Opcode::ADD, Opcode::SUB, Opcode::MUL, Opcode::DIV, Opcode::BRU, Opcode::BPA,
        Opcode::BNA, Opcode::BZA, Opcode::STP,
    ];
    for opcode in opcodes {
        assert_eq!(rscc::parser::recognize(opcode.mnemonic().as_bytes()), Some(opcode));
        assert_eq!(opcode.takes_value(), matches!(opcode, Opcode::LDC | Opcode::ADC));
    }
    assert_eq!(rscc::parser::recognize(b"LD"), None);
    assert_eq!(rscc::parser::recognize(b"NOP"), None);
}
