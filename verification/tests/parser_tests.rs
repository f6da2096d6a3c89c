use stackvm::{parse_program, parse_tokens, tokenize, Operation, ParseErrorType};

#[test]
fn backward_label_reference_resolves() {
    let ops = parse_program("loop: 1 ;loop call", None).unwrap();
    assert_eq!(ops.len(), 4);
    assert_eq!(ops[0].0, Operation::Noop);
    assert_eq!(ops[1].0, Operation::PushByte(1));
    assert_eq!(ops[2].0, Operation::PushLong(0));
    assert_eq!(ops[3].0, Operation::Call);
}

#[test]
fn forward_label_reference_resolves() {
    let ops = parse_program("1 ;loop call loop:", None).unwrap();
    assert_eq!(ops[1].0, Operation::PushLong(3));
    assert_eq!(ops[3].0, Operation::Noop);
}

#[test]
fn duplicate_label_last_declaration_wins() {
    let ops = parse_program("x: x: ;x", None).unwrap();
    assert_eq!(ops[2].0, Operation::PushLong(1));
}

#[test]
fn every_keyword_parses() {
    let src = "put-char div-u8 mul-u8 sub-u8 ass-u8 debug print-u8 print-u16 print-u32 print-u64 exit call return";
    let ops = parse_program(src, None).unwrap();
    let expect = [
        Operation::PrintAscii,
        Operation::DivU8,
        Operation::MulU8,
        Operation::SubU8,
        Operation::AddU8,
        Operation::Debug,
        Operation::PrintU8,
        Operation::PrintU16,
        Operation::PrintU32,
        Operation::PrintU64,
        Operation::Exit,
        Operation::Call,
        Operation::Return,
    ];
    assert_eq!(ops.len(), expect.len());
    for (i, e) in expect.iter().enumerate() {
        assert_eq!(ops[i].0, *e);
    }
}

#[test]
fn one_operation_per_token() {
    let ops = parse_program("1 2 ass-u8 lbl: ;lbl exit", None).unwrap();
    assert_eq!(ops.len(), 6);
}

#[test]
fn byte_literal_forms() {
    let ops = parse_program("0 007 255 +9", None).unwrap();
    assert_eq!(ops[0].0, Operation::PushByte(0));
    assert_eq!(ops[1].0, Operation::PushByte(7));
    assert_eq!(ops[2].0, Operation::PushByte(255));
    assert_eq!(ops[3].0, Operation::PushByte(9));
}

#[test]
fn byte_literal_overflow_is_unknown_symbol() {
    let e = parse_program("256", None).unwrap_err();
    assert!(matches!(e.typ, ParseErrorType::UnknownSymbol));
    assert_eq!(e.cause.content, "256");
}

#[test]
fn negative_number_is_unknown_symbol() {
    let e = parse_program("-1", None).unwrap_err();
    assert!(matches!(e.typ, ParseErrorType::UnknownSymbol));
}

#[test]
fn unknown_symbol_carries_location() {
    let e = parse_program("1 2 bogus", None).unwrap_err();
    assert!(matches!(e.typ, ParseErrorType::UnknownSymbol));
    assert_eq!(e.cause.content, "bogus");
    assert_eq!(e.cause.location.line, 1);
    assert_eq!(e.cause.location.column, 5);
}

#[test]
fn undefined_label_error() {
    let e = parse_program(";nope", None).unwrap_err();
    match &e.typ {
        ParseErrorType::UndefinedLabel(name) => assert_eq!(name, "nope"),
        other => panic!("expected undefined label, got {:?}", other),
    }
    assert_eq!(e.cause.content, ";nope");
}

#[test]
fn label_declaration_parses_to_noop() {
    let ops = parse_program("start: 1", None).unwrap();
    assert_eq!(ops[0].0, Operation::Noop);
}

#[test]
fn bare_colon_declares_empty_label() {
    let ops = parse_program(": ;", None).unwrap();
    assert_eq!(ops[0].0, Operation::Noop);
    assert_eq!(ops[1].0, Operation::PushLong(0));
}

#[test]
fn empty_program_parses_to_nothing() {
    let ops = parse_program("", None).unwrap();
    assert!(ops.is_empty());
}

#[test]
fn parser_stream_interface() {
    let mut p = parse_tokens(tokenize("1 exit", None));
    let first = p.next().unwrap().unwrap();
    assert_eq!(first.0, Operation::PushByte(1));
    assert_eq!(first.1.line, 1);
    assert_eq!(first.1.column, 1);
    let second = p.next().unwrap().unwrap();
    assert_eq!(second.0, Operation::Exit);
    assert!(p.next().is_none());
}

#[test]
fn operations_keep_their_locations() {
    let ops = parse_program("1\n 2", None).unwrap();
    assert_eq!((ops[0].1.line, ops[0].1.column), (1, 1));
    assert_eq!((ops[1].1.line, ops[1].1.column), (2, 2));
}

#[test]
fn parse_error_message_format() {
    let e = parse_program(";x", Some("p.vm")).unwrap_err();
    assert_eq!(e.message(), "p.vm:1:1: Error: Undefined label `x`, caused by `;x`");
    let u = parse_program("what", None).unwrap_err();
    assert_eq!(u.message(), "1:1: Error: Unknown symbol, caused by `what`");
}
