use gridvm::instr::Instruction;
use gridvm::parse::{parse_instruction, ParseErrorKind};
use gridvm::ports::Port;

#[test]
fn mov_parsing_is_idempotent() {
    let a = parse_instruction(b"mov left acc").unwrap();
    let b = parse_instruction(b"mov left acc").unwrap();
    assert_eq!(a, b);
    let c = parse_instruction(b"mov 5, right").unwrap();
    let d = parse_instruction(b"mov 5, right").unwrap();
    assert_eq!(c, d);
    assert_eq!(c, Instruction::Mov(Port::Value(5), Port::Right));
}

#[test]
fn comment_lines_keep_text_verbatim() {
    let i = parse_instruction(b"# Hello World").unwrap();
    assert_eq!(i, Instruction::Comment(b" Hello World".to_vec()));
}

#[test]
fn label_lines_take_text_before_first_colon() {
    let i = parse_instruction(b"loop:").unwrap();
    assert_eq!(
        i,
        Instruction::CreateLabel(gridvm::instr::Label(b"loop".to_vec()))
    );
    let j = parse_instruction(b"Outer:inner:").unwrap();
    assert_eq!(
        j,
        Instruction::CreateLabel(gridvm::instr::Label(b"Outer".to_vec()))
    );
}

#[test]
fn opcodes_are_lowercased() {
    let i = parse_instruction(b"MOV LEFT ACC").unwrap();
    assert_eq!(i, Instruction::Mov(Port::Left, Port::Acc));
    let j = parse_instruction(b"Jmp Loop").unwrap();
    assert_eq!(j, Instruction::Jmp(gridvm::instr::Label(b"loop".to_vec())));
}

#[test]
fn zero_operand_opcodes() {
    assert_eq!(parse_instruction(b"nop").unwrap(), Instruction::Nop);
    assert_eq!(parse_instruction(b"swp").unwrap(), Instruction::Swp);
    assert_eq!(parse_instruction(b"sav").unwrap(), Instruction::Sav);
    assert_eq!(parse_instruction(b"neg").unwrap(), Instruction::Neg);
}

#[test]
fn one_operand_opcodes() {
    assert_eq!(
        parse_instruction(b"add 7").unwrap(),
        Instruction::Add(Port::Value(7))
    );
    assert_eq!(
        parse_instruction(b"sub acc").unwrap(),
        Instruction::Sub(Port::Acc)
    );
    assert_eq!(
        parse_instruction(b"jro -2").unwrap(),
        Instruction::Jro(Port::Value(-2))
    );
}

#[test]
fn unknown_opcode_is_refused() {
    let e = parse_instruction(b"frobnicate now").unwrap_err();
    assert_eq!(e.kind, ParseErrorKind::UnknownOpcode);
    assert_eq!(e.token, b"frobnicate".to_vec());
}

#[test]
fn missing_operand_is_refused() {
    let e = parse_instruction(b"mov left").unwrap_err();
    assert_eq!(e.kind, ParseErrorKind::MissingOperand);
    let e2 = parse_instruction(b"jmp").unwrap_err();
    assert_eq!(e2.kind, ParseErrorKind::MissingOperand);
}

#[test]
fn extra_operand_is_refused() {
    let e = parse_instruction(b"nop nop").unwrap_err();
    assert_eq!(e.kind, ParseErrorKind::ExtraOperand);
    let e2 = parse_instruction(b"mov left acc down").unwrap_err();
    assert_eq!(e2.kind, ParseErrorKind::ExtraOperand);
    assert_eq!(e2.token, b"down".to_vec());
}

#[test]
fn malformed_port_is_refused() {
    let e = parse_instruction(b"add sideways").unwrap_err();
    assert_eq!(e.kind, ParseErrorKind::BadPort);
    assert_eq!(e.token, b"sideways".to_vec());
}

#[test]
fn immediate_mov_destination_is_refused() {
    let e = parse_instruction(b"mov 1 2").unwrap_err();
    assert_eq!(e.kind, ParseErrorKind::ImmediateDestination);
    assert_eq!(e.token, b"2".to_vec());
}

#[test]
fn port_tokens_resolve() {
    assert_eq!(Port::parse(b"acc").unwrap(), Port::Acc);
    assert_eq!(Port::parse(b"nil").unwrap(), Port::Nil);
    assert_eq!(Port::parse(b"left").unwrap(), Port::Left);
    assert_eq!(Port::parse(b"right").unwrap(), Port::Right);
    assert_eq!(Port::parse(b"up").unwrap(), Port::Up);
    assert_eq!(Port::parse(b"down").unwrap(), Port::Down);
    assert_eq!(Port::parse(b"any").unwrap(), Port::Any);
    assert_eq!(Port::parse(b"last").unwrap(), Port::Last);
    assert_eq!(Port::parse(b"-17").unwrap(), Port::Value(-17));
    assert_eq!(Port::parse(b"+4").unwrap(), Port::Value(4));
}

#[test]
fn port_integer_limits() {
    assert_eq!(
        Port::parse(b"9223372036854775807").unwrap(),
        Port::Value(i64::MAX)
    );
    assert_eq!(
        Port::parse(b"-9223372036854775808").unwrap(),
        Port::Value(i64::MIN)
    );
    assert!(Port::parse(b"9223372036854775808").is_err());
    assert!(Port::parse(b"-9223372036854775809").is_err());
    assert!(Port::parse(b"").is_err());
    assert!(Port::parse(b"-").is_err());
    assert!(Port::parse(b"1x").is_err());
}

#[test]
fn parse_i64_reads_decimal_tokens() {
    assert_eq!(gridvm::numtext::parse_i64(b"0"), Some(0));
    assert_eq!(gridvm::numtext::parse_i64(b"-0"), Some(0));
    assert_eq!(gridvm::numtext::parse_i64(b"0000123"), Some(123));
    assert_eq!(gridvm::numtext::parse_i64(b"99999999999999999999999"), None);
}
