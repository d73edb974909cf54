use nox_asm::{AsmError, Assembler, Flag, Mnemonic, Operand, Reg, Token, TokenKind, encode, IMAGE_SIZE};

fn assemble(src: &str) -> Result<Vec<u8>, AsmError> {
    Assembler::new(src).assemble()
}

fn opcode(m: Mnemonic, ops: &[Operand]) -> u8 {
    encode(m, ops).expect("a valid form")
}

#[test]
fn every_image_has_full_size() {
    for src in ["", "NOOP", "> &0xFFFF\nHALT", "$ 0x01 0x0203 \"abc\""] {
        assert_eq!(assemble(src).unwrap().len(), IMAGE_SIZE);
    }
}

#[test]
fn bytes_outside_spans_are_zero() {
    let img = assemble("> &0x0010\nCMP A 0x07\n> &0x0100\nSTO HLI &0xBEEF").unwrap();
    assert_eq!(img[0x10], opcode(Mnemonic::Cmp, &[Operand::Reg(Reg::A), Operand::Imm8]));
    assert_eq!(img[0x11], 0x07);
    assert_eq!(img[0x100], opcode(Mnemonic::Sto, &[Operand::Reg(Reg::Hli), Operand::Abs]));
    assert_eq!(&img[0x101..0x103], &[0xBE, 0xEF]);
    for (a, b) in img.iter().enumerate() {
        if ![0x10, 0x11, 0x100, 0x101, 0x102].contains(&a) {
            assert_eq!(*b, 0, "byte {:#x}", a);
        }
    }
}

#[test]
fn references_before_and_after_definition() {
    let img = assemble("JMP end\nstart:\nNOOP\nCALL start\nPUSH HLI *end\nend:\nHALT").unwrap();
    // JMP end @0..3, start @3, NOOP @3, CALL start @4..7, PUSH @7..10, end @10
    assert_eq!(&img[1..3], &[0x00, 0x0A]);
    assert_eq!(&img[5..7], &[0x00, 0x03]);
    assert_eq!(&img[8..10], &[0x00, 0x0A]);
    assert_eq!(img[10], opcode(Mnemonic::Halt, &[]));
}

#[test]
fn label_operand_with_colon_refers_to_label() {
    let img = assemble("> &0x1234\nhere:\nJMP here:").unwrap();
    assert_eq!(&img[0x1235..0x1237], &[0x12, 0x34]);
}

#[test]
fn data_stream_star_reference() {
    let img = assemble("$ *tail 0x7F\ntail:").unwrap();
    assert_eq!(&img[0..3], &[0x00, 0x03, 0x7F]);
}

#[test]
fn assembling_twice_gives_same_bytes() {
    let src = "loop:\nINC HLI\nCMP HLI 0x0100\nJZE loop\nRET OK 0x01";
    let mut assembler = Assembler::new(src);
    let first = assembler.assemble().unwrap();
    let second = assembler.assemble().unwrap();
    assert_eq!(first, second);
    assert_eq!(first, assemble(src).unwrap());
}

#[test]
fn whole_line_comments_change_nothing() {
    let plain = assemble("NOOP\n\nHALT").unwrap();
    assert_eq!(assemble("NOOP\n// a comment line\nHALT").unwrap(), plain);
    assert_eq!(assemble("NOOP\n   // indented 0xZZ\nHALT").unwrap(), plain);
    let two = assemble("JMP end\nend:\nHALT").unwrap();
    assert_eq!(assemble("// head\nJMP end\n// middle\nend:\nHALT\n//").unwrap(), two);
}

#[test]
fn trailing_comments_change_nothing() {
    let plain = assemble("ADD AB 0x1234\nx:\n$ \"ok\"\nJMP x").unwrap();
    let commented = assemble("ADD AB 0x1234 // add\nx: // here\n$ \"ok\" // text\nJMP x //").unwrap();
    assert_eq!(commented, plain);
}

#[test]
fn origin_shifts_program() {
    let prog = "PUSH A 0x11\nSUB AB 0x2233\nHALT";
    let at_zero = assemble(prog).unwrap();
    let moved = assemble(&format!("> &0x0200\n{}", prog)).unwrap();
    let n = 2 + 3 + 1;
    assert_eq!(&moved[0x200..0x200 + n], &at_zero[..n]);
    assert!(moved[..0x200].iter().all(|&b| b == 0));
    assert!(moved[0x200 + n..].iter().all(|&b| b == 0));
}

#[test]
fn reordering_labels_at_one_address() {
    let a = assemble("JMP one\nCALL two\none:\ntwo:\nHALT").unwrap();
    let b = assemble("JMP one\nCALL two\ntwo:\none:\nHALT").unwrap();
    assert_eq!(a, b);
}

#[test]
fn imm8_boundary() {
    let img = assemble("$ 0x00 0xFF 0x100").unwrap();
    assert_eq!(&img[0..4], &[0x00, 0xFF, 0x01, 0x00]);
    assert_eq!(assemble("ADD A 0xFF").unwrap()[1], 0xFF);
    assert_eq!(assemble("ADD A 0x100"), Err(AsmError::BadOperand { line: 1 }));
    assert_eq!(assemble("ADD A 0x0FF"), assemble("ADD A 0xFF"));
}

#[test]
fn imm16_boundary() {
    let img = assemble("$ 0xFFFF 0x0000").unwrap();
    assert_eq!(&img[0..4], &[0xFF, 0xFF, 0x00, 0x00]);
    assert_eq!(assemble("$ 0x10000"), Err(AsmError::BadNumericLiteral { line: 1, word: 2 }));
    assert_eq!(assemble("NOOP\nCMP AB 0x123456"), Err(AsmError::BadNumericLiteral { line: 2, word: 3 }));
}

#[test]
fn last_byte_at_top_of_memory() {
    let img = assemble("> &0xFFFD\nJMP &0x1234").unwrap();
    assert_eq!(&img[0xFFFE..], &[0x12, 0x34]);
    assert_eq!(assemble("> &0xFFFE\nJMP &0x1234"), Err(AsmError::AddressOverflow { line: 2 }));
    assert!(assemble("> &0xFFFF\nHALT").is_ok());
    assert_eq!(assemble("> &0xFFFF\nHALT\nHALT"), Err(AsmError::AddressOverflow { line: 3 }));
    assert_eq!(assemble("> &0xFFFF\n$ \"ab\""), Err(AsmError::AddressOverflow { line: 2 }));
    assert_eq!(assemble("> &0xFFFF\nHALT\nend:"), Err(AsmError::AddressOverflow { line: 3 }));
}

#[test]
fn bad_numeric_literals() {
    assert_eq!(assemble("ADD A 0xZZ"), Err(AsmError::BadNumericLiteral { line: 1, word: 3 }));
    assert_eq!(assemble("\n\nJMP &0x12G4"), Err(AsmError::BadNumericLiteral { line: 3, word: 2 }));
    assert_eq!(assemble("JMP &1234"), Err(AsmError::BadNumericLiteral { line: 1, word: 2 }));
    assert_eq!(assemble("$ 0x"), Err(AsmError::BadNumericLiteral { line: 1, word: 2 }));
    assert_eq!(assemble("> &0x10000"), Err(AsmError::BadNumericLiteral { line: 1, word: 2 }));
}

#[test]
fn lexing_errors_come_before_syntax_errors() {
    assert_eq!(assemble("A B\nNOOP 0xQ"), Err(AsmError::BadNumericLiteral { line: 2, word: 2 }));
}

#[test]
fn syntax_errors() {
    assert_eq!(assemble("A B"), Err(AsmError::SyntaxError { line: 1 }));
    assert_eq!(assemble("NOOP A"), Err(AsmError::SyntaxError { line: 1 }));
    assert_eq!(assemble("HALT\nADD A"), Err(AsmError::SyntaxError { line: 2 }));
    assert_eq!(assemble("> 0x10"), Err(AsmError::SyntaxError { line: 1 }));
    assert_eq!(assemble(">"), Err(AsmError::SyntaxError { line: 1 }));
    assert_eq!(assemble("$ A"), Err(AsmError::SyntaxError { line: 1 }));
    assert_eq!(assemble("$ &0x0010"), Err(AsmError::SyntaxError { line: 1 }));
    assert_eq!(assemble("here: NOOP"), Err(AsmError::SyntaxError { line: 1 }));
    assert_eq!(assemble("0x10"), Err(AsmError::SyntaxError { line: 1 }));
}

#[test]
fn bad_operands() {
    assert_eq!(assemble("ADD HI HI"), Err(AsmError::BadOperand { line: 1 }));
    assert_eq!(assemble("INC A"), Err(AsmError::BadOperand { line: 1 }));
    assert_eq!(assemble("OR A 0x01"), Err(AsmError::BadOperand { line: 1 }));
    assert_eq!(assemble("SWP A B"), Err(AsmError::BadOperand { line: 1 }));
    assert_eq!(assemble("RET IRQ"), Err(AsmError::BadOperand { line: 1 }));
    assert_eq!(assemble("JMP 0x10"), Err(AsmError::BadOperand { line: 1 }));
    assert_eq!(assemble("PUSH EX HI"), Err(AsmError::BadOperand { line: 1 }));
    assert_eq!(assemble("POP AB IRA"), Err(AsmError::BadOperand { line: 1 }));
}

#[test]
fn duplicate_label() {
    assert_eq!(assemble("x:\nNOOP\nx:"), Err(AsmError::DuplicateLabel { line: 3 }));
}

#[test]
fn unresolved_reference() {
    assert_eq!(assemble("NOOP\nJMP nowhere"), Err(AsmError::UnresolvedReference { line: 2 }));
    assert_eq!(assemble("PUSH AB *nowhere"), Err(AsmError::UnresolvedReference { line: 1 }));
}

#[test]
fn error_line_accessor() {
    assert_eq!(AsmError::BadNumericLiteral { line: 4, word: 2 }.line(), 4);
    assert_eq!(AsmError::DuplicateLabel { line: 7 }.line(), 7);
}

#[test]
fn keywords_ignore_case() {
    assert_eq!(assemble("halt"), assemble("HALT"));
    assert_eq!(assemble("Add a 0x2a"), assemble("ADD A 0x2A"));
    assert_eq!(assemble("peek ab &hli"), assemble("PEEK AB &HLI"));
}

#[test]
fn value_first_only_for_push() {
    assert_eq!(assemble("PUSH A 0x05"), assemble("PUSH 0x05 A"));
    assert_eq!(assemble("SUB &0x1000 B"), Err(AsmError::BadOperand { line: 1 }));
    assert_eq!(assemble("ADD 0x2A A"), Err(AsmError::BadOperand { line: 1 }));
    assert_eq!(assemble("XOR 0x1234 AB"), Err(AsmError::BadOperand { line: 1 }));
    assert_eq!(assemble("CMP 0x01 HI"), Err(AsmError::BadOperand { line: 1 }));
    assert!(assemble("SUB B &0x1000").is_ok());
    assert_eq!(assemble("PUSH S A"), assemble("PUSH A S"));
    assert_ne!(assemble("PUSH A B"), assemble("PUSH B A"));
}

#[test]
fn push_ex_pairs_are_distinct() {
    assert_ne!(assemble("PUSH EX A").unwrap()[0], assemble("PUSH EX B").unwrap()[0]);
}

#[test]
fn data_stream_strings() {
    let img = assemble("$ \"Hello big world\" 0x00").unwrap();
    assert_eq!(&img[..16], b"Hello big world\0");
    let img = assemble("$ plain \"x\"").unwrap();
    assert_eq!(&img[..6], b"plainx");
    assert_eq!(&assemble("$ \"ADD A\"").unwrap()[..6], b"ADD A\0");
    assert_eq!(assemble("$ \"x A y\""), Err(AsmError::SyntaxError { line: 1 }));
    let img = assemble("$ \"x 0x41 y\"").unwrap();
    assert_eq!(&img[..5], b"x Ay\0");
    let img = assemble("$ \"a 0x4243 c\" 0x44").unwrap();
    assert_eq!(&img[..6], b"a BCcD");
    let img = assemble("$ \"x y\" 0x41").unwrap();
    assert_eq!(&img[..4], b"x yA");
}

#[test]
fn instruction_sizes() {
    let img = assemble("NOT AB\nPOP A\nPOP B &0x0102\nRET ERR 0x09\nCLR EX\nSET IRQ\nHALT").unwrap();
    assert_eq!(img[0], opcode(Mnemonic::Not, &[Operand::Reg(Reg::Ab)]));
    assert_eq!(img[1], opcode(Mnemonic::Pop, &[Operand::Reg(Reg::A)]));
    assert_eq!(img[2], opcode(Mnemonic::Pop, &[Operand::Reg(Reg::B), Operand::Abs]));
    assert_eq!(&img[3..5], &[0x01, 0x02]);
    assert_eq!(img[5], opcode(Mnemonic::Ret, &[Operand::Flag(Flag::Error), Operand::Imm8]));
    assert_eq!(img[6], 0x09);
    assert_eq!(img[7], opcode(Mnemonic::Clr, &[Operand::Reg(Reg::Ex)]));
    assert_eq!(img[8], opcode(Mnemonic::SetFlag, &[Operand::Flag(Flag::Interrupt)]));
    assert_eq!(img[9], opcode(Mnemonic::Halt, &[]));
}

#[test]
fn every_form_has_its_own_opcode() {
    let forms: Vec<(Mnemonic, Vec<Operand>)> = vec![
        (Mnemonic::Noop, vec![]),
        (Mnemonic::Halt, vec![]),
        (Mnemonic::Add, vec![Operand::Reg(Reg::A), Operand::Reg(Reg::B)]),
        (Mnemonic::Add, vec![Operand::Reg(Reg::B), Operand::Reg(Reg::A)]),
        (Mnemonic::Sub, vec![Operand::Reg(Reg::A), Operand::Reg(Reg::B)]),
        (Mnemonic::And, vec![Operand::Reg(Reg::Ab), Operand::Abs]),
        (Mnemonic::Or, vec![Operand::Reg(Reg::Ab), Operand::Imm16]),
        (Mnemonic::Xor, vec![Operand::Reg(Reg::A), Operand::Reg(Reg::B)]),
        (Mnemonic::Cmp, vec![Operand::Reg(Reg::Hli), Operand::Abs]),
        (Mnemonic::Push, vec![Operand::Ind, Operand::Reg(Reg::Ab)]),
        (Mnemonic::Pop, vec![Operand::Reg(Reg::Ab), Operand::Reg(Reg::Hli)]),
        (Mnemonic::Peek, vec![Operand::Reg(Reg::B), Operand::Ind]),
        (Mnemonic::Jmp, vec![Operand::Abs]),
        (Mnemonic::Call, vec![Operand::Abs]),
        (Mnemonic::Zero, vec![Operand::Reg(Reg::Hli)]),
        (Mnemonic::Shr, vec![Operand::Reg(Reg::Ab)]),
        (Mnemonic::Swp, vec![Operand::Reg(Reg::Li), Operand::Reg(Reg::Hi)]),
        (Mnemonic::Clr, vec![Operand::Flag(Flag::Zero)]),
    ];
    let mut seen: Vec<u8> = Vec::new();
    for (m, ops) in &forms {
        let op = opcode(*m, ops);
        assert!(!seen.contains(&op), "{:?} {:?}", m, ops);
        seen.push(op);
    }
}

#[test]
fn formatted_raw_is_upper_case() {
    let t = Token { kind: TokenKind::Text, raw: b"loop_1".to_vec(), value: None, address: None, opcode: None, line: 1 };
    assert_eq!(t.formatted_raw(), "LOOP_1");
    let padded = Token { kind: TokenKind::Text, raw: b" \tMix:\r\n".to_vec(), value: None, address: None, opcode: None, line: 1 };
    assert_eq!(padded.formatted_raw(), "MIX:");
    let vt = Token { kind: TokenKind::Text, raw: b"\x0ba".to_vec(), value: None, address: None, opcode: None, line: 1 };
    assert_eq!(vt.formatted_raw(), "A");
    let accented = Token { kind: TokenKind::Text, raw: "\u{a0}caf\u{e9}".as_bytes().to_vec(), value: None, address: None, opcode: None, line: 1 };
    assert_eq!(accented.formatted_raw(), "CAF\u{c9}");
}

#[test]
fn placed_tokens_after_assembly() {
    let mut assembler = Assembler::new("NOOP\n$ 0x01");
    assembler.assemble().unwrap();
    assert_eq!(assembler.lexed_tokens().len(), 2);
    assert_eq!(assembler.lexed_tokens()[1].len(), 2);
    let placed = assembler.placed_tokens();
    assert_eq!(placed.len(), 2);
    assert_eq!(placed[0].address, Some(0));
    assert_eq!(placed[1].address, Some(1));
    assert_eq!(placed[1].value, Some(1));
}

#[test]
fn return_forms() {
    let plain = encode(Mnemonic::Ret, &[Operand::Flag(Flag::Success)]).unwrap();
    let coded = encode(Mnemonic::Ret, &[Operand::Flag(Flag::Success), Operand::Imm8]).unwrap();
    assert_ne!(plain, coded);
    let img = assemble("RET OK\nRET OK 0x07").unwrap();
    assert_eq!(&img[..3], &[plain, coded, 0x07]);
}

#[test]
fn failed_assembly_keeps_placed_tokens() {
    let mut assembler = Assembler::new("NOOP");
    assert!(assembler.placed_tokens().is_empty());
    assembler.assemble().unwrap();
    assert_eq!(assembler.placed_tokens().len(), 1);
    let mut failing = Assembler::new("JMP nowhere");
    assert!(failing.assemble().is_err());
    assert!(failing.placed_tokens().is_empty());
}
