use nox_asm::{AsmError, Assembler, Mnemonic, Operand, Reg, encode, IMAGE_SIZE};

fn assemble(src: &str) -> Result<Vec<u8>, AsmError> {
    Assembler::new(src).assemble()
}

fn opcode(m: Mnemonic, ops: &[Operand]) -> u8 {
    encode(m, ops).expect("a valid form")
}

#[test]
fn minimal_halt() {
    let img = assemble("HALT").unwrap();
    assert_eq!(img.len(), IMAGE_SIZE);
    assert_eq!(img[0], opcode(Mnemonic::Halt, &[]));
    assert!(img[1..].iter().all(|&b| b == 0));
}

#[test]
fn eight_bit_immediate() {
    let img = assemble("ADD A 0x2A").unwrap();
    assert_eq!(img[0], opcode(Mnemonic::Add, &[Operand::Reg(Reg::A), Operand::Imm8]));
    assert_eq!(img[1], 0x2A);
    assert_eq!(img[2], 0);
}

#[test]
fn label_round_trip() {
    let img = assemble("JMP target\ntarget:\nHALT").unwrap();
    assert_eq!(img[0], opcode(Mnemonic::Jmp, &[Operand::Abs]));
    assert_eq!(&img[1..3], &[0x00, 0x03]);
    assert_eq!(img[3], opcode(Mnemonic::Halt, &[]));
}

#[test]
fn origin_and_data_stream() {
    let img = assemble("> &0x0100\n$ \"Hi\"\nHALT").unwrap();
    assert!(img[..0x100].iter().all(|&b| b == 0));
    assert_eq!(img[0x100], 0x48);
    assert_eq!(img[0x101], 0x69);
    assert_eq!(img[0x102], opcode(Mnemonic::Halt, &[]));
    assert!(img[0x103..].iter().all(|&b| b == 0));
}

#[test]
fn forward_star_reference() {
    let img = assemble("PUSH AB *msg\nmsg:\n$ 0x41").unwrap();
    assert_eq!(img[0], opcode(Mnemonic::Push, &[Operand::Reg(Reg::Ab), Operand::Imm16]));
    assert_eq!(&img[1..3], &[0x00, 0x03]);
    assert_eq!(img[3], 0x41);
}

#[test]
fn trailing_comment_is_inert() {
    let img = assemble("NOOP // anything goes here").unwrap();
    assert_eq!(img[0], opcode(Mnemonic::Noop, &[]));
    assert_eq!(img, assemble("NOOP").unwrap());
}
