//! The instruction encoder: for each mnemonic, the operand shapes it takes and
//! the opcode byte that each shape selects.
//!
//! Each form has an opcode of its own, except where two spellings of one move
//! are accepted (`PUSH A S` and `PUSH S A`). `NOOP` is `0x00` and `HALT` is
//! `0xFF`; the other forms are numbered in one block per mnemonic. The bytes
//! that follow an opcode are those of its operands, in source order.
use vstd::prelude::*;
use crate::token::{Flag, Mnemonic, Reg, TokenKind};

verus! {

/// An operand as the encoder sees it.
#[derive(Clone, Copy, Debug, PartialEq, Eq, Structural)]
pub enum Operand {
    Reg(Reg),
    Flag(Flag),
    /// An 8-bit immediate: one byte follows the opcode.
    Imm8,
    /// A 16-bit immediate or a starred label: two bytes follow.
    Imm16,
    /// An address or a label: two bytes follow.
    Abs,
    /// `&HLI`: no byte follows.
    Ind,
    /// A token that is no operand.
    Other,
}

pub open spec fn operand_of(k: TokenKind) -> Operand {
    match k {
        TokenKind::Register(r) => Operand::Reg(r),
        TokenKind::Flag(f) => Operand::Flag(f),
        TokenKind::Imm8 => Operand::Imm8,
        TokenKind::Imm16 => Operand::Imm16,
        TokenKind::Address | TokenKind::Text | TokenKind::Label => Operand::Abs,
        TokenKind::Indirection => Operand::Ind,
        _ => Operand::Other,
    }
}

/// The operand that a token kind stands for.
pub fn operand(k: TokenKind) -> (r: Operand)
    ensures
        r == operand_of(k),
{
    match k {
        TokenKind::Register(r) => Operand::Reg(r),
        TokenKind::Flag(f) => Operand::Flag(f),
        TokenKind::Imm8 => Operand::Imm8,
        TokenKind::Imm16 => Operand::Imm16,
        TokenKind::Address | TokenKind::Text | TokenKind::Label => Operand::Abs,
        TokenKind::Indirection => Operand::Ind,
        _ => Operand::Other,
    }
}

/// The bytes that an operand occupies after the opcode.
pub open spec fn width(o: Operand) -> nat {
    match o {
        Operand::Imm8 => 1,
        Operand::Imm16 | Operand::Abs => 2,
        _ => 0,
    }
}

/// The bytes that an operand occupies after the opcode.
pub fn operand_width(o: Operand) -> (r: u8)
    ensures
        r == width(o),
{
    match o {
        Operand::Imm8 => 1,
        Operand::Imm16 | Operand::Abs => 2,
        _ => 0,
    }
}

/// Whether some form of the mnemonic has `n` operands.
pub open spec fn takes(m: Mnemonic, n: nat) -> bool {
    match m {
        Mnemonic::Noop | Mnemonic::Halt => n == 0,
        Mnemonic::Pop | Mnemonic::Ret => n == 1 || n == 2,
        Mnemonic::Not | Mnemonic::Shl | Mnemonic::Shr | Mnemonic::Inc | Mnemonic::Dec
        | Mnemonic::Zero | Mnemonic::Jze | Mnemonic::Jof | Mnemonic::Jer | Mnemonic::Jok
        | Mnemonic::Jmp | Mnemonic::Call | Mnemonic::SetFlag | Mnemonic::Clr => n == 1,
        _ => n == 2,
    }
}

/// Whether some form of the mnemonic has `n` operands.
pub fn arity_fits(m: Mnemonic, n: usize) -> (r: bool)
    ensures
        r == takes(m, n as nat),
{
    match m {
        Mnemonic::Noop | Mnemonic::Halt => n == 0,
        Mnemonic::Pop | Mnemonic::Ret => n == 1 || n == 2,
        Mnemonic::Not | Mnemonic::Shl | Mnemonic::Shr | Mnemonic::Inc | Mnemonic::Dec
        | Mnemonic::Zero | Mnemonic::Jze | Mnemonic::Jof | Mnemonic::Jer | Mnemonic::Jok
        | Mnemonic::Jmp | Mnemonic::Call | Mnemonic::SetFlag | Mnemonic::Clr => n == 1,
        _ => n == 2,
    }
}

/// `ADD`: `A B` and `B A`; `A`/`B` with an 8-bit immediate or an absolute operand; `AB` with a 16-bit immediate or an absolute operand.
pub open spec fn add_opcode(ops: Seq<Operand>) -> Option<u8> {
    if ops.len() != 2 {
        None
    } else {
        match (ops[0], ops[1]) {
            (Operand::Reg(Reg::A), Operand::Reg(Reg::B)) => Some(0x10),
            (Operand::Reg(Reg::B), Operand::Reg(Reg::A)) => Some(0x11),
            (Operand::Reg(Reg::A), Operand::Imm8) => Some(0x12),
            (Operand::Reg(Reg::B), Operand::Imm8) => Some(0x13),
            (Operand::Reg(Reg::Ab), Operand::Imm16) => Some(0x14),
            (Operand::Reg(Reg::A), Operand::Abs) => Some(0x15),
            (Operand::Reg(Reg::B), Operand::Abs) => Some(0x16),
            (Operand::Reg(Reg::Ab), Operand::Abs) => Some(0x17),
            _ => None,
        }
    }
}

/// The opcode that [`add_opcode`] gives.
pub fn parse_add(ops: &[Operand]) -> (r: Option<u8>)
    ensures
        r == add_opcode(ops@),
{
    if ops.len() != 2 {
        return None;
    }
    match (ops[0], ops[1]) {
        (Operand::Reg(Reg::A), Operand::Reg(Reg::B)) => Some(0x10),
        (Operand::Reg(Reg::B), Operand::Reg(Reg::A)) => Some(0x11),
        (Operand::Reg(Reg::A), Operand::Imm8) => Some(0x12),
        (Operand::Reg(Reg::B), Operand::Imm8) => Some(0x13),
        (Operand::Reg(Reg::Ab), Operand::Imm16) => Some(0x14),
        (Operand::Reg(Reg::A), Operand::Abs) => Some(0x15),
        (Operand::Reg(Reg::B), Operand::Abs) => Some(0x16),
        (Operand::Reg(Reg::Ab), Operand::Abs) => Some(0x17),
        _ => None,
    }
}

/// `SUB`: `A B` and `B A`; `A`/`B` with an 8-bit immediate or an absolute operand; `AB` with a 16-bit immediate or an absolute operand.
pub open spec fn sub_opcode(ops: Seq<Operand>) -> Option<u8> {
    if ops.len() != 2 {
        None
    } else {
        match (ops[0], ops[1]) {
            (Operand::Reg(Reg::A), Operand::Reg(Reg::B)) => Some(0x18),
            (Operand::Reg(Reg::B), Operand::Reg(Reg::A)) => Some(0x19),
            (Operand::Reg(Reg::A), Operand::Imm8) => Some(0x1A),
            (Operand::Reg(Reg::B), Operand::Imm8) => Some(0x1B),
            (Operand::Reg(Reg::Ab), Operand::Imm16) => Some(0x1C),
            (Operand::Reg(Reg::A), Operand::Abs) => Some(0x1D),
            (Operand::Reg(Reg::B), Operand::Abs) => Some(0x1E),
            (Operand::Reg(Reg::Ab), Operand::Abs) => Some(0x1F),
            _ => None,
        }
    }
}

/// The opcode that [`sub_opcode`] gives.
pub fn parse_sub(ops: &[Operand]) -> (r: Option<u8>)
    ensures
        r == sub_opcode(ops@),
{
    if ops.len() != 2 {
        return None;
    }
    match (ops[0], ops[1]) {
        (Operand::Reg(Reg::A), Operand::Reg(Reg::B)) => Some(0x18),
        (Operand::Reg(Reg::B), Operand::Reg(Reg::A)) => Some(0x19),
        (Operand::Reg(Reg::A), Operand::Imm8) => Some(0x1A),
        (Operand::Reg(Reg::B), Operand::Imm8) => Some(0x1B),
        (Operand::Reg(Reg::Ab), Operand::Imm16) => Some(0x1C),
        (Operand::Reg(Reg::A), Operand::Abs) => Some(0x1D),
        (Operand::Reg(Reg::B), Operand::Abs) => Some(0x1E),
        (Operand::Reg(Reg::Ab), Operand::Abs) => Some(0x1F),
        _ => None,
    }
}

/// `AND`: `A B` and `B A`; `A`/`B` with an 8-bit immediate or an absolute operand; `AB` with a 16-bit immediate or an absolute operand.
pub open spec fn and_opcode(ops: Seq<Operand>) -> Option<u8> {
    if ops.len() != 2 {
        None
    } else {
        match (ops[0], ops[1]) {
            (Operand::Reg(Reg::A), Operand::Reg(Reg::B)) => Some(0x20),
            (Operand::Reg(Reg::B), Operand::Reg(Reg::A)) => Some(0x21),
            (Operand::Reg(Reg::A), Operand::Imm8) => Some(0x22),
            (Operand::Reg(Reg::B), Operand::Imm8) => Some(0x23),
            (Operand::Reg(Reg::Ab), Operand::Imm16) => Some(0x24),
            (Operand::Reg(Reg::A), Operand::Abs) => Some(0x25),
            (Operand::Reg(Reg::B), Operand::Abs) => Some(0x26),
            (Operand::Reg(Reg::Ab), Operand::Abs) => Some(0x27),
            _ => None,
        }
    }
}

/// The opcode that [`and_opcode`] gives.
pub fn parse_and(ops: &[Operand]) -> (r: Option<u8>)
    ensures
        r == and_opcode(ops@),
{
    if ops.len() != 2 {
        return None;
    }
    match (ops[0], ops[1]) {
        (Operand::Reg(Reg::A), Operand::Reg(Reg::B)) => Some(0x20),
        (Operand::Reg(Reg::B), Operand::Reg(Reg::A)) => Some(0x21),
        (Operand::Reg(Reg::A), Operand::Imm8) => Some(0x22),
        (Operand::Reg(Reg::B), Operand::Imm8) => Some(0x23),
        (Operand::Reg(Reg::Ab), Operand::Imm16) => Some(0x24),
        (Operand::Reg(Reg::A), Operand::Abs) => Some(0x25),
        (Operand::Reg(Reg::B), Operand::Abs) => Some(0x26),
        (Operand::Reg(Reg::Ab), Operand::Abs) => Some(0x27),
        _ => None,
    }
}

/// `OR`: `A B` and `B A`; `AB` with a 16-bit immediate or an absolute operand.
pub open spec fn or_opcode(ops: Seq<Operand>) -> Option<u8> {
    if ops.len() != 2 {
        None
    } else {
        match (ops[0], ops[1]) {
            (Operand::Reg(Reg::A), Operand::Reg(Reg::B)) => Some(0x28),
            (Operand::Reg(Reg::B), Operand::Reg(Reg::A)) => Some(0x29),
            (Operand::Reg(Reg::Ab), Operand::Imm16) => Some(0x2C),
            (Operand::Reg(Reg::Ab), Operand::Abs) => Some(0x2F),
            _ => None,
        }
    }
}

/// The opcode that [`or_opcode`] gives.
pub fn parse_or(ops: &[Operand]) -> (r: Option<u8>)
    ensures
        r == or_opcode(ops@),
{
    if ops.len() != 2 {
        return None;
    }
    match (ops[0], ops[1]) {
        (Operand::Reg(Reg::A), Operand::Reg(Reg::B)) => Some(0x28),
        (Operand::Reg(Reg::B), Operand::Reg(Reg::A)) => Some(0x29),
        (Operand::Reg(Reg::Ab), Operand::Imm16) => Some(0x2C),
        (Operand::Reg(Reg::Ab), Operand::Abs) => Some(0x2F),
        _ => None,
    }
}

/// `XOR`: `A B` and `B A`; `AB` with a 16-bit immediate or an absolute operand.
pub open spec fn xor_opcode(ops: Seq<Operand>) -> Option<u8> {
    if ops.len() != 2 {
        None
    } else {
        match (ops[0], ops[1]) {
            (Operand::Reg(Reg::A), Operand::Reg(Reg::B)) => Some(0x30),
            (Operand::Reg(Reg::B), Operand::Reg(Reg::A)) => Some(0x31),
            (Operand::Reg(Reg::Ab), Operand::Imm16) => Some(0x34),
            (Operand::Reg(Reg::Ab), Operand::Abs) => Some(0x37),
            _ => None,
        }
    }
}

/// The opcode that [`xor_opcode`] gives.
pub fn parse_xor(ops: &[Operand]) -> (r: Option<u8>)
    ensures
        r == xor_opcode(ops@),
{
    if ops.len() != 2 {
        return None;
    }
    match (ops[0], ops[1]) {
        (Operand::Reg(Reg::A), Operand::Reg(Reg::B)) => Some(0x30),
        (Operand::Reg(Reg::B), Operand::Reg(Reg::A)) => Some(0x31),
        (Operand::Reg(Reg::Ab), Operand::Imm16) => Some(0x34),
        (Operand::Reg(Reg::Ab), Operand::Abs) => Some(0x37),
        _ => None,
    }
}

/// `NOT A`, `NOT B`, `NOT AB`.
pub open spec fn not_opcode(ops: Seq<Operand>) -> Option<u8> {
    if ops.len() != 1 {
        None
    } else {
        match ops[0] {
            Operand::Reg(Reg::A) => Some(0x38),
            Operand::Reg(Reg::B) => Some(0x39),
            Operand::Reg(Reg::Ab) => Some(0x3A),
            _ => None,
        }
    }
}

/// The opcode that [`not_opcode`] gives.
pub fn parse_not(ops: &[Operand]) -> (r: Option<u8>)
    ensures
        r == not_opcode(ops@),
{
    if ops.len() != 1 {
        return None;
    }
    match ops[0] {
        Operand::Reg(Reg::A) => Some(0x38),
        Operand::Reg(Reg::B) => Some(0x39),
        Operand::Reg(Reg::Ab) => Some(0x3A),
        _ => None,
    }
}

/// `SHL` (`left`) and `SHR` of `A`, `B` or `AB`.
pub open spec fn shift_opcode(left: bool, ops: Seq<Operand>) -> Option<u8> {
    if ops.len() != 1 {
        None
    } else {
        match (left, ops[0]) {
            (true, Operand::Reg(Reg::A)) => Some(0x3B),
            (true, Operand::Reg(Reg::B)) => Some(0x3C),
            (true, Operand::Reg(Reg::Ab)) => Some(0x3D),
            (false, Operand::Reg(Reg::A)) => Some(0x3E),
            (false, Operand::Reg(Reg::B)) => Some(0x3F),
            (false, Operand::Reg(Reg::Ab)) => Some(0x40),
            _ => None,
        }
    }
}

/// The opcode that [`shift_opcode`] gives.
pub fn parse_shift(left: bool, ops: &[Operand]) -> (r: Option<u8>)
    ensures
        r == shift_opcode(left, ops@),
{
    if ops.len() != 1 {
        return None;
    }
    match (left, ops[0]) {
        (true, Operand::Reg(Reg::A)) => Some(0x3B),
        (true, Operand::Reg(Reg::B)) => Some(0x3C),
        (true, Operand::Reg(Reg::Ab)) => Some(0x3D),
        (false, Operand::Reg(Reg::A)) => Some(0x3E),
        (false, Operand::Reg(Reg::B)) => Some(0x3F),
        (false, Operand::Reg(Reg::Ab)) => Some(0x40),
        _ => None,
    }
}

/// `INC`, `DEC` and `ZERO` of `HI`, `LI` or `HLI`.
pub open spec fn pointer_opcode(m: Mnemonic, ops: Seq<Operand>) -> Option<u8> {
    if ops.len() != 1 {
        None
    } else {
        match (m, ops[0]) {
            (Mnemonic::Inc, Operand::Reg(Reg::Hi)) => Some(0x41),
            (Mnemonic::Inc, Operand::Reg(Reg::Li)) => Some(0x42),
            (Mnemonic::Inc, Operand::Reg(Reg::Hli)) => Some(0x43),
            (Mnemonic::Dec, Operand::Reg(Reg::Hi)) => Some(0x44),
            (Mnemonic::Dec, Operand::Reg(Reg::Li)) => Some(0x45),
            (Mnemonic::Dec, Operand::Reg(Reg::Hli)) => Some(0x46),
            (Mnemonic::Zero, Operand::Reg(Reg::Hi)) => Some(0x47),
            (Mnemonic::Zero, Operand::Reg(Reg::Li)) => Some(0x48),
            (Mnemonic::Zero, Operand::Reg(Reg::Hli)) => Some(0x49),
            _ => None,
        }
    }
}

/// The opcode that [`pointer_opcode`] gives.
pub fn parse_pointer(m: Mnemonic, ops: &[Operand]) -> (r: Option<u8>)
    ensures
        r == pointer_opcode(m, ops@),
{
    if ops.len() != 1 {
        return None;
    }
    match (m, ops[0]) {
        (Mnemonic::Inc, Operand::Reg(Reg::Hi)) => Some(0x41),
        (Mnemonic::Inc, Operand::Reg(Reg::Li)) => Some(0x42),
        (Mnemonic::Inc, Operand::Reg(Reg::Hli)) => Some(0x43),
        (Mnemonic::Dec, Operand::Reg(Reg::Hi)) => Some(0x44),
        (Mnemonic::Dec, Operand::Reg(Reg::Li)) => Some(0x45),
        (Mnemonic::Dec, Operand::Reg(Reg::Hli)) => Some(0x46),
        (Mnemonic::Zero, Operand::Reg(Reg::Hi)) => Some(0x47),
        (Mnemonic::Zero, Operand::Reg(Reg::Li)) => Some(0x48),
        (Mnemonic::Zero, Operand::Reg(Reg::Hli)) => Some(0x49),
        _ => None,
    }
}

/// `SWP HI LI`, or the same written `SWP LI HI`.
pub open spec fn swap_opcode(ops: Seq<Operand>) -> Option<u8> {
    if ops.len() != 2 {
        None
    } else {
        match (ops[0], ops[1]) {
            (Operand::Reg(Reg::Hi), Operand::Reg(Reg::Li)) | (Operand::Reg(Reg::Li), Operand::Reg(Reg::Hi)) => Some(0x4A),
            _ => None,
        }
    }
}

/// The opcode that [`swap_opcode`] gives.
pub fn parse_swap(ops: &[Operand]) -> (r: Option<u8>)
    ensures
        r == swap_opcode(ops@),
{
    if ops.len() != 2 {
        return None;
    }
    match (ops[0], ops[1]) {
        (Operand::Reg(Reg::Hi), Operand::Reg(Reg::Li)) | (Operand::Reg(Reg::Li), Operand::Reg(Reg::Hi)) => Some(0x4A),
        _ => None,
    }
}

/// `CMP A B`; `A`, `B`, `HI`, `LI` with an 8-bit immediate; `AB`, `HLI` with a 16-bit immediate; any of these six with an absolute operand.
pub open spec fn cmp_opcode(ops: Seq<Operand>) -> Option<u8> {
    if ops.len() != 2 {
        None
    } else {
        match (ops[0], ops[1]) {
            (Operand::Reg(Reg::A), Operand::Reg(Reg::B)) => Some(0x50),
            (Operand::Reg(Reg::A), Operand::Imm8) => Some(0x51),
            (Operand::Reg(Reg::B), Operand::Imm8) => Some(0x52),
            (Operand::Reg(Reg::Hi), Operand::Imm8) => Some(0x53),
            (Operand::Reg(Reg::Li), Operand::Imm8) => Some(0x54),
            (Operand::Reg(Reg::Ab), Operand::Imm16) => Some(0x55),
            (Operand::Reg(Reg::Hli), Operand::Imm16) => Some(0x56),
            (Operand::Reg(Reg::A), Operand::Abs) => Some(0x57),
            (Operand::Reg(Reg::B), Operand::Abs) => Some(0x58),
            (Operand::Reg(Reg::Hi), Operand::Abs) => Some(0x59),
            (Operand::Reg(Reg::Li), Operand::Abs) => Some(0x5A),
            (Operand::Reg(Reg::Ab), Operand::Abs) => Some(0x5B),
            (Operand::Reg(Reg::Hli), Operand::Abs) => Some(0x5C),
            _ => None,
        }
    }
}

/// The opcode that [`cmp_opcode`] gives.
pub fn parse_cmp(ops: &[Operand]) -> (r: Option<u8>)
    ensures
        r == cmp_opcode(ops@),
{
    if ops.len() != 2 {
        return None;
    }
    match (ops[0], ops[1]) {
        (Operand::Reg(Reg::A), Operand::Reg(Reg::B)) => Some(0x50),
        (Operand::Reg(Reg::A), Operand::Imm8) => Some(0x51),
        (Operand::Reg(Reg::B), Operand::Imm8) => Some(0x52),
        (Operand::Reg(Reg::Hi), Operand::Imm8) => Some(0x53),
        (Operand::Reg(Reg::Li), Operand::Imm8) => Some(0x54),
        (Operand::Reg(Reg::Ab), Operand::Imm16) => Some(0x55),
        (Operand::Reg(Reg::Hli), Operand::Imm16) => Some(0x56),
        (Operand::Reg(Reg::A), Operand::Abs) => Some(0x57),
        (Operand::Reg(Reg::B), Operand::Abs) => Some(0x58),
        (Operand::Reg(Reg::Hi), Operand::Abs) => Some(0x59),
        (Operand::Reg(Reg::Li), Operand::Abs) => Some(0x5A),
        (Operand::Reg(Reg::Ab), Operand::Abs) => Some(0x5B),
        (Operand::Reg(Reg::Hli), Operand::Abs) => Some(0x5C),
        _ => None,
    }
}

/// `STO` of `HI`, `LI` or `HLI` to an absolute operand.
pub open spec fn store_opcode(ops: Seq<Operand>) -> Option<u8> {
    if ops.len() != 2 {
        None
    } else {
        match (ops[0], ops[1]) {
            (Operand::Reg(Reg::Hi), Operand::Abs) => Some(0x5D),
            (Operand::Reg(Reg::Li), Operand::Abs) => Some(0x5E),
            (Operand::Reg(Reg::Hli), Operand::Abs) => Some(0x5F),
            _ => None,
        }
    }
}

/// The opcode that [`store_opcode`] gives.
pub fn parse_store(ops: &[Operand]) -> (r: Option<u8>)
    ensures
        r == store_opcode(ops@),
{
    if ops.len() != 2 {
        return None;
    }
    match (ops[0], ops[1]) {
        (Operand::Reg(Reg::Hi), Operand::Abs) => Some(0x5D),
        (Operand::Reg(Reg::Li), Operand::Abs) => Some(0x5E),
        (Operand::Reg(Reg::Hli), Operand::Abs) => Some(0x5F),
        _ => None,
    }
}

/// `PUSH` between registers: `A B`, `B A`, `EX A`, `EX B`, and `A`/`B`/`HI`/`LI` with `S`, `HI`/`LI` with `A`/`B`, `AB` with `SA`/`SS`/`HLI` in either order; `A`, `B`, `HI`, `LI` with an 8-bit immediate; `AB`, `HLI` with a 16-bit immediate; any of these six with an absolute operand, a register and its value in either order; `&HLI` then `A`, `B` or `AB`.
pub open spec fn push_opcode(ops: Seq<Operand>) -> Option<u8> {
    if ops.len() != 2 {
        None
    } else {
        match (ops[0], ops[1]) {
            (Operand::Reg(Reg::A), Operand::Reg(Reg::B)) => Some(0x60),
            (Operand::Reg(Reg::B), Operand::Reg(Reg::A)) => Some(0x61),
            (Operand::Reg(Reg::A), Operand::Reg(Reg::S)) | (Operand::Reg(Reg::S), Operand::Reg(Reg::A)) => Some(0x62),
            (Operand::Reg(Reg::B), Operand::Reg(Reg::S)) | (Operand::Reg(Reg::S), Operand::Reg(Reg::B)) => Some(0x63),
            (Operand::Reg(Reg::Hi), Operand::Reg(Reg::S)) | (Operand::Reg(Reg::S), Operand::Reg(Reg::Hi)) => Some(0x64),
            (Operand::Reg(Reg::Li), Operand::Reg(Reg::S)) | (Operand::Reg(Reg::S), Operand::Reg(Reg::Li)) => Some(0x65),
            (Operand::Reg(Reg::Hi), Operand::Reg(Reg::A)) | (Operand::Reg(Reg::A), Operand::Reg(Reg::Hi)) => Some(0x66),
            (Operand::Reg(Reg::Hi), Operand::Reg(Reg::B)) | (Operand::Reg(Reg::B), Operand::Reg(Reg::Hi)) => Some(0x67),
            (Operand::Reg(Reg::Li), Operand::Reg(Reg::A)) | (Operand::Reg(Reg::A), Operand::Reg(Reg::Li)) => Some(0x68),
            (Operand::Reg(Reg::Li), Operand::Reg(Reg::B)) | (Operand::Reg(Reg::B), Operand::Reg(Reg::Li)) => Some(0x69),
            (Operand::Reg(Reg::Ex), Operand::Reg(Reg::A)) => Some(0x6A),
            (Operand::Reg(Reg::Ex), Operand::Reg(Reg::B)) => Some(0x6B),
            (Operand::Reg(Reg::Sa), Operand::Reg(Reg::Ab)) | (Operand::Reg(Reg::Ab), Operand::Reg(Reg::Sa)) => Some(0x6C),
            (Operand::Reg(Reg::Ss), Operand::Reg(Reg::Ab)) | (Operand::Reg(Reg::Ab), Operand::Reg(Reg::Ss)) => Some(0x6D),
            (Operand::Reg(Reg::Hli), Operand::Reg(Reg::Ab)) | (Operand::Reg(Reg::Ab), Operand::Reg(Reg::Hli)) => Some(0x6E),
            (Operand::Reg(Reg::A), Operand::Imm8) | (Operand::Imm8, Operand::Reg(Reg::A)) => Some(0x6F),
            (Operand::Reg(Reg::B), Operand::Imm8) | (Operand::Imm8, Operand::Reg(Reg::B)) => Some(0x70),
            (Operand::Reg(Reg::Hi), Operand::Imm8) | (Operand::Imm8, Operand::Reg(Reg::Hi)) => Some(0x71),
            (Operand::Reg(Reg::Li), Operand::Imm8) | (Operand::Imm8, Operand::Reg(Reg::Li)) => Some(0x72),
            (Operand::Reg(Reg::Ab), Operand::Imm16) | (Operand::Imm16, Operand::Reg(Reg::Ab)) => Some(0x73),
            (Operand::Reg(Reg::Hli), Operand::Imm16) | (Operand::Imm16, Operand::Reg(Reg::Hli)) => Some(0x74),
            (Operand::Reg(Reg::A), Operand::Abs) | (Operand::Abs, Operand::Reg(Reg::A)) => Some(0x75),
            (Operand::Reg(Reg::B), Operand::Abs) | (Operand::Abs, Operand::Reg(Reg::B)) => Some(0x76),
            (Operand::Reg(Reg::Hi), Operand::Abs) | (Operand::Abs, Operand::Reg(Reg::Hi)) => Some(0x77),
            (Operand::Reg(Reg::Li), Operand::Abs) | (Operand::Abs, Operand::Reg(Reg::Li)) => Some(0x78),
            (Operand::Reg(Reg::Ab), Operand::Abs) | (Operand::Abs, Operand::Reg(Reg::Ab)) => Some(0x79),
            (Operand::Reg(Reg::Hli), Operand::Abs) | (Operand::Abs, Operand::Reg(Reg::Hli)) => Some(0x7A),
            (Operand::Ind, Operand::Reg(Reg::A)) => Some(0x7B),
            (Operand::Ind, Operand::Reg(Reg::B)) => Some(0x7C),
            (Operand::Ind, Operand::Reg(Reg::Ab)) => Some(0x7D),
            _ => None,
        }
    }
}

/// The opcode that [`push_opcode`] gives.
pub fn parse_push(ops: &[Operand]) -> (r: Option<u8>)
    ensures
        r == push_opcode(ops@),
{
    if ops.len() != 2 {
        return None;
    }
    match (ops[0], ops[1]) {
        (Operand::Reg(Reg::A), Operand::Reg(Reg::B)) => Some(0x60),
        (Operand::Reg(Reg::B), Operand::Reg(Reg::A)) => Some(0x61),
        (Operand::Reg(Reg::A), Operand::Reg(Reg::S)) | (Operand::Reg(Reg::S), Operand::Reg(Reg::A)) => Some(0x62),
        (Operand::Reg(Reg::B), Operand::Reg(Reg::S)) | (Operand::Reg(Reg::S), Operand::Reg(Reg::B)) => Some(0x63),
        (Operand::Reg(Reg::Hi), Operand::Reg(Reg::S)) | (Operand::Reg(Reg::S), Operand::Reg(Reg::Hi)) => Some(0x64),
        (Operand::Reg(Reg::Li), Operand::Reg(Reg::S)) | (Operand::Reg(Reg::S), Operand::Reg(Reg::Li)) => Some(0x65),
        (Operand::Reg(Reg::Hi), Operand::Reg(Reg::A)) | (Operand::Reg(Reg::A), Operand::Reg(Reg::Hi)) => Some(0x66),
        (Operand::Reg(Reg::Hi), Operand::Reg(Reg::B)) | (Operand::Reg(Reg::B), Operand::Reg(Reg::Hi)) => Some(0x67),
        (Operand::Reg(Reg::Li), Operand::Reg(Reg::A)) | (Operand::Reg(Reg::A), Operand::Reg(Reg::Li)) => Some(0x68),
        (Operand::Reg(Reg::Li), Operand::Reg(Reg::B)) | (Operand::Reg(Reg::B), Operand::Reg(Reg::Li)) => Some(0x69),
        (Operand::Reg(Reg::Ex), Operand::Reg(Reg::A)) => Some(0x6A),
        (Operand::Reg(Reg::Ex), Operand::Reg(Reg::B)) => Some(0x6B),
        (Operand::Reg(Reg::Sa), Operand::Reg(Reg::Ab)) | (Operand::Reg(Reg::Ab), Operand::Reg(Reg::Sa)) => Some(0x6C),
        (Operand::Reg(Reg::Ss), Operand::Reg(Reg::Ab)) | (Operand::Reg(Reg::Ab), Operand::Reg(Reg::Ss)) => Some(0x6D),
        (Operand::Reg(Reg::Hli), Operand::Reg(Reg::Ab)) | (Operand::Reg(Reg::Ab), Operand::Reg(Reg::Hli)) => Some(0x6E),
        (Operand::Reg(Reg::A), Operand::Imm8) | (Operand::Imm8, Operand::Reg(Reg::A)) => Some(0x6F),
        (Operand::Reg(Reg::B), Operand::Imm8) | (Operand::Imm8, Operand::Reg(Reg::B)) => Some(0x70),
        (Operand::Reg(Reg::Hi), Operand::Imm8) | (Operand::Imm8, Operand::Reg(Reg::Hi)) => Some(0x71),
        (Operand::Reg(Reg::Li), Operand::Imm8) | (Operand::Imm8, Operand::Reg(Reg::Li)) => Some(0x72),
        (Operand::Reg(Reg::Ab), Operand::Imm16) | (Operand::Imm16, Operand::Reg(Reg::Ab)) => Some(0x73),
        (Operand::Reg(Reg::Hli), Operand::Imm16) | (Operand::Imm16, Operand::Reg(Reg::Hli)) => Some(0x74),
        (Operand::Reg(Reg::A), Operand::Abs) | (Operand::Abs, Operand::Reg(Reg::A)) => Some(0x75),
        (Operand::Reg(Reg::B), Operand::Abs) | (Operand::Abs, Operand::Reg(Reg::B)) => Some(0x76),
        (Operand::Reg(Reg::Hi), Operand::Abs) | (Operand::Abs, Operand::Reg(Reg::Hi)) => Some(0x77),
        (Operand::Reg(Reg::Li), Operand::Abs) | (Operand::Abs, Operand::Reg(Reg::Li)) => Some(0x78),
        (Operand::Reg(Reg::Ab), Operand::Abs) | (Operand::Abs, Operand::Reg(Reg::Ab)) => Some(0x79),
        (Operand::Reg(Reg::Hli), Operand::Abs) | (Operand::Abs, Operand::Reg(Reg::Hli)) => Some(0x7A),
        (Operand::Ind, Operand::Reg(Reg::A)) => Some(0x7B),
        (Operand::Ind, Operand::Reg(Reg::B)) => Some(0x7C),
        (Operand::Ind, Operand::Reg(Reg::Ab)) => Some(0x7D),
        _ => None,
    }
}

/// `POP` between registers: `A B`, `B A`, `A EX`, `B EX`, and `S` with `A`/`B`/`HI`/`LI`, `A`/`B` with `HI`/`LI`, `AB` with `SA`/`SS`/`HLI` in either order.
pub open spec fn pop_pair_opcode(ops: Seq<Operand>) -> Option<u8> {
    if ops.len() != 2 {
        None
    } else {
        match (ops[0], ops[1]) {
            (Operand::Reg(Reg::A), Operand::Reg(Reg::B)) => Some(0x80),
            (Operand::Reg(Reg::B), Operand::Reg(Reg::A)) => Some(0x81),
            (Operand::Reg(Reg::S), Operand::Reg(Reg::A)) | (Operand::Reg(Reg::A), Operand::Reg(Reg::S)) => Some(0x82),
            (Operand::Reg(Reg::S), Operand::Reg(Reg::B)) | (Operand::Reg(Reg::B), Operand::Reg(Reg::S)) => Some(0x83),
            (Operand::Reg(Reg::S), Operand::Reg(Reg::Hi)) | (Operand::Reg(Reg::Hi), Operand::Reg(Reg::S)) => Some(0x84),
            (Operand::Reg(Reg::S), Operand::Reg(Reg::Li)) | (Operand::Reg(Reg::Li), Operand::Reg(Reg::S)) => Some(0x85),
            (Operand::Reg(Reg::A), Operand::Reg(Reg::Hi)) | (Operand::Reg(Reg::Hi), Operand::Reg(Reg::A)) => Some(0x86),
            (Operand::Reg(Reg::B), Operand::Reg(Reg::Hi)) | (Operand::Reg(Reg::Hi), Operand::Reg(Reg::B)) => Some(0x87),
            (Operand::Reg(Reg::A), Operand::Reg(Reg::Li)) | (Operand::Reg(Reg::Li), Operand::Reg(Reg::A)) => Some(0x88),
            (Operand::Reg(Reg::B), Operand::Reg(Reg::Li)) | (Operand::Reg(Reg::Li), Operand::Reg(Reg::B)) => Some(0x89),
            (Operand::Reg(Reg::A), Operand::Reg(Reg::Ex)) => Some(0x8A),
            (Operand::Reg(Reg::B), Operand::Reg(Reg::Ex)) => Some(0x8B),
            (Operand::Reg(Reg::Ab), Operand::Reg(Reg::Sa)) | (Operand::Reg(Reg::Sa), Operand::Reg(Reg::Ab)) => Some(0x8C),
            (Operand::Reg(Reg::Ab), Operand::Reg(Reg::Ss)) | (Operand::Reg(Reg::Ss), Operand::Reg(Reg::Ab)) => Some(0x8D),
            (Operand::Reg(Reg::Ab), Operand::Reg(Reg::Hli)) | (Operand::Reg(Reg::Hli), Operand::Reg(Reg::Ab)) => Some(0x8E),
            _ => None,
        }
    }
}

/// The opcode that [`pop_pair_opcode`] gives.
pub fn parse_pop_pair(ops: &[Operand]) -> (r: Option<u8>)
    ensures
        r == pop_pair_opcode(ops@),
{
    if ops.len() != 2 {
        return None;
    }
    match (ops[0], ops[1]) {
        (Operand::Reg(Reg::A), Operand::Reg(Reg::B)) => Some(0x80),
        (Operand::Reg(Reg::B), Operand::Reg(Reg::A)) => Some(0x81),
        (Operand::Reg(Reg::S), Operand::Reg(Reg::A)) | (Operand::Reg(Reg::A), Operand::Reg(Reg::S)) => Some(0x82),
        (Operand::Reg(Reg::S), Operand::Reg(Reg::B)) | (Operand::Reg(Reg::B), Operand::Reg(Reg::S)) => Some(0x83),
        (Operand::Reg(Reg::S), Operand::Reg(Reg::Hi)) | (Operand::Reg(Reg::Hi), Operand::Reg(Reg::S)) => Some(0x84),
        (Operand::Reg(Reg::S), Operand::Reg(Reg::Li)) | (Operand::Reg(Reg::Li), Operand::Reg(Reg::S)) => Some(0x85),
        (Operand::Reg(Reg::A), Operand::Reg(Reg::Hi)) | (Operand::Reg(Reg::Hi), Operand::Reg(Reg::A)) => Some(0x86),
        (Operand::Reg(Reg::B), Operand::Reg(Reg::Hi)) | (Operand::Reg(Reg::Hi), Operand::Reg(Reg::B)) => Some(0x87),
        (Operand::Reg(Reg::A), Operand::Reg(Reg::Li)) | (Operand::Reg(Reg::Li), Operand::Reg(Reg::A)) => Some(0x88),
        (Operand::Reg(Reg::B), Operand::Reg(Reg::Li)) | (Operand::Reg(Reg::Li), Operand::Reg(Reg::B)) => Some(0x89),
        (Operand::Reg(Reg::A), Operand::Reg(Reg::Ex)) => Some(0x8A),
        (Operand::Reg(Reg::B), Operand::Reg(Reg::Ex)) => Some(0x8B),
        (Operand::Reg(Reg::Ab), Operand::Reg(Reg::Sa)) | (Operand::Reg(Reg::Sa), Operand::Reg(Reg::Ab)) => Some(0x8C),
        (Operand::Reg(Reg::Ab), Operand::Reg(Reg::Ss)) | (Operand::Reg(Reg::Ss), Operand::Reg(Reg::Ab)) => Some(0x8D),
        (Operand::Reg(Reg::Ab), Operand::Reg(Reg::Hli)) | (Operand::Reg(Reg::Hli), Operand::Reg(Reg::Ab)) => Some(0x8E),
        _ => None,
    }
}

/// `POP` of `A`, `B` or `AB` to an absolute operand or to `&HLI`.
pub open spec fn pop_memory_opcode(ops: Seq<Operand>) -> Option<u8> {
    if ops.len() != 2 {
        None
    } else {
        match (ops[0], ops[1]) {
            (Operand::Reg(Reg::A), Operand::Abs) => Some(0x92),
            (Operand::Reg(Reg::B), Operand::Abs) => Some(0x93),
            (Operand::Reg(Reg::Ab), Operand::Abs) => Some(0x94),
            (Operand::Reg(Reg::A), Operand::Ind) => Some(0x95),
            (Operand::Reg(Reg::B), Operand::Ind) => Some(0x96),
            (Operand::Reg(Reg::Ab), Operand::Ind) => Some(0x97),
            _ => None,
        }
    }
}

/// The opcode that [`pop_memory_opcode`] gives.
pub fn parse_pop_memory(ops: &[Operand]) -> (r: Option<u8>)
    ensures
        r == pop_memory_opcode(ops@),
{
    if ops.len() != 2 {
        return None;
    }
    match (ops[0], ops[1]) {
        (Operand::Reg(Reg::A), Operand::Abs) => Some(0x92),
        (Operand::Reg(Reg::B), Operand::Abs) => Some(0x93),
        (Operand::Reg(Reg::Ab), Operand::Abs) => Some(0x94),
        (Operand::Reg(Reg::A), Operand::Ind) => Some(0x95),
        (Operand::Reg(Reg::B), Operand::Ind) => Some(0x96),
        (Operand::Reg(Reg::Ab), Operand::Ind) => Some(0x97),
        _ => None,
    }
}

/// `POP A` and `POP B`.
pub open spec fn pop_single_opcode(ops: Seq<Operand>) -> Option<u8> {
    if ops.len() != 1 {
        None
    } else {
        match ops[0] {
            Operand::Reg(Reg::A) => Some(0x90),
            Operand::Reg(Reg::B) => Some(0x91),
            _ => None,
        }
    }
}

/// The opcode that [`pop_single_opcode`] gives.
pub fn parse_pop_single(ops: &[Operand]) -> (r: Option<u8>)
    ensures
        r == pop_single_opcode(ops@),
{
    if ops.len() != 1 {
        return None;
    }
    match ops[0] {
        Operand::Reg(Reg::A) => Some(0x90),
        Operand::Reg(Reg::B) => Some(0x91),
        _ => None,
    }
}

/// `PEEK` of `A`, `B` or `AB` from an absolute operand or from `&HLI`.
pub open spec fn peek_opcode(ops: Seq<Operand>) -> Option<u8> {
    if ops.len() != 2 {
        None
    } else {
        match (ops[0], ops[1]) {
            (Operand::Reg(Reg::A), Operand::Abs) => Some(0x98),
            (Operand::Reg(Reg::B), Operand::Abs) => Some(0x99),
            (Operand::Reg(Reg::Ab), Operand::Abs) => Some(0x9A),
            (Operand::Reg(Reg::A), Operand::Ind) => Some(0x9B),
            (Operand::Reg(Reg::B), Operand::Ind) => Some(0x9C),
            (Operand::Reg(Reg::Ab), Operand::Ind) => Some(0x9D),
            _ => None,
        }
    }
}

/// The opcode that [`peek_opcode`] gives.
pub fn parse_peek(ops: &[Operand]) -> (r: Option<u8>)
    ensures
        r == peek_opcode(ops@),
{
    if ops.len() != 2 {
        return None;
    }
    match (ops[0], ops[1]) {
        (Operand::Reg(Reg::A), Operand::Abs) => Some(0x98),
        (Operand::Reg(Reg::B), Operand::Abs) => Some(0x99),
        (Operand::Reg(Reg::Ab), Operand::Abs) => Some(0x9A),
        (Operand::Reg(Reg::A), Operand::Ind) => Some(0x9B),
        (Operand::Reg(Reg::B), Operand::Ind) => Some(0x9C),
        (Operand::Reg(Reg::Ab), Operand::Ind) => Some(0x9D),
        _ => None,
    }
}

/// `JMP`, `JZE`, `JOF`, `JER`, `JOK` and `CALL` to an absolute operand.
pub open spec fn jump_opcode(m: Mnemonic, ops: Seq<Operand>) -> Option<u8> {
    if ops.len() != 1 {
        None
    } else {
        match (m, ops[0]) {
            (Mnemonic::Jmp, Operand::Abs) => Some(0xA0),
            (Mnemonic::Jze, Operand::Abs) => Some(0xA1),
            (Mnemonic::Jof, Operand::Abs) => Some(0xA2),
            (Mnemonic::Jer, Operand::Abs) => Some(0xA3),
            (Mnemonic::Jok, Operand::Abs) => Some(0xA4),
            (Mnemonic::Call, Operand::Abs) => Some(0xA5),
            _ => None,
        }
    }
}

/// The opcode that [`jump_opcode`] gives.
pub fn parse_jump(m: Mnemonic, ops: &[Operand]) -> (r: Option<u8>)
    ensures
        r == jump_opcode(m, ops@),
{
    if ops.len() != 1 {
        return None;
    }
    match (m, ops[0]) {
        (Mnemonic::Jmp, Operand::Abs) => Some(0xA0),
        (Mnemonic::Jze, Operand::Abs) => Some(0xA1),
        (Mnemonic::Jof, Operand::Abs) => Some(0xA2),
        (Mnemonic::Jer, Operand::Abs) => Some(0xA3),
        (Mnemonic::Jok, Operand::Abs) => Some(0xA4),
        (Mnemonic::Call, Operand::Abs) => Some(0xA5),
        _ => None,
    }
}

/// `RET OK` and `RET ERR`.
pub open spec fn return_flag_opcode(ops: Seq<Operand>) -> Option<u8> {
    if ops.len() != 1 {
        None
    } else {
        match ops[0] {
            Operand::Flag(Flag::Success) => Some(0xA8),
            Operand::Flag(Flag::Error) => Some(0xA9),
            _ => None,
        }
    }
}

/// The opcode that [`return_flag_opcode`] gives.
pub fn parse_return_flag(ops: &[Operand]) -> (r: Option<u8>)
    ensures
        r == return_flag_opcode(ops@),
{
    if ops.len() != 1 {
        return None;
    }
    match ops[0] {
        Operand::Flag(Flag::Success) => Some(0xA8),
        Operand::Flag(Flag::Error) => Some(0xA9),
        _ => None,
    }
}

/// `RET OK` and `RET ERR` with an 8-bit exit code.
pub open spec fn return_code_opcode(ops: Seq<Operand>) -> Option<u8> {
    if ops.len() != 2 {
        None
    } else {
        match (ops[0], ops[1]) {
            (Operand::Flag(Flag::Success), Operand::Imm8) => Some(0xAA),
            (Operand::Flag(Flag::Error), Operand::Imm8) => Some(0xAB),
            _ => None,
        }
    }
}

/// The opcode that [`return_code_opcode`] gives.
pub fn parse_return_code(ops: &[Operand]) -> (r: Option<u8>)
    ensures
        r == return_code_opcode(ops@),
{
    if ops.len() != 2 {
        return None;
    }
    match (ops[0], ops[1]) {
        (Operand::Flag(Flag::Success), Operand::Imm8) => Some(0xAA),
        (Operand::Flag(Flag::Error), Operand::Imm8) => Some(0xAB),
        _ => None,
    }
}

/// `SET ERR` and `SET IRQ`.
pub open spec fn set_opcode(ops: Seq<Operand>) -> Option<u8> {
    if ops.len() != 1 {
        None
    } else {
        match ops[0] {
            Operand::Flag(Flag::Error) => Some(0xB0),
            Operand::Flag(Flag::Interrupt) => Some(0xB1),
            _ => None,
        }
    }
}

/// The opcode that [`set_opcode`] gives.
pub fn parse_set(ops: &[Operand]) -> (r: Option<u8>)
    ensures
        r == set_opcode(ops@),
{
    if ops.len() != 1 {
        return None;
    }
    match ops[0] {
        Operand::Flag(Flag::Error) => Some(0xB0),
        Operand::Flag(Flag::Interrupt) => Some(0xB1),
        _ => None,
    }
}

/// `CLR` of `ERR`, `IRQ`, `OVF`, `ZER`, or of the exit code `EX`.
pub open spec fn clear_opcode(ops: Seq<Operand>) -> Option<u8> {
    if ops.len() != 1 {
        None
    } else {
        match ops[0] {
            Operand::Flag(Flag::Error) => Some(0xB2),
            Operand::Flag(Flag::Interrupt) => Some(0xB3),
            Operand::Flag(Flag::Overflow) => Some(0xB4),
            Operand::Flag(Flag::Zero) => Some(0xB5),
            Operand::Reg(Reg::Ex) => Some(0xB6),
            _ => None,
        }
    }
}

/// The opcode that [`clear_opcode`] gives.
pub fn parse_clear(ops: &[Operand]) -> (r: Option<u8>)
    ensures
        r == clear_opcode(ops@),
{
    if ops.len() != 1 {
        return None;
    }
    match ops[0] {
        Operand::Flag(Flag::Error) => Some(0xB2),
        Operand::Flag(Flag::Interrupt) => Some(0xB3),
        Operand::Flag(Flag::Overflow) => Some(0xB4),
        Operand::Flag(Flag::Zero) => Some(0xB5),
        Operand::Reg(Reg::Ex) => Some(0xB6),
        _ => None,
    }
}

/// `NOOP` and `HALT` take no operand.
pub open spec fn bare_opcode(m: Mnemonic, ops: Seq<Operand>) -> Option<u8> {
    if ops.len() != 0 {
        None
    } else {
        match m {
            Mnemonic::Noop => Some(0x00),
            Mnemonic::Halt => Some(0xFF),
            _ => None,
        }
    }
}

/// The opcode of `NOOP` or `HALT`.
pub fn parse_bare(m: Mnemonic, ops: &[Operand]) -> (r: Option<u8>)
    ensures
        r == bare_opcode(m, ops@),
{
    if ops.len() != 0 {
        return None;
    }
    match m {
        Mnemonic::Noop => Some(0x00),
        Mnemonic::Halt => Some(0xFF),
        _ => None,
    }
}

/// `POP`: one register alone, two registers, or a register and a memory operand.
pub open spec fn pop_opcode(ops: Seq<Operand>) -> Option<u8> {
    if pop_single_opcode(ops) is Some {
        pop_single_opcode(ops)
    } else if pop_pair_opcode(ops) is Some {
        pop_pair_opcode(ops)
    } else {
        pop_memory_opcode(ops)
    }
}

/// The opcode of a `POP` form.
pub fn parse_pop(ops: &[Operand]) -> (r: Option<u8>)
    ensures
        r == pop_opcode(ops@),
{
    let single = parse_pop_single(ops);
    if single.is_some() {
        return single;
    }
    let pair = parse_pop_pair(ops);
    if pair.is_some() {
        return pair;
    }
    parse_pop_memory(ops)
}

/// `RET` with a flag, and optionally an exit code.
pub open spec fn ret_opcode(ops: Seq<Operand>) -> Option<u8> {
    if return_flag_opcode(ops) is Some {
        return_flag_opcode(ops)
    } else {
        return_code_opcode(ops)
    }
}

/// The opcode of a `RET` form: a flag alone, or a flag and an exit code.
pub fn parse_return(ops: &[Operand]) -> (r: Option<u8>)
    ensures
        r == ret_opcode(ops@),
{
    let plain = parse_return_flag(ops);
    if plain.is_some() {
        plain
    } else {
        parse_return_code(ops)
    }
}

/// The opcode that a mnemonic and its operands select; `None` where they fit no form.
pub open spec fn opcode_of(m: Mnemonic, ops: Seq<Operand>) -> Option<u8> {
    match m {
        Mnemonic::Noop | Mnemonic::Halt => bare_opcode(m, ops),
        Mnemonic::Push => push_opcode(ops),
        Mnemonic::Pop => pop_opcode(ops),
        Mnemonic::Peek => peek_opcode(ops),
        Mnemonic::Sto => store_opcode(ops),
        Mnemonic::Add => add_opcode(ops),
        Mnemonic::Sub => sub_opcode(ops),
        Mnemonic::And => and_opcode(ops),
        Mnemonic::Or => or_opcode(ops),
        Mnemonic::Xor => xor_opcode(ops),
        Mnemonic::Shl => shift_opcode(true, ops),
        Mnemonic::Shr => shift_opcode(false, ops),
        Mnemonic::Not => not_opcode(ops),
        Mnemonic::Cmp => cmp_opcode(ops),
        Mnemonic::Inc | Mnemonic::Dec | Mnemonic::Zero => pointer_opcode(m, ops),
        Mnemonic::Swp => swap_opcode(ops),
        Mnemonic::Jze | Mnemonic::Jof | Mnemonic::Jer | Mnemonic::Jok | Mnemonic::Jmp
        | Mnemonic::Call => jump_opcode(m, ops),
        Mnemonic::Ret => ret_opcode(ops),
        Mnemonic::SetFlag => set_opcode(ops),
        Mnemonic::Clr => clear_opcode(ops),
    }
}

/// The opcode that a mnemonic and its operands select; `None` where they fit no form.
pub fn encode(m: Mnemonic, ops: &[Operand]) -> (r: Option<u8>)
    ensures
        r == opcode_of(m, ops@),
{
    match m {
        Mnemonic::Noop | Mnemonic::Halt => parse_bare(m, ops),
        Mnemonic::Push => parse_push(ops),
        Mnemonic::Pop => parse_pop(ops),
        Mnemonic::Peek => parse_peek(ops),
        Mnemonic::Sto => parse_store(ops),
        Mnemonic::Add => parse_add(ops),
        Mnemonic::Sub => parse_sub(ops),
        Mnemonic::And => parse_and(ops),
        Mnemonic::Or => parse_or(ops),
        Mnemonic::Xor => parse_xor(ops),
        Mnemonic::Shl => parse_shift(true, ops),
        Mnemonic::Shr => parse_shift(false, ops),
        Mnemonic::Not => parse_not(ops),
        Mnemonic::Cmp => parse_cmp(ops),
        Mnemonic::Inc | Mnemonic::Dec | Mnemonic::Zero => parse_pointer(m, ops),
        Mnemonic::Swp => parse_swap(ops),
        Mnemonic::Jze | Mnemonic::Jof | Mnemonic::Jer | Mnemonic::Jok | Mnemonic::Jmp
        | Mnemonic::Call => parse_jump(m, ops),
        Mnemonic::Ret => parse_return(ops),
        Mnemonic::SetFlag => parse_set(ops),
        Mnemonic::Clr => parse_clear(ops),
    }
}

} // verus!
