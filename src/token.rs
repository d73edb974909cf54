//! Tokens of Nox assembly: what a word of source text is, and how it is told.
use vstd::prelude::*;

verus! {

/// Registers, and the pseudo-registers that only tag operands.
#[derive(Clone, Copy, Debug, PartialEq, Eq, Structural)]
pub enum Reg {
    A,
    B,
    Hi,
    Li,
    Ab,
    Hli,
    Ex,
    Ira,
    S,
    Sa,
    Ss,
}

/// Status flags: `ERR`, `IRQ`, `OK`, `OVF` and `ZER`.
#[derive(Clone, Copy, Debug, PartialEq, Eq, Structural)]
pub enum Flag {
    Error,
    Interrupt,
    Success,
    Overflow,
    Zero,
}

/// The instruction mnemonics; `SetFlag` is `SET`.
#[derive(Clone, Copy, Debug, PartialEq, Eq, Structural)]
pub enum Mnemonic {
    Noop,
    Push,
    Pop,
    Peek,
    Sto,
    Add,
    Sub,
    Shl,
    Shr,
    And,
    Or,
    Xor,
    Not,
    Cmp,
    Inc,
    Dec,
    Zero,
    Swp,
    Jze,
    Jof,
    Jer,
    Jok,
    Jmp,
    Call,
    Ret,
    SetFlag,
    Clr,
    Halt,
}

/// What a word is. Keywords carry what they name.
#[derive(Clone, Copy, Debug, PartialEq, Eq, Structural)]
pub enum TokenKind {
    Instruction(Mnemonic),
    Register(Reg),
    Flag(Flag),
    Imm8,
    Imm16,
    Indirection,
    Address,
    Label,
    Text,
    OriginMarker,
    CommentMarker,
    DataMarker,
}

/// A classified word, later placed at an address and, for an instruction, given its opcode.
#[derive(Debug)]
pub struct Token {
    pub kind: TokenKind,
    pub raw: Vec<u8>,
    pub value: Option<u16>,
    pub address: Option<u16>,
    pub opcode: Option<u8>,
    /// The source line it was read from, counted from 1.
    pub line: usize,
}

/// A token as the contracts see it.
pub struct TokenView {
    pub kind: TokenKind,
    pub raw: Seq<u8>,
    pub value: Option<u16>,
    pub address: Option<u16>,
    pub opcode: Option<u8>,
    pub line: usize,
}

impl View for Token {
    type V = TokenView;

    open spec fn view(&self) -> TokenView {
        TokenView {
            kind: self.kind,
            raw: self.raw@,
            value: self.value,
            address: self.address,
            opcode: self.opcode,
            line: self.line,
        }
    }
}

/// An ASCII letter in upper case; other bytes as they are.
pub open spec fn upper(c: u8) -> u8 {
    if 'a' as u8 <= c <= 'z' as u8 {
        (c - 32) as u8
    } else {
        c
    }
}

pub open spec fn upper_seq(s: Seq<u8>) -> Seq<u8> {
    s.map_values(|c: u8| upper(c))
}

/// The characters that bytes decode to as UTF-8, each invalid sequence
/// replaced by U+FFFD.
pub uninterp spec fn utf8_lossy(b: Seq<u8>) -> Seq<char>;

/// Relies on `String::from_utf8_lossy`: it decodes the bytes as UTF-8,
/// replacing invalid sequences, which depends on the bytes alone.
#[verifier::external_body]
fn bytes_to_string(b: &[u8]) -> (r: String)
    ensures
        r@ == utf8_lossy(b@),
{
    String::from_utf8_lossy(b).into_owned()
}

/// The text without leading and trailing Unicode white space.
pub uninterp spec fn trim_of(s: Seq<char>) -> Seq<char>;

/// Relies on `str::trim`: the text with leading and trailing white space
/// taken off, which depends on the characters alone.
#[verifier::external_body]
fn trim_text<'a>(s: &'a str) -> (r: &'a str)
    ensures
        r@ == trim_of(s@),
{
    s.trim()
}

/// The text in upper case, by the Unicode case mapping.
pub uninterp spec fn upper_of(s: Seq<char>) -> Seq<char>;

/// Relies on `str::to_uppercase`: the Unicode upper-case mapping of the
/// text, which depends on the characters alone.
#[verifier::external_body]
fn upper_text(s: &str) -> (r: String)
    ensures
        r@ == upper_of(s@),
{
    s.to_uppercase()
}

impl Token {
    /// The word as text, without surrounding white space, in upper case.
    pub fn formatted_raw(&self) -> (r: String)
        ensures
            r@ == upper_of(trim_of(utf8_lossy(self.raw@))),
    {
        let text = bytes_to_string(self.raw.as_slice());
        let trimmed = trim_text(text.as_str());
        upper_text(trimmed)
    }
}

/// The word with ASCII letters in upper case.
pub fn to_upper(w: &[u8]) -> (r: Vec<u8>)
    ensures
        r@ == upper_seq(w@),
{
    let mut r: Vec<u8> = Vec::new();
    let mut i: usize = 0;
    while i < w.len()
        invariant
            i <= w.len(),
            r@ =~= upper_seq(w@.subrange(0, i as int)),
        decreases w.len() - i,
    {
        let c = w[i];
        let d = if 'a' as u8 <= c && c <= 'z' as u8 {
            c - 32
        } else {
            c
        };
        r.push(d);
        i = i + 1;
        assert(r@ =~= upper_seq(w@.subrange(0, i as int)));
    }
    assert(w@.subrange(0, w.len() as int) =~= w@);
    r
}

} // verus!
