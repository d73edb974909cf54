//! Address assignment, label resolution and the image of the program.
use vstd::prelude::*;
use crate::encoder::{Operand, arity_fits, encode, opcode_of, operand, operand_of, operand_width, takes, width};
use crate::error::AsmError;
use crate::lexer::{copy_bytes, lex_all, lex_lines, lex_source, line_views, lines_of, tviews};
use crate::token::{Token, TokenKind, TokenView};
use vstd::string::StringSliceAdditionalSpecFns;

verus! {

/// The size of the image: every address from `0x0000` to `0xFFFF`.
pub const IMAGE_SIZE: usize = 0x10000;

/// The state of the address assigner between two lines: the program counter,
/// the tokens placed so far, and the labels defined so far.
pub struct Layout {
    pub pc: int,
    pub items: Seq<TokenView>,
    pub labels: Seq<(Seq<u8>, u16)>,
}

pub open spec fn start_layout() -> Layout {
    Layout { pc: 0, items: seq![], labels: seq![] }
}

/// The name that a definition `name:` defines.
pub open spec fn label_name(raw: Seq<u8>) -> Seq<u8> {
    if raw.len() > 0 {
        raw.drop_last()
    } else {
        raw
    }
}

/// The address of the label `name`, if it is defined.
pub open spec fn lookup(labels: Seq<(Seq<u8>, u16)>, name: Seq<u8>) -> Option<u16>
    decreases labels.len(),
{
    if labels.len() == 0 {
        None
    } else if labels.last().0 == name {
        Some(labels.last().1)
    } else {
        lookup(labels.drop_last(), name)
    }
}

pub open spec fn at(t: TokenView, address: int) -> TokenView {
    TokenView { address: Some(address as u16), ..t }
}

/// The bytes that the operands occupy after the opcode.
pub open spec fn operands_size(args: Seq<TokenView>) -> nat
    decreases args.len(),
{
    if args.len() == 0 {
        0
    } else {
        width(operand_of(args[0].kind)) + operands_size(args.drop_first())
    }
}

/// The operands that occupy bytes, each placed after the one before, the first at `address`.
pub open spec fn placed_operands(args: Seq<TokenView>, address: int) -> Seq<TokenView>
    decreases args.len(),
{
    if args.len() == 0 {
        seq![]
    } else {
        let w = width(operand_of(args[0].kind));
        let rest = placed_operands(args.drop_first(), address + w);
        if w > 0 {
            seq![at(args[0], address)] + rest
        } else {
            rest
        }
    }
}

pub open spec fn operands_of(args: Seq<TokenView>) -> Seq<Operand> {
    args.map_values(|t: TokenView| operand_of(t.kind))
}

/// An instruction line: its opcode at the program counter, its operand bytes after it.
pub open spec fn place_instruction(st: Layout, toks: Seq<TokenView>, line: usize) -> Result<Layout, AsmError>
    recommends
        toks.len() > 0,
        toks[0].kind is Instruction,
{
    let m = toks[0].kind->Instruction_0;
    let args = toks.drop_first();
    if !takes(m, args.len()) {
        Err(AsmError::SyntaxError { line })
    } else {
        match opcode_of(m, operands_of(args)) {
            None => Err(AsmError::BadOperand { line }),
            Some(op) => {
                let size = 1 + operands_size(args);
                if st.pc + size > 0x10000 {
                    Err(AsmError::AddressOverflow { line })
                } else {
                    Ok(
                        Layout {
                            pc: st.pc + size,
                            items: st.items.push(
                                TokenView { address: Some(st.pc as u16), opcode: Some(op), ..toks[0] },
                            ) + placed_operands(args, st.pc + 1),
                            labels: st.labels,
                        },
                    )
                }
            },
        }
    }
}

pub open spec fn is_quote(c: u8) -> bool {
    c == '"' as u8
}

/// The bytes of a word with its double quotes taken out.
pub open spec fn unquoted(s: Seq<u8>) -> Seq<u8>
    decreases s.len(),
{
    if s.len() == 0 {
        seq![]
    } else if is_quote(s.last()) {
        unquoted(s.drop_last())
    } else {
        unquoted(s.drop_last()).push(s.last())
    }
}

/// One 8-bit token for each byte, at consecutive addresses from `address`.
pub open spec fn byte_tokens(bytes: Seq<u8>, address: int, line: usize) -> Seq<TokenView> {
    Seq::new(
        bytes.len(),
        |i: int|
            TokenView {
                kind: TokenKind::Imm8,
                raw: seq![bytes[i]],
                value: Some(bytes[i] as u16),
                address: Some((address + i) as u16),
                opcode: None,
                line,
            },
    )
}

/// Progress through the items of a data line: the program counter, the tokens
/// placed, and whether a quoted string is open.
pub struct DataWalk {
    pub pc: int,
    pub items: Seq<TokenView>,
    pub quoted: bool,
}

/// The bytes that a text item of a data line stands for. A word that opens a
/// quoted string which goes on in a later item is followed by one space.
pub open spec fn text_bytes(quoted: bool, raw: Seq<u8>, more: bool) -> (Seq<u8>, bool) {
    let opens = !quoted && raw.len() > 0 && is_quote(raw[0]) && !(raw.len() >= 2 && is_quote(raw.last()));
    let closes = quoted && raw.len() > 0 && is_quote(raw.last());
    let still = (quoted && !closes) || opens;
    (if still && more { unquoted(raw).push(' ' as u8) } else { unquoted(raw) }, still)
}

/// One item of a data line; `more` tells whether another item follows it.
/// Text gives its bytes, an 8-bit or 16-bit immediate its value, also inside
/// a quoted string; any other token is a syntax error.
pub open spec fn data_step(d: DataWalk, t: TokenView, more: bool, line: usize) -> Result<DataWalk, AsmError> {
    if t.kind == TokenKind::Text {
        let (bytes, still) = text_bytes(d.quoted, t.raw, more);
        if d.pc + bytes.len() > 0x10000 {
            Err(AsmError::AddressOverflow { line })
        } else {
            Ok(DataWalk { pc: d.pc + bytes.len(), items: d.items + byte_tokens(bytes, d.pc, line), quoted: still })
        }
    } else if t.kind == TokenKind::Imm8 || t.kind == TokenKind::Imm16 {
        let w = width(operand_of(t.kind));
        if d.pc + w > 0x10000 {
            Err(AsmError::AddressOverflow { line })
        } else {
            Ok(DataWalk { pc: d.pc + w, items: d.items.push(at(t, d.pc)), quoted: d.quoted })
        }
    } else {
        Err(AsmError::SyntaxError { line })
    }
}

/// The first `k` items of a data line placed from `pc`.
pub open spec fn data_walk(pc: int, items: Seq<TokenView>, k: int, line: usize) -> Result<DataWalk, AsmError>
    decreases k,
{
    if k <= 0 {
        Ok(DataWalk { pc, items: seq![], quoted: false })
    } else {
        match data_walk(pc, items, k - 1, line) {
            Ok(d) => data_step(d, items[k - 1], k < items.len(), line),
            Err(e) => Err(e),
        }
    }
}

/// A data line: its items placed byte after byte from the program counter.
pub open spec fn place_data(st: Layout, toks: Seq<TokenView>, line: usize) -> Result<Layout, AsmError> {
    let items = toks.drop_first();
    match data_walk(st.pc, items, items.len() as int, line) {
        Ok(d) => Ok(Layout { pc: d.pc, items: st.items + d.items, labels: st.labels }),
        Err(e) => Err(e),
    }
}

/// A label definition binds its name to the program counter.
pub open spec fn place_label(st: Layout, toks: Seq<TokenView>, line: usize) -> Result<Layout, AsmError> {
    let name = label_name(toks[0].raw);
    if toks.len() != 1 {
        Err(AsmError::SyntaxError { line })
    } else if lookup(st.labels, name) is Some {
        Err(AsmError::DuplicateLabel { line })
    } else if st.pc > 0xFFFF {
        Err(AsmError::AddressOverflow { line })
    } else {
        Ok(Layout { labels: st.labels.push((name, st.pc as u16)), ..st })
    }
}

/// An origin directive `> &0xHHHH` moves the program counter.
pub open spec fn place_origin(st: Layout, toks: Seq<TokenView>, line: usize) -> Result<Layout, AsmError> {
    if toks.len() == 2 && toks[1].kind == TokenKind::Address && toks[1].value is Some {
        Ok(Layout { pc: toks[1].value->0 as int, ..st })
    } else {
        Err(AsmError::SyntaxError { line })
    }
}

/// One line, dispatched on its first token. Blank lines and comments change nothing.
pub open spec fn place_line(st: Layout, toks: Seq<TokenView>, line: usize) -> Result<Layout, AsmError> {
    if toks.len() == 0 {
        Ok(st)
    } else {
        match toks[0].kind {
            TokenKind::Instruction(_) => place_instruction(st, toks, line),
            TokenKind::Label => place_label(st, toks, line),
            TokenKind::OriginMarker => place_origin(st, toks, line),
            TokenKind::DataMarker => place_data(st, toks, line),
            _ => Err(AsmError::SyntaxError { line }),
        }
    }
}

/// The lines walked in order from address `0x0000`; the first error stops the walk.
pub open spec fn layout(lines: Seq<Seq<TokenView>>) -> Result<Layout, AsmError>
    decreases lines.len(),
{
    if lines.len() == 0 {
        Ok(start_layout())
    } else {
        match layout(lines.drop_last()) {
            Ok(st) => place_line(st, lines.last(), lines.len() as usize),
            Err(e) => Err(e),
        }
    }
}

/// The label that a token refers to: a bare word, a starred `*name`, or `name:` as an operand.
pub open spec fn reference_name(t: TokenView) -> Option<Seq<u8>> {
    match t.kind {
        TokenKind::Text => Some(t.raw),
        TokenKind::Imm16 => if t.raw.len() > 0 && t.raw[0] == '*' as u8 {
            Some(t.raw.drop_first())
        } else {
            None
        },
        TokenKind::Label => Some(label_name(t.raw)),
        _ => None,
    }
}

/// A reference takes the address of its label.
pub open spec fn resolve_token(t: TokenView, labels: Seq<(Seq<u8>, u16)>) -> Result<TokenView, AsmError> {
    match reference_name(t) {
        None => Ok(t),
        Some(name) => match lookup(labels, name) {
            Some(a) => Ok(TokenView { kind: TokenKind::Label, value: Some(a), opcode: None, ..t }),
            None => Err(AsmError::UnresolvedReference { line: t.line }),
        },
    }
}

pub open spec fn resolve_all(items: Seq<TokenView>, labels: Seq<(Seq<u8>, u16)>) -> Result<Seq<TokenView>, AsmError>
    decreases items.len(),
{
    if items.len() == 0 {
        Ok(seq![])
    } else {
        match resolve_all(items.drop_last(), labels) {
            Ok(done) => match resolve_token(items.last(), labels) {
                Ok(t) => Ok(done.push(t)),
                Err(e) => Err(e),
            },
            Err(e) => Err(e),
        }
    }
}

pub open spec fn blank_image() -> Seq<u8> {
    Seq::new(IMAGE_SIZE as nat, |i: int| 0u8)
}

/// The bytes that a placed token writes: its opcode; the low byte of an 8-bit
/// value; the high then the low byte of a 16-bit value.
pub open spec fn write_token(img: Seq<u8>, t: TokenView) -> Seq<u8> {
    match t.address {
        None => img,
        Some(a) => if t.opcode is Some {
            img.update(a as int, t.opcode->0)
        } else if t.value is Some {
            let v = t.value->0;
            if t.kind == TokenKind::Imm8 {
                img.update(a as int, (v % 256) as u8)
            } else if (t.kind == TokenKind::Imm16 || t.kind == TokenKind::Address || t.kind
                == TokenKind::Label) && a + 1 < img.len() {
                img.update(a as int, (v / 256) as u8).update(a + 1, (v % 256) as u8)
            } else {
                img
            }
        } else {
            img
        },
    }
}

/// The image with the tokens written in order over zeros.
pub open spec fn emit_all(items: Seq<TokenView>) -> Seq<u8>
    decreases items.len(),
{
    if items.len() == 0 {
        blank_image()
    } else {
        write_token(emit_all(items.drop_last()), items.last())
    }
}

/// Lexed lines to the image: addresses assigned, references resolved, bytes written.
pub open spec fn assemble_tokens(lines: Seq<Seq<TokenView>>) -> Result<Seq<u8>, AsmError> {
    match layout(lines) {
        Ok(st) => match resolve_all(st.items, st.labels) {
            Ok(items) => Ok(emit_all(items)),
            Err(e) => Err(e),
        },
        Err(e) => Err(e),
    }
}

/// The source split in lines, assembled.
pub open spec fn assemble_lines(lines: Seq<Seq<u8>>) -> Result<Seq<u8>, AsmError> {
    match lex_lines(lines) {
        Ok(ts) => assemble_tokens(ts),
        Err((k, j)) => Err(AsmError::BadNumericLiteral { line: k as usize, word: j as usize }),
    }
}

/// What assembling a source gives.
pub open spec fn assemble_source(src: Seq<u8>) -> Result<Seq<u8>, AsmError> {
    assemble_lines(lines_of(src))
}

/// The tokens of a source that assembles, placed at their addresses.
pub open spec fn placed_tokens(src: Seq<u8>) -> Seq<TokenView> {
    layout(lex_lines(lines_of(src))->Ok_0)->Ok_0.items
}

/// The labels of a source that assembles, with their addresses.
pub open spec fn defined_labels(src: Seq<u8>) -> Seq<(Seq<u8>, u16)> {
    layout(lex_lines(lines_of(src))->Ok_0)->Ok_0.labels
}

/// The placed tokens of a source that assembles, with references resolved.
pub open spec fn resolved_tokens(src: Seq<u8>) -> Seq<TokenView> {
    resolve_all(placed_tokens(src), defined_labels(src))->Ok_0
}

pub open spec fn label_views(v: Seq<(Vec<u8>, u16)>) -> Seq<(Seq<u8>, u16)> {
    v.map_values(|p: (Vec<u8>, u16)| (p.0@, p.1))
}

/// The address assigner's state, as it runs.
pub struct Placement {
    pub pc: u32,
    pub items: Vec<Token>,
    pub labels: Vec<(Vec<u8>, u16)>,
}

impl View for Placement {
    type V = Layout;

    open spec fn view(&self) -> Layout {
        Layout { pc: self.pc as int, items: tviews(self.items@), labels: label_views(self.labels@) }
    }
}

/// A copy of a token.
pub fn copy_token(t: &Token) -> (r: Token)
    ensures
        r@ == t@,
{
    let raw = copy_bytes(t.raw.as_slice(), 0, t.raw.len());
    assert(raw@ =~= t.raw@);
    Token { kind: t.kind, raw, value: t.value, address: t.address, opcode: t.opcode, line: t.line }
}

/// The address of the label `name`, if it is defined.
pub fn find_label(labels: &Vec<(Vec<u8>, u16)>, name: &[u8]) -> (r: Option<u16>)
    ensures
        r == lookup(label_views(labels@), name@),
{
    let ghost all = label_views(labels@);
    let mut i: usize = labels.len();
    assert(all.subrange(0, i as int) =~= all);
    while i > 0
        invariant
            i <= labels.len(),
            all == label_views(labels@),
            lookup(all, name@) == lookup(all.subrange(0, i as int), name@),
        decreases i,
    {
        let ghost pre = all.subrange(0, i as int);
        assert(pre.drop_last() =~= all.subrange(0, i - 1));
        assert(pre.last() == (labels@[i - 1].0@, labels@[i - 1].1));
        if crate::lexer::same_bytes(labels[i - 1].0.as_slice(), name) {
            return Some(labels[i - 1].1);
        }
        i = i - 1;
    }
    None
}

proof fn lemma_operands_step(args: Seq<TokenView>, i: int, address: int)
    requires
        0 <= i < args.len(),
    ensures
        args.subrange(i, args.len() as int).drop_first() =~= args.subrange(i + 1, args.len() as int),
        operands_size(args.subrange(i, args.len() as int)) == width(operand_of(args[i].kind))
            + operands_size(args.subrange(i + 1, args.len() as int)),
        placed_operands(args.subrange(i, args.len() as int), address) == if width(operand_of(args[i].kind)) > 0 {
            seq![at(args[i], address)] + placed_operands(
                args.subrange(i + 1, args.len() as int),
                address + width(operand_of(args[i].kind)),
            )
        } else {
            placed_operands(args.subrange(i + 1, args.len() as int), address + width(operand_of(args[i].kind)))
        },
{
    assert(args.subrange(i, args.len() as int).drop_first() =~= args.subrange(i + 1, args.len() as int));
}

impl Placement {
    /// Places an instruction line whose first token is the mnemonic `m`.
    pub fn place_instruction(&mut self, toks: &Vec<Token>, m: crate::token::Mnemonic, line: usize) -> (r: Result<(), AsmError>)
        requires
            old(self).pc <= 0x10000,
            toks@.len() > 0,
            toks@[0].kind == TokenKind::Instruction(m),
        ensures
            match r {
                Ok(()) => place_instruction(old(self)@, tviews(toks@), line) == Ok::<Layout, AsmError>(final(self)@)
                    && final(self).pc <= 0x10000,
                Err(e) => place_instruction(old(self)@, tviews(toks@), line) == Err::<Layout, AsmError>(e)
                    && final(self)@ == old(self)@,
            },
    {
        let ghost all = tviews(toks@);
        let ghost args = all.drop_first();
        assert(args.len() == toks@.len() - 1);
        assert(forall|k: int| 0 <= k < args.len() ==> args[k] == toks@[k + 1]@);
        let n = toks.len() - 1;
        if !arity_fits(m, n) {
            return Err(AsmError::SyntaxError { line });
        }
        let mut ops: Vec<Operand> = Vec::new();
        let mut size: u32 = 1;
        let mut i: usize = 0;
        assert(args.subrange(0, args.len() as int) =~= args);
        while i < n
            invariant
                i <= n == args.len(),
                toks@.len() == n + 1,
                n <= 2,
                args == tviews(toks@).drop_first(),
                forall|k: int| 0 <= k < args.len() ==> args[k] == toks@[k + 1]@,
                ops@ =~= operands_of(args).subrange(0, i as int),
                size + operands_size(args.subrange(i as int, n as int)) == 1 + operands_size(args),
                size <= 1 + 2 * i,
            decreases n - i,
        {
            proof { lemma_operands_step(args, i as int, 0); }
            let o = operand(toks[i + 1].kind);
            ops.push(o);
            size = size + operand_width(o) as u32;
            i = i + 1;
        }
        assert(args.subrange(n as int, n as int) =~= Seq::<TokenView>::empty());
        assert(operands_size(args.subrange(n as int, n as int)) == 0);
        let op = match encode(m, ops.as_slice()) {
            None => return Err(AsmError::BadOperand { line }),
            Some(op) => op,
        };
        if self.pc + size > 0x10000 {
            return Err(AsmError::AddressOverflow { line });
        }
        let ghost st = self@;
        let start = self.pc;
        let first = copy_token(&toks[0]);
        self.items.push(Token { address: Some(start as u16), opcode: Some(op), ..first });
        let ghost base = tviews(self.items@);
        assert(base =~= st.items.push(TokenView { address: Some(st.pc as u16), opcode: Some(op), ..toks@[0]@ }));
        let mut address: u32 = start + 1;
        let mut i: usize = 0;
        while i < n
            invariant
                i <= n == args.len(),
                toks@.len() == n + 1,
                n <= 2,
                args == tviews(toks@).drop_first(),
                forall|k: int| 0 <= k < args.len() ==> args[k] == toks@[k + 1]@,
                start == st.pc,
                label_views(self.labels@) == st.labels,
                size == 1 + operands_size(args),
                address <= start + size,
                address + operands_size(args.subrange(i as int, n as int)) == start + 1 + operands_size(args),
                start + 1 + operands_size(args) <= 0x10000,
                base + placed_operands(args, start + 1) == tviews(self.items@) + placed_operands(
                    args.subrange(i as int, n as int),
                    address as int,
                ),
            decreases n - i,
        {
            proof { lemma_operands_step(args, i as int, address as int); }
            let w = operand_width(operand(toks[i + 1].kind));
            if w > 0 {
                let t = copy_token(&toks[i + 1]);
                let ghost before = tviews(self.items@);
                self.items.push(Token { address: Some(address as u16), ..t });
                assert(tviews(self.items@) =~= before.push(at(args[i as int], address as int)));
                assert(before + (seq![at(args[i as int], address as int)] + placed_operands(
                    args.subrange(i + 1, n as int),
                    address + w,
                )) =~= before.push(at(args[i as int], address as int)) + placed_operands(
                    args.subrange(i + 1, n as int),
                    address + w,
                ));
            }
            address = address + w as u32;
            i = i + 1;
        }
        assert(placed_operands(args.subrange(n as int, n as int), address as int) =~= Seq::<TokenView>::empty());
        assert(tviews(self.items@) + Seq::<TokenView>::empty() =~= tviews(self.items@));
        self.pc = start + size;
        assert(label_views(self.labels@) == st.labels);
        assert(tviews(self.items@) == base + placed_operands(args, start + 1));
        Ok(())
    }
}

/// The bytes of a word without its double quotes.
pub fn unquote(raw: &[u8]) -> (r: Vec<u8>)
    ensures
        r@ == unquoted(raw@),
{
    let mut r: Vec<u8> = Vec::new();
    let mut i: usize = 0;
    assert(raw@.subrange(0, 0) =~= Seq::<u8>::empty());
    while i < raw.len()
        invariant
            i <= raw.len(),
            r@ == unquoted(raw@.subrange(0, i as int)),
        decreases raw.len() - i,
    {
        assert(raw@.subrange(0, i + 1).drop_last() =~= raw@.subrange(0, i as int));
        if raw[i] != '"' as u8 {
            r.push(raw[i]);
        }
        i = i + 1;
    }
    assert(raw@.subrange(0, i as int) =~= raw@);
    r
}

/// The bytes that a text item of a data line stands for, and whether a quoted string is still open after it.
pub fn text_item(quoted: bool, raw: &[u8], more: bool) -> (r: (Vec<u8>, bool))
    ensures
        (r.0@, r.1) == text_bytes(quoted, raw@, more),
{
    let n = raw.len();
    let opens = !quoted && n > 0 && raw[0] == '"' as u8 && !(n >= 2 && raw[n - 1] == '"' as u8);
    let closes = quoted && n > 0 && raw[n - 1] == '"' as u8;
    let still = (quoted && !closes) || opens;
    let mut bytes = unquote(raw);
    if still && more {
        bytes.push(' ' as u8);
    }
    (bytes, still)
}

proof fn lemma_data_walk_failed(pc: int, items: Seq<TokenView>, k: int, n: int, line: usize)
    requires
        0 <= k <= n,
        data_walk(pc, items, k, line) is Err,
    ensures
        data_walk(pc, items, n, line) == data_walk(pc, items, k, line),
    decreases n,
{
    if n > k {
        lemma_data_walk_failed(pc, items, k, n - 1, line);
    }
}

impl Placement {
    /// Places a data line whose first token is `$`.
    pub fn place_data(&mut self, toks: &Vec<Token>, line: usize) -> (r: Result<(), AsmError>)
        requires
            old(self).pc <= 0x10000,
            toks@.len() > 0,
        ensures
            match r {
                Ok(()) => place_data(old(self)@, tviews(toks@), line) == Ok::<Layout, AsmError>(final(self)@)
                    && final(self).pc <= 0x10000,
                Err(e) => place_data(old(self)@, tviews(toks@), line) == Err::<Layout, AsmError>(e)
                    && final(self)@ == old(self)@,
            },
    {
        let ghost st = self@;
        let ghost items = tviews(toks@).drop_first();
        let ghost mut walked: Seq<TokenView> = seq![];
        let mut out: Vec<Token> = Vec::new();
        assert(tviews(out@) =~= walked);
        let mut pc: u32 = self.pc;
        let mut quoted = false;
        let mut i: usize = 1;
        while i < toks.len()
            invariant
                1 <= i <= toks.len(),
                st == old(self)@,
                self@ == st,
                items == tviews(toks@).drop_first(),
                pc <= 0x10000,
                tviews(out@) == walked,
                data_walk(st.pc, items, i - 1, line) == Ok::<DataWalk, AsmError>(
                    DataWalk { pc: pc as int, items: walked, quoted },
                ),
            decreases toks.len() - i,
        {
            let ghost d = DataWalk { pc: pc as int, items: walked, quoted };
            assert(items[i - 1] == toks@[i as int]@);
            let more = i + 1 < toks.len();
            let t = &toks[i];
            assert(data_walk(st.pc, items, i as int, line) == data_step(d, items[i - 1], more, line));
            if t.kind == TokenKind::Text {
                let (bytes, still) = text_item(quoted, t.raw.as_slice(), more);
                if bytes.len() > (0x10000 - pc) as usize {
                    proof { lemma_data_walk_failed(st.pc, items, i as int, items.len() as int, line); }
                    return Err(AsmError::AddressOverflow { line });
                }
                let ghost base = tviews(out@);
                let ghost placed = byte_tokens(bytes@, pc as int, line);
                let mut j: usize = 0;
                assert(base =~= base + placed.subrange(0, 0));
                while j < bytes.len()
                    invariant
                        j <= bytes.len(),
                        pc + bytes.len() <= 0x10000,
                        placed == byte_tokens(bytes@, pc as int, line),
                        self@ == st,
                        tviews(out@) == base + placed.subrange(0, j as int),
                    decreases bytes.len() - j,
                {
                    let b = bytes[j];
                    let mut raw: Vec<u8> = Vec::new();
                    raw.push(b);
                    let tok = Token {
                        kind: TokenKind::Imm8,
                        raw,
                        value: Some(b as u16),
                        address: Some((pc + j as u32) as u16),
                        opcode: None,
                        line,
                    };
                    assert(tok@ == placed[j as int]);
                    let ghost before = tviews(out@);
                    out.push(tok);
                    assert(tviews(out@) =~= before.push(tok@));
                    assert(placed.subrange(0, j + 1) =~= placed.subrange(0, j as int).push(placed[j as int]));
                    assert(tviews(out@) =~= base + placed.subrange(0, j + 1));
                    j = j + 1;
                }
                assert(placed.subrange(0, j as int) =~= placed);
                proof {
                    walked = walked + placed;
                }
                assert(tviews(out@) =~= walked);
                pc = pc + bytes.len() as u32;
                quoted = still;
            } else if t.kind == TokenKind::Imm8 || t.kind == TokenKind::Imm16 {
                let w: u32 = if t.kind == TokenKind::Imm8 {
                    1
                } else {
                    2
                };
                if pc + w > 0x10000 {
                    proof { lemma_data_walk_failed(st.pc, items, i as int, items.len() as int, line); }
                    return Err(AsmError::AddressOverflow { line });
                }
                let c = copy_token(t);
                let ghost before = tviews(out@);
                out.push(Token { address: Some(pc as u16), ..c });
                proof {
                    walked = walked.push(at(items[i - 1], pc as int));
                }
                assert(tviews(out@) =~= before.push(at(items[i - 1], pc as int)));
                pc = pc + w;
            } else {
                proof { lemma_data_walk_failed(st.pc, items, i as int, items.len() as int, line); }
                return Err(AsmError::SyntaxError { line });
            }
            i = i + 1;
        }
        let ghost before = tviews(self.items@);
        self.items.append(&mut out);
        assert(tviews(self.items@) =~= before + walked);
        self.pc = pc;
        Ok(())
    }
}

impl Placement {
    /// The state before the first line: address `0x0000`, nothing placed, no label.
    pub fn new() -> (r: Placement)
        ensures
            r@ == start_layout(),
    {
        let r = Placement { pc: 0, items: Vec::new(), labels: Vec::new() };
        assert(r@.items =~= Seq::<TokenView>::empty());
        assert(r@.labels =~= Seq::<(Seq<u8>, u16)>::empty());
        r
    }

    /// Places a label definition.
    pub fn place_label(&mut self, toks: &Vec<Token>, line: usize) -> (r: Result<(), AsmError>)
        requires
            old(self).pc <= 0x10000,
            toks@.len() > 0,
        ensures
            match r {
                Ok(()) => place_label(old(self)@, tviews(toks@), line) == Ok::<Layout, AsmError>(final(self)@)
                    && final(self).pc <= 0x10000,
                Err(e) => place_label(old(self)@, tviews(toks@), line) == Err::<Layout, AsmError>(e)
                    && final(self)@ == old(self)@,
            },
    {
        let raw = &toks[0].raw;
        let end = if raw.len() > 0 {
            raw.len() - 1
        } else {
            0
        };
        let name = copy_bytes(raw.as_slice(), 0, end);
        assert(name@ =~= label_name(toks@[0].raw@));
        if toks.len() != 1 {
            return Err(AsmError::SyntaxError { line });
        }
        if find_label(&self.labels, name.as_slice()).is_some() {
            return Err(AsmError::DuplicateLabel { line });
        }
        if self.pc > 0xFFFF {
            return Err(AsmError::AddressOverflow { line });
        }
        let ghost before = label_views(self.labels@);
        let pc = self.pc as u16;
        self.labels.push((name, pc));
        assert(label_views(self.labels@) =~= before.push((name@, pc)));
        Ok(())
    }

    /// Places an origin directive.
    pub fn place_origin(&mut self, toks: &Vec<Token>, line: usize) -> (r: Result<(), AsmError>)
        requires
            old(self).pc <= 0x10000,
        ensures
            match r {
                Ok(()) => place_origin(old(self)@, tviews(toks@), line) == Ok::<Layout, AsmError>(final(self)@)
                    && final(self).pc <= 0x10000,
                Err(e) => place_origin(old(self)@, tviews(toks@), line) == Err::<Layout, AsmError>(e)
                    && final(self)@ == old(self)@,
            },
    {
        if toks.len() == 2 && toks[1].kind == TokenKind::Address {
            if let Some(v) = toks[1].value {
                self.pc = v as u32;
                return Ok(());
            }
        }
        Err(AsmError::SyntaxError { line })
    }

    /// Places one line, by the kind of its first token.
    pub fn place_line(&mut self, toks: &Vec<Token>, line: usize) -> (r: Result<(), AsmError>)
        requires
            old(self).pc <= 0x10000,
        ensures
            match r {
                Ok(()) => place_line(old(self)@, tviews(toks@), line) == Ok::<Layout, AsmError>(final(self)@)
                    && final(self).pc <= 0x10000,
                Err(e) => place_line(old(self)@, tviews(toks@), line) == Err::<Layout, AsmError>(e)
                    && final(self)@ == old(self)@,
            },
    {
        if toks.len() == 0 {
            return Ok(());
        }
        match toks[0].kind {
            TokenKind::Instruction(m) => self.place_instruction(toks, m, line),
            TokenKind::Label => self.place_label(toks, line),
            TokenKind::OriginMarker => self.place_origin(toks, line),
            TokenKind::DataMarker => self.place_data(toks, line),
            _ => Err(AsmError::SyntaxError { line }),
        }
    }
}

pub proof fn lemma_layout_failed(lines: Seq<Seq<TokenView>>, k: int)
    requires
        0 <= k <= lines.len(),
        layout(lines.subrange(0, k)) is Err,
    ensures
        layout(lines) == layout(lines.subrange(0, k)),
    decreases lines.len(),
{
    if k == lines.len() {
        assert(lines.subrange(0, k) =~= lines);
    } else {
        assert(lines.drop_last().subrange(0, k) =~= lines.subrange(0, k));
        lemma_layout_failed(lines.drop_last(), k);
    }
}

/// Walks the lexed lines in order, assigning addresses and recording labels.
pub fn assign_addresses(lines: &Vec<Vec<Token>>) -> (r: Result<Placement, AsmError>)
    ensures
        match r {
            Ok(p) => layout(line_views(lines@)) == Ok::<Layout, AsmError>(p@),
            Err(e) => layout(line_views(lines@)) == Err::<Layout, AsmError>(e),
        },
{
    let ghost ls = line_views(lines@);
    let mut p = Placement::new();
    let mut k: usize = 0;
    assert(ls.subrange(0, 0) =~= Seq::<Seq<TokenView>>::empty());
    while k < lines.len()
        invariant
            k <= lines.len(),
            ls == line_views(lines@),
            p.pc <= 0x10000,
            layout(ls.subrange(0, k as int)) == Ok::<Layout, AsmError>(p@),
        decreases lines.len() - k,
    {
        let ghost cur = ls.subrange(0, k + 1);
        assert(cur.drop_last() =~= ls.subrange(0, k as int));
        assert(cur.last() == tviews(lines@[k as int]@));
        match p.place_line(&lines[k], k + 1) {
            Ok(()) => {},
            Err(e) => {
                proof { lemma_layout_failed(ls, k + 1); }
                return Err(e);
            },
        }
        k = k + 1;
    }
    assert(ls.subrange(0, k as int) =~= ls);
    Ok(p)
}

/// The label name that a token refers to, if it is a reference.
pub fn reference(t: &Token) -> (r: Option<Vec<u8>>)
    ensures
        match r {
            Some(v) => reference_name(t@) == Some(v@),
            None => reference_name(t@) is None,
        },
{
    let raw = t.raw.as_slice();
    match t.kind {
        TokenKind::Text => {
            let v = copy_bytes(raw, 0, raw.len());
            assert(v@ =~= raw@);
            Some(v)
        },
        TokenKind::Imm16 => {
            if raw.len() > 0 && raw[0] == '*' as u8 {
                let v = copy_bytes(raw, 1, raw.len());
                assert(v@ =~= raw@.drop_first());
                Some(v)
            } else {
                None
            }
        },
        TokenKind::Label => {
            let end = if raw.len() > 0 {
                raw.len() - 1
            } else {
                0
            };
            let v = copy_bytes(raw, 0, end);
            assert(v@ =~= label_name(raw@));
            Some(v)
        },
        _ => None,
    }
}

proof fn lemma_resolve_failed(items: Seq<TokenView>, labels: Seq<(Seq<u8>, u16)>, k: int)
    requires
        0 <= k <= items.len(),
        resolve_all(items.subrange(0, k), labels) is Err,
    ensures
        resolve_all(items, labels) == resolve_all(items.subrange(0, k), labels),
    decreases items.len(),
{
    if k == items.len() {
        assert(items.subrange(0, k) =~= items);
    } else {
        assert(items.drop_last().subrange(0, k) =~= items.subrange(0, k));
        lemma_resolve_failed(items.drop_last(), labels, k);
    }
}

/// Gives every reference the address of its label.
pub fn resolve_items(items: &Vec<Token>, labels: &Vec<(Vec<u8>, u16)>) -> (r: Result<Vec<Token>, AsmError>)
    ensures
        match r {
            Ok(v) => resolve_all(tviews(items@), label_views(labels@)) == Ok::<Seq<TokenView>, AsmError>(
                tviews(v@),
            ),
            Err(e) => resolve_all(tviews(items@), label_views(labels@)) == Err::<Seq<TokenView>, AsmError>(e),
        },
{
    let ghost all = tviews(items@);
    let ghost ls = label_views(labels@);
    let mut out: Vec<Token> = Vec::new();
    let mut i: usize = 0;
    assert(all.subrange(0, 0) =~= Seq::<TokenView>::empty());
    assert(tviews(out@) =~= Seq::<TokenView>::empty());
    while i < items.len()
        invariant
            i <= items.len(),
            all == tviews(items@),
            ls == label_views(labels@),
            resolve_all(all.subrange(0, i as int), ls) == Ok::<Seq<TokenView>, AsmError>(tviews(out@)),
        decreases items.len() - i,
    {
        let ghost cur = all.subrange(0, i + 1);
        assert(cur.drop_last() =~= all.subrange(0, i as int));
        assert(cur.last() == items@[i as int]@);
        let t = &items[i];
        let c = copy_token(t);
        let resolved = match reference(t) {
            None => c,
            Some(name) => match find_label(labels, name.as_slice()) {
                Some(a) => Token { kind: TokenKind::Label, value: Some(a), opcode: None, ..c },
                None => {
                    proof { lemma_resolve_failed(all, ls, i + 1); }
                    return Err(AsmError::UnresolvedReference { line: t.line });
                },
            },
        };
        let ghost before = tviews(out@);
        out.push(resolved);
        assert(tviews(out@) =~= before.push(resolved@));
        i = i + 1;
    }
    assert(all.subrange(0, i as int) =~= all);
    Ok(out)
}

pub proof fn lemma_emit_len(items: Seq<TokenView>)
    ensures
        emit_all(items).len() == IMAGE_SIZE,
    decreases items.len(),
{
    if items.len() > 0 {
        lemma_emit_len(items.drop_last());
    }
}

/// Writes the tokens, in order, over an image of zeros.
pub fn emit_image(items: &Vec<Token>) -> (r: Vec<u8>)
    ensures
        r@ == emit_all(tviews(items@)),
        r@.len() == IMAGE_SIZE,
{
    let mut img: Vec<u8> = Vec::new();
    let mut i: usize = 0;
    while i < IMAGE_SIZE
        invariant
            i <= IMAGE_SIZE,
            img@ =~= Seq::new(i as nat, |k: int| 0u8),
        decreases IMAGE_SIZE - i,
    {
        img.push(0);
        i = i + 1;
    }
    assert(img@ =~= blank_image());
    let ghost all = tviews(items@);
    let mut i: usize = 0;
    assert(all.subrange(0, 0) =~= Seq::<TokenView>::empty());
    while i < items.len()
        invariant
            i <= items.len(),
            all == tviews(items@),
            img@ == emit_all(all.subrange(0, i as int)),
            img@.len() == IMAGE_SIZE,
        decreases items.len() - i,
    {
        let ghost cur = all.subrange(0, i + 1);
        assert(cur.drop_last() =~= all.subrange(0, i as int));
        assert(cur.last() == items@[i as int]@);
        let t = &items[i];
        if let Some(a) = t.address {
            let a = a as usize;
            if let Some(op) = t.opcode {
                img.set(a, op);
            } else if let Some(v) = t.value {
                if t.kind == TokenKind::Imm8 {
                    img.set(a, (v % 256) as u8);
                } else if (t.kind == TokenKind::Imm16 || t.kind == TokenKind::Address || t.kind
                    == TokenKind::Label) && a + 1 < img.len() {
                    img.set(a, (v / 256) as u8);
                    img.set(a + 1, (v % 256) as u8);
                }
            }
        }
        i = i + 1;
    }
    assert(all.subrange(0, i as int) =~= all);
    img
}

/// Assembles one source text into a 64 KiB image.
pub struct Assembler {
    input: Vec<u8>,
    tokens: Vec<Vec<Token>>,
    parsed_tokens: Vec<Token>,
}

impl Assembler {
    /// The bytes of the source text.
    pub closed spec fn source(&self) -> Seq<u8> {
        self.input@
    }

    /// The tokens that the last successful assembly placed.
    pub closed spec fn placed(&self) -> Seq<TokenView> {
        tviews(self.parsed_tokens@)
    }

    /// The tokens of each line, as the last assembly that got past lexing read them.
    pub closed spec fn lexed(&self) -> Seq<Seq<TokenView>> {
        line_views(self.tokens@)
    }

    /// An assembler for the given source text.
    pub fn new(input: &str) -> (r: Assembler)
        ensures
            r.source() == input.spec_bytes(),
            r.placed() == Seq::<TokenView>::empty(),
            r.lexed() == Seq::<Seq<TokenView>>::empty(),
    {
        let bytes = input.as_bytes();
        let copy = copy_bytes(bytes, 0, bytes.len());
        assert(copy@ =~= bytes@);
        let r = Assembler { input: copy, tokens: Vec::new(), parsed_tokens: Vec::new() };
        assert(r.placed() =~= Seq::<TokenView>::empty());
        assert(r.lexed() =~= Seq::<Seq<TokenView>>::empty());
        r
    }

    /// Lexes the source, assigns addresses, resolves labels and writes the image.
    /// The image has `0x10000` bytes; what no token writes stays zero.
    pub fn assemble(&mut self) -> (r: Result<Vec<u8>, AsmError>)
        ensures
            final(self).source() == old(self).source(),
            match r {
                Ok(img) => assemble_source(old(self).source()) == Ok::<Seq<u8>, AsmError>(img@)
                    && img@.len() == IMAGE_SIZE && final(self).placed() == resolved_tokens(old(self).source()),
                Err(e) => assemble_source(old(self).source()) == Err::<Seq<u8>, AsmError>(e)
                    && final(self).placed() == old(self).placed(),
            },
            lex_source(old(self).source()) is Ok ==> final(self).lexed() == lex_source(old(self).source())->Ok_0,
            lex_source(old(self).source()) is Err ==> final(self).lexed() == old(self).lexed(),
    {
        let lexed = match lex_all(self.input.as_slice()) {
            Ok(lexed) => lexed,
            Err(e) => return Err(e),
        };
        self.tokens = lexed;
        let placement = match assign_addresses(&self.tokens) {
            Ok(p) => p,
            Err(e) => return Err(e),
        };
        let resolved = match resolve_items(&placement.items, &placement.labels) {
            Ok(v) => v,
            Err(e) => return Err(e),
        };
        let img = emit_image(&resolved);
        self.parsed_tokens = resolved;
        Ok(img)
    }

    /// The tokens of each line, as the last assembly that got past lexing read them.
    pub fn lexed_tokens(&self) -> (r: &Vec<Vec<Token>>)
        ensures
            line_views(r@) == self.lexed(),
    {
        &self.tokens
    }

    /// The tokens that the last successful assembly placed, in order, with
    /// references resolved.
    pub fn placed_tokens(&self) -> (r: &Vec<Token>)
        ensures
            tviews(r@) == self.placed(),
    {
        &self.parsed_tokens
    }
}

} // verus!
