//! Properties of the assembler as a whole.
use vstd::prelude::*;
use crate::assembler::{
    IMAGE_SIZE, Layout, assemble_lines, assemble_source, defined_labels, emit_all, layout, lemma_emit_len, lookup,
    operands_of, operands_size, place_instruction, placed_tokens, reference_name, resolve_all, resolve_token, resolved_tokens, write_token,
};
use crate::lemmas::{
    alike, fits, lemma_emit_moved, lemma_layout_alike, lemma_layout_fits, lemma_layout_moved,
    lemma_lex_lines_each, lemma_lex_lines_prefixed, lemma_lex_words_line, lemma_lookup_push,
    lemma_layout_inserted, lemma_layout_removed, lemma_shifted_symmetric, lemma_resolve_alike, lemma_resolve_plain, moved, relined, shifted,
};
use crate::encoder::{opcode_of, takes};
use crate::error::AsmError;
use crate::lexer::{
    comment_marker, comment_start, comment_tail, hex_number, hex_prefix_at, lemma_comment_first,
    lemma_trailing_comment, lex_lines, lex_source, line_tokens, word_token, words_of,
};
use crate::token::{TokenKind, TokenView, upper_seq};

verus! {

/// Assembling is a function of the source: equal sources give equal results.
pub proof fn law_deterministic(a: Seq<u8>, b: Seq<u8>)
    requires
        a == b,
    ensures
        assemble_source(a) == assemble_source(b),
{
}

/// Every image that assembly produces has exactly `0x10000` bytes.
pub proof fn law_image_size(src: Seq<u8>)
    requires
        assemble_source(src) is Ok,
    ensures
        assemble_source(src)->Ok_0.len() == IMAGE_SIZE,
{
    match crate::assembler::layout(crate::lexer::lex_source(src)->Ok_0) {
        Ok(st) => match crate::assembler::resolve_all(st.items, st.labels) {
            Ok(items) => lemma_emit_len(items),
            Err(_) => {},
        },
        Err(_) => {},
    }
}

/// A word `0x…` is an 8-bit immediate exactly when it has at most three digits
/// and is worth at most `0xFF`; with more digits, or a larger value up to
/// `0xFFFF`, it is a 16-bit immediate.
pub proof fn law_immediate_width(w: Seq<u8>, line: usize)
    requires
        hex_prefix_at(upper_seq(w), 0),
        hex_number(w.subrange(2, w.len() as int)) is Some,
    ensures
        word_token(w, line) is Some,
        word_token(w, line)->0.value == hex_number(w.subrange(2, w.len() as int)),
        word_token(w, line)->0.kind == (if w.len() <= 5 && hex_number(w.subrange(2, w.len() as int))->0 <= 0xFF {
            TokenKind::Imm8
        } else {
            TokenKind::Imm16
        }),
{
    assert(upper_seq(w)[0] == '0' as u8);
}

/// A word `0x…` whose digits are not a hex number of at most `0xFFFF` is
/// rejected by the lexer.
pub proof fn law_immediate_bounds(w: Seq<u8>, line: usize)
    requires
        hex_prefix_at(upper_seq(w), 0),
        hex_number(w.subrange(2, w.len() as int)) is None,
    ensures
        word_token(w, line) is None,
{
    assert(upper_seq(w)[0] == '0' as u8);
}

/// An instruction that fits the address space exactly, its last byte at
/// `0xFFFF`, is placed; one byte more is an address overflow.
pub proof fn law_address_limit(st: Layout, toks: Seq<TokenView>, line: usize)
    requires
        toks.len() > 0,
        toks[0].kind is Instruction,
        takes(toks[0].kind->Instruction_0, (toks.len() - 1) as nat),
        opcode_of(toks[0].kind->Instruction_0, operands_of(toks.drop_first())) is Some,
    ensures
        st.pc + 1 + operands_size(toks.drop_first()) <= 0x10000 ==> place_instruction(st, toks, line) is Ok,
        st.pc + 1 + operands_size(toks.drop_first()) > 0x10000 ==> place_instruction(st, toks, line)
            == Err::<Layout, AsmError>(AsmError::AddressOverflow { line }),
{
}

/// Whether a placed token writes the byte at address `a`.
pub open spec fn writes_at(t: TokenView, a: int) -> bool {
    match t.address {
        None => false,
        Some(x) => if t.opcode is Some {
            x == a
        } else if t.value is Some {
            if t.kind == TokenKind::Imm8 {
                x == a
            } else if (t.kind == TokenKind::Imm16 || t.kind == TokenKind::Address || t.kind
                == TokenKind::Label) && x + 1 < IMAGE_SIZE {
                x == a || x + 1 == a
            } else {
                false
            }
        } else {
            false
        },
    }
}

/// The byte that a placed token writes at address `a`, where it writes one.
pub open spec fn byte_at(t: TokenView, a: int) -> u8 {
    if t.opcode is Some {
        t.opcode->0
    } else if t.kind == TokenKind::Imm8 || t.address->0 + 1 == a {
        (t.value->0 % 256) as u8
    } else {
        (t.value->0 / 256) as u8
    }
}

proof fn lemma_write_elsewhere(img: Seq<u8>, t: TokenView, a: int)
    requires
        img.len() == IMAGE_SIZE,
        0 <= a < IMAGE_SIZE,
        !writes_at(t, a),
    ensures
        write_token(img, t)[a] == img[a],
        write_token(img, t).len() == IMAGE_SIZE,
{
}

proof fn lemma_write_here(img: Seq<u8>, t: TokenView, a: int)
    requires
        img.len() == IMAGE_SIZE,
        0 <= a < IMAGE_SIZE,
        writes_at(t, a),
    ensures
        write_token(img, t)[a] == byte_at(t, a),
{
}

proof fn lemma_untouched(items: Seq<TokenView>, a: int)
    requires
        0 <= a < IMAGE_SIZE,
        forall|i: int| 0 <= i < items.len() ==> !writes_at(#[trigger] items[i], a),
    ensures
        emit_all(items)[a] == 0,
    decreases items.len(),
{
    lemma_emit_len(items);
    if items.len() > 0 {
        lemma_untouched(items.drop_last(), a);
        lemma_emit_len(items.drop_last());
        assert(!writes_at(items[items.len() - 1], a));
        lemma_write_elsewhere(emit_all(items.drop_last()), items.last(), a);
    }
}

proof fn lemma_last_writer(items: Seq<TokenView>, i: int, a: int)
    requires
        0 <= a < IMAGE_SIZE,
        0 <= i < items.len(),
        writes_at(items[i], a),
        forall|j: int| i < j < items.len() ==> !writes_at(#[trigger] items[j], a),
    ensures
        emit_all(items)[a] == byte_at(items[i], a),
    decreases items.len(),
{
    lemma_emit_len(items.drop_last());
    if i == items.len() - 1 {
        lemma_write_here(emit_all(items.drop_last()), items.last(), a);
    } else {
        lemma_last_writer(items.drop_last(), i, a);
        assert(!writes_at(items[items.len() - 1], a));
        lemma_write_elsewhere(emit_all(items.drop_last()), items.last(), a);
    }
}

proof fn lemma_resolved(items: Seq<TokenView>, labels: Seq<(Seq<u8>, u16)>)
    requires
        resolve_all(items, labels) is Ok,
    ensures
        resolve_all(items, labels)->Ok_0.len() == items.len(),
        forall|i: int| 0 <= i < items.len() ==> resolve_token(#[trigger] items[i], labels)
            == Ok::<TokenView, AsmError>(resolve_all(items, labels)->Ok_0[i]),
    decreases items.len(),
{
    if items.len() > 0 {
        lemma_resolved(items.drop_last(), labels);
        assert forall|i: int| 0 <= i < items.len() implies resolve_token(#[trigger] items[i], labels)
            == Ok::<TokenView, AsmError>(resolve_all(items, labels)->Ok_0[i]) by {
            if i < items.len() - 1 {
                assert(items[i] == items.drop_last()[i]);
            }
        }
    }
}

/// Where a source assembles, the image is the resolved tokens written in order:
/// a byte that no token writes is zero, and a byte is the one that the last
/// token writing it gives it.
pub proof fn law_image_bytes(src: Seq<u8>, a: int)
    requires
        assemble_source(src) is Ok,
        0 <= a < IMAGE_SIZE,
    ensures
        (forall|i: int| 0 <= i < resolved_tokens(src).len() ==> !writes_at(#[trigger] resolved_tokens(src)[i], a))
            ==> assemble_source(src)->Ok_0[a] == 0,
        forall|i: int|
            0 <= i < resolved_tokens(src).len() && writes_at(#[trigger] resolved_tokens(src)[i], a) && (forall|j: int|
                i < j < resolved_tokens(src).len() ==> !writes_at(#[trigger] resolved_tokens(src)[j], a))
                ==> assemble_source(src)->Ok_0[a] == byte_at(resolved_tokens(src)[i], a),
{
    let rs = resolved_tokens(src);
    assert(assemble_source(src)->Ok_0 == emit_all(rs));
    if forall|i: int| 0 <= i < rs.len() ==> !writes_at(#[trigger] rs[i], a) {
        lemma_untouched(rs, a);
    }
    assert forall|i: int|
        0 <= i < rs.len() && writes_at(#[trigger] rs[i], a) && (forall|j: int|
            i < j < rs.len() ==> !writes_at(#[trigger] rs[j], a)) implies assemble_source(src)->Ok_0[a]
        == byte_at(rs[i], a) by {
        lemma_last_writer(rs, i, a);
    }
}

/// Where a source assembles, every reference to a label, bare `L`, starred
/// `*L` or `L:`, wherever it stands, takes the address at which `L:` was
/// defined, and writes it high byte first unless a later token writes there.
pub proof fn law_label_reference(src: Seq<u8>, i: int, name: Seq<u8>)
    requires
        assemble_source(src) is Ok,
        0 <= i < placed_tokens(src).len(),
        reference_name(placed_tokens(src)[i]) == Some(name),
    ensures
        lookup(defined_labels(src), name) is Some,
        resolved_tokens(src)[i].kind == TokenKind::Label,
        resolved_tokens(src)[i].value == lookup(defined_labels(src), name),
        resolved_tokens(src)[i].address == placed_tokens(src)[i].address,
        ({
            let t = resolved_tokens(src)[i];
            let x = t.address->0 as int;
            let v = lookup(defined_labels(src), name)->0;
            &&& t.address is Some
            &&& x + 1 < IMAGE_SIZE
            &&& (forall|j: int|
                i < j < resolved_tokens(src).len() ==> !writes_at(#[trigger] resolved_tokens(src)[j], x)
                    && !writes_at(resolved_tokens(src)[j], x + 1)) ==> assemble_source(src)->Ok_0[x] == (v / 256) as u8
                && assemble_source(src)->Ok_0[x + 1] == (v % 256) as u8
        }),
{
    let ps = placed_tokens(src);
    let ls = defined_labels(src);
    lemma_resolved(ps, ls);
    let rs = resolved_tokens(src);
    assert(resolve_token(ps[i], ls) == Ok::<TokenView, AsmError>(rs[i]));
    lemma_layout_fits(lex_source(src)->Ok_0);
    assert(fits(ps[i]));
    let t = rs[i];
    let x = t.address->0 as int;
    if (forall|j: int|
        i < j < rs.len() ==> !writes_at(#[trigger] rs[j], x) && !writes_at(rs[j], x + 1)) {
        law_image_bytes(src, x);
        law_image_bytes(src, x + 1);
        assert(writes_at(rs[i], x));
        assert(writes_at(rs[i], x + 1));
    }
}

/// Line `a` is the code `base`, with or without a `//` comment after it.
pub open spec fn code_with_comment(base: Seq<u8>, a: Seq<u8>) -> bool {
    a == base || exists|c: Seq<u8>| comment_tail(c) && a == base + comment_start() + c
}

/// A blank line, or one whose first word is `//`.
pub open spec fn comment_or_blank(a: Seq<u8>) -> bool {
    words_of(a).len() == 0 || words_of(a)[0] == comment_marker()
}

/// Lines `a` and `b` differ in their comments only: a trailing comment added,
/// taken out or changed, or a whole-line comment in place of a blank line or
/// of another comment.
pub open spec fn same_code(a: Seq<u8>, b: Seq<u8>) -> bool {
    ||| exists|base: Seq<u8>| code_with_comment(base, a) && code_with_comment(base, b)
    ||| comment_or_blank(a) && comment_or_blank(b)
}

proof fn lemma_code_tokens(base: Seq<u8>, a: Seq<u8>, line: usize)
    requires
        code_with_comment(base, a),
    ensures
        line_tokens(a, line) == line_tokens(base, line),
{
    if a != base {
        let c = choose|c: Seq<u8>| comment_tail(c) && a == base + comment_start() + c;
        lemma_trailing_comment(base, c, line);
    }
}

proof fn lemma_no_code_tokens(a: Seq<u8>, line: usize)
    requires
        comment_or_blank(a),
    ensures
        line_tokens(a, line) == Ok::<Seq<TokenView>, int>(seq![]),
{
    if words_of(a).len() == 0 {
        assert(crate::lexer::lex_words(words_of(a), line) == Ok::<(Seq<TokenView>, bool), int>((seq![], false)));
    } else {
        lemma_comment_first(a, line);
    }
}

proof fn lemma_same_tokens(ls: Seq<Seq<u8>>, ms: Seq<Seq<u8>>)
    requires
        ls.len() == ms.len(),
        forall|i: int| 0 <= i < ls.len() ==> line_tokens(#[trigger] ls[i], (i + 1) as usize) == line_tokens(ms[i], (i + 1) as usize),
    ensures
        lex_lines(ls) == lex_lines(ms),
    decreases ls.len(),
{
    if ls.len() > 0 {
        let n = ls.len() - 1;
        assert forall|i: int| 0 <= i < n implies line_tokens(#[trigger] ls.drop_last()[i], (i + 1) as usize)
            == line_tokens(ms.drop_last()[i], (i + 1) as usize) by {
            assert(ls.drop_last()[i] == ls[i]);
            assert(ms.drop_last()[i] == ms[i]);
        }
        lemma_same_tokens(ls.drop_last(), ms.drop_last());
        assert(line_tokens(ls[n], (n + 1) as usize) == line_tokens(ms[n], (n + 1) as usize));
    }
}

/// Comments never change what a program assembles to: adding, taking out or
/// changing `// …` at the end of any lines, and turning blank lines into
/// comment lines or back, gives the same image, or the same error.
pub proof fn law_comments_inert(ls: Seq<Seq<u8>>, ms: Seq<Seq<u8>>)
    requires
        ls.len() == ms.len(),
        forall|i: int| 0 <= i < ls.len() ==> same_code(#[trigger] ls[i], ms[i]),
    ensures
        assemble_lines(ms) == assemble_lines(ls),
{
    assert forall|i: int| 0 <= i < ls.len() implies line_tokens(#[trigger] ls[i], (i + 1) as usize)
        == line_tokens(ms[i], (i + 1) as usize) by {
        let line = (i + 1) as usize;
        assert(same_code(ls[i], ms[i]));
        if exists|base: Seq<u8>| code_with_comment(base, ls[i]) && code_with_comment(base, ms[i]) {
            let base = choose|base: Seq<u8>| code_with_comment(base, ls[i]) && code_with_comment(base, ms[i]);
            lemma_code_tokens(base, ls[i], line);
            lemma_code_tokens(base, ms[i], line);
        } else {
            lemma_no_code_tokens(ls[i], line);
            lemma_no_code_tokens(ms[i], line);
        }
    }
    lemma_same_tokens(ls, ms);
}

/// A line that lexes to `>` and the address `d`: an origin directive.
pub open spec fn origin_line(text: Seq<u8>, d: u16) -> bool {
    &&& line_tokens(text, 1) is Ok
    &&& line_tokens(text, 1)->Ok_0.len() == 2
    &&& line_tokens(text, 1)->Ok_0[0].kind == TokenKind::OriginMarker
    &&& line_tokens(text, 1)->Ok_0[1].kind == TokenKind::Address
    &&& line_tokens(text, 1)->Ok_0[1].value == Some(d)
}

/// The lines of a program that assembles hold no origin directive.
pub open spec fn without_origins(ls: Seq<Seq<u8>>) -> bool {
    forall|i: int|
        0 <= i < lex_lines(ls)->Ok_0.len() ==> (#[trigger] lex_lines(ls)->Ok_0[i]).len() == 0 || lex_lines(
            ls,
        )->Ok_0[i][0].kind != TokenKind::OriginMarker
}

/// No token that a program places refers to a label.
pub open spec fn without_references(ls: Seq<Seq<u8>>) -> bool {
    let items = layout(lex_lines(ls)->Ok_0)->Ok_0.items;
    forall|i: int| 0 <= i < items.len() ==> reference_name(#[trigger] items[i]) is None
}

/// A program that assembles fits below `0x10000 - d`: its walk ends there at
/// the latest, and every label it defines lies below `0xFFFF - d`.
pub open spec fn room_after(ls: Seq<Seq<u8>>, d: int) -> bool {
    let st = layout(lex_lines(ls)->Ok_0)->Ok_0;
    &&& st.pc + d <= 0x10000
    &&& forall|i: int| 0 <= i < st.labels.len() ==> #[trigger] st.labels[i].1 + d <= 0xFFFF
}

/// Putting an origin directive `> &0xADDR` in front of a program that has no
/// other origin directive and no label reference, and that has room for it
/// (no overflow), gives a program that assembles too, with every byte moved
/// from offset `a` to offset `ADDR + a`; below `ADDR` the image is zero.
pub proof fn law_origin_shift(origin: Seq<u8>, ls: Seq<Seq<u8>>, d: u16)
    requires
        origin_line(origin, d),
        assemble_lines(ls) is Ok,
        without_origins(ls),
        without_references(ls),
        room_after(ls, d as int),
    ensures
        assemble_lines(seq![origin] + ls) is Ok,
        forall|a: int|
            0 <= a && a + d < IMAGE_SIZE ==> assemble_lines(seq![origin] + ls)->Ok_0[a + d]
                == #[trigger] assemble_lines(ls)->Ok_0[a],
        forall|a: int| 0 <= a < d ==> #[trigger] assemble_lines(seq![origin] + ls)->Ok_0[a] == 0,
{
    let all = seq![origin] + ls;
    lemma_lex_lines_each(ls);
    lemma_lex_lines_each(all);
    assert forall|k: int| 0 <= k < all.len() implies #[trigger] line_tokens(all[k], (k + 1) as usize) is Ok by {
        if k == 0 {
            assert(all[0] == origin);
        } else {
            let j = k - 1;
            assert(all[k] == ls[j]);
            assert(line_tokens(ls[j], (j + 1) as usize) is Ok);
            lemma_lex_words_line(words_of(ls[j]), (j + 1) as usize, (k + 1) as usize);
        }
    }
    lemma_lex_lines_prefixed(origin, ls);
    let l1 = lex_lines(ls)->Ok_0;
    let l2 = lex_lines(all)->Ok_0;
    crate::lemmas::lemma_lex_lines_len(ls);
    let first = l2.subrange(0, 1);
    assert(first.drop_last() =~= Seq::<Seq<TokenView>>::empty());
    assert(first.last() == line_tokens(origin, 1)->Ok_0);
    let ot = line_tokens(origin, 1)->Ok_0;
    assert(layout(first.drop_last()) == Ok::<Layout, AsmError>(crate::assembler::start_layout()));
    assert(crate::assembler::place_origin(crate::assembler::start_layout(), ot, 1) == Ok::<Layout, AsmError>(
        Layout { pc: d as int, items: seq![], labels: seq![] },
    ));
    assert(crate::assembler::place_line(crate::assembler::start_layout(), ot, 1) == Ok::<Layout, AsmError>(
        Layout { pc: d as int, items: seq![], labels: seq![] },
    ));
    assert(layout(first) == Ok::<Layout, AsmError>(Layout { pc: d as int, items: seq![], labels: seq![] }));
    assert forall|i: int| 0 <= i < l1.len() implies (#[trigger] l1[i]).len() == 0 || l1[i][0].kind
        != TokenKind::OriginMarker by {
        assert(lex_lines(ls)->Ok_0[i] == l1[i]);
    }
    crate::lemmas::lemma_layout_ok_shift(l1, l2, d as int);
    lemma_layout_moved(l1, l2, d as int);
    let r1 = layout(l1)->Ok_0;
    let r2 = layout(l2)->Ok_0;
    assert(shifted(r1, r2, d as int));
    lemma_layout_fits(l1);
    lemma_layout_fits(l2);
    lemma_resolve_plain(r1.items, r1.labels);
    assert forall|i: int| 0 <= i < r2.items.len() implies reference_name(#[trigger] r2.items[i]) is None by {
        assert(moved(r1.items[i], r2.items[i], d as int));
        assert(reference_name(r1.items[i]) is None);
    }
    lemma_resolve_plain(r2.items, r2.labels);
    lemma_emit_moved(r1.items, r2.items, d as int);
    assert(assemble_lines(ls)->Ok_0 == emit_all(r1.items));
    assert(assemble_lines(all)->Ok_0 == emit_all(r2.items));
}

/// A line that lexes to one label definition and nothing else.
pub open spec fn label_line(text: Seq<u8>, line: usize) -> bool {
    &&& line_tokens(text, line) is Ok
    &&& line_tokens(text, line)->Ok_0.len() == 1
    &&& line_tokens(text, line)->Ok_0[0].kind == TokenKind::Label
}

/// Two label definitions on adjacent lines bind the same address, whatever
/// their order: swapping them leaves the image of a program that assembles
/// as it was, references before and after them included.
pub proof fn law_label_order(ls: Seq<Seq<u8>>, i: int)
    requires
        0 <= i,
        i + 1 < ls.len(),
        label_line(ls[i], (i + 1) as usize),
        label_line(ls[i + 1], (i + 2) as usize),
        assemble_lines(ls) is Ok,
    ensures
        assemble_lines(ls.update(i, ls[i + 1]).update(i + 1, ls[i])) == assemble_lines(ls),
{
    let ms = ls.update(i, ls[i + 1]).update(i + 1, ls[i]);
    let na = (i + 1) as usize;
    let nb = (i + 2) as usize;
    lemma_lex_lines_each(ls);
    lemma_lex_lines_each(ms);
    lemma_lex_words_line(words_of(ls[i]), na, nb);
    lemma_lex_words_line(words_of(ls[i + 1]), na, nb);
    assert forall|k: int| 0 <= k < ms.len() implies #[trigger] line_tokens(ms[k], (k + 1) as usize) is Ok by {
        if k != i && k != i + 1 {
            assert(ms[k] == ls[k]);
            assert(line_tokens(ls[k], (k + 1) as usize) is Ok);
        }
    }
    let l1 = lex_lines(ls)->Ok_0;
    let l2 = lex_lines(ms)->Ok_0;
    assert forall|k: int| 0 <= k < l1.len() && k != i && k != i + 1 implies #[trigger] l1[k] == l2[k] by {
        assert(ms[k] == ls[k]);
        assert(l1[k] == line_tokens(ls[k], (k + 1) as usize)->Ok_0);
        assert(l2[k] == line_tokens(ms[k], (k + 1) as usize)->Ok_0);
    }
    let ta = l1[i][0];
    let tb = l1[i + 1][0];
    assert(l1[i] == line_tokens(ls[i], na)->Ok_0);
    assert(l1[i + 1] == line_tokens(ls[i + 1], nb)->Ok_0);
    assert(l2[i] == line_tokens(ls[i + 1], na)->Ok_0);
    assert(l2[i + 1] == line_tokens(ls[i], nb)->Ok_0);
    assert(relined(l1[i + 1], l2[i]));
    assert(relined(l1[i], l2[i + 1]));
    assert(l2[i].len() == 1 && crate::lemmas::same_but_line(tb, l2[i][0]));
    assert(l2[i + 1].len() == 1 && crate::lemmas::same_but_line(ta, l2[i + 1][0]));
    // the lines before the two labels are the same
    assert(l1.subrange(0, i) =~= l2.subrange(0, i)) by {
        assert forall|k: int| 0 <= k < i implies l1.subrange(0, i)[k] == l2.subrange(0, i)[k] by {
            assert(l1[k] == l2[k]);
        }
    }
    let p1a = l1.subrange(0, i + 1);
    let p1b = l1.subrange(0, i + 2);
    let p2a = l2.subrange(0, i + 1);
    let p2b = l2.subrange(0, i + 2);
    assert(p1b.drop_last() =~= p1a && p1a.drop_last() =~= l1.subrange(0, i));
    assert(p2b.drop_last() =~= p2a && p2a.drop_last() =~= l2.subrange(0, i));
    assert(p1b.last() == l1[i + 1] && p1a.last() == l1[i]);
    assert(p2b.last() == l2[i + 1] && p2a.last() == l2[i]);
    assert(layout(l1) is Ok);
    if layout(p1b) is Err {
        crate::assembler::lemma_layout_failed(l1, i + 2);
    }
    assert(layout(p1b) is Ok);
    assert(layout(p1a) is Ok);
    assert(layout(l1.subrange(0, i)) is Ok);
    let st = layout(l1.subrange(0, i))->Ok_0;
    let a = crate::assembler::label_name(ta.raw);
    let b = crate::assembler::label_name(tb.raw);
    assert(lookup(st.labels, a) is None);
    let pc = st.pc as u16;
    lemma_lookup_push(st.labels, (a, pc), b);
    assert(lookup(st.labels, b) is None && a != b);
    lemma_lookup_push(st.labels, (b, pc), a);
    assert(layout(l2.subrange(0, i)) == Ok::<Layout, AsmError>(st));
    assert(l2[i][0].raw == tb.raw && l2[i + 1][0].raw == ta.raw);
    assert(l2[i][0].kind == TokenKind::Label && l2[i + 1][0].kind == TokenKind::Label);
    let m1 = Layout { labels: st.labels.push((b, pc)), ..st };
    assert(crate::assembler::place_label(st, l2[i], na) == Ok::<Layout, AsmError>(m1));
    assert(layout(p2a) == Ok::<Layout, AsmError>(m1));
    assert(lookup(m1.labels, a) is None);
    assert(m1.pc <= 0xFFFF);
    let m2 = Layout { labels: m1.labels.push((a, pc)), ..m1 };
    assert(crate::assembler::place_label(m1, l2[i + 1], nb) == Ok::<Layout, AsmError>(m2));
    assert(layout(p2b) == Ok::<Layout, AsmError>(m2));
    let s1 = layout(p1b)->Ok_0;
    let s2 = layout(p2b)->Ok_0;
    assert(s1.labels == st.labels.push((a, pc)).push((b, pc)));
    assert(s2.labels == st.labels.push((b, pc)).push((a, pc)));
    assert forall|name: Seq<u8>| #[trigger] lookup(s1.labels, name) == lookup(s2.labels, name) by {
        lemma_lookup_push(st.labels.push((a, pc)), (b, pc), name);
        lemma_lookup_push(st.labels, (a, pc), name);
        lemma_lookup_push(st.labels.push((b, pc)), (a, pc), name);
        lemma_lookup_push(st.labels, (b, pc), name);
    }
    assert(alike(s1, s2));
    assert forall|j: int| i + 2 <= j < l1.len() implies #[trigger] l1[j] == l2[j] by {
        assert(l1[j] == l2[j]);
    }
    lemma_layout_alike(l1, l2, i + 2);
    let r1 = layout(l1)->Ok_0;
    let r2 = layout(l2)->Ok_0;
    lemma_resolve_alike(r1.items, r1.labels, r2.labels);
}

proof fn lemma_resolved_moved(
    x1: Seq<TokenView>,
    x2: Seq<TokenView>,
    l1: Seq<(Seq<u8>, u16)>,
    l2: Seq<(Seq<u8>, u16)>,
)
    requires
        crate::lemmas::all_moved(x1, x2, 0),
        l1 == l2,
        forall|i: int| 0 <= i < x1.len() ==> fits(#[trigger] x1[i]),
        resolve_all(x1, l1) is Ok,
        resolve_all(x2, l2) is Ok,
    ensures
        crate::lemmas::all_moved(resolve_all(x1, l1)->Ok_0, resolve_all(x2, l2)->Ok_0, 0),
        forall|i: int| 0 <= i < x1.len() ==> fits(#[trigger] resolve_all(x1, l1)->Ok_0[i]),
        forall|i: int| 0 <= i < x1.len() ==> fits(#[trigger] resolve_all(x2, l2)->Ok_0[i]),
{
    lemma_resolved(x1, l1);
    lemma_resolved(x2, l2);
    let r1 = resolve_all(x1, l1)->Ok_0;
    let r2 = resolve_all(x2, l2)->Ok_0;
    assert forall|i: int| 0 <= i < x1.len() implies moved(#[trigger] r1[i], r2[i], 0) && fits(r1[i]) && fits(r2[i]) by {
        assert(moved(x1[i], x2[i], 0));
        assert(fits(x1[i]));
        assert(resolve_token(x1[i], l1) == Ok::<TokenView, AsmError>(r1[i]));
        assert(resolve_token(x2[i], l2) == Ok::<TokenView, AsmError>(r2[i]));
    }
    assert forall|i: int| 0 <= i < x1.len() implies fits(#[trigger] r2[i]) by {
        assert(fits(r1[i]) && moved(r1[i], r2[i], 0));
    }
}

proof fn lemma_resolve_ok_moved(x1: Seq<TokenView>, x2: Seq<TokenView>, labels: Seq<(Seq<u8>, u16)>)
    requires
        crate::lemmas::all_moved(x1, x2, 0),
        resolve_all(x1, labels) is Ok,
    ensures
        resolve_all(x2, labels) is Ok,
    decreases x1.len(),
{
    if x1.len() > 0 {
        let n = x1.len() - 1;
        assert forall|i: int| 0 <= i < n implies moved(#[trigger] x1.drop_last()[i], x2.drop_last()[i], 0) by {
            assert(moved(x1[i], x2[i], 0));
        }
        lemma_resolve_ok_moved(x1.drop_last(), x2.drop_last(), labels);
        assert(moved(x1[n], x2[n], 0));
        assert(reference_name(x1.last()) == reference_name(x2.last()));
    }
}

/// Inserting a comment line, or a blank line, anywhere in a program that
/// assembles leaves its image as it was.
pub proof fn law_comment_line_inserted(ls: Seq<Seq<u8>>, i: int, c: Seq<u8>)
    requires
        0 <= i <= ls.len(),
        comment_or_blank(c),
        assemble_lines(ls) is Ok,
    ensures
        assemble_lines(ls.insert(i, c)) == assemble_lines(ls),
{
    let ms = ls.insert(i, c);
    lemma_lex_lines_each(ls);
    lemma_lex_lines_each(ms);
    assert forall|k: int| 0 <= k < ms.len() implies #[trigger] line_tokens(ms[k], (k + 1) as usize) is Ok by {
        if k < i {
            assert(ms[k] == ls[k]);
            assert(line_tokens(ls[k], (k + 1) as usize) is Ok);
        } else if k == i {
            assert(ms[k] == c);
            if words_of(c).len() == 0 {
                assert(crate::lexer::lex_words(words_of(c), (i + 1) as usize) == Ok::<(Seq<TokenView>, bool), int>((seq![], false)));
            } else {
                lemma_comment_first(c, (i + 1) as usize);
            }
        } else {
            assert(ms[k] == ls[k - 1]);
            let j = k - 1;
            assert(line_tokens(ls[j], (j + 1) as usize) is Ok);
            assert((j + 1) as usize == k as usize);
            lemma_lex_words_line(words_of(ls[k - 1]), k as usize, (k + 1) as usize);
        }
    }
    let l1 = lex_lines(ls)->Ok_0;
    let l2 = lex_lines(ms)->Ok_0;
    assert forall|k: int| 0 <= k < i implies #[trigger] l2[k] == l1[k] by {
        assert(ms[k] == ls[k]);
        assert(l1[k] == line_tokens(ls[k], (k + 1) as usize)->Ok_0);
        assert(l2[k] == line_tokens(ms[k], (k + 1) as usize)->Ok_0);
    }
    assert(ms[i] == c);
    assert(l2[i] == line_tokens(c, (i + 1) as usize)->Ok_0);
    if words_of(c).len() == 0 {
        assert(crate::lexer::lex_words(words_of(c), (i + 1) as usize) == Ok::<(Seq<TokenView>, bool), int>((seq![], false)));
    } else {
        lemma_comment_first(c, (i + 1) as usize);
    }
    assert(l2[i].len() == 0);
    assert forall|k: int| i <= k < l1.len() implies relined(#[trigger] l1[k], l2[k + 1]) by {
        assert(ms[k + 1] == ls[k]);
        lemma_lex_words_line(words_of(ls[k]), (k + 1) as usize, (k + 2) as usize);
        assert(l1[k] == line_tokens(ls[k], (k + 1) as usize)->Ok_0);
        assert(l2[k + 1] == line_tokens(ms[k + 1], (k + 2) as usize)->Ok_0);
    }
    lemma_layout_inserted(l1, l2, i);
    let r1 = layout(l1)->Ok_0;
    let r2 = layout(l2)->Ok_0;
    assert(r1.labels =~= r2.labels) by {
        assert forall|k: int| 0 <= k < r1.labels.len() implies r1.labels[k] == r2.labels[k] by {
            assert(r2.labels[k].0 == r1.labels[k].0 && r2.labels[k].1 == r1.labels[k].1 + 0);
        }
    }
    lemma_layout_fits(l1);
    lemma_layout_fits(l2);
    lemma_resolve_ok_moved(r1.items, r2.items, r1.labels);
    lemma_resolved_moved(r1.items, r2.items, r1.labels, r2.labels);
    let rs1 = resolve_all(r1.items, r1.labels)->Ok_0;
    let rs2 = resolve_all(r2.items, r2.labels)->Ok_0;
    lemma_resolved(r1.items, r1.labels);
    lemma_emit_moved(rs1, rs2, 0);
    lemma_emit_len(rs1);
    lemma_emit_len(rs2);
    assert(emit_all(rs1) =~= emit_all(rs2)) by {
        assert forall|a: int| 0 <= a < IMAGE_SIZE implies emit_all(rs1)[a] == emit_all(rs2)[a] by {
            assert(emit_all(rs2)[a + 0] == emit_all(rs1)[a]);
        }
    }
}

/// Taking a comment line, or a blank line, out of a program that assembles
/// leaves its image as it was.
pub proof fn law_comment_line_removed(ms: Seq<Seq<u8>>, i: int)
    requires
        0 <= i < ms.len(),
        comment_or_blank(ms[i]),
        assemble_lines(ms) is Ok,
    ensures
        assemble_lines(ms.remove(i)) == assemble_lines(ms),
{
    let ls = ms.remove(i);
    let c = ms[i];
    assert(ls.insert(i, c) =~= ms);
    lemma_lex_lines_each(ls);
    lemma_lex_lines_each(ms);
    assert forall|k: int| 0 <= k < ls.len() implies #[trigger] line_tokens(ls[k], (k + 1) as usize) is Ok by {
        if k < i {
            assert(ls[k] == ms[k]);
        } else {
            assert(ls[k] == ms[k + 1]);
            assert(line_tokens(ms[k + 1], ((k + 1) + 1) as usize) is Ok);
            lemma_lex_words_line(words_of(ls[k]), (k + 1) as usize, (k + 2) as usize);
        }
    }
    let l1 = lex_lines(ls)->Ok_0;
    let l2 = lex_lines(ms)->Ok_0;
    assert forall|k: int| 0 <= k < i implies #[trigger] l2[k] == l1[k] by {
        assert(ms[k] == ls[k]);
        assert(l1[k] == line_tokens(ls[k], (k + 1) as usize)->Ok_0);
        assert(l2[k] == line_tokens(ms[k], (k + 1) as usize)->Ok_0);
    }
    assert(l2[i] == line_tokens(c, (i + 1) as usize)->Ok_0);
    lemma_no_code_tokens(c, (i + 1) as usize);
    assert forall|k: int| i <= k < l1.len() implies relined(#[trigger] l1[k], l2[k + 1]) by {
        assert(ms[k + 1] == ls[k]);
        lemma_lex_words_line(words_of(ls[k]), (k + 1) as usize, (k + 2) as usize);
        assert(l1[k] == line_tokens(ls[k], (k + 1) as usize)->Ok_0);
        assert(l2[k + 1] == line_tokens(ms[k + 1], (k + 2) as usize)->Ok_0);
    }
    lemma_layout_removed(l1, l2, i);
    lemma_layout_inserted(l1, l2, i);
    let r1 = layout(l1)->Ok_0;
    let r2 = layout(l2)->Ok_0;
    lemma_shifted_symmetric(r1, r2);
    assert(r1.labels =~= r2.labels) by {
        assert forall|k: int| 0 <= k < r1.labels.len() implies r1.labels[k] == r2.labels[k] by {
            assert(r2.labels[k].0 == r1.labels[k].0 && r2.labels[k].1 == r1.labels[k].1 + 0);
        }
    }
    lemma_resolve_ok_moved(r2.items, r1.items, r1.labels);
    law_comment_line_inserted(ls, i, c);
}

/// Program `b` is program `a` with one edit of its comments: trailing or
/// whole-line comments changed line by line, or one comment or blank line
/// inserted or taken out.
pub open spec fn comment_edit(a: Seq<Seq<u8>>, b: Seq<Seq<u8>>) -> bool {
    ||| a.len() == b.len() && forall|i: int| 0 <= i < a.len() ==> same_code(#[trigger] a[i], b[i])
    ||| exists|i: int| 0 <= i <= a.len() && i < b.len() && comment_or_blank(b[i]) && b == a.insert(i, b[i])
    ||| exists|i: int| 0 <= i < a.len() && comment_or_blank(a[i]) && b == a.remove(i)
}

/// Comments never affect emitted bytes: a program reached from one that
/// assembles by any series of comment edits assembles to the same image.
pub proof fn law_comment_edits(ps: Seq<Seq<Seq<u8>>>)
    requires
        ps.len() > 0,
        forall|k: int| 0 <= k < ps.len() - 1 ==> comment_edit(#[trigger] ps[k], ps[k + 1]),
        assemble_lines(ps[0]) is Ok,
    ensures
        assemble_lines(ps.last()) == assemble_lines(ps[0]),
    decreases ps.len(),
{
    if ps.len() > 1 {
        let prev = ps.drop_last();
        assert forall|k: int| 0 <= k < prev.len() - 1 implies comment_edit(#[trigger] prev[k], prev[k + 1]) by {
            assert(comment_edit(ps[k], ps[k + 1]));
        }
        law_comment_edits(prev);
        let a = ps[ps.len() - 2];
        let b = ps.last();
        assert(prev.last() == a);
        assert(comment_edit(a, b));
        lemma_comment_step(a, b);
    }
}

/// The image that tokens written in order give: a byte that no token writes
/// is zero, and a byte is the one that the last token writing it gives it.
/// `emit_image` returns this image for the tokens it is given.
pub proof fn law_emitted_bytes(items: Seq<TokenView>, a: int)
    requires
        0 <= a < IMAGE_SIZE,
    ensures
        emit_all(items).len() == IMAGE_SIZE,
        (forall|i: int| 0 <= i < items.len() ==> !writes_at(#[trigger] items[i], a)) ==> emit_all(items)[a] == 0,
        forall|i: int|
            0 <= i < items.len() && writes_at(#[trigger] items[i], a) && (forall|j: int|
                i < j < items.len() ==> !writes_at(#[trigger] items[j], a)) ==> emit_all(items)[a] == byte_at(items[i], a),
{
    lemma_emit_len(items);
    if forall|i: int| 0 <= i < items.len() ==> !writes_at(#[trigger] items[i], a) {
        lemma_untouched(items, a);
    }
    assert forall|i: int|
        0 <= i < items.len() && writes_at(#[trigger] items[i], a) && (forall|j: int|
            i < j < items.len() ==> !writes_at(#[trigger] items[j], a)) implies emit_all(items)[a] == byte_at(items[i], a) by {
        lemma_last_writer(items, i, a);
    }
}

/// Program `b` is program `a` with two adjacent label definitions swapped.
pub open spec fn label_swap(a: Seq<Seq<u8>>, b: Seq<Seq<u8>>) -> bool {
    exists|i: int|
        0 <= i && i + 1 < a.len() && label_line(#[trigger] a[i], (i + 1) as usize) && label_line(a[i + 1], (i + 2) as usize)
            && b == a.update(i, a[i + 1]).update(i + 1, a[i])
}

/// Reordering label definitions so that each stays at its address changes no
/// byte: a program reached from one that assembles by any series of swaps of
/// adjacent label definitions, and of comment edits that move them across
/// blank or comment lines, assembles to the same image.
pub proof fn law_label_reordering(ps: Seq<Seq<Seq<u8>>>)
    requires
        ps.len() > 0,
        forall|k: int| 0 <= k < ps.len() - 1 ==> label_swap(#[trigger] ps[k], ps[k + 1]) || comment_edit(ps[k], ps[k + 1]),
        assemble_lines(ps[0]) is Ok,
    ensures
        assemble_lines(ps.last()) == assemble_lines(ps[0]),
    decreases ps.len(),
{
    if ps.len() > 1 {
        let prev = ps.drop_last();
        assert forall|k: int| 0 <= k < prev.len() - 1 implies label_swap(#[trigger] prev[k], prev[k + 1]) || comment_edit(prev[k], prev[k + 1]) by {
            assert(label_swap(ps[k], ps[k + 1]) || comment_edit(ps[k], ps[k + 1]));
        }
        law_label_reordering(prev);
        let a = ps[ps.len() - 2];
        let b = ps.last();
        assert(prev.last() == a);
        assert(label_swap(a, b) || comment_edit(a, b));
        lemma_reorder_step(a, b);
    }
}

proof fn lemma_comment_step(a: Seq<Seq<u8>>, b: Seq<Seq<u8>>)
    requires
        comment_edit(a, b),
        assemble_lines(a) is Ok,
    ensures
        assemble_lines(b) == assemble_lines(a),
{
    if a.len() == b.len() && forall|i: int| 0 <= i < a.len() ==> same_code(#[trigger] a[i], b[i]) {
        law_comments_inert(a, b);
    } else if exists|i: int| 0 <= i <= a.len() && i < b.len() && comment_or_blank(b[i]) && b == a.insert(i, b[i]) {
        let i = choose|i: int| 0 <= i <= a.len() && i < b.len() && comment_or_blank(b[i]) && b == a.insert(i, b[i]);
        law_comment_line_inserted(a, i, b[i]);
    } else {
        let i = choose|i: int| 0 <= i < a.len() && comment_or_blank(a[i]) && b == a.remove(i);
        law_comment_line_removed(a, i);
    }
}

proof fn lemma_reorder_step(a: Seq<Seq<u8>>, b: Seq<Seq<u8>>)
    requires
        label_swap(a, b) || comment_edit(a, b),
        assemble_lines(a) is Ok,
    ensures
        assemble_lines(b) == assemble_lines(a),
{
    if label_swap(a, b) {
        let i = choose|i: int|
            0 <= i && i + 1 < a.len() && label_line(#[trigger] a[i], (i + 1) as usize) && label_line(a[i + 1], (i + 2) as usize)
                && b == a.update(i, a[i + 1]).update(i + 1, a[i]);
        law_label_order(a, i);
    } else {
        lemma_comment_step(a, b);
    }
}

} // verus!
