//! Facts about the address assigner that the laws rest on.
use vstd::prelude::*;
use crate::assembler::{
    IMAGE_SIZE, Layout, at, byte_tokens, data_walk, emit_all, layout, lemma_emit_len, lookup,
    operands_of, operands_size, place_line, placed_operands, reference_name, resolve_all, resolve_token,
    text_bytes,
};
use crate::encoder::{operand_of, width};
use crate::error::AsmError;
use crate::token::{TokenKind, TokenView};
use crate::lexer::{lex_lines, lex_words, line_tokens, word_token};

verus! {

/// A placed token lies inside the address space, with all the bytes it occupies.
pub open spec fn fits(t: TokenView) -> bool {
    t.address is Some && t.address->0 + width(operand_of(t.kind)) <= 0x10000
}

/// The state of the address assigner is within bounds.
pub open spec fn well_placed(st: Layout) -> bool {
    &&& 0 <= st.pc <= 0x10000
    &&& forall|i: int| 0 <= i < st.items.len() ==> fits(#[trigger] st.items[i])
}

pub proof fn lemma_operands_fit(args: Seq<TokenView>, start: int)
    requires
        0 <= start,
        start + operands_size(args) <= 0x10000,
    ensures
        forall|i: int| 0 <= i < placed_operands(args, start).len() ==> fits(#[trigger] placed_operands(args, start)[i]),
    decreases args.len(),
{
    if args.len() > 0 {
        let w = width(operand_of(args[0].kind));
        lemma_operands_fit(args.drop_first(), start + w);
        let rest = placed_operands(args.drop_first(), start + w);
        if w > 0 {
            let t = at(args[0], start);
            assert(t.address->0 == start);
            let all = seq![t] + rest;
            assert forall|i: int| 0 <= i < all.len() implies fits(#[trigger] all[i]) by {
                if i > 0 {
                    assert(all[i] == rest[i - 1]);
                }
            }
        }
    }
}

pub proof fn lemma_data_walk_fits(pc: int, items: Seq<TokenView>, k: int, line: usize)
    requires
        0 <= pc <= 0x10000,
        data_walk(pc, items, k, line) is Ok,
    ensures
        ({
            let d = data_walk(pc, items, k, line)->Ok_0;
            &&& pc <= d.pc <= 0x10000
            &&& forall|i: int| 0 <= i < d.items.len() ==> fits(#[trigger] d.items[i])
        }),
    decreases k,
{
    if k > 0 {
        lemma_data_walk_fits(pc, items, k - 1, line);
        let d = data_walk(pc, items, k - 1, line)->Ok_0;
        let t = items[k - 1];
        let d2 = data_walk(pc, items, k, line)->Ok_0;
        if t.kind == TokenKind::Text {
            let bytes = text_bytes(d.quoted, t.raw, k < items.len()).0;
            let placed = byte_tokens(bytes, d.pc, line);
            assert forall|i: int| 0 <= i < d2.items.len() implies fits(#[trigger] d2.items[i]) by {
                if i >= d.items.len() {
                    assert(d2.items[i] == placed[i - d.items.len()]);
                }
            }
        } else {
            assert forall|i: int| 0 <= i < d2.items.len() implies fits(#[trigger] d2.items[i]) by {
                if i == d.items.len() {
                    assert(d2.items[i] == at(t, d.pc));
                }
            }
        }
    }
}

pub proof fn lemma_place_line_fits(st: Layout, toks: Seq<TokenView>, line: usize)
    requires
        well_placed(st),
        place_line(st, toks, line) is Ok,
    ensures
        well_placed(place_line(st, toks, line)->Ok_0),
{
    if toks.len() > 0 {
        let r = place_line(st, toks, line)->Ok_0;
        match toks[0].kind {
            TokenKind::Instruction(_) => {
                let args = toks.drop_first();
                let op = r.items[st.items.len() as int].opcode;
                lemma_operands_fit(args, st.pc + 1);
                let placed = placed_operands(args, st.pc + 1);
                assert forall|i: int| 0 <= i < r.items.len() implies fits(#[trigger] r.items[i]) by {
                    if i > st.items.len() {
                        assert(r.items[i] == placed[i - st.items.len() - 1]);
                    } else if i < st.items.len() {
                        assert(r.items[i] == st.items[i]);
                    }
                }
            },
            TokenKind::DataMarker => {
                let items = toks.drop_first();
                lemma_data_walk_fits(st.pc, items, items.len() as int, line);
                let d = data_walk(st.pc, items, items.len() as int, line)->Ok_0;
                assert forall|i: int| 0 <= i < r.items.len() implies fits(#[trigger] r.items[i]) by {
                    if i >= st.items.len() {
                        assert(r.items[i] == d.items[i - st.items.len()]);
                    } else {
                        assert(r.items[i] == st.items[i]);
                    }
                }
            },
            _ => {},
        }
    }
}

pub proof fn lemma_layout_fits(lines: Seq<Seq<TokenView>>)
    requires
        layout(lines) is Ok,
    ensures
        well_placed(layout(lines)->Ok_0),
    decreases lines.len(),
{
    if lines.len() > 0 {
        lemma_layout_fits(lines.drop_last());
        lemma_place_line_fits(layout(lines.drop_last())->Ok_0, lines.last(), lines.len() as usize);
    }
}

/// `b` is `a` read from another line.
pub open spec fn same_but_line(a: TokenView, b: TokenView) -> bool {
    b == TokenView { line: b.line, ..a }
}

pub open spec fn relined(xs: Seq<TokenView>, ys: Seq<TokenView>) -> bool {
    xs.len() == ys.len() && forall|i: int| 0 <= i < xs.len() ==> same_but_line(#[trigger] xs[i], ys[i])
}

pub proof fn lemma_lex_words_line(ws: Seq<Seq<u8>>, n: usize, m: usize)
    ensures
        lex_words(ws, n) is Ok <==> lex_words(ws, m) is Ok,
        lex_words(ws, n) is Err ==> lex_words(ws, n) == lex_words(ws, m),
        lex_words(ws, n) is Ok ==> lex_words(ws, n)->Ok_0.1 == lex_words(ws, m)->Ok_0.1 && relined(
            lex_words(ws, n)->Ok_0.0,
            lex_words(ws, m)->Ok_0.0,
        ),
    decreases ws.len(),
{
    if ws.len() > 0 {
        lemma_lex_words_line(ws.drop_last(), n, m);
        let w = ws.last();
        assert(word_token(w, n) is Some <==> word_token(w, m) is Some);
        if word_token(w, n) is Some {
            assert(same_but_line(word_token(w, n)->0, word_token(w, m)->0));
        }
        match lex_words(ws.drop_last(), n) {
            Ok((ts, false)) => {
                let us = lex_words(ws.drop_last(), m)->Ok_0.0;
                if word_token(w, n) is Some && word_token(w, n)->0.kind != TokenKind::CommentMarker {
                    let a = ts.push(word_token(w, n)->0);
                    let b = us.push(word_token(w, m)->0);
                    assert forall|i: int| 0 <= i < a.len() implies same_but_line(#[trigger] a[i], b[i]) by {
                        if i < ts.len() {
                            assert(a[i] == ts[i] && b[i] == us[i]);
                        }
                    }
                }
            },
            _ => {},
        }
    }
}

pub proof fn lemma_lex_lines_len(ls: Seq<Seq<u8>>)
    requires
        lex_lines(ls) is Ok,
    ensures
        lex_lines(ls)->Ok_0.len() == ls.len(),
    decreases ls.len(),
{
    if ls.len() > 0 {
        lemma_lex_lines_len(ls.drop_last());
    }
}

/// Lexing a program with one more line in front gives its tokens, read from the next line.
pub proof fn lemma_lex_lines_prefixed(o: Seq<u8>, ls: Seq<Seq<u8>>)
    requires
        lex_lines(seq![o] + ls) is Ok,
    ensures
        lex_lines(ls) is Ok,
        lex_lines(seq![o] + ls)->Ok_0.len() == ls.len() + 1,
        lex_lines(seq![o] + ls)->Ok_0[0] == line_tokens(o, 1)->Ok_0,
        forall|i: int| 0 <= i < ls.len() ==> relined(#[trigger] lex_lines(ls)->Ok_0[i], lex_lines(seq![o] + ls)->Ok_0[i + 1]),
    decreases ls.len(),
{
    let all = seq![o] + ls;
    if ls.len() == 0 {
        assert(all =~= seq![o]);
        assert(all.drop_last() =~= Seq::<Seq<u8>>::empty());
    } else {
        assert(all.drop_last() =~= seq![o] + ls.drop_last());
        lemma_lex_lines_prefixed(o, ls.drop_last());
        lemma_lex_lines_len(ls.drop_last());
        let n = ls.len();
        let text = ls.last();
        assert(all.last() == text);
        lemma_lex_words_line(crate::lexer::words_of(text), n as usize, (n + 1) as usize);
        let pre1 = lex_lines(ls.drop_last())->Ok_0;
        let pre2 = lex_lines(all.drop_last())->Ok_0;
        assert(all.len() == n + 1);
        assert(line_tokens(text, (n + 1) as usize) is Ok);
        assert(line_tokens(text, n as usize) is Ok);
        let t1 = line_tokens(text, n as usize)->Ok_0;
        let t2 = line_tokens(text, (n + 1) as usize)->Ok_0;
        assert(lex_lines(ls) == Ok::<Seq<Seq<TokenView>>, (int, int)>(pre1.push(t1)));
        assert(lex_lines(all) == Ok::<Seq<Seq<TokenView>>, (int, int)>(pre2.push(t2)));
        let r1 = lex_lines(ls)->Ok_0;
        let r2 = lex_lines(all)->Ok_0;
        assert(relined(t1, t2));
        assert forall|i: int| 0 <= i < ls.len() implies relined(#[trigger] r1[i], r2[i + 1]) by {
            if i < ls.len() - 1 {
                assert(r1[i] == pre1[i]);
                assert(r2[i + 1] == pre2[i + 1]);
            }
        }
    }
}

/// `b` is `a` placed `d` bytes further on, and perhaps read from another line.
pub open spec fn moved(a: TokenView, b: TokenView, d: int) -> bool {
    &&& a.address is Some
    &&& b.address is Some
    &&& b.address->0 == a.address->0 + d
    &&& b == TokenView { address: b.address, line: b.line, ..a }
}

pub open spec fn all_moved(xs: Seq<TokenView>, ys: Seq<TokenView>, d: int) -> bool {
    xs.len() == ys.len() && forall|i: int| 0 <= i < xs.len() ==> moved(#[trigger] xs[i], ys[i], d)
}

pub open spec fn labels_moved(l1: Seq<(Seq<u8>, u16)>, l2: Seq<(Seq<u8>, u16)>, d: int) -> bool {
    l1.len() == l2.len() && forall|i: int| 0 <= i < l1.len() ==> (#[trigger] l2[i]).0 == l1[i].0 && l2[i].1 == l1[i].1 + d
}

/// The second walk is the first one moved `d` bytes further on.
pub open spec fn shifted(s1: Layout, s2: Layout, d: int) -> bool {
    &&& s2.pc == s1.pc + d
    &&& all_moved(s1.items, s2.items, d)
    &&& labels_moved(s1.labels, s2.labels, d)
}

pub proof fn lemma_lookup_moved(l1: Seq<(Seq<u8>, u16)>, l2: Seq<(Seq<u8>, u16)>, d: int, name: Seq<u8>)
    requires
        labels_moved(l1, l2, d),
    ensures
        lookup(l1, name) is Some <==> lookup(l2, name) is Some,
        lookup(l1, name) is Some ==> lookup(l2, name)->0 == lookup(l1, name)->0 + d,
    decreases l1.len(),
{
    if l1.len() > 0 {
        let n = l1.len() - 1;
        assert(l2[n].0 == l1[n].0);
        assert forall|i: int| 0 <= i < n implies (#[trigger] l2.drop_last()[i]).0 == l1.drop_last()[i].0
            && l2.drop_last()[i].1 == l1.drop_last()[i].1 + d by {
            assert(l2[i].0 == l1[i].0);
        }
        lemma_lookup_moved(l1.drop_last(), l2.drop_last(), d, name);
    }
}

pub proof fn lemma_relined_operands(a1: Seq<TokenView>, a2: Seq<TokenView>)
    requires
        relined(a1, a2),
    ensures
        operands_of(a1) == operands_of(a2),
        operands_size(a1) == operands_size(a2),
    decreases a1.len(),
{
    assert(operands_of(a1) =~= operands_of(a2)) by {
        assert forall|i: int| 0 <= i < a1.len() implies a1[i].kind == a2[i].kind by {
            assert(same_but_line(a1[i], a2[i]));
        }
    }
    if a1.len() > 0 {
        assert(same_but_line(a1[0], a2[0]));
        assert forall|i: int| 0 <= i < a1.len() - 1 implies same_but_line(#[trigger] a1.drop_first()[i], a2.drop_first()[i]) by {
            assert(same_but_line(a1[i + 1], a2[i + 1]));
        }
        lemma_relined_operands(a1.drop_first(), a2.drop_first());
    }
}

pub proof fn lemma_operands_moved(a1: Seq<TokenView>, a2: Seq<TokenView>, start: int, d: int)
    requires
        relined(a1, a2),
        0 <= start,
        0 <= d,
        start + d + operands_size(a1) <= 0x10000,
    ensures
        all_moved(placed_operands(a1, start), placed_operands(a2, start + d), d),
    decreases a1.len(),
{
    if a1.len() > 0 {
        assert(same_but_line(a1[0], a2[0]));
        let w = width(operand_of(a1[0].kind));
        assert forall|i: int| 0 <= i < a1.len() - 1 implies same_but_line(#[trigger] a1.drop_first()[i], a2.drop_first()[i]) by {
            assert(same_but_line(a1[i + 1], a2[i + 1]));
        }
        lemma_relined_operands(a1.drop_first(), a2.drop_first());
        lemma_operands_moved(a1.drop_first(), a2.drop_first(), start + w, d);
        let r1 = placed_operands(a1.drop_first(), start + w);
        let r2 = placed_operands(a2.drop_first(), start + d + w);
        if w > 0 {
            let x1 = seq![at(a1[0], start)] + r1;
            let x2 = seq![at(a2[0], start + d)] + r2;
            assert(moved(at(a1[0], start), at(a2[0], start + d), d));
            assert forall|i: int| 0 <= i < x1.len() implies moved(#[trigger] x1[i], x2[i], d) by {
                if i > 0 {
                    assert(x1[i] == r1[i - 1] && x2[i] == r2[i - 1]);
                }
            }
        }
    }
}

pub proof fn lemma_data_walk_moved(
    pc: int,
    d: int,
    i1: Seq<TokenView>,
    i2: Seq<TokenView>,
    k: int,
    n1: usize,
    n2: usize,
)
    requires
        relined(i1, i2),
        0 <= pc,
        0 <= d,
        pc + d <= 0x10000,
        k <= i1.len(),
        data_walk(pc, i1, k, n1) is Ok,
        data_walk(pc + d, i2, k, n2) is Ok,
    ensures
        ({
            let w1 = data_walk(pc, i1, k, n1)->Ok_0;
            let w2 = data_walk(pc + d, i2, k, n2)->Ok_0;
            &&& w2.pc == w1.pc + d
            &&& w2.quoted == w1.quoted
            &&& all_moved(w1.items, w2.items, d)
        }),
    decreases k,
{
    if k > 0 {
        lemma_data_walk_moved(pc, d, i1, i2, k - 1, n1, n2);
        let pre1 = data_walk(pc, i1, k - 1, n1)->Ok_0;
        let pre2 = data_walk(pc + d, i2, k - 1, n2)->Ok_0;
        let w1 = data_walk(pc, i1, k, n1)->Ok_0;
        let w2 = data_walk(pc + d, i2, k, n2)->Ok_0;
        let t1 = i1[k - 1];
        let t2 = i2[k - 1];
        assert(same_but_line(t1, t2));
        lemma_data_walk_fits(pc + d, i2, k, n2);
        lemma_data_walk_fits(pc, i1, k - 1, n1);
        if t1.kind == TokenKind::Text {
            let bytes = text_bytes(pre1.quoted, t1.raw, k < i1.len()).0;
            let b1 = byte_tokens(bytes, pre1.pc, n1);
            let b2 = byte_tokens(bytes, pre2.pc, n2);
            assert forall|i: int| 0 <= i < w1.items.len() implies moved(#[trigger] w1.items[i], w2.items[i], d) by {
                if i >= pre1.items.len() {
                    let j = i - pre1.items.len();
                    assert(w1.items[i] == b1[j] && w2.items[i] == b2[j]);
                } else {
                    assert(w1.items[i] == pre1.items[i] && w2.items[i] == pre2.items[i]);
                }
            }
        } else {
            assert forall|i: int| 0 <= i < w1.items.len() implies moved(#[trigger] w1.items[i], w2.items[i], d) by {
                if i < pre1.items.len() {
                    assert(w1.items[i] == pre1.items[i] && w2.items[i] == pre2.items[i]);
                } else {
                    assert(w1.items[i] == at(t1, pre1.pc) && w2.items[i] == at(t2, pre2.pc));
                }
            }
        }
    }
}

/// One line placed by two walks, the second `d` bytes further on, moves its
/// tokens by `d`. An origin directive resets both walks alike, so it is
/// allowed only where `d` is zero.
pub proof fn lemma_place_line_moved(
    s1: Layout,
    s2: Layout,
    t1: Seq<TokenView>,
    t2: Seq<TokenView>,
    n1: usize,
    n2: usize,
    d: int,
)
    requires
        shifted(s1, s2, d),
        0 <= s1.pc,
        0 <= d,
        s2.pc <= 0x10000,
        relined(t1, t2),
        t1.len() == 0 || t1[0].kind != TokenKind::OriginMarker || d == 0,
        place_line(s1, t1, n1) is Ok,
        place_line(s2, t2, n2) is Ok,
    ensures
        shifted(place_line(s1, t1, n1)->Ok_0, place_line(s2, t2, n2)->Ok_0, d),
{
    if t1.len() > 0 {
        assert(same_but_line(t1[0], t2[0]));
        let r1 = place_line(s1, t1, n1)->Ok_0;
        let r2 = place_line(s2, t2, n2)->Ok_0;
        let a1 = t1.drop_first();
        let a2 = t2.drop_first();
        assert forall|i: int| 0 <= i < a1.len() implies same_but_line(#[trigger] a1[i], a2[i]) by {
            assert(same_but_line(t1[i + 1], t2[i + 1]));
        }
        match t1[0].kind {
            TokenKind::Instruction(_) => {
                lemma_relined_operands(a1, a2);
                lemma_operands_moved(a1, a2, s1.pc + 1, d);
                let pre1 = placed_operands(a1, s1.pc + 1);
                let pre2 = placed_operands(a2, s2.pc + 1);
                let m = s1.items.len();
                assert forall|i: int| 0 <= i < r1.items.len() implies moved(#[trigger] r1.items[i], r2.items[i], d) by {
                    if i > m {
                        assert(r1.items[i] == pre1[i - m - 1] && r2.items[i] == pre2[i - m - 1]);
                    } else if i < m {
                        assert(r1.items[i] == s1.items[i] && r2.items[i] == s2.items[i]);
                    }
                }
            },
            TokenKind::Label => {
                lemma_lookup_moved(s1.labels, s2.labels, d, crate::assembler::label_name(t1[0].raw));
                assert forall|i: int| 0 <= i < r1.labels.len() implies (#[trigger] r2.labels[i]).0 == r1.labels[i].0
                    && r2.labels[i].1 == r1.labels[i].1 + d by {
                    if i < s1.labels.len() {
                        assert(r1.labels[i] == s1.labels[i] && r2.labels[i] == s2.labels[i]);
                    }
                }
            },
            TokenKind::DataMarker => {
                lemma_data_walk_moved(s1.pc, d, a1, a2, a1.len() as int, n1, n2);
                let w1 = data_walk(s1.pc, a1, a1.len() as int, n1)->Ok_0;
                let w2 = data_walk(s2.pc, a2, a2.len() as int, n2)->Ok_0;
                let m = s1.items.len();
                assert forall|i: int| 0 <= i < r1.items.len() implies moved(#[trigger] r1.items[i], r2.items[i], d) by {
                    if i >= m {
                        assert(r1.items[i] == w1.items[i - m] && r2.items[i] == w2.items[i - m]);
                    } else {
                        assert(r1.items[i] == s1.items[i] && r2.items[i] == s2.items[i]);
                    }
                }
            },
            _ => {},
        }
    }
}

/// Two walks over the same lines, the second after an origin line that moves it to `d`.
pub proof fn lemma_layout_moved(l1: Seq<Seq<TokenView>>, l2: Seq<Seq<TokenView>>, d: int)
    requires
        l2.len() == l1.len() + 1,
        0 <= d <= 0xFFFF,
        layout(l2.subrange(0, 1)) == Ok::<Layout, AsmError>(Layout { pc: d, items: seq![], labels: seq![] }),
        forall|i: int| 0 <= i < l1.len() ==> relined(#[trigger] l1[i], l2[i + 1]),
        forall|i: int| 0 <= i < l1.len() ==> (#[trigger] l1[i]).len() == 0 || l1[i][0].kind != TokenKind::OriginMarker,
        layout(l1) is Ok,
        layout(l2) is Ok,
    ensures
        shifted(layout(l1)->Ok_0, layout(l2)->Ok_0, d),
    decreases l1.len(),
{
    if l1.len() == 0 {
        assert(l2 =~= l2.subrange(0, 1));
        assert(all_moved(seq![], seq![], d));
        assert(labels_moved(seq![], seq![], d));
    } else {
        let n = l1.len() - 1;
        assert(l2.drop_last().subrange(0, 1) =~= l2.subrange(0, 1));
        assert forall|i: int| 0 <= i < n implies relined(#[trigger] l1.drop_last()[i], l2.drop_last()[i + 1]) by {
            assert(relined(l1[i], l2[i + 1]));
        }
        assert forall|i: int| 0 <= i < n implies (#[trigger] l1.drop_last()[i]).len() == 0
            || l1.drop_last()[i][0].kind != TokenKind::OriginMarker by {
            assert(l1.drop_last()[i] == l1[i]);
        }
        lemma_layout_moved(l1.drop_last(), l2.drop_last(), d);
        lemma_layout_fits(l1.drop_last());
        lemma_layout_fits(l2.drop_last());
        assert(relined(l1[n], l2[n + 1]));
        assert(l1[n].len() == 0 || l1[n][0].kind != TokenKind::OriginMarker);
        lemma_place_line_moved(
            layout(l1.drop_last())->Ok_0,
            layout(l2.drop_last())->Ok_0,
            l1.last(),
            l2.last(),
            l1.len() as usize,
            l2.len() as usize,
            d,
        );
    }
}

/// Tokens that refer to no label are left as they are.
pub proof fn lemma_resolve_plain(items: Seq<TokenView>, labels: Seq<(Seq<u8>, u16)>)
    requires
        forall|i: int| 0 <= i < items.len() ==> reference_name(#[trigger] items[i]) is None,
    ensures
        resolve_all(items, labels) == Ok::<Seq<TokenView>, AsmError>(items),
    decreases items.len(),
{
    if items.len() > 0 {
        assert forall|i: int| 0 <= i < items.len() - 1 implies reference_name(#[trigger] items.drop_last()[i]) is None by {
            assert(items.drop_last()[i] == items[i]);
        }
        lemma_resolve_plain(items.drop_last(), labels);
        assert(reference_name(items[items.len() - 1]) is None);
        assert(items.drop_last().push(items.last()) =~= items);
    } else {
        assert(items =~= seq![]);
    }
}

/// Tokens moved `d` bytes further on write the same bytes `d` bytes further on.
pub proof fn lemma_emit_moved(xs: Seq<TokenView>, ys: Seq<TokenView>, d: int)
    requires
        all_moved(xs, ys, d),
        0 <= d,
        forall|i: int| 0 <= i < xs.len() ==> fits(#[trigger] xs[i]),
        forall|i: int| 0 <= i < ys.len() ==> fits(#[trigger] ys[i]),
    ensures
        forall|a: int| 0 <= a && a + d < IMAGE_SIZE ==> emit_all(ys)[a + d] == #[trigger] emit_all(xs)[a],
        forall|a: int| 0 <= a < d && a < IMAGE_SIZE ==> #[trigger] emit_all(ys)[a] == 0,
    decreases xs.len(),
{
    lemma_emit_len(xs);
    lemma_emit_len(ys);
    if xs.len() > 0 {
        let n = xs.len() - 1;
        assert forall|i: int| 0 <= i < n implies moved(#[trigger] xs.drop_last()[i], ys.drop_last()[i], d) by {
            assert(moved(xs[i], ys[i], d));
        }
        lemma_emit_moved(xs.drop_last(), ys.drop_last(), d);
        lemma_emit_len(xs.drop_last());
        lemma_emit_len(ys.drop_last());
        let img1 = emit_all(xs.drop_last());
        let img2 = emit_all(ys.drop_last());
        let x = xs[n];
        let y = ys[n];
        assert(moved(x, y, d));
        assert(fits(x) && fits(y));
        assert forall|a: int| 0 <= a && a + d < IMAGE_SIZE implies emit_all(ys)[a + d] == #[trigger] emit_all(xs)[a] by {
            assert(img2[a + d] == img1[a]);
        }
        assert forall|a: int| 0 <= a < d && a < IMAGE_SIZE implies #[trigger] emit_all(ys)[a] == 0 by {
            assert(img2[a] == 0);
        }
    }
}

/// A program lexes when each of its lines does; line `k` gives the tokens of line `k`.
pub proof fn lemma_lex_lines_each(ls: Seq<Seq<u8>>)
    ensures
        lex_lines(ls) is Ok <==> forall|k: int| 0 <= k < ls.len() ==> #[trigger] line_tokens(ls[k], (k + 1) as usize) is Ok,
        lex_lines(ls) is Ok ==> lex_lines(ls)->Ok_0.len() == ls.len() && forall|k: int|
            0 <= k < ls.len() ==> lex_lines(ls)->Ok_0[k] == #[trigger] line_tokens(ls[k], (k + 1) as usize)->Ok_0,
    decreases ls.len(),
{
    if ls.len() > 0 {
        let n = ls.len() - 1;
        lemma_lex_lines_each(ls.drop_last());
        assert forall|k: int| 0 <= k < n implies line_tokens(ls.drop_last()[k], (k + 1) as usize) == #[trigger] line_tokens(
            ls[k],
            (k + 1) as usize,
        ) by {
            assert(ls.drop_last()[k] == ls[k]);
        }
        if lex_lines(ls) is Ok {
            let p = lex_lines(ls.drop_last())->Ok_0;
            assert forall|k: int| 0 <= k < ls.len() implies lex_lines(ls)->Ok_0[k] == #[trigger] line_tokens(
                ls[k],
                (k + 1) as usize,
            )->Ok_0 by {
                if k < n {
                    assert(lex_lines(ls)->Ok_0[k] == p[k]);
                    assert(line_tokens(ls.drop_last()[k], (k + 1) as usize) is Ok);
                }
            }
        }
        if forall|k: int| 0 <= k < ls.len() ==> #[trigger] line_tokens(ls[k], (k + 1) as usize) is Ok {
            assert forall|k: int| 0 <= k < n implies #[trigger] line_tokens(ls.drop_last()[k], (k + 1) as usize) is Ok by {
                assert(line_tokens(ls[k], (k + 1) as usize) is Ok);
            }
            assert(line_tokens(ls[n], (n + 1) as usize) is Ok);
        }
    }
}

/// Two label tables that give every name the same address.
pub open spec fn same_lookup(l1: Seq<(Seq<u8>, u16)>, l2: Seq<(Seq<u8>, u16)>) -> bool {
    forall|name: Seq<u8>| #![trigger lookup(l1, name)] #![trigger lookup(l2, name)] lookup(l1, name) == lookup(l2, name)
}

/// Walks that differ only in the order their label table was filled.
pub open spec fn alike(s1: Layout, s2: Layout) -> bool {
    s1.pc == s2.pc && s1.items == s2.items && same_lookup(s1.labels, s2.labels)
}

pub proof fn lemma_lookup_push(l: Seq<(Seq<u8>, u16)>, p: (Seq<u8>, u16), name: Seq<u8>)
    ensures
        lookup(l.push(p), name) == if p.0 == name {
            Some(p.1)
        } else {
            lookup(l, name)
        },
{
    assert(l.push(p).drop_last() =~= l);
}

pub proof fn lemma_same_lookup_push(l1: Seq<(Seq<u8>, u16)>, l2: Seq<(Seq<u8>, u16)>, p: (Seq<u8>, u16))
    requires
        same_lookup(l1, l2),
    ensures
        same_lookup(l1.push(p), l2.push(p)),
{
    assert forall|name: Seq<u8>| #[trigger] lookup(l1.push(p), name) == lookup(l2.push(p), name) by {
        lemma_lookup_push(l1, p, name);
        lemma_lookup_push(l2, p, name);
    }
}

pub proof fn lemma_place_line_alike(s1: Layout, s2: Layout, t: Seq<TokenView>, n: usize)
    requires
        alike(s1, s2),
    ensures
        place_line(s1, t, n) is Ok <==> place_line(s2, t, n) is Ok,
        place_line(s1, t, n) is Err ==> place_line(s1, t, n) == place_line(s2, t, n),
        place_line(s1, t, n) is Ok ==> alike(place_line(s1, t, n)->Ok_0, place_line(s2, t, n)->Ok_0),
{
    if t.len() > 0 {
        match t[0].kind {
            TokenKind::Label => {
                let name = crate::assembler::label_name(t[0].raw);
                assert(lookup(s1.labels, name) == lookup(s2.labels, name));
                lemma_same_lookup_push(s1.labels, s2.labels, (name, s1.pc as u16));
            },
            _ => {},
        }
    }
}

pub proof fn lemma_layout_alike(l1: Seq<Seq<TokenView>>, l2: Seq<Seq<TokenView>>, k: int)
    requires
        l1.len() == l2.len(),
        0 <= k <= l1.len(),
        forall|j: int| k <= j < l1.len() ==> #[trigger] l1[j] == l2[j],
        layout(l1.subrange(0, k)) is Ok,
        layout(l2.subrange(0, k)) is Ok,
        alike(layout(l1.subrange(0, k))->Ok_0, layout(l2.subrange(0, k))->Ok_0),
    ensures
        layout(l1) is Ok <==> layout(l2) is Ok,
        layout(l1) is Err ==> layout(l1) == layout(l2),
        layout(l1) is Ok ==> alike(layout(l1)->Ok_0, layout(l2)->Ok_0),
    decreases l1.len(),
{
    if l1.len() == k {
        assert(l1.subrange(0, k) =~= l1);
        assert(l2.subrange(0, k) =~= l2);
    } else {
        let n = l1.len() - 1;
        assert(l1.drop_last().subrange(0, k) =~= l1.subrange(0, k));
        assert(l2.drop_last().subrange(0, k) =~= l2.subrange(0, k));
        assert forall|j: int| k <= j < n implies #[trigger] l1.drop_last()[j] == l2.drop_last()[j] by {
            assert(l1[j] == l2[j]);
        }
        lemma_layout_alike(l1.drop_last(), l2.drop_last(), k);
        assert(l1[n] == l2[n]);
        if layout(l1.drop_last()) is Ok {
            lemma_place_line_alike(layout(l1.drop_last())->Ok_0, layout(l2.drop_last())->Ok_0, l1.last(), l1.len() as usize);
        }
    }
}

pub proof fn lemma_resolve_alike(items: Seq<TokenView>, l1: Seq<(Seq<u8>, u16)>, l2: Seq<(Seq<u8>, u16)>)
    requires
        same_lookup(l1, l2),
    ensures
        resolve_all(items, l1) == resolve_all(items, l2),
    decreases items.len(),
{
    if items.len() > 0 {
        lemma_resolve_alike(items.drop_last(), l1, l2);
        let t = items.last();
        if reference_name(t) is Some {
            assert(lookup(l1, reference_name(t)->0) == lookup(l2, reference_name(t)->0));
        }
        assert(resolve_token(t, l1) == resolve_token(t, l2));
    }
}

/// A blank line inserted at `i` into lexed lines leaves the walk as it was,
/// the source lines of the tokens aside.
pub proof fn lemma_layout_inserted(l1: Seq<Seq<TokenView>>, l2: Seq<Seq<TokenView>>, i: int)
    requires
        l2.len() == l1.len() + 1,
        0 <= i <= l1.len(),
        forall|k: int| 0 <= k < i ==> #[trigger] l2[k] == l1[k],
        l2[i].len() == 0,
        forall|k: int| i <= k < l1.len() ==> relined(#[trigger] l1[k], l2[k + 1]),
        layout(l1) is Ok,
    ensures
        layout(l2) is Ok,
        shifted(layout(l1)->Ok_0, layout(l2)->Ok_0, 0),
    decreases l1.len(),
{
    lemma_layout_fits(l1);
    let r1 = layout(l1)->Ok_0;
    if l1.len() == i {
        assert(l2.drop_last() =~= l1);
        assert(layout(l2) == layout(l1));
        assert forall|k: int| 0 <= k < r1.items.len() implies moved(#[trigger] r1.items[k], r1.items[k], 0) by {
            assert(fits(r1.items[k]));
        }
    } else {
        let n = l1.len() - 1;
        assert forall|k: int| 0 <= k < i implies #[trigger] l2.drop_last()[k] == l1.drop_last()[k] by {
            assert(l2[k] == l1[k]);
        }
        assert forall|k: int| i <= k < n implies relined(#[trigger] l1.drop_last()[k], l2.drop_last()[k + 1]) by {
            assert(relined(l1[k], l2[k + 1]));
        }
        assert(l2.drop_last()[i] == l2[i]);
        lemma_layout_prefix_ok(l1);
        lemma_layout_inserted(l1.drop_last(), l2.drop_last(), i);
        lemma_layout_fits(l1.drop_last());
        lemma_layout_fits(l2.drop_last());
        assert(relined(l1[n], l2[n + 1]));
        lemma_place_line_ok_relined(
            layout(l1.drop_last())->Ok_0,
            layout(l2.drop_last())->Ok_0,
            l1.last(),
            l2.last(),
            l1.len() as usize,
            l2.len() as usize,
        );
        lemma_place_line_moved(
            layout(l1.drop_last())->Ok_0,
            layout(l2.drop_last())->Ok_0,
            l1.last(),
            l2.last(),
            l1.len() as usize,
            l2.len() as usize,
            0,
        );
    }
}

pub proof fn lemma_layout_prefix_ok(l: Seq<Seq<TokenView>>)
    requires
        l.len() > 0,
        layout(l) is Ok,
    ensures
        layout(l.drop_last()) is Ok,
{
}

pub proof fn lemma_data_walk_ok_relined(pc: int, i1: Seq<TokenView>, i2: Seq<TokenView>, k: int, n1: usize, n2: usize)
    requires
        relined(i1, i2),
        0 <= pc <= 0x10000,
        k <= i1.len(),
        data_walk(pc, i1, k, n1) is Ok,
    ensures
        data_walk(pc, i2, k, n2) is Ok,
    decreases k,
{
    if k > 0 {
        lemma_data_walk_ok_relined(pc, i1, i2, k - 1, n1, n2);
        lemma_data_walk_moved(pc, 0, i1, i2, k - 1, n1, n2);
        assert(same_but_line(i1[k - 1], i2[k - 1]));
    }
}

/// A line that a walk places, read from another line by a walk at the same
/// state, is placed too.
pub proof fn lemma_place_line_ok_relined(s1: Layout, s2: Layout, t1: Seq<TokenView>, t2: Seq<TokenView>, n1: usize, n2: usize)
    requires
        shifted(s1, s2, 0),
        0 <= s1.pc <= 0x10000,
        relined(t1, t2),
        place_line(s1, t1, n1) is Ok,
    ensures
        place_line(s2, t2, n2) is Ok,
{
    if t1.len() > 0 {
        assert(same_but_line(t1[0], t2[0]));
        let a1 = t1.drop_first();
        let a2 = t2.drop_first();
        assert forall|i: int| 0 <= i < a1.len() implies same_but_line(#[trigger] a1[i], a2[i]) by {
            assert(same_but_line(t1[i + 1], t2[i + 1]));
        }
        match t1[0].kind {
            TokenKind::Instruction(_) => {
                lemma_relined_operands(a1, a2);
            },
            TokenKind::Label => {
                lemma_lookup_moved(s1.labels, s2.labels, 0, crate::assembler::label_name(t1[0].raw));
            },
            TokenKind::DataMarker => {
                lemma_data_walk_ok_relined(s1.pc, a1, a2, a1.len() as int, n1, n2);
            },
            _ => {},
        }
    }
}

pub proof fn lemma_data_walk_ok_shift(pc: int, d: int, i1: Seq<TokenView>, i2: Seq<TokenView>, k: int, n1: usize, n2: usize)
    requires
        relined(i1, i2),
        0 <= pc,
        0 <= d,
        pc + d <= 0x10000,
        k <= i1.len(),
        data_walk(pc, i1, k, n1) is Ok,
        data_walk(pc, i1, k, n1)->Ok_0.pc + d <= 0x10000,
    ensures
        data_walk(pc + d, i2, k, n2) is Ok,
    decreases k,
{
    if k > 0 {
        lemma_data_walk_ok_shift(pc, d, i1, i2, k - 1, n1, n2);
        lemma_data_walk_moved(pc, d, i1, i2, k - 1, n1, n2);
        assert(same_but_line(i1[k - 1], i2[k - 1]));
    }
}

/// A line that the first walk places without passing `0x10000 - d`, the
/// second walk, `d` bytes further on, places too.
pub proof fn lemma_place_line_ok_shift(
    s1: Layout,
    s2: Layout,
    t1: Seq<TokenView>,
    t2: Seq<TokenView>,
    n1: usize,
    n2: usize,
    d: int,
)
    requires
        shifted(s1, s2, d),
        0 <= s1.pc <= 0x10000,
        0 <= d,
        relined(t1, t2),
        place_line(s1, t1, n1) is Ok,
        place_line(s1, t1, n1)->Ok_0.pc + d <= 0x10000,
        forall|i: int| 0 <= i < place_line(s1, t1, n1)->Ok_0.labels.len()
            ==> #[trigger] place_line(s1, t1, n1)->Ok_0.labels[i].1 + d <= 0xFFFF,
    ensures
        place_line(s2, t2, n2) is Ok,
{
    if t1.len() > 0 {
        assert(same_but_line(t1[0], t2[0]));
        let a1 = t1.drop_first();
        let a2 = t2.drop_first();
        assert forall|i: int| 0 <= i < a1.len() implies same_but_line(#[trigger] a1[i], a2[i]) by {
            assert(same_but_line(t1[i + 1], t2[i + 1]));
        }
        let r1 = place_line(s1, t1, n1)->Ok_0;
        match t1[0].kind {
            TokenKind::Instruction(_) => {
                lemma_relined_operands(a1, a2);
            },
            TokenKind::Label => {
                lemma_lookup_moved(s1.labels, s2.labels, d, crate::assembler::label_name(t1[0].raw));
                assert(r1.labels[r1.labels.len() - 1].1 + d <= 0xFFFF);
            },
            TokenKind::DataMarker => {
                lemma_data_walk_fits(s1.pc, a1, a1.len() as int, n1);
                lemma_data_walk_ok_shift(s1.pc, d, a1, a2, a1.len() as int, n1, n2);
            },
            _ => {},
        }
    }
}

/// Without origin directives a walk never moves back, and only adds labels.
pub proof fn lemma_place_line_grows(s: Layout, t: Seq<TokenView>, n: usize)
    requires
        0 <= s.pc <= 0x10000,
        t.len() == 0 || t[0].kind != TokenKind::OriginMarker,
        place_line(s, t, n) is Ok,
    ensures
        s.pc <= place_line(s, t, n)->Ok_0.pc,
        s.labels.len() <= place_line(s, t, n)->Ok_0.labels.len(),
        forall|i: int| 0 <= i < s.labels.len() ==> #[trigger] s.labels[i] == place_line(s, t, n)->Ok_0.labels[i],
{
    if t.len() > 0 && t[0].kind == TokenKind::DataMarker {
        lemma_data_walk_fits(s.pc, t.drop_first(), t.drop_first().len() as int, n);
    }
}

/// The walk after an origin line to `d` succeeds where the walk from `0x0000`
/// ends at most at `0x10000 - d` and binds no label past `0xFFFF - d`.
pub proof fn lemma_layout_ok_shift(l1: Seq<Seq<TokenView>>, l2: Seq<Seq<TokenView>>, d: int)
    requires
        l2.len() == l1.len() + 1,
        0 <= d <= 0xFFFF,
        layout(l2.subrange(0, 1)) == Ok::<Layout, AsmError>(Layout { pc: d, items: seq![], labels: seq![] }),
        forall|i: int| 0 <= i < l1.len() ==> relined(#[trigger] l1[i], l2[i + 1]),
        forall|i: int| 0 <= i < l1.len() ==> (#[trigger] l1[i]).len() == 0 || l1[i][0].kind != TokenKind::OriginMarker,
        layout(l1) is Ok,
        layout(l1)->Ok_0.pc + d <= 0x10000,
        forall|i: int| 0 <= i < layout(l1)->Ok_0.labels.len() ==> #[trigger] layout(l1)->Ok_0.labels[i].1 + d <= 0xFFFF,
    ensures
        layout(l2) is Ok,
    decreases l1.len(),
{
    if l1.len() == 0 {
        assert(l2 =~= l2.subrange(0, 1));
    } else {
        let n = l1.len() - 1;
        assert(l2.drop_last().subrange(0, 1) =~= l2.subrange(0, 1));
        assert forall|i: int| 0 <= i < n implies relined(#[trigger] l1.drop_last()[i], l2.drop_last()[i + 1]) by {
            assert(relined(l1[i], l2[i + 1]));
        }
        assert forall|i: int| 0 <= i < n implies (#[trigger] l1.drop_last()[i]).len() == 0
            || l1.drop_last()[i][0].kind != TokenKind::OriginMarker by {
            assert(l1.drop_last()[i] == l1[i]);
        }
        lemma_layout_prefix_ok(l1);
        let s1 = layout(l1.drop_last())->Ok_0;
        let r1 = layout(l1)->Ok_0;
        assert(l1[n].len() == 0 || l1[n][0].kind != TokenKind::OriginMarker);
        lemma_layout_fits(l1.drop_last());
        lemma_place_line_grows(s1, l1.last(), l1.len() as usize);
        assert forall|i: int| 0 <= i < s1.labels.len() implies #[trigger] s1.labels[i].1 + d <= 0xFFFF by {
            assert(s1.labels[i] == r1.labels[i]);
        }
        lemma_layout_ok_shift(l1.drop_last(), l2.drop_last(), d);
        lemma_layout_moved(l1.drop_last(), l2.drop_last(), d);
        lemma_layout_fits(l1.drop_last());
        assert(relined(l1[n], l2[n + 1]));
        lemma_place_line_ok_shift(
            s1,
            layout(l2.drop_last())->Ok_0,
            l1.last(),
            l2.last(),
            l1.len() as usize,
            l2.len() as usize,
            d,
        );
    }
}

pub proof fn lemma_relined_symmetric(xs: Seq<TokenView>, ys: Seq<TokenView>)
    requires
        relined(xs, ys),
    ensures
        relined(ys, xs),
{
    assert forall|i: int| 0 <= i < ys.len() implies same_but_line(#[trigger] ys[i], xs[i]) by {
        assert(same_but_line(xs[i], ys[i]));
    }
}

pub proof fn lemma_shifted_symmetric(s1: Layout, s2: Layout)
    requires
        shifted(s1, s2, 0),
    ensures
        shifted(s2, s1, 0),
{
    assert forall|i: int| 0 <= i < s2.items.len() implies moved(#[trigger] s2.items[i], s1.items[i], 0) by {
        assert(moved(s1.items[i], s2.items[i], 0));
    }
    assert forall|i: int| 0 <= i < s2.labels.len() implies (#[trigger] s1.labels[i]).0 == s2.labels[i].0
        && s1.labels[i].1 == s2.labels[i].1 + 0 by {
        assert(s2.labels[i].0 == s1.labels[i].0);
    }
}

/// Taking a blank line out of lexed lines leaves a walk that succeeds where
/// the walk with it did, the source lines of the tokens aside.
pub proof fn lemma_layout_removed(l1: Seq<Seq<TokenView>>, l2: Seq<Seq<TokenView>>, i: int)
    requires
        l2.len() == l1.len() + 1,
        0 <= i <= l1.len(),
        forall|k: int| 0 <= k < i ==> #[trigger] l2[k] == l1[k],
        l2[i].len() == 0,
        forall|k: int| i <= k < l1.len() ==> relined(#[trigger] l1[k], l2[k + 1]),
        layout(l2) is Ok,
    ensures
        layout(l1) is Ok,
    decreases l1.len(),
{
    if l1.len() == i {
        assert(l2.drop_last() =~= l1);
    } else {
        let n = l1.len() - 1;
        assert forall|k: int| 0 <= k < i implies #[trigger] l2.drop_last()[k] == l1.drop_last()[k] by {
            assert(l2[k] == l1[k]);
        }
        assert forall|k: int| i <= k < n implies relined(#[trigger] l1.drop_last()[k], l2.drop_last()[k + 1]) by {
            assert(relined(l1[k], l2[k + 1]));
        }
        assert(l2.drop_last()[i] == l2[i]);
        lemma_layout_prefix_ok(l2);
        lemma_layout_removed(l1.drop_last(), l2.drop_last(), i);
        lemma_layout_inserted(l1.drop_last(), l2.drop_last(), i);
        lemma_layout_fits(l2.drop_last());
        lemma_shifted_symmetric(layout(l1.drop_last())->Ok_0, layout(l2.drop_last())->Ok_0);
        assert(relined(l1[n], l2[n + 1]));
        lemma_relined_symmetric(l1[n], l2[n + 1]);
        lemma_place_line_ok_relined(
            layout(l2.drop_last())->Ok_0,
            layout(l1.drop_last())->Ok_0,
            l2.last(),
            l1.last(),
            l2.len() as usize,
            l1.len() as usize,
        );
    }
}

} // verus!
