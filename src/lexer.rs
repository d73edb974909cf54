//! The lexer: source text to lines, lines to words, words to tokens.
use vstd::prelude::*;
use crate::error::AsmError;
use crate::token::{Flag, Mnemonic, Reg, Token, TokenKind, TokenView, to_upper, upper_seq};

verus! {

/// Whether two byte strings are equal.
pub fn same_bytes(u: &[u8], name: &[u8]) -> (r: bool)
    ensures
        r == (u@ == name@),
{
    if u.len() != name.len() {
        return false;
    }
    let mut i: usize = 0;
    while i < u.len()
        invariant
            i <= u.len(),
            u.len() == name.len(),
            u@.subrange(0, i as int) == name@.subrange(0, i as int),
        decreases u.len() - i,
    {
        if u[i] != name[i] {
            assert(u@[i as int] != name@[i as int]);
            return false;
        }
        assert(u@.subrange(0, i + 1) =~= u@.subrange(0, i as int).push(u@[i as int]));
        assert(name@.subrange(0, i + 1) =~= name@.subrange(0, i as int).push(name@[i as int]));
        i = i + 1;
    }
    assert(u@ =~= u@.subrange(0, i as int));
    assert(name@ =~= name@.subrange(0, i as int));
    true
}

/// The register that an upper-case word names.
pub open spec fn register_named(u: Seq<u8>) -> Option<Reg> {
    if u == seq!['A' as u8] {
        Some(Reg::A)
    } else if u == seq!['B' as u8] {
        Some(Reg::B)
    } else if u == seq!['H' as u8, 'I' as u8] {
        Some(Reg::Hi)
    } else if u == seq!['L' as u8, 'I' as u8] {
        Some(Reg::Li)
    } else if u == seq!['A' as u8, 'B' as u8] {
        Some(Reg::Ab)
    } else if u == seq!['H' as u8, 'L' as u8, 'I' as u8] {
        Some(Reg::Hli)
    } else if u == seq!['E' as u8, 'X' as u8] {
        Some(Reg::Ex)
    } else if u == seq!['I' as u8, 'R' as u8, 'A' as u8] {
        Some(Reg::Ira)
    } else if u == seq!['S' as u8] {
        Some(Reg::S)
    } else if u == seq!['S' as u8, 'A' as u8] {
        Some(Reg::Sa)
    } else if u == seq!['S' as u8, 'S' as u8] {
        Some(Reg::Ss)
    } else {
        None
    }
}

/// The register that an upper-case word names, if any.
pub fn find_register(u: &[u8]) -> (r: Option<Reg>)
    ensures
        r == register_named(u@),
{
    let name: &[u8] = &['A' as u8];
    assert(name@ =~= seq!['A' as u8]);
    if same_bytes(u, name) {
        return Some(Reg::A);
    }
    let name: &[u8] = &['B' as u8];
    assert(name@ =~= seq!['B' as u8]);
    if same_bytes(u, name) {
        return Some(Reg::B);
    }
    let name: &[u8] = &['H' as u8, 'I' as u8];
    assert(name@ =~= seq!['H' as u8, 'I' as u8]);
    if same_bytes(u, name) {
        return Some(Reg::Hi);
    }
    let name: &[u8] = &['L' as u8, 'I' as u8];
    assert(name@ =~= seq!['L' as u8, 'I' as u8]);
    if same_bytes(u, name) {
        return Some(Reg::Li);
    }
    let name: &[u8] = &['A' as u8, 'B' as u8];
    assert(name@ =~= seq!['A' as u8, 'B' as u8]);
    if same_bytes(u, name) {
        return Some(Reg::Ab);
    }
    let name: &[u8] = &['H' as u8, 'L' as u8, 'I' as u8];
    assert(name@ =~= seq!['H' as u8, 'L' as u8, 'I' as u8]);
    if same_bytes(u, name) {
        return Some(Reg::Hli);
    }
    let name: &[u8] = &['E' as u8, 'X' as u8];
    assert(name@ =~= seq!['E' as u8, 'X' as u8]);
    if same_bytes(u, name) {
        return Some(Reg::Ex);
    }
    let name: &[u8] = &['I' as u8, 'R' as u8, 'A' as u8];
    assert(name@ =~= seq!['I' as u8, 'R' as u8, 'A' as u8]);
    if same_bytes(u, name) {
        return Some(Reg::Ira);
    }
    let name: &[u8] = &['S' as u8];
    assert(name@ =~= seq!['S' as u8]);
    if same_bytes(u, name) {
        return Some(Reg::S);
    }
    let name: &[u8] = &['S' as u8, 'A' as u8];
    assert(name@ =~= seq!['S' as u8, 'A' as u8]);
    if same_bytes(u, name) {
        return Some(Reg::Sa);
    }
    let name: &[u8] = &['S' as u8, 'S' as u8];
    assert(name@ =~= seq!['S' as u8, 'S' as u8]);
    if same_bytes(u, name) {
        return Some(Reg::Ss);
    }
    None
}

/// The flag that an upper-case word names.
pub open spec fn flag_named(u: Seq<u8>) -> Option<Flag> {
    if u == seq!['E' as u8, 'R' as u8, 'R' as u8] {
        Some(Flag::Error)
    } else if u == seq!['I' as u8, 'R' as u8, 'Q' as u8] {
        Some(Flag::Interrupt)
    } else if u == seq!['O' as u8, 'K' as u8] {
        Some(Flag::Success)
    } else if u == seq!['O' as u8, 'V' as u8, 'F' as u8] {
        Some(Flag::Overflow)
    } else if u == seq!['Z' as u8, 'E' as u8, 'R' as u8] {
        Some(Flag::Zero)
    } else {
        None
    }
}

/// The flag that an upper-case word names, if any.
pub fn find_flag(u: &[u8]) -> (r: Option<Flag>)
    ensures
        r == flag_named(u@),
{
    let name: &[u8] = &['E' as u8, 'R' as u8, 'R' as u8];
    assert(name@ =~= seq!['E' as u8, 'R' as u8, 'R' as u8]);
    if same_bytes(u, name) {
        return Some(Flag::Error);
    }
    let name: &[u8] = &['I' as u8, 'R' as u8, 'Q' as u8];
    assert(name@ =~= seq!['I' as u8, 'R' as u8, 'Q' as u8]);
    if same_bytes(u, name) {
        return Some(Flag::Interrupt);
    }
    let name: &[u8] = &['O' as u8, 'K' as u8];
    assert(name@ =~= seq!['O' as u8, 'K' as u8]);
    if same_bytes(u, name) {
        return Some(Flag::Success);
    }
    let name: &[u8] = &['O' as u8, 'V' as u8, 'F' as u8];
    assert(name@ =~= seq!['O' as u8, 'V' as u8, 'F' as u8]);
    if same_bytes(u, name) {
        return Some(Flag::Overflow);
    }
    let name: &[u8] = &['Z' as u8, 'E' as u8, 'R' as u8];
    assert(name@ =~= seq!['Z' as u8, 'E' as u8, 'R' as u8]);
    if same_bytes(u, name) {
        return Some(Flag::Zero);
    }
    None
}

/// The mnemonic that an upper-case word names.
pub open spec fn mnemonic_named(u: Seq<u8>) -> Option<Mnemonic> {
    if u == seq!['N' as u8, 'O' as u8, 'O' as u8, 'P' as u8] {
        Some(Mnemonic::Noop)
    } else if u == seq!['P' as u8, 'U' as u8, 'S' as u8, 'H' as u8] {
        Some(Mnemonic::Push)
    } else if u == seq!['P' as u8, 'O' as u8, 'P' as u8] {
        Some(Mnemonic::Pop)
    } else if u == seq!['P' as u8, 'E' as u8, 'E' as u8, 'K' as u8] {
        Some(Mnemonic::Peek)
    } else if u == seq!['S' as u8, 'T' as u8, 'O' as u8] {
        Some(Mnemonic::Sto)
    } else if u == seq!['A' as u8, 'D' as u8, 'D' as u8] {
        Some(Mnemonic::Add)
    } else if u == seq!['S' as u8, 'U' as u8, 'B' as u8] {
        Some(Mnemonic::Sub)
    } else if u == seq!['S' as u8, 'H' as u8, 'L' as u8] {
        Some(Mnemonic::Shl)
    } else if u == seq!['S' as u8, 'H' as u8, 'R' as u8] {
        Some(Mnemonic::Shr)
    } else if u == seq!['A' as u8, 'N' as u8, 'D' as u8] {
        Some(Mnemonic::And)
    } else if u == seq!['O' as u8, 'R' as u8] {
        Some(Mnemonic::Or)
    } else if u == seq!['X' as u8, 'O' as u8, 'R' as u8] {
        Some(Mnemonic::Xor)
    } else if u == seq!['N' as u8, 'O' as u8, 'T' as u8] {
        Some(Mnemonic::Not)
    } else if u == seq!['C' as u8, 'M' as u8, 'P' as u8] {
        Some(Mnemonic::Cmp)
    } else if u == seq!['I' as u8, 'N' as u8, 'C' as u8] {
        Some(Mnemonic::Inc)
    } else if u == seq!['D' as u8, 'E' as u8, 'C' as u8] {
        Some(Mnemonic::Dec)
    } else if u == seq!['Z' as u8, 'E' as u8, 'R' as u8, 'O' as u8] {
        Some(Mnemonic::Zero)
    } else if u == seq!['S' as u8, 'W' as u8, 'P' as u8] {
        Some(Mnemonic::Swp)
    } else if u == seq!['J' as u8, 'Z' as u8, 'E' as u8] {
        Some(Mnemonic::Jze)
    } else if u == seq!['J' as u8, 'O' as u8, 'F' as u8] {
        Some(Mnemonic::Jof)
    } else if u == seq!['J' as u8, 'E' as u8, 'R' as u8] {
        Some(Mnemonic::Jer)
    } else if u == seq!['J' as u8, 'O' as u8, 'K' as u8] {
        Some(Mnemonic::Jok)
    } else if u == seq!['J' as u8, 'M' as u8, 'P' as u8] {
        Some(Mnemonic::Jmp)
    } else if u == seq!['C' as u8, 'A' as u8, 'L' as u8, 'L' as u8] {
        Some(Mnemonic::Call)
    } else if u == seq!['R' as u8, 'E' as u8, 'T' as u8] {
        Some(Mnemonic::Ret)
    } else if u == seq!['S' as u8, 'E' as u8, 'T' as u8] {
        Some(Mnemonic::SetFlag)
    } else if u == seq!['C' as u8, 'L' as u8, 'R' as u8] {
        Some(Mnemonic::Clr)
    } else if u == seq!['H' as u8, 'A' as u8, 'L' as u8, 'T' as u8] {
        Some(Mnemonic::Halt)
    } else {
        None
    }
}

/// The mnemonic that an upper-case word names, if any.
pub fn find_mnemonic(u: &[u8]) -> (r: Option<Mnemonic>)
    ensures
        r == mnemonic_named(u@),
{
    let name: &[u8] = &['N' as u8, 'O' as u8, 'O' as u8, 'P' as u8];
    assert(name@ =~= seq!['N' as u8, 'O' as u8, 'O' as u8, 'P' as u8]);
    if same_bytes(u, name) {
        return Some(Mnemonic::Noop);
    }
    let name: &[u8] = &['P' as u8, 'U' as u8, 'S' as u8, 'H' as u8];
    assert(name@ =~= seq!['P' as u8, 'U' as u8, 'S' as u8, 'H' as u8]);
    if same_bytes(u, name) {
        return Some(Mnemonic::Push);
    }
    let name: &[u8] = &['P' as u8, 'O' as u8, 'P' as u8];
    assert(name@ =~= seq!['P' as u8, 'O' as u8, 'P' as u8]);
    if same_bytes(u, name) {
        return Some(Mnemonic::Pop);
    }
    let name: &[u8] = &['P' as u8, 'E' as u8, 'E' as u8, 'K' as u8];
    assert(name@ =~= seq!['P' as u8, 'E' as u8, 'E' as u8, 'K' as u8]);
    if same_bytes(u, name) {
        return Some(Mnemonic::Peek);
    }
    let name: &[u8] = &['S' as u8, 'T' as u8, 'O' as u8];
    assert(name@ =~= seq!['S' as u8, 'T' as u8, 'O' as u8]);
    if same_bytes(u, name) {
        return Some(Mnemonic::Sto);
    }
    let name: &[u8] = &['A' as u8, 'D' as u8, 'D' as u8];
    assert(name@ =~= seq!['A' as u8, 'D' as u8, 'D' as u8]);
    if same_bytes(u, name) {
        return Some(Mnemonic::Add);
    }
    let name: &[u8] = &['S' as u8, 'U' as u8, 'B' as u8];
    assert(name@ =~= seq!['S' as u8, 'U' as u8, 'B' as u8]);
    if same_bytes(u, name) {
        return Some(Mnemonic::Sub);
    }
    let name: &[u8] = &['S' as u8, 'H' as u8, 'L' as u8];
    assert(name@ =~= seq!['S' as u8, 'H' as u8, 'L' as u8]);
    if same_bytes(u, name) {
        return Some(Mnemonic::Shl);
    }
    let name: &[u8] = &['S' as u8, 'H' as u8, 'R' as u8];
    assert(name@ =~= seq!['S' as u8, 'H' as u8, 'R' as u8]);
    if same_bytes(u, name) {
        return Some(Mnemonic::Shr);
    }
    let name: &[u8] = &['A' as u8, 'N' as u8, 'D' as u8];
    assert(name@ =~= seq!['A' as u8, 'N' as u8, 'D' as u8]);
    if same_bytes(u, name) {
        return Some(Mnemonic::And);
    }
    let name: &[u8] = &['O' as u8, 'R' as u8];
    assert(name@ =~= seq!['O' as u8, 'R' as u8]);
    if same_bytes(u, name) {
        return Some(Mnemonic::Or);
    }
    let name: &[u8] = &['X' as u8, 'O' as u8, 'R' as u8];
    assert(name@ =~= seq!['X' as u8, 'O' as u8, 'R' as u8]);
    if same_bytes(u, name) {
        return Some(Mnemonic::Xor);
    }
    let name: &[u8] = &['N' as u8, 'O' as u8, 'T' as u8];
    assert(name@ =~= seq!['N' as u8, 'O' as u8, 'T' as u8]);
    if same_bytes(u, name) {
        return Some(Mnemonic::Not);
    }
    let name: &[u8] = &['C' as u8, 'M' as u8, 'P' as u8];
    assert(name@ =~= seq!['C' as u8, 'M' as u8, 'P' as u8]);
    if same_bytes(u, name) {
        return Some(Mnemonic::Cmp);
    }
    let name: &[u8] = &['I' as u8, 'N' as u8, 'C' as u8];
    assert(name@ =~= seq!['I' as u8, 'N' as u8, 'C' as u8]);
    if same_bytes(u, name) {
        return Some(Mnemonic::Inc);
    }
    let name: &[u8] = &['D' as u8, 'E' as u8, 'C' as u8];
    assert(name@ =~= seq!['D' as u8, 'E' as u8, 'C' as u8]);
    if same_bytes(u, name) {
        return Some(Mnemonic::Dec);
    }
    let name: &[u8] = &['Z' as u8, 'E' as u8, 'R' as u8, 'O' as u8];
    assert(name@ =~= seq!['Z' as u8, 'E' as u8, 'R' as u8, 'O' as u8]);
    if same_bytes(u, name) {
        return Some(Mnemonic::Zero);
    }
    let name: &[u8] = &['S' as u8, 'W' as u8, 'P' as u8];
    assert(name@ =~= seq!['S' as u8, 'W' as u8, 'P' as u8]);
    if same_bytes(u, name) {
        return Some(Mnemonic::Swp);
    }
    let name: &[u8] = &['J' as u8, 'Z' as u8, 'E' as u8];
    assert(name@ =~= seq!['J' as u8, 'Z' as u8, 'E' as u8]);
    if same_bytes(u, name) {
        return Some(Mnemonic::Jze);
    }
    let name: &[u8] = &['J' as u8, 'O' as u8, 'F' as u8];
    assert(name@ =~= seq!['J' as u8, 'O' as u8, 'F' as u8]);
    if same_bytes(u, name) {
        return Some(Mnemonic::Jof);
    }
    let name: &[u8] = &['J' as u8, 'E' as u8, 'R' as u8];
    assert(name@ =~= seq!['J' as u8, 'E' as u8, 'R' as u8]);
    if same_bytes(u, name) {
        return Some(Mnemonic::Jer);
    }
    let name: &[u8] = &['J' as u8, 'O' as u8, 'K' as u8];
    assert(name@ =~= seq!['J' as u8, 'O' as u8, 'K' as u8]);
    if same_bytes(u, name) {
        return Some(Mnemonic::Jok);
    }
    let name: &[u8] = &['J' as u8, 'M' as u8, 'P' as u8];
    assert(name@ =~= seq!['J' as u8, 'M' as u8, 'P' as u8]);
    if same_bytes(u, name) {
        return Some(Mnemonic::Jmp);
    }
    let name: &[u8] = &['C' as u8, 'A' as u8, 'L' as u8, 'L' as u8];
    assert(name@ =~= seq!['C' as u8, 'A' as u8, 'L' as u8, 'L' as u8]);
    if same_bytes(u, name) {
        return Some(Mnemonic::Call);
    }
    let name: &[u8] = &['R' as u8, 'E' as u8, 'T' as u8];
    assert(name@ =~= seq!['R' as u8, 'E' as u8, 'T' as u8]);
    if same_bytes(u, name) {
        return Some(Mnemonic::Ret);
    }
    let name: &[u8] = &['S' as u8, 'E' as u8, 'T' as u8];
    assert(name@ =~= seq!['S' as u8, 'E' as u8, 'T' as u8]);
    if same_bytes(u, name) {
        return Some(Mnemonic::SetFlag);
    }
    let name: &[u8] = &['C' as u8, 'L' as u8, 'R' as u8];
    assert(name@ =~= seq!['C' as u8, 'L' as u8, 'R' as u8]);
    if same_bytes(u, name) {
        return Some(Mnemonic::Clr);
    }
    let name: &[u8] = &['H' as u8, 'A' as u8, 'L' as u8, 'T' as u8];
    assert(name@ =~= seq!['H' as u8, 'A' as u8, 'L' as u8, 'T' as u8]);
    if same_bytes(u, name) {
        return Some(Mnemonic::Halt);
    }
    None
}


pub open spec fn is_space(c: u8) -> bool {
    c == 32 || c == 9 || c == 10 || c == 12 || c == 13
}

pub open spec fn views(v: Seq<Vec<u8>>) -> Seq<Seq<u8>> {
    v.map_values(|x: Vec<u8>| x@)
}

/// The source cut at each newline byte; `n` newlines give `n + 1` lines.
pub open spec fn lines_of(s: Seq<u8>) -> Seq<Seq<u8>>
    decreases s.len(),
{
    if s.len() == 0 {
        seq![Seq::empty()]
    } else {
        let prev = lines_of(s.drop_last());
        if s.last() == 10 {
            prev.push(Seq::empty())
        } else {
            prev.update(prev.len() - 1, prev.last().push(s.last()))
        }
    }
}

/// The maximal runs of non-whitespace bytes of a line, in order.
pub open spec fn words_of(s: Seq<u8>) -> Seq<Seq<u8>>
    decreases s.len(),
{
    if s.len() == 0 {
        seq![]
    } else {
        let prev = words_of(s.drop_last());
        if is_space(s.last()) {
            prev
        } else if s.len() >= 2 && !is_space(s[s.len() - 2]) {
            prev.update(prev.len() - 1, prev.last().push(s.last()))
        } else {
            prev.push(seq![s.last()])
        }
    }
}

/// The bytes of `s` from `a` up to `b`, copied.
pub fn copy_bytes(s: &[u8], a: usize, b: usize) -> (r: Vec<u8>)
    requires
        a <= b <= s.len(),
    ensures
        r@ == s@.subrange(a as int, b as int),
{
    let mut r: Vec<u8> = Vec::new();
    let mut i: usize = a;
    while i < b
        invariant
            a <= i <= b <= s.len(),
            r@ =~= s@.subrange(a as int, i as int),
        decreases b - i,
    {
        r.push(s[i]);
        i = i + 1;
        assert(r@ =~= s@.subrange(a as int, i as int));
    }
    r
}

/// Splits the source at each newline byte.
pub fn split_lines(s: &[u8]) -> (r: Vec<Vec<u8>>)
    ensures
        views(r@) == lines_of(s@),
{
    let mut done: Vec<Vec<u8>> = Vec::new();
    let mut start: usize = 0;
    let mut i: usize = 0;
    assert(s@.subrange(0, 0) =~= Seq::<u8>::empty());
    assert(views(done@).push(Seq::<u8>::empty()) =~= seq![Seq::<u8>::empty()]);
    while i < s.len()
        invariant
            start <= i <= s.len(),
            lines_of(s@.subrange(0, i as int)) == views(done@).push(s@.subrange(start as int, i as int)),
        decreases s.len() - i,
    {
        let ghost pre = s@.subrange(0, i as int);
        assert(s@.subrange(0, i + 1).drop_last() =~= pre);
        if s[i] == 10 {
            let line = copy_bytes(s, start, i);
            let ghost old_done = done@;
            done.push(line);
            assert(views(done@) =~= views(old_done).push(line@));
            start = i + 1;
            assert(s@.subrange(start as int, i + 1) =~= Seq::<u8>::empty());
        } else {
            assert(s@.subrange(start as int, i + 1) =~= s@.subrange(start as int, i as int).push(s[i as int]));
            assert(views(done@).push(s@.subrange(start as int, i + 1)) =~= views(done@).push(
                s@.subrange(start as int, i as int),
            ).update(views(done@).len() as int, s@.subrange(start as int, i as int).push(s[i as int])));
        }
        i = i + 1;
    }
    let line = copy_bytes(s, start, i);
    let ghost old_done = done@;
    done.push(line);
    assert(views(done@) =~= views(old_done).push(line@));
    assert(s@.subrange(0, i as int) =~= s@);
    done
}

/// Splits a line into its words.
pub fn split_words(s: &[u8]) -> (r: Vec<Vec<u8>>)
    ensures
        views(r@) == words_of(s@),
{
    let mut done: Vec<Vec<u8>> = Vec::new();
    let mut start: usize = 0;
    let mut in_word = false;
    let mut i: usize = 0;
    while i < s.len()
        invariant
            start <= i <= s.len(),
            in_word <==> (i > 0 && !is_space(s@[i - 1])),
            in_word ==> words_of(s@.subrange(0, i as int)) == views(done@).push(
                s@.subrange(start as int, i as int),
            ),
            !in_word ==> words_of(s@.subrange(0, i as int)) == views(done@),
        decreases s.len() - i,
    {
        let ghost pre = s@.subrange(0, i as int);
        let ghost cur = s@.subrange(0, i + 1);
        assert(cur.drop_last() =~= pre);
        assert(cur.last() == s@[i as int]);
        let c = s[i];
        if c == 32 || c == 9 || c == 10 || c == 12 || c == 13 {
            if in_word {
                let word = copy_bytes(s, start, i);
                let ghost old_done = done@;
                done.push(word);
                assert(views(done@) =~= views(old_done).push(word@));
            }
            in_word = false;
        } else if in_word {
            assert(cur[cur.len() - 2] == s@[i - 1]);
            assert(s@.subrange(start as int, i + 1) =~= s@.subrange(start as int, i as int).push(c));
            assert(views(done@).push(s@.subrange(start as int, i + 1)) =~= views(done@).push(
                s@.subrange(start as int, i as int),
            ).update(views(done@).len() as int, s@.subrange(start as int, i as int).push(c)));
        } else {
            if i > 0 {
                assert(cur[cur.len() - 2] == s@[i - 1]);
            }
            start = i;
            in_word = true;
            assert(s@.subrange(start as int, i + 1) =~= seq![c]);
        }
        i = i + 1;
    }
    if in_word {
        let word = copy_bytes(s, start, i);
        let ghost old_done = done@;
        done.push(word);
        assert(views(done@) =~= views(old_done).push(word@));
    }
    assert(s@.subrange(0, i as int) =~= s@);
    done
}

pub open spec fn is_hex_digit(c: u8) -> bool {
    ('0' as u8 <= c <= '9' as u8) || ('a' as u8 <= c <= 'f' as u8) || ('A' as u8 <= c <= 'F' as u8)
}

pub open spec fn digit_value(c: u8) -> int {
    if c <= '9' as u8 {
        c - '0' as u8
    } else if c >= 'a' as u8 {
        c - 'a' as u8 + 10
    } else {
        c - 'A' as u8 + 10
    }
}

pub open spec fn all_hex(s: Seq<u8>) -> bool {
    forall|i: int| 0 <= i < s.len() ==> is_hex_digit(s[i])
}

/// The number that hex digits denote, most significant first.
pub open spec fn hex_value(s: Seq<u8>) -> int
    decreases s.len(),
{
    if s.len() == 0 {
        0
    } else {
        hex_value(s.drop_last()) * 16 + digit_value(s.last())
    }
}

/// A 16-bit number in hex: one digit or more, worth at most `0xFFFF`.
pub open spec fn hex_number(s: Seq<u8>) -> Option<u16> {
    if s.len() > 0 && all_hex(s) && hex_value(s) <= 0xFFFF {
        Some(hex_value(s) as u16)
    } else {
        None
    }
}

proof fn lemma_hex_value_grows(s: Seq<u8>, k: int)
    requires
        0 <= k <= s.len(),
        all_hex(s),
    ensures
        0 <= hex_value(s.subrange(0, k)) <= hex_value(s),
    decreases s.len(),
{
    if k == s.len() {
        assert(s.subrange(0, k) =~= s);
        if s.len() > 0 {
            lemma_hex_value_grows(s.drop_last(), k - 1);
        }
    } else {
        lemma_hex_value_grows(s.drop_last(), k);
        assert(s.drop_last().subrange(0, k) =~= s.subrange(0, k));
    }
}

/// Reads the hex digits of `w` from `start` to its end as a 16-bit number.
pub fn parse_hex(w: &[u8], start: usize) -> (r: Option<u16>)
    requires
        start <= w.len(),
    ensures
        r == hex_number(w@.subrange(start as int, w.len() as int)),
{
    let ghost digits = w@.subrange(start as int, w.len() as int);
    if start == w.len() {
        return None;
    }
    let mut acc: u32 = 0;
    let mut i: usize = start;
    while i < w.len()
        invariant
            start <= i <= w.len(),
            digits == w@.subrange(start as int, w.len() as int),
            all_hex(w@.subrange(start as int, i as int)),
            acc == hex_value(w@.subrange(start as int, i as int)),
            acc <= 0xFFFF,
        decreases w.len() - i,
    {
        let c = w[i];
        let d: u32 = if '0' as u8 <= c && c <= '9' as u8 {
            (c - '0' as u8) as u32
        } else if 'a' as u8 <= c && c <= 'f' as u8 {
            (c - 'a' as u8 + 10) as u32
        } else if 'A' as u8 <= c && c <= 'F' as u8 {
            (c - 'A' as u8 + 10) as u32
        } else {
            assert(!is_hex_digit(digits[i - start]));
            return None;
        };
        let ghost next = w@.subrange(start as int, i + 1);
        assert(next.drop_last() =~= w@.subrange(start as int, i as int));
        acc = acc * 16 + d;
        i = i + 1;
        assert(all_hex(w@.subrange(start as int, i as int))) by {
            assert forall|j: int| 0 <= j < next.len() implies is_hex_digit(next[j]) by {
                if j < next.len() - 1 {
                    assert(next[j] == w@.subrange(start as int, i - 1)[j]);
                }
            }
        }
        if acc > 0xFFFF {
            proof {
                if all_hex(digits) {
                    lemma_hex_value_grows(digits, i - start);
                    assert(digits.subrange(0, i - start) =~= next);
                }
            }
            return None;
        }
    }
    assert(w@.subrange(start as int, i as int) =~= digits);
    Some(acc as u16)
}

pub open spec fn lexeme(kind: TokenKind, w: Seq<u8>, value: Option<u16>, line: usize) -> TokenView {
    TokenView { kind, raw: w, value, address: None, opcode: None, line }
}

/// `0x` (either case) at position `at` of an upper-cased word.
pub open spec fn hex_prefix_at(u: Seq<u8>, at: int) -> bool {
    u.len() >= at + 2 && u[at] == '0' as u8 && u[at + 1] == 'X' as u8
}

/// How a word is classified; `None` where a numeric word is malformed.
/// Keywords are matched without regard to case; the tests are tried in order.
pub open spec fn word_token(w: Seq<u8>, line: usize) -> Option<TokenView> {
    let u = upper_seq(w);
    if register_named(u) is Some {
        Some(lexeme(TokenKind::Register(register_named(u)->0), w, None, line))
    } else if hex_prefix_at(u, 0) {
        match hex_number(w.subrange(2, w.len() as int)) {
            Some(v) => Some(
                lexeme(
                    if w.len() <= 5 && v <= 0xFF {
                        TokenKind::Imm8
                    } else {
                        TokenKind::Imm16
                    },
                    w,
                    Some(v),
                    line,
                ),
            ),
            None => None,
        }
    } else if w.len() > 0 && w[0] == '*' as u8 {
        Some(lexeme(TokenKind::Imm16, w, None, line))
    } else if u == seq!['&' as u8, 'H' as u8, 'L' as u8, 'I' as u8] {
        Some(lexeme(TokenKind::Indirection, w, None, line))
    } else if w.len() > 0 && w[0] == '&' as u8 {
        if hex_prefix_at(u, 1) {
            match hex_number(w.subrange(3, w.len() as int)) {
                Some(v) => Some(lexeme(TokenKind::Address, w, Some(v), line)),
                None => None,
            }
        } else {
            None
        }
    } else if w == seq!['$' as u8] {
        Some(lexeme(TokenKind::DataMarker, w, None, line))
    } else if w == seq!['>' as u8] {
        Some(lexeme(TokenKind::OriginMarker, w, None, line))
    } else if w == seq!['/' as u8, '/' as u8] {
        Some(lexeme(TokenKind::CommentMarker, w, None, line))
    } else if flag_named(u) is Some {
        Some(lexeme(TokenKind::Flag(flag_named(u)->0), w, None, line))
    } else if mnemonic_named(u) is Some {
        Some(lexeme(TokenKind::Instruction(mnemonic_named(u)->0), w, None, line))
    } else if w.len() > 0 && w.last() == ':' as u8 {
        Some(lexeme(TokenKind::Label, w, None, line))
    } else {
        Some(lexeme(TokenKind::Text, w, None, line))
    }
}

fn plain(kind: TokenKind, w: &[u8], value: Option<u16>, line: usize) -> (t: Token)
    ensures
        t@ == lexeme(kind, w@, value, line),
{
    let raw = copy_bytes(w, 0, w.len());
    assert(raw@ =~= w@);
    Token { kind, raw, value, address: None, opcode: None, line }
}

/// Classifies one word; `None` where it is a malformed number or address.
pub fn lex_word(w: &[u8], line: usize) -> (r: Option<Token>)
    ensures
        match r {
            Some(t) => word_token(w@, line) == Some(t@),
            None => word_token(w@, line) is None,
        },
{
    proof {
        assert(w@.subrange(0, w.len() as int) =~= w@);
    }
    let u = to_upper(w);
    let ghost uv = upper_seq(w@);
    if let Some(reg) = find_register(&u) {
        return Some(plain(TokenKind::Register(reg), w, None, line));
    }
    if u.len() >= 2 && u[0] == '0' as u8 && u[1] == 'X' as u8 {
        return match parse_hex(w, 2) {
            Some(v) => {
                let kind = if w.len() <= 5 && v <= 0xFF {
                    TokenKind::Imm8
                } else {
                    TokenKind::Imm16
                };
                Some(plain(kind, w, Some(v), line))
            },
            None => None,
        };
    }
    if w.len() > 0 && w[0] == '*' as u8 {
        return Some(plain(TokenKind::Imm16, w, None, line));
    }
    let name: &[u8] = &['&' as u8, 'H' as u8, 'L' as u8, 'I' as u8];
    assert(name@ =~= seq!['&' as u8, 'H' as u8, 'L' as u8, 'I' as u8]);
    if same_bytes(&u, name) {
        return Some(plain(TokenKind::Indirection, w, None, line));
    }
    if w.len() > 0 && w[0] == '&' as u8 {
        if u.len() >= 3 && u[1] == '0' as u8 && u[2] == 'X' as u8 {
            return match parse_hex(w, 3) {
                Some(v) => Some(plain(TokenKind::Address, w, Some(v), line)),
                None => None,
            };
        }
        return None;
    }
    let name: &[u8] = &['$' as u8];
    assert(name@ =~= seq!['$' as u8]);
    if same_bytes(w, name) {
        return Some(plain(TokenKind::DataMarker, w, None, line));
    }
    let name: &[u8] = &['>' as u8];
    assert(name@ =~= seq!['>' as u8]);
    if same_bytes(w, name) {
        return Some(plain(TokenKind::OriginMarker, w, None, line));
    }
    let name: &[u8] = &['/' as u8, '/' as u8];
    assert(name@ =~= seq!['/' as u8, '/' as u8]);
    if same_bytes(w, name) {
        return Some(plain(TokenKind::CommentMarker, w, None, line));
    }
    if let Some(flag) = find_flag(&u) {
        return Some(plain(TokenKind::Flag(flag), w, None, line));
    }
    if let Some(m) = find_mnemonic(&u) {
        return Some(plain(TokenKind::Instruction(m), w, None, line));
    }
    if w.len() > 0 && w[w.len() - 1] == ':' as u8 {
        return Some(plain(TokenKind::Label, w, None, line));
    }
    Some(plain(TokenKind::Text, w, None, line))
}

pub open spec fn tviews(v: Seq<Token>) -> Seq<TokenView> {
    v.map_values(|t: Token| t@)
}

pub open spec fn line_views(v: Seq<Vec<Token>>) -> Seq<Seq<TokenView>> {
    v.map_values(|l: Vec<Token>| tviews(l@))
}

/// Lexes words left to right, stopping at a comment marker: the tokens before it
/// and whether one was met; or the number (from 1) of the first malformed word before it.
pub open spec fn lex_words(ws: Seq<Seq<u8>>, line: usize) -> Result<(Seq<TokenView>, bool), int>
    decreases ws.len(),
{
    if ws.len() == 0 {
        Ok((seq![], false))
    } else {
        match lex_words(ws.drop_last(), line) {
            Ok((ts, false)) => match word_token(ws.last(), line) {
                None => Err(ws.len() as int),
                Some(t) => if t.kind == TokenKind::CommentMarker {
                    Ok((ts, true))
                } else {
                    Ok((ts.push(t), false))
                },
            },
            done => done,
        }
    }
}

/// The tokens of a line, comments left out; or the number (from 1) of its first malformed word.
pub open spec fn line_tokens(text: Seq<u8>, line: usize) -> Result<Seq<TokenView>, int> {
    match lex_words(words_of(text), line) {
        Ok((ts, _)) => Ok(ts),
        Err(j) => Err(j),
    }
}

/// The tokens of each line; or the line and word (from 1) of the first malformed word.
pub open spec fn lex_lines(ls: Seq<Seq<u8>>) -> Result<Seq<Seq<TokenView>>, (int, int)>
    decreases ls.len(),
{
    if ls.len() == 0 {
        Ok(seq![])
    } else {
        match lex_lines(ls.drop_last()) {
            Ok(done) => match line_tokens(ls.last(), ls.len() as usize) {
                Ok(ts) => Ok(done.push(ts)),
                Err(j) => Err((ls.len() as int, j)),
            },
            Err(e) => Err(e),
        }
    }
}

/// The whole source lexed.
pub open spec fn lex_source(src: Seq<u8>) -> Result<Seq<Seq<TokenView>>, (int, int)> {
    lex_lines(lines_of(src))
}

pub proof fn lemma_lex_words_settled(ws: Seq<Seq<u8>>, line: usize, k: int)
    requires
        0 <= k <= ws.len(),
        !(lex_words(ws.subrange(0, k), line) is Ok && !lex_words(ws.subrange(0, k), line)->Ok_0.1),
    ensures
        lex_words(ws, line) == lex_words(ws.subrange(0, k), line),
    decreases ws.len(),
{
    if k == ws.len() {
        assert(ws.subrange(0, k) =~= ws);
    } else {
        assert(ws.drop_last().subrange(0, k) =~= ws.subrange(0, k));
        lemma_lex_words_settled(ws.drop_last(), line, k);
    }
}

proof fn lemma_lex_lines_failed(ls: Seq<Seq<u8>>, k: int)
    requires
        0 <= k <= ls.len(),
        lex_lines(ls.subrange(0, k)) is Err,
    ensures
        lex_lines(ls) == lex_lines(ls.subrange(0, k)),
    decreases ls.len(),
{
    if k == ls.len() {
        assert(ls.subrange(0, k) =~= ls);
    } else {
        assert(ls.drop_last().subrange(0, k) =~= ls.subrange(0, k));
        lemma_lex_lines_failed(ls.drop_last(), k);
    }
}

/// Lexes one line; `Err(j)` where its word number `j` (from 1) is malformed.
pub fn lex_line(text: &[u8], line: usize) -> (r: Result<Vec<Token>, usize>)
    ensures
        match r {
            Ok(ts) => line_tokens(text@, line) == Ok::<Seq<TokenView>, int>(tviews(ts@)),
            Err(j) => line_tokens(text@, line) == Err::<Seq<TokenView>, int>(j as int),
        },
{
    let words = split_words(text);
    let ghost ws = words_of(text@);
    let mut toks: Vec<Token> = Vec::new();
    let mut i: usize = 0;
    assert(ws.subrange(0, 0) =~= Seq::<Seq<u8>>::empty());
    assert(tviews(toks@) =~= Seq::<TokenView>::empty());
    while i < words.len()
        invariant
            i <= words.len(),
            views(words@) == ws,
            ws == words_of(text@),
            lex_words(ws.subrange(0, i as int), line) == Ok::<(Seq<TokenView>, bool), int>((tviews(toks@), false)),
        decreases words.len() - i,
    {
        let ghost pre = ws.subrange(0, i as int);
        let ghost cur = ws.subrange(0, i + 1);
        assert(cur.drop_last() =~= pre);
        assert(cur.last() == words@[i as int]@);
        match lex_word(words[i].as_slice(), line) {
            None => {
                proof { lemma_lex_words_settled(ws, line, i + 1); }
                return Err(i + 1);
            },
            Some(t) => {
                if t.kind == TokenKind::CommentMarker {
                    proof { lemma_lex_words_settled(ws, line, i + 1); }
                    return Ok(toks);
                }
                let ghost old_toks = toks@;
                toks.push(t);
                assert(tviews(toks@) =~= tviews(old_toks).push(t@));
            },
        }
        i = i + 1;
    }
    assert(ws.subrange(0, i as int) =~= ws);
    Ok(toks)
}

/// Lexes every line of the source.
pub fn lex_all(src: &[u8]) -> (r: Result<Vec<Vec<Token>>, AsmError>)
    ensures
        match r {
            Ok(ls) => lex_source(src@) == Ok::<Seq<Seq<TokenView>>, (int, int)>(line_views(ls@)),
            Err(e) => lex_source(src@) matches Err((k, j)) && e == AsmError::BadNumericLiteral {
                line: k as usize,
                word: j as usize,
            },
        },
{
    let lines = split_lines(src);
    let ghost ls = lines_of(src@);
    let mut out: Vec<Vec<Token>> = Vec::new();
    let mut k: usize = 0;
    assert(ls.subrange(0, 0) =~= Seq::<Seq<u8>>::empty());
    assert(line_views(out@) =~= Seq::<Seq<TokenView>>::empty());
    while k < lines.len()
        invariant
            k <= lines.len(),
            views(lines@) == ls,
            ls == lines_of(src@),
            lex_lines(ls.subrange(0, k as int)) == Ok::<Seq<Seq<TokenView>>, (int, int)>(line_views(out@)),
        decreases lines.len() - k,
    {
        let ghost cur = ls.subrange(0, k + 1);
        assert(cur.drop_last() =~= ls.subrange(0, k as int));
        assert(cur.last() == lines@[k as int]@);
        match lex_line(lines[k].as_slice(), k + 1) {
            Ok(ts) => {
                let ghost old_out = out@;
                out.push(ts);
                assert(line_views(out@) =~= line_views(old_out).push(tviews(ts@)));
            },
            Err(j) => {
                proof { lemma_lex_lines_failed(ls, k + 1); }
                return Err(AsmError::BadNumericLiteral { line: k + 1, word: j });
            },
        }
        k = k + 1;
    }
    assert(ls.subrange(0, k as int) =~= ls);
    Ok(out)
}

pub proof fn lemma_words_nonempty(s: Seq<u8>)
    requires
        s.len() > 0,
        !is_space(s.last()),
    ensures
        words_of(s).len() > 0,
    decreases s.len(),
{
    if s.len() >= 2 && !is_space(s[s.len() - 2]) {
        lemma_words_nonempty(s.drop_last());
    }
}

/// Words do not run across a whitespace byte.
pub proof fn lemma_words_concat(a: Seq<u8>, b: Seq<u8>)
    requires
        b.len() > 0,
        is_space(b[0]),
    ensures
        words_of(a + b) == words_of(a) + words_of(b),
    decreases b.len(),
{
    let ab = a + b;
    assert(ab.drop_last() =~= a + b.drop_last());
    assert(ab.last() == b.last());
    if b.len() == 1 {
        assert(b.drop_last() =~= Seq::<u8>::empty());
        assert(a + b.drop_last() =~= a);
        assert(words_of(b.drop_last()) =~= Seq::<Seq<u8>>::empty());
        assert(words_of(a) + words_of(b) =~= words_of(a));
    } else {
        lemma_words_concat(a, b.drop_last());
        let wa = words_of(a);
        let wb = words_of(b.drop_last());
        assert(ab[ab.len() - 2] == b[b.len() - 2]);
        if is_space(b.last()) {
        } else if !is_space(b[b.len() - 2]) {
            lemma_words_nonempty(b.drop_last());
            assert((wa + wb).update((wa + wb).len() - 1, (wa + wb).last().push(b.last())) =~= wa + wb.update(
                wb.len() - 1,
                wb.last().push(b.last()),
            ));
        } else {
            assert((wa + wb).push(seq![b.last()]) =~= wa + wb.push(seq![b.last()]));
        }
    }
}

pub open spec fn comment_marker() -> Seq<u8> {
    seq!['/' as u8, '/' as u8]
}

/// A line whose first word is `//` has no tokens.
pub proof fn lemma_comment_first(text: Seq<u8>, line: usize)
    requires
        words_of(text).len() > 0,
        words_of(text)[0] == comment_marker(),
    ensures
        line_tokens(text, line) == Ok::<Seq<TokenView>, int>(seq![]),
{
    let ws = words_of(text);
    let w = comment_marker();
    assert(ws.subrange(0, 1).drop_last() =~= Seq::<Seq<u8>>::empty());
    lemma_comment_word(line);
    let first = ws.subrange(0, 1);
    assert(first.last() == w);
    assert(lex_words(first.drop_last(), line) == Ok::<(Seq<TokenView>, bool), int>((Seq::<TokenView>::empty(), false)));
    assert(lex_words(first, line) == Ok::<(Seq<TokenView>, bool), int>((Seq::<TokenView>::empty(), true)));
    assert(Seq::<TokenView>::empty() =~= seq![]);
    lemma_lex_words_settled(ws, line, 1);
}

pub proof fn lemma_comment_word(line: usize)
    ensures
        word_token(comment_marker(), line) is Some,
        word_token(comment_marker(), line)->0.kind == TokenKind::CommentMarker,
{
    let w = comment_marker();
    assert(upper_seq(w) =~= w);
    assert(w.len() == 2);
    assert(w != seq!['$' as u8]);
    assert(w != seq!['>' as u8]);
}

/// ` //`: a space, then the comment marker.
pub open spec fn comment_start() -> Seq<u8> {
    seq![' ' as u8, '/' as u8, '/' as u8]
}

/// What may follow a comment marker: nothing, or text that begins with whitespace.
pub open spec fn comment_tail(c: Seq<u8>) -> bool {
    c.len() == 0 || is_space(c[0])
}

/// A comment added at the end of a line leaves its tokens as they were.
pub proof fn lemma_trailing_comment(text: Seq<u8>, c: Seq<u8>, line: usize)
    requires
        comment_tail(c),
    ensures
        line_tokens(text + comment_start() + c, line) == line_tokens(text, line),
{
    let cs = comment_start();
    let tail = cs + c;
    assert(text + cs + c =~= text + tail);
    assert(tail[0] == ' ' as u8);
    lemma_words_concat(text, tail);
    let one = seq![' ' as u8];
    let two = seq![' ' as u8, '/' as u8];
    assert(two.drop_last() =~= one);
    assert(cs.drop_last() =~= two);
    assert(one.drop_last() =~= Seq::<u8>::empty());
    assert(words_of(one) == words_of(Seq::<u8>::empty()));
    assert(words_of(two) =~= seq![seq!['/' as u8]]);
    assert(cs[cs.len() - 2] == '/' as u8 && cs.last() == '/' as u8);
    assert(seq!['/' as u8].push('/' as u8) =~= comment_marker());
    assert(words_of(cs) == words_of(two).update(0, seq!['/' as u8].push('/' as u8)));
    assert(words_of(cs) =~= seq![comment_marker()]);
    let wc: Seq<Seq<u8>> = if c.len() == 0 {
        assert(tail =~= cs);
        seq![]
    } else {
        lemma_words_concat(cs, c);
        words_of(c)
    };
    assert(words_of(tail) == seq![comment_marker()] + wc);
    let ws = words_of(text);
    let ws2 = words_of(text + tail);
    assert(ws2 == ws + (seq![comment_marker()] + wc));
    let k = ws.len() as int;
    assert(ws2.subrange(0, k) =~= ws);
    lemma_comment_word(line);
    match lex_words(ws, line) {
        Ok((ts, false)) => {
            let pre = ws2.subrange(0, k + 1);
            assert(pre.drop_last() =~= ws);
            assert(pre.last() == comment_marker());
            assert(lex_words(pre, line) == Ok::<(Seq<TokenView>, bool), int>((ts, true)));
            lemma_lex_words_settled(ws2, line, k + 1);
        },
        _ => {
            lemma_lex_words_settled(ws2, line, k);
        },
    }
}

} // verus!
