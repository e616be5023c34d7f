use vstd::prelude::*;

use crate::kerneler::{kerr_view, lines_view, CodeLine, KernelError, KernelErrorKind, SpecKernelError, SpecLine};
use crate::text::{
    has_prefix, is_word_char, parse_u8_text, push_all, same_text, slice, spec_parse_u8_text, split_whitespace,
    starts_with, texts_view, words,
};

verus! {

/// The region of memory that `define` hands out cells from when no value is given:
/// the pixels from `start` to `end` (column, row), row by row, three channels each.
#[derive(Debug, Clone, Copy)]
pub struct Stack {
    pub activated: bool,
    pub start: (u8, u8),
    pub end: (u8, u8),
    /// The next cell handed out; a third component of `3` means that none is left.
    pub current: (u8, u8, u8),
}

impl Stack {
    /// The cell to hand out lies in the region, or the region is used up.
    pub open spec fn wf(&self) -> bool {
        if self.activated {
            &&& self.start.0 <= self.end.0
            &&& self.start.1 <= self.end.1
            &&& self.start.0 <= self.current.0 <= self.end.0
            &&& self.start.1 <= self.current.1 <= self.end.1
            &&& self.current.2 <= 3
            &&& (self.current.2 == 3 ==> self.current.0 == self.end.0 && self.current.1 == self.end.1)
        } else {
            self.start == (0u8, 0u8) && self.end == (0u8, 0u8) && self.current.0 == 0 && self.current.1 == 0
                && self.current.2 <= 3
        }
    }

    /// An inactive stack.
    pub fn new() -> (s: Self)
        ensures
            s == (Stack { activated: false, start: (0, 0), end: (0, 0), current: (0, 0, 0) }),
            s.wf(),
    {
        Stack { activated: false, start: (0, 0), end: (0, 0), current: (0, 0, 0) }
    }

    /// What activating gives: the region from `start` to `end`, its first cell next.
    pub open spec fn spec_activate(self, start: (u8, u8), end: (u8, u8)) -> Result<Stack, KernelErrorKind> {
        if start.0 > end.0 || start.1 > end.1 {
            Err(KernelErrorKind::InvalidStackDimensions)
        } else if self.activated {
            Err(KernelErrorKind::StackActivatedTwice)
        } else {
            Ok(Stack { activated: true, start, end, current: (start.0, start.1, 0) })
        }
    }

    /// Activates the stack on the region from `start` to `end`.
    pub fn activate(&mut self, start: (u8, u8), end: (u8, u8)) -> (r: Result<(), KernelError>)
        requires
            old(self).wf(),
        ensures
            match old(self).spec_activate(start, end) {
                Ok(s) => r is Ok && *final(self) == s && final(self).wf(),
                Err(k) => r is Err && kerr_view(r->Err_0) == (k, Seq::<char>::empty()),
            },
    {
        if start.0 > end.0 || start.1 > end.1 {
            return Err(KernelError { kind: KernelErrorKind::InvalidStackDimensions, text: Vec::new() });
        }
        if self.activated {
            return Err(KernelError { kind: KernelErrorKind::StackActivatedTwice, text: Vec::new() });
        }
        self.activated = true;
        self.start = start;
        self.end = end;
        self.current = (start.0, start.1, 0);
        Ok(())
    }

    /// What handing out a cell gives: the next cell, and the stack moved on by one
    /// channel, to the next pixel of the row, or to the next row.
    pub open spec fn spec_get(self) -> Result<((u8, u8, u8), Stack), KernelErrorKind> {
        let c = self.current;
        if c.2 == 3 {
            Err(KernelErrorKind::StackOverflow)
        } else {
            let next = if c.2 < 2 {
                (c.0, c.1, (c.2 + 1) as u8)
            } else if c.0 < self.end.0 {
                ((c.0 + 1) as u8, c.1, 0u8)
            } else if c.1 < self.end.1 {
                (self.start.0, (c.1 + 1) as u8, 0u8)
            } else {
                (c.0, c.1, 3u8)
            };
            Ok((c, Stack { current: next, ..self }))
        }
    }

    /// Hands out the next cell `(column, row, channel)`.
    pub fn get(&mut self) -> (r: Result<(u8, u8, u8), KernelError>)
        requires
            old(self).wf(),
        ensures
            match old(self).spec_get() {
                Ok((v, s)) => r == Ok::<(u8, u8, u8), KernelError>(v) && *final(self) == s && final(self).wf(),
                Err(k) => r is Err && kerr_view(r->Err_0) == (k, Seq::<char>::empty()),
            },
    {
        if self.current.2 == 3 {
            return Err(KernelError { kind: KernelErrorKind::StackOverflow, text: Vec::new() });
        }
        let ret = self.current;
        if self.current.2 < 2 {
            self.current.2 = self.current.2 + 1;
        } else if self.current.0 < self.end.0 {
            self.current.2 = 0;
            self.current.0 = self.current.0 + 1;
        } else if self.current.1 < self.end.1 {
            self.current.2 = 0;
            self.current.0 = self.start.0;
            self.current.1 = self.current.1 + 1;
        } else {
            self.current.2 = 3;
        }
        Ok(ret)
    }

    /// The number of cells handed out.
    pub open spec fn spec_used(self) -> int {
        (self.current.0 - self.start.0) * 3 + (self.current.1 - self.start.1) * (self.end.0 - self.start.0 + 1) * 3
            + self.current.2
    }

    /// The number of cells in the region.
    pub open spec fn spec_total(self) -> int {
        3 * (self.end.0 - self.start.0 + 1) * (self.end.1 - self.start.1 + 1)
    }

    /// The number of cells handed out and the number of cells in the region.
    pub fn get_used(&self) -> (r: (u32, u32))
        requires
            self.wf(),
        ensures
            r.0 == self.spec_used(),
            r.1 == self.spec_total(),
    {
        let w: u32 = (self.end.0 - self.start.0) as u32 + 1;
        let h: u32 = (self.end.1 - self.start.1) as u32 + 1;
        let x: u32 = (self.current.0 - self.start.0) as u32;
        let y: u32 = (self.current.1 - self.start.1) as u32;
        assert(x * 3 + y * w * 3 + 3 <= 255 * 3 + 255 * 256 * 3 + 3) by (nonlinear_arith)
            requires
                x <= 255,
                y <= 255,
                w <= 256,
        ;
        assert(3 * w * h <= 3 * 256 * 256) by (nonlinear_arith)
            requires
                w <= 256,
                h <= 256,
        ;
        let used = x * 3 + y * w * 3 + self.current.2 as u32;
        let total = 3 * w * h;
        (used, total)
    }
}

/// Each cell handed out raises the count of used cells by one, and lies in the region.
pub proof fn law_get_counts_one(s: Stack)
    requires
        s.wf(),
        s.activated,
        s.spec_get() is Ok,
    ensures
        ({
            let (v, s2) = s.spec_get()->Ok_0;
            &&& s2.wf()
            &&& s2.spec_used() == s.spec_used() + 1
            &&& s.start.0 <= v.0 <= s.end.0
            &&& s.start.1 <= v.1 <= s.end.1
            &&& v.2 < 3
        }),
{
    let (v, s2) = s.spec_get()->Ok_0;
    let w = s.end.0 - s.start.0 + 1;
    let c = s.current;
    if c.2 == 2 && c.0 >= s.end.0 && c.1 < s.end.1 {
        assert((c.1 + 1 - s.start.1) * w * 3 == (c.1 - s.start.1) * w * 3 + w * 3) by (nonlinear_arith);
    }
}

/// Every cell handed out lies within the count of cells of the region.
pub proof fn law_used_within_total(s: Stack)
    requires
        s.wf(),
        s.activated,
    ensures
        0 <= s.spec_used() <= s.spec_total(),
{
    let w = s.end.0 - s.start.0 + 1;
    let h = s.end.1 - s.start.1 + 1;
    let x = s.current.0 - s.start.0;
    let y = s.current.1 - s.start.1;
    assert(0 <= x * 3 + y * w * 3 + s.current.2 <= 3 * w * h) by (nonlinear_arith)
        requires
            0 <= x < w,
            0 <= y < h,
            0 <= s.current.2 <= 3,
    ;
}

/// An activated stack has handed out no cell yet.
pub proof fn law_activate_starts_empty(s: Stack, start: (u8, u8), end: (u8, u8))
    requires
        s.wf(),
    ensures
        s.spec_activate(start, end) is Ok ==> s.spec_activate(start, end)->Ok_0.spec_used() == 0
            && s.spec_activate(start, end)->Ok_0.wf(),
{
    if s.spec_activate(start, end) is Ok {
        let t = s.spec_activate(start, end)->Ok_0;
        let w = t.end.0 - t.start.0 + 1;
        assert(t.current.1 - t.start.1 == 0);
        assert(0 * w * 3 == 0) by (nonlinear_arith);
    }
}

/// The stack after `n` more cells were handed out, or the error that stopped it.
pub open spec fn after_gets(s: Stack, n: nat) -> Result<Stack, KernelErrorKind>
    decreases n,
{
    if n == 0 {
        Ok(s)
    } else {
        match after_gets(s, (n - 1) as nat) {
            Err(k) => Err(k),
            Ok(t) => match t.spec_get() {
                Err(k) => Err(k),
                Ok((_, t2)) => Ok(t2),
            },
        }
    }
}

/// Handing out `n` cells raises the count of used cells by `n`.
pub proof fn law_gets_count(s: Stack, n: nat)
    requires
        s.wf(),
        s.activated,
    ensures
        after_gets(s, n) is Ok ==> {
            let t = after_gets(s, n)->Ok_0;
            t.wf() && t.activated && t.spec_used() == s.spec_used() + n
        },
    decreases n,
{
    if n > 0 {
        law_gets_count(s, (n - 1) as nat);
        match after_gets(s, (n - 1) as nat) {
            Err(_) => {},
            Ok(t) => {
                if t.spec_get() is Ok {
                    law_get_counts_one(t);
                }
            },
        }
    }
}

/// The count of used cells reaches the number of cells of the region exactly when the
/// stack is used up, that is when the next `get` overflows.
pub proof fn law_used_up(s: Stack)
    requires
        s.wf(),
        s.activated,
    ensures
        (s.spec_used() == s.spec_total()) <==> s.current.2 == 3,
        (s.spec_used() == s.spec_total()) <==> s.spec_get() is Err,
{
    let w = s.end.0 - s.start.0 + 1;
    let h = s.end.1 - s.start.1 + 1;
    let x = s.current.0 - s.start.0;
    let y = s.current.1 - s.start.1;
    let c = s.current.2;
    if c == 3 {
        assert(x * 3 + y * w * 3 + c == 3 * w * h) by (nonlinear_arith)
            requires
                x == w - 1,
                y == h - 1,
                c == 3,
        ;
    } else {
        assert(x * 3 + y * w * 3 + c < 3 * w * h) by (nonlinear_arith)
            requires
                0 <= x < w,
                0 <= y < h,
                0 <= c < 3,
        ;
    }
}

/// The decimal digits of `n`.
pub open spec fn decimal(n: u8) -> Seq<char> {
    if n >= 100 {
        seq![digit(n / 100), digit((n / 10) % 10), digit(n % 10)]
    } else if n >= 10 {
        seq![digit(n / 10), digit(n % 10)]
    } else {
        seq![digit(n)]
    }
}

/// The character of digit `d`.
pub open spec fn digit(d: u8) -> char {
    ((d % 10) as u32 + 48) as char
}

fn digit_char(d: u8) -> (c: char)
    ensures
        c == digit(d),
{
    let k: u8 = d % 10;
    if k == 0 { '0' } else if k == 1 { '1' } else if k == 2 { '2' } else if k == 3 { '3' } else if k == 4 { '4' }
    else if k == 5 { '5' } else if k == 6 { '6' } else if k == 7 { '7' } else if k == 8 { '8' } else { '9' }
}

/// Appends the decimal digits of `n`.
pub fn push_decimal(out: &mut Vec<char>, n: u8)
    ensures
        final(out)@ == old(out)@ + decimal(n),
{
    if n >= 100 {
        out.push(digit_char(n / 100));
        out.push(digit_char((n / 10) % 10));
        out.push(digit_char(n % 10));
    } else if n >= 10 {
        out.push(digit_char(n / 10));
        out.push(digit_char(n % 10));
    } else {
        out.push(digit_char(n));
    }
    assert(out@ =~= old(out)@ + decimal(n));
}

/// The text `[x,y,c]` of a memory address.
pub open spec fn address_text(v: (u8, u8, u8)) -> Seq<char> {
    seq!['['] + decimal(v.0) + seq![','] + decimal(v.1) + seq![','] + decimal(v.2) + seq![']']
}

/// The scopes of definitions: the outermost first.
pub type Scopes = Seq<Map<Seq<char>, Seq<char>>>;

/// The value that the innermost scope that defines `w` gives it.
pub open spec fn lookup(scopes: Scopes, w: Seq<char>) -> Option<Seq<char>>
    decreases scopes.len(),
{
    if scopes.len() == 0 {
        None
    } else if scopes.last().contains_key(w) {
        Some(scopes.last()[w])
    } else {
        lookup(scopes.drop_last(), w)
    }
}

/// The number of name characters that `s` begins with.
pub open spec fn word_len(s: Seq<char>) -> nat
    decreases s.len(),
{
    if s.len() > 0 && is_word_char(s[0]) {
        1 + word_len(s.drop_first())
    } else {
        0
    }
}

/// The name that `s` begins with is no longer than `s`.
pub proof fn lemma_word_len(s: Seq<char>)
    ensures
        word_len(s) <= s.len(),
        s.len() > 0 && is_word_char(s[0]) ==> word_len(s) >= 1,
        forall|i: int| 0 <= i < word_len(s) ==> is_word_char(#[trigger] s[i]),
        word_len(s) < s.len() ==> !is_word_char(s[word_len(s) as int]),
    decreases s.len(),
{
    if s.len() > 0 && is_word_char(s[0]) {
        lemma_word_len(s.drop_first());
        assert forall|i: int| 0 <= i < word_len(s) implies is_word_char(#[trigger] s[i]) by {
            if i > 0 {
                assert(s[i] == s.drop_first()[i - 1]);
            }
        }
    }
}

/// `s` with every name that a scope defines replaced by its value.
pub open spec fn substitute(s: Seq<char>, scopes: Scopes) -> Seq<char>
    decreases s.len(),
{
    if s.len() == 0 {
        Seq::empty()
    } else if is_word_char(s[0]) {
        let n = word_len(s);
        proof {
            lemma_word_len(s);
        }
        let w = s.subrange(0, n as int);
        (match lookup(scopes, w) {
            Some(v) => v,
            None => w,
        }) + substitute(s.subrange(n as int, s.len() as int), scopes)
    } else {
        seq![s[0]] + substitute(s.drop_first(), scopes)
    }
}

/// The scopes after moving from depth `prev` to depth `d`: one new empty scope for
/// each level deeper, one scope dropped for each level shallower.
pub open spec fn adjust(scopes: Scopes, prev: int, d: int) -> Scopes {
    if d > prev {
        scopes + Seq::new((d - prev) as nat, |i: int| Map::<Seq<char>, Seq<char>>::empty())
    } else if d < prev {
        scopes.subrange(0, if scopes.len() >= prev - d { scopes.len() - (prev - d) } else { 0 })
    } else {
        scopes
    }
}

/// The scopes with `k` defined as `v` in the innermost one.
pub open spec fn define_in(scopes: Scopes, k: Seq<char>, v: Seq<char>) -> Scopes {
    scopes.update(scopes.len() - 1, scopes.last().insert(k, v))
}

/// The lines from `i` on, after those before gave `out`, with `define` lines taken out
/// and every other line's names replaced by their definitions; with the stack as the
/// definitions leave it.
pub open spec fn define_from(ls: Seq<SpecLine>, i: int, scopes: Scopes, prev: int, st: Stack, out: Seq<SpecLine>) -> Result<(Seq<SpecLine>, Stack), SpecKernelError>
    decreases ls.len() - i,
{
    if i < 0 || i >= ls.len() {
        Ok((out, st))
    } else {
        let l = ls[i];
        let sc = adjust(scopes, prev, l.depth as int);
        if is_define_line(l.code) {
            let args = after_first_word(l.code);
            if args.len() == 1 {
                if !st.activated {
                    Err((KernelErrorKind::DefineWithoutStack, l.code))
                } else {
                    match st.spec_get() {
                        Err(k) => Err((k, Seq::empty())),
                        Ok((v, st2)) => define_from(ls, i + 1, define_in(sc, args[0], address_text(v)), l.depth as int, st2, out),
                    }
                }
            } else if args.len() == 2 {
                define_from(ls, i + 1, define_in(sc, args[0], args[1]), l.depth as int, st, out)
            } else {
                Err((KernelErrorKind::InvalidDefine, l.code))
            }
        } else {
            define_from(ls, i + 1, sc, l.depth as int, st, out.push(SpecLine { code: substitute(l.code, sc), ..l }))
        }
    }
}

/// The depths at which the blocks being unwrapped were opened, after leaving those
/// that a line at depth `d` is not inside.
pub open spec fn pop_while(rem: Seq<u8>, d: u8) -> Seq<u8>
    decreases rem.len(),
{
    if rem.len() > 0 && d <= rem.last() {
        pop_while(rem.drop_last(), d)
    } else {
        rem
    }
}

/// The lines from `i` on, after those before gave `out`, with every block whose header
/// is empty unwrapped: its header dropped, and its lines moved up one level.
pub open spec fn unwrap_from(ls: Seq<SpecLine>, i: int, rem: Seq<u8>, out: Seq<SpecLine>) -> Seq<SpecLine>
    decreases ls.len() - i,
{
    if i < 0 || i >= ls.len() {
        out
    } else {
        let l = ls[i];
        let r2 = pop_while(rem, l.depth);
        if l.code.len() == 0 && l.starts_closure {
            unwrap_from(ls, i + 1, r2.push(l.depth), out)
        } else if r2.len() == 0 {
            unwrap_from(ls, i + 1, r2, out.push(l))
        } else {
            unwrap_from(ls, i + 1, r2, out.push(SpecLine { depth: (l.depth - r2.len()) as u8, ..l }))
        }
    }
}

/// The words of `code` after its first.
pub open spec fn after_first_word(code: Seq<char>) -> Seq<Seq<char>> {
    let ws = words(code);
    if ws.len() > 0 {
        ws.drop_first()
    } else {
        Seq::empty()
    }
}

/// The index of the first line that begins with `p`.
pub open spec fn first_line_with(ls: Seq<SpecLine>, p: Seq<char>) -> Option<int>
    decreases ls.len(),
{
    if ls.len() == 0 {
        None
    } else {
        match first_line_with(ls.drop_last(), p) {
            Some(i) => Some(i),
            None => if has_prefix(ls.last().code, p) {
                Some(ls.len() - 1)
            } else {
                None
            },
        }
    }
}

/// Every text of `ws` is a number from 0 to 255.
pub open spec fn all_u8(ws: Seq<Seq<char>>) -> bool {
    forall|k: int| 0 <= k < ws.len() ==> (#[trigger] spec_parse_u8_text(ws[k])) is Some
}

/// The numbers after the command word of a `#size` or `#stack` line, when there are
/// `n` of them.
pub open spec fn command_numbers(code: Seq<char>, n: nat) -> Option<Seq<u8>> {
    let args = after_first_word(code);
    if all_u8(args) && args.len() == n {
        Some(args.map_values(|w: Seq<char>| spec_parse_u8_text(w)->Some_0))
    } else {
        None
    }
}

/// A line that defines a name: it begins with `define` or with `#def`.
pub open spec fn is_define_line(code: Seq<char>) -> bool {
    has_prefix(code, seq!['d', 'e', 'f', 'i', 'n', 'e']) || has_prefix(code, seq!['#', 'd', 'e', 'f'])
}

fn is_define_exec(code: &Vec<char>) -> (r: bool)
    ensures
        r == is_define_line(code@),
{
    assert(['d', 'e', 'f', 'i', 'n', 'e']@ =~= seq!['d', 'e', 'f', 'i', 'n', 'e']);
    assert(['#', 'd', 'e', 'f']@ =~= seq!['#', 'd', 'e', 'f']);
    starts_with(code, &['d', 'e', 'f', 'i', 'n', 'e']) || starts_with(code, &['#', 'd', 'e', 'f'])
}

/// The lines without their first `#stack` line, and the stack that line activates.
pub open spec fn spec_stack_command(ls: Seq<SpecLine>) -> Result<(Seq<SpecLine>, Stack), SpecKernelError> {
    let fresh = Stack { activated: false, start: (0u8, 0u8), end: (0u8, 0u8), current: (0u8, 0u8, 0u8) };
    match first_line_with(ls, seq!['#', 's', 't', 'a', 'c', 'k']) {
        None => Ok((ls, fresh)),
        Some(i) => match command_numbers(ls[i].code, 4) {
            None => Err((KernelErrorKind::InvalidStackCommand, Seq::empty())),
            Some(v) => match fresh.spec_activate((v[0], v[1]), (v[2], v[3])) {
                Err(k) => Err((k, Seq::empty())),
                Ok(st) => Ok((ls.remove(i), st)),
            },
        },
    }
}

/// What `define` does to the lines: takes the `#stack` command, replaces the names
/// that `define` lines give values, then unwraps the blocks with empty headers.
pub open spec fn spec_define(ls: Seq<SpecLine>) -> Result<Seq<SpecLine>, SpecKernelError> {
    match spec_stack_command(ls) {
        Err(e) => Err(e),
        Ok((ls1, st)) => match define_from(ls1, 0, seq![Map::<Seq<char>, Seq<char>>::empty()], 0, st, Seq::empty()) {
            Err(e) => Err(e),
            Ok((ls2, _)) => Ok(unwrap_from(ls2, 0, Seq::empty(), Seq::empty())),
        },
    }
}

/// The cells used and the cells in the region of an active stack.
pub open spec fn stack_usage(st: Stack) -> Option<(u32, u32)> {
    if st.activated {
        Some((st.spec_used() as u32, st.spec_total() as u32))
    } else {
        None
    }
}

/// The stack usage after `define`: the cells the definitions took and the cells of the
/// region, when a `#stack` command activated the stack.
pub open spec fn define_usage(ls: Seq<SpecLine>) -> Option<(u32, u32)> {
    match spec_stack_command(ls) {
        Err(_) => None,
        Ok((ls1, st)) => match define_from(ls1, 0, seq![Map::<Seq<char>, Seq<char>>::empty()], 0, st, Seq::empty()) {
            Err(_) => None,
            Ok((_, st2)) => stack_usage(st2),
        },
    }
}

/// The definitions that a list of entries makes: a later entry for a name replaces an
/// earlier one.
pub open spec fn assoc_map(l: Seq<(Vec<char>, Vec<char>)>) -> Map<Seq<char>, Seq<char>>
    decreases l.len(),
{
    if l.len() == 0 {
        Map::empty()
    } else {
        assoc_map(l.drop_last()).insert(l.last().0@, l.last().1@)
    }
}

/// The abstract form of the scopes.
pub open spec fn scopes_view(v: Seq<Vec<(Vec<char>, Vec<char>)>>) -> Scopes {
    v.map_values(|s: Vec<(Vec<char>, Vec<char>)>| assoc_map(s@))
}

/// Entries after index `k` that do not name `w` do not change what `w` is defined as.
pub proof fn lemma_assoc_suffix(l: Seq<(Vec<char>, Vec<char>)>, w: Seq<char>, k: int)
    requires
        0 <= k <= l.len(),
        forall|j: int| k <= j < l.len() ==> (#[trigger] l[j]).0@ != w,
    ensures
        assoc_map(l).contains_key(w) == assoc_map(l.subrange(0, k)).contains_key(w),
        assoc_map(l).contains_key(w) ==> assoc_map(l)[w] == assoc_map(l.subrange(0, k))[w],
    decreases l.len() - k,
{
    if k < l.len() {
        assert(l.drop_last().subrange(0, k) =~= l.subrange(0, k));
        assert forall|j: int| k <= j < l.drop_last().len() implies (#[trigger] l.drop_last()[j]).0@ != w by {
            assert(l.drop_last()[j] == l[j]);
        }
        lemma_assoc_suffix(l.drop_last(), w, k);
        assert(l.last() == l[l.len() - 1]);
    } else {
        assert(l.subrange(0, k) =~= l);
    }
}

/// The value that a scope gives `w`.
fn scope_get(l: &Vec<(Vec<char>, Vec<char>)>, w: &Vec<char>) -> (r: Option<Vec<char>>)
    ensures
        match r {
            Some(v) => assoc_map(l@).contains_key(w@) && assoc_map(l@)[w@] == v@,
            None => !assoc_map(l@).contains_key(w@),
        },
{
    let mut k: usize = l.len();
    while k > 0
        invariant
            k <= l@.len(),
            forall|j: int| k <= j < l@.len() ==> (#[trigger] l@[j]).0@ != w@,
        decreases k,
    {
        if same_text(&l[k - 1].0, w) {
            proof {
                lemma_assoc_suffix(l@, w@, k as int);
                assert(l@.subrange(0, k as int).drop_last() =~= l@.subrange(0, k - 1));
                assert(l@.subrange(0, k as int).last() == l@[k - 1]);
            }
            let v = slice(&l[k - 1].1, 0, l[k - 1].1.len());
            assert(v@ =~= l@[k - 1].1@);
            return Some(v);
        }
        k = k - 1;
    }
    proof {
        lemma_assoc_suffix(l@, w@, 0);
    }
    None
}

/// The value that the innermost scope that defines `w` gives it.
fn lookup_exec(scopes: &Vec<Vec<(Vec<char>, Vec<char>)>>, w: &Vec<char>) -> (r: Option<Vec<char>>)
    ensures
        match lookup(scopes_view(scopes@), w@) {
            Some(v) => r is Some && r->Some_0@ == v,
            None => r is None,
        },
{
    let ghost sv = scopes_view(scopes@);
    let mut k: usize = scopes.len();
    assert(sv.subrange(0, k as int) =~= sv);
    while k > 0
        invariant
            k <= scopes@.len(),
            sv == scopes_view(scopes@),
            lookup(sv, w@) == lookup(sv.subrange(0, k as int), w@),
        decreases k,
    {
        let ghost pre = sv.subrange(0, k as int);
        assert(pre.drop_last() =~= sv.subrange(0, k - 1));
        assert(pre.last() == assoc_map(scopes@[k - 1]@));
        match scope_get(&scopes[k - 1], w) {
            Some(v) => {
                return Some(v);
            },
            None => {},
        }
        k = k - 1;
    }
    None
}

/// The text that stands for the name `word`: its value in the innermost scope that
/// defines it, or the name itself.
pub fn replace_word(scopes: &Vec<Vec<(Vec<char>, Vec<char>)>>, word: &Vec<char>) -> (r: Vec<char>)
    ensures
        r@ == match lookup(scopes_view(scopes@), word@) {
            Some(v) => v,
            None => word@,
        },
{
    match lookup_exec(scopes, word) {
        Some(v) => v,
        None => slice(word, 0, word.len()),
    }
}

/// A run of name characters that ends at the end or before another character is the
/// name that the text begins with.
pub proof fn lemma_word_len_exact(s: Seq<char>, n: int)
    requires
        0 <= n <= s.len(),
        forall|i: int| 0 <= i < n ==> is_word_char(#[trigger] s[i]),
        n == s.len() || !is_word_char(s[n]),
    ensures
        word_len(s) == n,
    decreases n,
{
    if n > 0 {
        assert forall|i: int| 0 <= i < n - 1 implies is_word_char(#[trigger] s.drop_first()[i]) by {
            assert(s.drop_first()[i] == s[i + 1]);
        }
        if n < s.len() {
            assert(s.drop_first()[n - 1] == s[n]);
        }
        lemma_word_len_exact(s.drop_first(), n - 1);
    }
}

/// `code` with every defined name replaced by its value.
fn substitute_exec(code: &Vec<char>, scopes: &Vec<Vec<(Vec<char>, Vec<char>)>>) -> (r: Vec<char>)
    ensures
        r@ == substitute(code@, scopes_view(scopes@)),
{
    let ghost sv = scopes_view(scopes@);
    let n = code.len();
    let mut out: Vec<char> = Vec::new();
    let mut i: usize = 0;
    assert(code@.subrange(0, n as int) =~= code@);
    while i < n
        invariant
            n == code@.len(),
            i <= n,
            sv == scopes_view(scopes@),
            out@ + substitute(code@.subrange(i as int, n as int), sv) == substitute(code@, sv),
        decreases n - i,
    {
        let ghost s = code@.subrange(i as int, n as int);
        let c = code[i];
        if crate::text::is_alnum_char(c) || c == '_' {
            let mut j = i + 1;
            while j < n && (crate::text::is_alnum_char(code[j]) || code[j] == '_')
                invariant
                    i < j <= n,
                    n == code@.len(),
                    forall|m: int| i <= m < j ==> is_word_char(#[trigger] code@[m]),
                decreases n - j,
            {
                j = j + 1;
            }
            proof {
                assert forall|m: int| 0 <= m < j - i implies is_word_char(#[trigger] s[m]) by {
                    assert(s[m] == code@[i + m]);
                }
                if j < n {
                    assert(s[j - i] == code@[j as int]);
                }
                lemma_word_len_exact(s, j - i);
                assert(s.subrange(0, j - i) =~= code@.subrange(i as int, j as int));
                assert(s.subrange(j - i, s.len() as int) =~= code@.subrange(j as int, n as int));
            }
            let w = slice(code, i, j);
            let ghost before = out@;
            let replacement = replace_word(scopes, &w);
            crate::text::append_chars(&mut out, &replacement);
            proof {
                let val = match lookup(sv, w@) {
                    Some(v) => v,
                    None => w@,
                };
                assert(out@ == before + val);
                assert(substitute(s, sv) == val + substitute(code@.subrange(j as int, n as int), sv));
                assert(out@ + substitute(code@.subrange(j as int, n as int), sv) =~= before + substitute(s, sv));
            }
            i = j;
        } else {
            let ghost before = out@;
            out.push(c);
            proof {
                assert(s.drop_first() =~= code@.subrange(i + 1, n as int));
                assert(out@ + substitute(code@.subrange(i + 1, n as int), sv) =~= before + substitute(s, sv));
            }
            i = i + 1;
        }
    }
    assert(out@ + substitute(code@.subrange(n as int, n as int), sv) =~= out@);
    out
}

/// The first line that begins with `p` is a line, and it does.
pub proof fn lemma_first_line_with(ls: Seq<SpecLine>, p: Seq<char>)
    ensures
        first_line_with(ls, p) matches Some(i) ==> 0 <= i < ls.len() && has_prefix(ls[i].code, p),
    decreases ls.len(),
{
    if ls.len() > 0 {
        lemma_first_line_with(ls.drop_last(), p);
    }
}

/// A line found among the first `k` is the first of all.
pub proof fn lemma_first_line_prefix(ls: Seq<SpecLine>, p: Seq<char>, k: int)
    requires
        0 <= k <= ls.len(),
    ensures
        first_line_with(ls.subrange(0, k), p) is Some ==> first_line_with(ls, p) == first_line_with(
            ls.subrange(0, k),
            p,
        ),
    decreases ls.len() - k,
{
    if k < ls.len() {
        lemma_first_line_prefix(ls, p, k + 1);
        assert(ls.subrange(0, k + 1).drop_last() =~= ls.subrange(0, k));
    } else {
        assert(ls.subrange(0, k) =~= ls);
    }
}

/// The index of the first line that begins with `p`.
pub(crate) fn find_line_with(lines: &Vec<CodeLine>, p: &[char]) -> (r: Option<usize>)
    ensures
        match r {
            Some(i) => first_line_with(lines_view(lines@), p@) == Some(i as int),
            None => first_line_with(lines_view(lines@), p@) == None::<int>,
        },
{
    let ghost v = lines_view(lines@);
    let mut i: usize = 0;
    assert(v.subrange(0, 0) =~= Seq::<SpecLine>::empty());
    while i < lines.len()
        invariant
            v == lines_view(lines@),
            i <= v.len(),
            first_line_with(v.subrange(0, i as int), p@) == None::<int>,
        decreases v.len() - i,
    {
        assert(v.subrange(0, i + 1).drop_last() =~= v.subrange(0, i as int));
        assert(v.subrange(0, i + 1).last() == lines@[i as int]@);
        if starts_with(&lines[i].code, p) {
            proof {
                lemma_first_line_prefix(v, p@, i + 1);
            }
            return Some(i);
        }
        i = i + 1;
    }
    assert(v.subrange(0, v.len() as int) =~= v);
    None
}

/// The numbers after the first word of `code`, when there are `n` of them.
pub(crate) fn command_numbers_exec(code: &Vec<char>, n: usize) -> (r: Option<Vec<u8>>)
    ensures
        match command_numbers(code@, n as nat) {
            Some(v) => r is Some && r->Some_0@ == v,
            None => r is None,
        },
{
    let ws = split_whitespace(code);
    let ghost args = after_first_word(code@);
    if ws.len() == 0 {
        return if n == 0 {
            assert(all_u8(args));
            let v: Vec<u8> = Vec::new();
            assert(v@ =~= args.map_values(|w: Seq<char>| spec_parse_u8_text(w)->Some_0));
            Some(v)
        } else {
            None
        };
    }
    assert(texts_view(ws@).drop_first() == args);
    let mut out: Vec<u8> = Vec::new();
    let mut k: usize = 1;
    while k < ws.len()
        invariant
            1 <= k <= ws@.len(),
            args == after_first_word(code@),
            texts_view(ws@).drop_first() == args,
            out@.len() == k - 1,
            forall|m: int| 0 <= m < k - 1 ==> (#[trigger] spec_parse_u8_text(args[m])) is Some && out@[m]
                == spec_parse_u8_text(args[m])->Some_0,
        decreases ws@.len() - k,
    {
        assert(args[k - 1] == ws@[k as int]@);
        match parse_u8_text(&ws[k]) {
            Some(x) => out.push(x),
            None => {
                assert(!all_u8(args));
                assert(command_numbers(code@, n as nat) is None);
                return None;
            },
        }
        k = k + 1;
    }
    if out.len() != n {
        return None;
    }
    assert(out@ =~= args.map_values(|w: Seq<char>| spec_parse_u8_text(w)->Some_0));
    Some(out)
}

/// The lines without their first `#stack` line, and the stack that line activates.
fn stack_command(lines: &mut Vec<CodeLine>) -> (r: Result<Stack, KernelError>)
    ensures
        match spec_stack_command(lines_view(old(lines)@)) {
            Ok((ls, st)) => r is Ok && lines_view(final(lines)@) == ls && r->Ok_0 == st && st.wf(),
            Err(e) => r is Err && kerr_view(r->Err_0) == e,
        },
{
    let mut stack = Stack::new();
    let ghost v = lines_view(lines@);
    match find_line_with(lines, &['#', 's', 't', 'a', 'c', 'k']) {
        None => {
            assert(['#', 's', 't', 'a', 'c', 'k']@ =~= seq!['#', 's', 't', 'a', 'c', 'k']);
            Ok(stack)
        },
        Some(i) => {
            assert(['#', 's', 't', 'a', 'c', 'k']@ =~= seq!['#', 's', 't', 'a', 'c', 'k']);
            proof {
                lemma_first_line_with(v, seq!['#', 's', 't', 'a', 'c', 'k']);
            }
            assert(v[i as int] == lines@[i as int]@);
            match command_numbers_exec(&lines[i].code, 4) {
                None => Err(KernelError { kind: KernelErrorKind::InvalidStackCommand, text: Vec::new() }),
                Some(nums) => {
                    stack.activate((nums[0], nums[1]), (nums[2], nums[3]))?;
                    let _ = lines.remove(i);
                    assert(lines_view(lines@) =~= v.remove(i as int));
                    Ok(stack)
                },
            }
        },
    }
}

/// The scopes after moving from depth `prev` to depth `d`.
fn adjust_exec(scopes: &mut Vec<Vec<(Vec<char>, Vec<char>)>>, prev: u8, d: u8)
    requires
        old(scopes)@.len() == prev + 1,
    ensures
        scopes_view(final(scopes)@) == adjust(scopes_view(old(scopes)@), prev as int, d as int),
        final(scopes)@.len() == d + 1,
{
    let ghost s0 = scopes_view(scopes@);
    if d > prev {
        let mut m: u8 = prev;
        while m < d
            invariant
                s0 == scopes_view(old(scopes)@),
                prev <= m <= d,
                scopes@.len() == m + 1,
                scopes_view(scopes@) == s0 + Seq::new((m - prev) as nat, |i: int| Map::<Seq<char>, Seq<char>>::empty()),
            decreases d - m,
        {
            let ghost before = scopes_view(scopes@);
            let fresh: Vec<(Vec<char>, Vec<char>)> = Vec::new();
            assert(assoc_map(fresh@) == Map::<Seq<char>, Seq<char>>::empty());
            scopes.push(fresh);
            m = m + 1;
            assert(scopes_view(scopes@) =~= before.push(Map::<Seq<char>, Seq<char>>::empty()));
            assert(scopes_view(scopes@) =~= s0 + Seq::new((m - prev) as nat, |i: int| Map::<Seq<char>, Seq<char>>::empty()));
        }
    } else if d < prev {
        let mut m: u8 = prev;
        while m > d
            invariant
                s0 == scopes_view(old(scopes)@),
                s0.len() == prev + 1,
                d <= m <= prev,
                scopes@.len() == m + 1,
                scopes_view(scopes@) == s0.subrange(0, m + 1),
            decreases m,
        {
            let _ = scopes.pop();
            m = m - 1;
            assert(scopes_view(scopes@) =~= s0.subrange(0, m + 1));
        }
    }
}

/// The scopes with `k` defined as `v` in the innermost one.
fn define_in_exec(scopes: &mut Vec<Vec<(Vec<char>, Vec<char>)>>, k: Vec<char>, v: Vec<char>)
    requires
        old(scopes)@.len() > 0,
    ensures
        final(scopes)@.len() == old(scopes)@.len(),
        scopes_view(final(scopes)@) == define_in(scopes_view(old(scopes)@), k@, v@),
{
    let ghost s0 = scopes_view(scopes@);
    let mut top = match scopes.pop() {
        Some(t) => t,
        None => {
            assert(false);
            Vec::new()
        },
    };
    let ghost t0 = top@;
    top.push((k, v));
    assert(top@.drop_last() =~= t0);
    scopes.push(top);
    assert(scopes_view(scopes@) =~= define_in(s0, k@, v@));
}

/// The text `[x,y,c]` of an address.
fn address_text_exec(v: (u8, u8, u8)) -> (r: Vec<char>)
    ensures
        r@ == address_text(v),
{
    let mut r: Vec<char> = Vec::new();
    r.push('[');
    push_decimal(&mut r, v.0);
    r.push(',');
    push_decimal(&mut r, v.1);
    r.push(',');
    push_decimal(&mut r, v.2);
    r.push(']');
    assert(r@ =~= address_text(v));
    r
}

/// A strictly increasing list of depths below `d` has at most `d` entries.
pub proof fn lemma_increasing_len(rem: Seq<u8>, d: u8)
    requires
        forall|a: int, b: int| 0 <= a < b < rem.len() ==> rem[a] < rem[b],
        rem.len() > 0 ==> rem.last() < d,
    ensures
        rem.len() <= d,
{
    if rem.len() > 0 {
        assert forall|k: int| 0 <= k < rem.len() implies rem[k] >= k by {
            lemma_increasing_at_least(rem, k);
        }
        assert(rem[rem.len() - 1] >= rem.len() - 1);
    }
}

/// Entry `k` of a strictly increasing list of depths is at least `k`.
pub proof fn lemma_increasing_at_least(rem: Seq<u8>, k: int)
    requires
        forall|a: int, b: int| 0 <= a < b < rem.len() ==> rem[a] < rem[b],
        0 <= k < rem.len(),
    ensures
        rem[k] >= k,
    decreases k,
{
    if k > 0 {
        lemma_increasing_at_least(rem, k - 1);
    }
}

/// What is left of a strictly increasing list after leaving blocks stays strictly
/// increasing and lies below `d`.
pub proof fn lemma_pop_while(rem: Seq<u8>, d: u8)
    requires
        forall|a: int, b: int| 0 <= a < b < rem.len() ==> rem[a] < rem[b],
    ensures
        pop_while(rem, d).len() <= rem.len(),
        forall|k: int| 0 <= k < pop_while(rem, d).len() ==> pop_while(rem, d)[k] == rem[k],
        pop_while(rem, d).len() > 0 ==> pop_while(rem, d).last() < d,
    decreases rem.len(),
{
    if rem.len() > 0 && d <= rem.last() {
        lemma_pop_while(rem.drop_last(), d);
        let p = pop_while(rem, d);
        assert forall|k: int| 0 <= k < p.len() implies p[k] == rem[k] by {
            assert(p[k] == rem.drop_last()[k]);
        }
    }
}

/// Replaces the names that `define` lines give values (see `spec_define`); gives the
/// cells used and the cells in the region of the stack, when one is active.
pub fn define(lines: &mut Vec<CodeLine>) -> (r: Result<Option<(u32, u32)>, KernelError>)
    ensures
        match spec_define(lines_view(old(lines)@)) {
            Ok(ls) => r is Ok && lines_view(final(lines)@) == ls && r->Ok_0 == define_usage(lines_view(old(lines)@)),
            Err(e) => r is Err && kerr_view(r->Err_0) == e,
        },
{
    let mut stack = stack_command(lines)?;
    let ghost ls1 = lines_view(lines@);
    let mut scopes: Vec<Vec<(Vec<char>, Vec<char>)>> = Vec::new();
    scopes.push(Vec::new());
    let ghost init = scopes_view(scopes@);
    assert(init =~= seq![Map::<Seq<char>, Seq<char>>::empty()]);
    let mut out: Vec<CodeLine> = Vec::new();
    let mut prev: u8 = 0;
    let mut i: usize = 0;
    assert(lines_view(out@) =~= Seq::<SpecLine>::empty());
    while i < lines.len()
        invariant
            ls1 == lines_view(lines@),
            i <= ls1.len(),
            scopes@.len() == prev + 1,
            stack.wf(),
            define_from(ls1, 0, seq![Map::<Seq<char>, Seq<char>>::empty()], 0, spec_stack_command(lines_view(old(lines)@))->Ok_0.1, Seq::empty())
                == define_from(ls1, i as int, scopes_view(scopes@), prev as int, stack, lines_view(out@)),
            spec_stack_command(lines_view(old(lines)@)) is Ok,
            spec_stack_command(lines_view(old(lines)@))->Ok_0.0 == ls1,
        decreases ls1.len() - i,
    {
        assert(ls1[i as int] == lines@[i as int]@);
        let d = lines[i].depth;
        adjust_exec(&mut scopes, prev, d);
        prev = d;
        if is_define_exec(&lines[i].code) {
            let ws = split_whitespace(&lines[i].code);
            proof {
                if ws@.len() > 0 {
                    assert(after_first_word(lines@[i as int].code@) == texts_view(ws@).drop_first());
                }
            }
            if ws.len() == 2 {
                if !stack.activated {
                    let t = slice(&lines[i].code, 0, lines[i].code.len());
                    assert(t@ =~= lines@[i as int].code@);
                    return Err(KernelError { kind: KernelErrorKind::DefineWithoutStack, text: t });
                }
                let v = stack.get()?;
                let key = slice(&ws[1], 0, ws[1].len());
                assert(key@ =~= ws@[1]@);
                define_in_exec(&mut scopes, key, address_text_exec(v));
            } else if ws.len() == 3 {
                let key = slice(&ws[1], 0, ws[1].len());
                let val = slice(&ws[2], 0, ws[2].len());
                assert(key@ =~= ws@[1]@);
                assert(val@ =~= ws@[2]@);
                define_in_exec(&mut scopes, key, val);
            } else {
                let t = slice(&lines[i].code, 0, lines[i].code.len());
                assert(t@ =~= lines@[i as int].code@);
                return Err(KernelError { kind: KernelErrorKind::InvalidDefine, text: t });
            }
        } else {
            let code = substitute_exec(&lines[i].code, &scopes);
            let ghost ov = lines_view(out@);
            out.push(CodeLine { code, depth: d, starts_closure: lines[i].starts_closure });
            assert(lines_view(out@) =~= ov.push(
                SpecLine { code: substitute(ls1[i as int].code, scopes_view(scopes@)), ..ls1[i as int] },
            ));
        }
        i = i + 1;
    }
    let ghost ls2 = lines_view(out@);
    // Unwrap the blocks whose header is empty.
    let mut removing: Vec<u8> = Vec::new();
    let mut result: Vec<CodeLine> = Vec::new();
    let mut k: usize = 0;
    assert(lines_view(result@) =~= Seq::<SpecLine>::empty());
    while k < out.len()
        invariant
            ls2 == lines_view(out@),
            k <= ls2.len(),
            forall|a: int, b: int| 0 <= a < b < removing@.len() ==> removing@[a] < removing@[b],
            unwrap_from(ls2, 0, Seq::empty(), Seq::empty()) == unwrap_from(ls2, k as int, removing@, lines_view(result@)),
        decreases ls2.len() - k,
    {
        assert(ls2[k as int] == out@[k as int]@);
        let d = out[k].depth;
        let ghost r0 = removing@;
        proof {
            lemma_pop_while(r0, d);
        }
        while removing.len() > 0 && d <= removing[removing.len() - 1]
            invariant
                pop_while(r0, d) == pop_while(removing@, d),
                forall|a: int, b: int| 0 <= a < b < removing@.len() ==> removing@[a] < removing@[b],
            decreases removing@.len(),
        {
            let _ = removing.pop();
        }
        proof {
            lemma_pop_while(removing@, d);
            assert(pop_while(removing@, d) == removing@);
        }
        if out[k].code.len() == 0 && out[k].starts_closure {
            removing.push(d);
        } else if removing.len() == 0 {
            let ghost rv = lines_view(result@);
            let nl = at_depth_line(&out[k], d);
            result.push(nl);
            assert(lines_view(result@) =~= rv.push(ls2[k as int]));
        } else {
            proof {
                lemma_increasing_len(removing@, d);
            }
            let nd: u8 = d - (removing.len() as u8);
            let ghost rv = lines_view(result@);
            let nl = at_depth_line(&out[k], nd);
            result.push(nl);
            assert(lines_view(result@) =~= rv.push(SpecLine { depth: (d - removing@.len()) as u8, ..ls2[k as int] }));
        }
        k = k + 1;
    }
    *lines = result;
    if stack.activated {
        Ok(Some(stack.get_used()))
    } else {
        Ok(None)
    }
}

/// The line `l` at depth `d`.
fn at_depth_line(l: &CodeLine, d: u8) -> (r: CodeLine)
    ensures
        r@ == (SpecLine { depth: d, ..l@ }),
{
    let code = slice(&l.code, 0, l.code.len());
    assert(code@ =~= l.code@);
    CodeLine { code, depth: d, starts_closure: l.starts_closure }
}

} // verus!
