use vstd::prelude::*;

use crate::define::{lemma_word_len, lemma_word_len_exact, word_len};
use crate::kerneler::{
    kerr_view, lemma_map_lines_err, lemma_map_lines_step, lines_view, map_lines, pass_result, CodeLine,
    KernelError, KernelErrorKind, SpecKernelError, SpecLine,
};
use crate::text::{
    append_chars, contains_char, has_char, lemma_split_pair, no_separators, is_alnum_char, is_word_char, lemma_split_top_total, push_all, slice, split_top, split_top_level, total_len,
};

verus! {

/// The character at index `i` of `c` marks a reference: a `#`, or an `&` where no
/// operand stands before it (at the start, or after `(` or `,`), so that it cannot be
/// the bitwise-and operator.
pub open spec fn ref_sigil(c: Seq<char>, i: int) -> bool {
    c[i] == '#' || (c[i] == '&' && (i == 0 || c[i - 1] == '(' || c[i - 1] == ','))
}

fn ref_sigil_exec(c: &Vec<char>, i: usize) -> (r: bool)
    requires
        i < c@.len(),
    ensures
        r == ref_sigil(c@, i as int),
{
    c[i] == '#' || (c[i] == '&' && (i == 0 || c[i - 1] == '(' || c[i - 1] == ','))
}

/// `r` with `out` put before the text it holds.
pub open spec fn prefixed(out: Seq<char>, r: Option<(Seq<char>, bool)>) -> Option<(Seq<char>, bool)> {
    match r {
        Some((o, b)) => Some((out + o, b)),
        None => None,
    }
}

/// The text from index `i` on without the `&[` (or `#[`) that opens each reference and the `]`
/// that closes it, and whether a reference is still open at the end; `None` when
/// brackets nest too deep inside a reference to count.
pub open spec fn ref_scan(c: Seq<char>, i: int, inb: bool, depth: int) -> Option<(Seq<char>, bool)>
    decreases c.len() - i,
{
    if i < 0 || i >= c.len() {
        Some((Seq::empty(), inb))
    } else {
        let ch = c[i];
        if i < c.len() - 1 && ref_sigil(c, i) && c[i + 1] == '[' && !inb {
            ref_scan(c, i + 2, true, 0)
        } else if ch == '[' && inb {
            if depth >= 255 {
                None
            } else {
                prefixed(seq![ch], ref_scan(c, i + 1, inb, depth + 1))
            }
        } else if ch == ']' && inb && depth > 0 {
            prefixed(seq![ch], ref_scan(c, i + 1, inb, depth - 1))
        } else if ch == ']' && inb && depth == 0 {
            ref_scan(c, i + 1, false, 0)
        } else {
            prefixed(seq![ch], ref_scan(c, i + 1, inb, depth))
        }
    }
}

/// A line whose references `&[x]` (or `#[x]`) are replaced by their insides `x`.
pub open spec fn spec_reference_line(l: SpecLine) -> Result<SpecLine, SpecKernelError> {
    match ref_scan(l.code, 0, false, 0) {
        None => Err((KernelErrorKind::TooDeep, l.code)),
        Some((out, open)) => if open {
            Err((KernelErrorKind::UnclosedReference, l.code))
        } else {
            Ok(SpecLine { code: out, ..l })
        },
    }
}

/// `spec_reference_line` as a function value.
pub open spec fn reference_fn() -> spec_fn(SpecLine) -> Result<SpecLine, SpecKernelError> {
    |l: SpecLine| spec_reference_line(l)
}

fn reference_line(l: &CodeLine) -> (r: Result<CodeLine, KernelError>)
    ensures
        match spec_reference_line(l@) {
            Ok(nl) => r is Ok && r->Ok_0@ == nl,
            Err(e) => r is Err && kerr_view(r->Err_0) == e,
        },
{
    let c = &l.code;
    let n = c.len();
    let mut out: Vec<char> = Vec::new();
    let mut in_bracket = false;
    let mut depth: u8 = 0;
    let mut i: usize = 0;
    while i < n
        invariant
            n == c@.len(),
            l@.code == c@,
            i <= n + 1,
            ref_scan(c@, 0, false, 0) == prefixed(out@, ref_scan(c@, i as int, in_bracket, depth as int)),
        decreases n + 1 - i,
    {
        let ch = c[i];
        let ghost o = out@;
        if i < n - 1 && ref_sigil_exec(c, i) && c[i + 1] == '[' && !in_bracket {
            in_bracket = true;
            depth = 0;
            i = i + 2;
        } else if ch == '[' && in_bracket {
            if depth == 255 {
                let t = slice(c, 0, n);
                assert(t@ =~= c@);
                return Err(KernelError { kind: KernelErrorKind::TooDeep, text: t });
            }
            depth = depth + 1;
            out.push(ch);
            i = i + 1;
            assert(prefixed(o, prefixed(seq![ch], ref_scan(c@, i as int, in_bracket, depth as int))) == prefixed(
                out@,
                ref_scan(c@, i as int, in_bracket, depth as int),
            )) by {
                match ref_scan(c@, i as int, in_bracket, depth as int) {
                    Some((x, b)) => {
                        assert(o + (seq![ch] + x) =~= out@ + x);
                    },
                    None => {},
                }
            }
        } else if ch == ']' && in_bracket && depth > 0 {
            depth = depth - 1;
            out.push(ch);
            i = i + 1;
            assert(prefixed(o, prefixed(seq![ch], ref_scan(c@, i as int, in_bracket, depth as int))) == prefixed(
                out@,
                ref_scan(c@, i as int, in_bracket, depth as int),
            )) by {
                match ref_scan(c@, i as int, in_bracket, depth as int) {
                    Some((x, b)) => {
                        assert(o + (seq![ch] + x) =~= out@ + x);
                    },
                    None => {},
                }
            }
        } else if ch == ']' && in_bracket && depth == 0 {
            in_bracket = false;
            i = i + 1;
        } else {
            out.push(ch);
            i = i + 1;
            assert(prefixed(o, prefixed(seq![ch], ref_scan(c@, i as int, in_bracket, depth as int))) == prefixed(
                out@,
                ref_scan(c@, i as int, in_bracket, depth as int),
            )) by {
                match ref_scan(c@, i as int, in_bracket, depth as int) {
                    Some((x, b)) => {
                        assert(o + (seq![ch] + x) =~= out@ + x);
                    },
                    None => {},
                }
            }
        }
    }
    assert(out@ + Seq::<char>::empty() =~= out@);
    if in_bracket {
        let t = slice(c, 0, n);
        assert(t@ =~= c@);
        return Err(KernelError { kind: KernelErrorKind::UnclosedReference, text: t });
    }
    Ok(CodeLine { code: out, depth: l.depth, starts_closure: l.starts_closure })
}

/// Replaces every reference `&[x]` (or `#[x]`) by its inside `x`: a name defined as
/// `[0,0,0]` and written `&x` becomes `0,0,0`.
pub fn reference(lines: &mut Vec<CodeLine>) -> (r: Result<(), KernelError>)
    ensures
        pass_result(r, lines_view(final(lines)@), map_lines(lines_view(old(lines)@), reference_fn())),
{
    let ghost old_v = lines_view(lines@);
    let ghost f = reference_fn();
    let mut i: usize = 0;
    assert(old_v.subrange(0, 0) =~= Seq::<SpecLine>::empty());
    assert(lines_view(lines@).subrange(0, 0) =~= Seq::<SpecLine>::empty());
    while i < lines.len()
        invariant
            old_v == lines_view(old(lines)@),
            lines@.len() == old_v.len(),
            i <= old_v.len(),
            f == reference_fn(),
            map_lines(old_v.subrange(0, i as int), f) == Ok::<Seq<SpecLine>, SpecKernelError>(
                lines_view(lines@).subrange(0, i as int),
            ),
            forall|k: int| i <= k < old_v.len() ==> #[trigger] lines@[k]@ == old_v[k],
        decreases old_v.len() - i,
    {
        assert(lines@[i as int]@ == old_v[i as int]);
        match reference_line(&lines[i]) {
            Ok(nl) => {
                proof {
                    lemma_map_lines_step(old_v, f, i as int, lines_view(lines@).subrange(0, i as int));
                }
                let ghost before = lines_view(lines@).subrange(0, i as int);
                lines.set(i, nl);
                assert(lines_view(lines@).subrange(0, i + 1) =~= before.push(nl@));
            },
            Err(e) => {
                proof {
                    lemma_map_lines_err(old_v, f, i as int);
                }
                return Err(e);
            },
        }
        i = i + 1;
    }
    assert(old_v.subrange(0, old_v.len() as int) =~= old_v);
    assert(lines_view(lines@).subrange(0, old_v.len() as int) =~= lines_view(lines@));
    Ok(())
}

/// `w$1,w$2,w$3`: the three components of the address that argument `w` holds.
pub open spec fn arg_expansion(w: Seq<char>) -> Seq<char> {
    w + seq!['$', '1', ','] + w + seq!['$', '2', ','] + w + seq!['$', '3']
}

/// The text from index `i` on with every `&w` (a reference sigil and the name after it)
/// replaced by `w$1,w$2,w$3`; `None` when a sigil has no name after it.
pub open spec fn argref_from(c: Seq<char>, i: int) -> Option<Seq<char>>
    decreases c.len() - i,
{
    if i < 0 || i >= c.len() {
        Some(Seq::empty())
    } else if ref_sigil(c, i) {
        let rest = c.subrange(i + 1, c.len() as int);
        let n = word_len(rest);
        proof {
            lemma_word_len(rest);
        }
        if n == 0 {
            None
        } else {
            match argref_from(c, i + 1 + n) {
                Some(x) => Some(arg_expansion(rest.subrange(0, n as int)) + x),
                None => None,
            }
        }
    } else {
        match argref_from(c, i + 1) {
            Some(x) => Some(seq![c[i]] + x),
            None => None,
        }
    }
}

/// A line whose argument references `&w` are replaced by the three components of the
/// address in `w`.
pub open spec fn spec_arg_reference_line(l: SpecLine) -> Result<SpecLine, SpecKernelError> {
    match argref_from(l.code, 0) {
        None => Err((KernelErrorKind::IsolatedReference, l.code)),
        Some(out) => Ok(SpecLine { code: out, ..l }),
    }
}

/// `spec_arg_reference_line` as a function value.
pub open spec fn arg_reference_fn() -> spec_fn(SpecLine) -> Result<SpecLine, SpecKernelError> {
    |l: SpecLine| spec_arg_reference_line(l)
}

/// `o` put before the text that `r` holds.
pub open spec fn prefixed_text(o: Seq<char>, r: Option<Seq<char>>) -> Option<Seq<char>> {
    match r {
        Some(x) => Some(o + x),
        None => None,
    }
}

fn arg_reference_line(l: &CodeLine) -> (r: Result<CodeLine, KernelError>)
    ensures
        match spec_arg_reference_line(l@) {
            Ok(nl) => r is Ok && r->Ok_0@ == nl,
            Err(e) => r is Err && kerr_view(r->Err_0) == e,
        },
{
    let c = &l.code;
    let n = c.len();
    let mut out: Vec<char> = Vec::new();
    let mut i: usize = 0;
    while i < n
        invariant
            n == c@.len(),
            l@.code == c@,
            i <= n,
            argref_from(c@, 0) == prefixed_text(out@, argref_from(c@, i as int)),
        decreases n - i,
    {
        let ch = c[i];
        let ghost o = out@;
        if ref_sigil_exec(c, i) {
            let mut j = i + 1;
            while j < n && (is_alnum_char(c[j]) || c[j] == '_')
                invariant
                    i < j <= n,
                    n == c@.len(),
                    forall|m: int| i < m < j ==> is_word_char(#[trigger] c@[m]),
                decreases n - j,
            {
                j = j + 1;
            }
            let ghost rest = c@.subrange(i + 1, n as int);
            proof {
                assert forall|m: int| 0 <= m < j - i - 1 implies is_word_char(#[trigger] rest[m]) by {
                    assert(rest[m] == c@[i + 1 + m]);
                }
                if j < n {
                    assert(rest[j - i - 1] == c@[j as int]);
                }
                lemma_word_len_exact(rest, j - i - 1);
                assert(rest.subrange(0, j - i - 1) =~= c@.subrange(i + 1, j as int));
            }
            if j == i + 1 {
                assert(argref_from(c@, i as int) is None);
                let t = slice(c, 0, n);
                assert(t@ =~= c@);
                return Err(KernelError { kind: KernelErrorKind::IsolatedReference, text: t });
            }
            let w = slice(c, i + 1, j);
            append_chars(&mut out, &w);
            push_all(&mut out, &['$', '1', ',']);
            append_chars(&mut out, &w);
            push_all(&mut out, &['$', '2', ',']);
            append_chars(&mut out, &w);
            push_all(&mut out, &['$', '3']);
            assert(out@ =~= o + arg_expansion(w@));
            proof {
                match argref_from(c@, j as int) {
                    Some(x) => {
                        assert(o + (arg_expansion(w@) + x) =~= out@ + x);
                    },
                    None => {},
                }
            }
            i = j;
        } else {
            out.push(ch);
            proof {
                match argref_from(c@, i + 1) {
                    Some(x) => {
                        assert(o + (seq![ch] + x) =~= out@ + x);
                    },
                    None => {},
                }
            }
            i = i + 1;
        }
    }
    assert(out@ + Seq::<char>::empty() =~= out@);
    Ok(CodeLine { code: out, depth: l.depth, starts_closure: l.starts_closure })
}

/// Replaces every argument reference `&w` (or `#w`) by the three components of the
/// address in `w`.
pub fn arg_reference(lines: &mut Vec<CodeLine>) -> (r: Result<(), KernelError>)
    ensures
        pass_result(r, lines_view(final(lines)@), map_lines(lines_view(old(lines)@), arg_reference_fn())),
{
    let ghost old_v = lines_view(lines@);
    let ghost f = arg_reference_fn();
    let mut i: usize = 0;
    assert(old_v.subrange(0, 0) =~= Seq::<SpecLine>::empty());
    assert(lines_view(lines@).subrange(0, 0) =~= Seq::<SpecLine>::empty());
    while i < lines.len()
        invariant
            old_v == lines_view(old(lines)@),
            lines@.len() == old_v.len(),
            i <= old_v.len(),
            f == arg_reference_fn(),
            map_lines(old_v.subrange(0, i as int), f) == Ok::<Seq<SpecLine>, SpecKernelError>(
                lines_view(lines@).subrange(0, i as int),
            ),
            forall|k: int| i <= k < old_v.len() ==> #[trigger] lines@[k]@ == old_v[k],
        decreases old_v.len() - i,
    {
        assert(lines@[i as int]@ == old_v[i as int]);
        match arg_reference_line(&lines[i]) {
            Ok(nl) => {
                proof {
                    lemma_map_lines_step(old_v, f, i as int, lines_view(lines@).subrange(0, i as int));
                }
                let ghost before = lines_view(lines@).subrange(0, i as int);
                lines.set(i, nl);
                assert(lines_view(lines@).subrange(0, i + 1) =~= before.push(nl@));
            },
            Err(e) => {
                proof {
                    lemma_map_lines_err(old_v, f, i as int);
                }
                return Err(e);
            },
        }
        i = i + 1;
    }
    assert(old_v.subrange(0, old_v.len() as int) =~= old_v);
    assert(lines_view(lines@).subrange(0, old_v.len() as int) =~= lines_view(lines@));
    Ok(())
}


/// `[f,s,d]`: one of the three addresses a pointer `[f,s]` stands for.
pub open spec fn pointer_address(f: Seq<char>, s: Seq<char>, d: char) -> Seq<char> {
    seq!['['] + f + seq![','] + s + seq![',', d, ']']
}

/// `[f,s,0],[f,s,1],[f,s,2]`: the three addresses a pointer `[f,s]` stands for.
pub open spec fn pointer_expansion(f: Seq<char>, s: Seq<char>) -> Seq<char> {
    pointer_address(f, s, '0') + seq![','] + pointer_address(f, s, '1') + seq![','] + pointer_address(f, s, '2')
}

/// The scan of the line `c` from index `i - 1` down to 0, with `code` the text so far
/// and `opens` the positions of the `]` whose `[` has not been met yet. A bracket pair
/// whose inside splits into two pieces `f,s` at its top-level comma is replaced by
/// `pointer_expansion(f, s)`; the replaced range is measured on the line as the scan read it.
/// `Err` holds the text so far when a `[` has no `]` after it.
pub open spec fn ptr_scan(c: Seq<char>, i: int, code: Seq<char>, opens: Seq<int>) -> Result<Seq<char>, Seq<char>>
    decreases i,
{
    if i <= 0 {
        Ok(code)
    } else {
        let p = i - 1;
        if c[p] == '[' {
            if opens.len() == 0 {
                Err(code)
            } else {
                let j = opens.last();
                let parts = split_top(c.subrange(i, j));
                let next = if parts.len() == 2 {
                    code.subrange(0, p) + pointer_expansion(parts[0], parts[1]) + code.subrange(j + 1, code.len() as int)
                } else {
                    code
                };
                ptr_scan(c, p, next, opens.drop_last())
            }
        } else if c[p] == ']' {
            ptr_scan(c, p, code, opens.push(p))
        } else {
            ptr_scan(c, p, code, opens)
        }
    }
}

/// A line whose pointers `[f,s]` are replaced by the three addresses they stand for.
pub open spec fn spec_pointer_line(l: SpecLine) -> Result<SpecLine, SpecKernelError> {
    match ptr_scan(l.code, l.code.len() as int, l.code, Seq::empty()) {
        Err(t) => Err((KernelErrorKind::UnmatchedBracket, t)),
        Ok(out) => Ok(SpecLine { code: out, ..l }),
    }
}

/// `spec_pointer_line` as a function value.
pub open spec fn pointer_fn() -> spec_fn(SpecLine) -> Result<SpecLine, SpecKernelError> {
    |l: SpecLine| spec_pointer_line(l)
}

/// The positions as integers.
pub open spec fn positions(v: Seq<usize>) -> Seq<int> {
    v.map_values(|x: usize| x as int)
}

fn push_pointer_address(out: &mut Vec<char>, f: &Vec<char>, s: &Vec<char>, d: char)
    ensures
        final(out)@ == old(out)@ + pointer_address(f@, s@, d),
{
    let ghost o = out@;
    out.push('[');
    append_chars(out, f);
    out.push(',');
    append_chars(out, s);
    out.push(',');
    out.push(d);
    out.push(']');
    assert(out@ =~= o + pointer_address(f@, s@, d));
}

fn pointer_line(l: &CodeLine) -> (r: Result<CodeLine, KernelError>)
    ensures
        match spec_pointer_line(l@) {
            Ok(nl) => r is Ok && r->Ok_0@ == nl,
            Err(e) => r is Err && kerr_view(r->Err_0) == e,
        },
{
    let c = &l.code;
    let n = c.len();
    let mut code = slice(c, 0, n);
    assert(code@ =~= c@);
    let mut opens: Vec<usize> = Vec::new();
    assert(positions(opens@) =~= Seq::<int>::empty());
    let mut i: usize = n;
    while i > 0
        invariant
            n == c@.len(),
            l@.code == c@,
            i <= n,
            code@.len() >= n,
            forall|k: int| 0 <= k < opens@.len() ==> i <= #[trigger] opens@[k] < n,
            ptr_scan(c@, n as int, c@, Seq::empty()) == ptr_scan(c@, i as int, code@, positions(opens@)),
        decreases i,
    {
        let p = i - 1;
        let ch = c[p];
        let ghost code0 = code@;
        let ghost pos0 = positions(opens@);
        if ch == '[' {
            match opens.pop() {
                None => {
                    return Err(KernelError { kind: KernelErrorKind::UnmatchedBracket, text: code });
                },
                Some(j) => {
                    assert(positions(opens@) =~= pos0.drop_last());
                    let inner = slice(c, i, j);
                    let parts = split_top_level(&inner);
                    assert(inner@ == c@.subrange(i as int, j as int));
                    assert(pos0.last() == j as int);
                    if parts.len() == 2 {
                        assert(parts@[0]@ == split_top(inner@)[0]);
                        assert(parts@[1]@ == split_top(inner@)[1]);
                        proof {
                            lemma_split_top_total(inner@);
                            let ps = split_top(inner@);
                            let ps1 = ps.drop_last();
                            assert(ps1.drop_last() =~= Seq::<Seq<char>>::empty());
                            assert(total_len(ps1.drop_last()) == 0);
                            assert(total_len(ps1) == ps[0].len());
                            assert(total_len(ps) == ps[0].len() + ps[1].len());
                        }
                        let ghost before = code@;
                        let mut next = slice(&code, 0, p);
                        push_pointer_address(&mut next, &parts[0], &parts[1], '0');
                        next.push(',');
                        push_pointer_address(&mut next, &parts[0], &parts[1], '1');
                        next.push(',');
                        push_pointer_address(&mut next, &parts[0], &parts[1], '2');
                        let tail = slice(&code, j + 1, code.len());
                        append_chars(&mut next, &tail);
                        assert(next@ =~= before.subrange(0, p as int) + pointer_expansion(parts[0]@, parts[1]@) + before.subrange(
                            j + 1,
                            before.len() as int,
                        ));
                        code = next;
                    }
                    assert(ptr_scan(c@, i as int, code0, pos0) == ptr_scan(c@, p as int, code@, positions(opens@)));
                },
            }
        } else if ch == ']' {
            opens.push(p);
            assert(positions(opens@) =~= pos0.push(p as int));
        }
        assert(ptr_scan(c@, i as int, code0, pos0) == ptr_scan(c@, p as int, code@, positions(opens@)));
        i = p;
    }
    Ok(CodeLine { code, depth: l.depth, starts_closure: l.starts_closure })
}

/// Replaces every pointer `[f,s]` by the three addresses `[f,s,0],[f,s,1],[f,s,2]`.
pub fn pointer(lines: &mut Vec<CodeLine>) -> (r: Result<(), KernelError>)
    ensures
        pass_result(r, lines_view(final(lines)@), map_lines(lines_view(old(lines)@), pointer_fn())),
{
    let ghost old_v = lines_view(lines@);
    let ghost f = pointer_fn();
    let mut i: usize = 0;
    assert(old_v.subrange(0, 0) =~= Seq::<SpecLine>::empty());
    assert(lines_view(lines@).subrange(0, 0) =~= Seq::<SpecLine>::empty());
    while i < lines.len()
        invariant
            old_v == lines_view(old(lines)@),
            lines@.len() == old_v.len(),
            i <= old_v.len(),
            f == pointer_fn(),
            map_lines(old_v.subrange(0, i as int), f) == Ok::<Seq<SpecLine>, SpecKernelError>(
                lines_view(lines@).subrange(0, i as int),
            ),
            forall|k: int| i <= k < old_v.len() ==> #[trigger] lines@[k]@ == old_v[k],
        decreases old_v.len() - i,
    {
        assert(lines@[i as int]@ == old_v[i as int]);
        match pointer_line(&lines[i]) {
            Ok(nl) => {
                proof {
                    lemma_map_lines_step(old_v, f, i as int, lines_view(lines@).subrange(0, i as int));
                }
                let ghost before = lines_view(lines@).subrange(0, i as int);
                lines.set(i, nl);
                assert(lines_view(lines@).subrange(0, i + 1) =~= before.push(nl@));
            },
            Err(e) => {
                proof {
                    lemma_map_lines_err(old_v, f, i as int);
                }
                return Err(e);
            },
        }
        i = i + 1;
    }
    assert(old_v.subrange(0, old_v.len() as int) =~= old_v);
    assert(lines_view(lines@).subrange(0, old_v.len() as int) =~= lines_view(lines@));
    Ok(())
}


/// The state of the backward scan of a call line `[x,y,z]=name(args)`: the part being
/// read (0: the arguments, 1: the name, 2: the `]` before `=`, 3: the address), the
/// bracket depth in the address, how many commas of the address were met, and the
/// pieces read so far (`addr[0]` is the last component of the address).
pub struct CallScan {
    pub step: int,
    pub depth: int,
    pub count: int,
    pub args: Seq<char>,
    pub name: Seq<char>,
    pub addr: Seq<Seq<char>>,
}

/// The scan before the first character.
pub open spec fn call_start() -> CallScan {
    CallScan {
        step: 0,
        depth: 0,
        count: 0,
        args: Seq::empty(),
        name: Seq::empty(),
        addr: seq![Seq::<char>::empty(), Seq::<char>::empty(), Seq::<char>::empty()],
    }
}

/// One character of the backward scan.
pub open spec fn call_step(s: CallScan, ch: char) -> Result<CallScan, KernelErrorKind> {
    if s.step == 0 {
        if ch == '(' {
            Ok(CallScan { step: 1, ..s })
        } else {
            Ok(CallScan { args: seq![ch] + s.args, ..s })
        }
    } else if s.step == 1 {
        if ch == '=' {
            Ok(CallScan { step: 2, ..s })
        } else {
            Ok(CallScan { name: seq![ch] + s.name, ..s })
        }
    } else if s.step == 2 {
        Ok(CallScan { step: 3, ..s })
    } else {
        let depth = if ch == ']' {
            s.depth + 1
        } else if ch == '[' {
            s.depth - 1
        } else {
            s.depth
        };
        if depth < 0 {
            Err(KernelErrorKind::UnmatchedBracket)
        } else if ch == ',' && depth == 0 {
            Ok(CallScan { depth, count: s.count + 1, ..s })
        } else if s.count >= 3 {
            Err(KernelErrorKind::InvalidAddress)
        } else {
            Ok(CallScan { depth, addr: s.addr.update(s.count, seq![ch] + s.addr[s.count]), ..s })
        }
    }
}

/// The backward scan of `c` from index `i - 1` down to index 1 (the first and the last
/// character of the line are not read).
pub open spec fn call_scan(c: Seq<char>, i: int, s: CallScan) -> Result<CallScan, KernelErrorKind>
    decreases i,
{
    if i <= 1 {
        Ok(s)
    } else {
        match call_step(s, c[i - 1]) {
            Err(k) => Err(k),
            Ok(s2) => call_scan(c, i - 1, s2),
        }
    }
}

/// `name(args,x,y,z)`: the call with the address of its result as three more arguments.
pub open spec fn call_text(s: CallScan) -> Seq<char> {
    let sep: Seq<char> = if s.args.len() > 0 {
        seq![',']
    } else {
        Seq::empty()
    };
    s.name + seq!['('] + s.args + sep + s.addr[2] + seq![','] + s.addr[1] + seq![','] + s.addr[0] + seq![')']
}

/// A line `[x,y,z]=name(args)` rewritten as the call `name(args,x,y,z)`; other lines stay.
pub open spec fn spec_call_line(l: SpecLine) -> Result<SpecLine, SpecKernelError> {
    let c = l.code;
    if l.starts_closure {
        Ok(l)
    } else if c.len() == 0 {
        Err((KernelErrorKind::EmptyLine, c))
    } else if c.last() != ')' || !has_char(c, '=') {
        Ok(l)
    } else {
        match call_scan(c, c.len() - 1, call_start()) {
            Err(k) => Err((k, c)),
            Ok(s) => if s.name.len() == 0 {
                Err((KernelErrorKind::NoFunctionName, c))
            } else if s.addr[0].len() == 0 || s.addr[1].len() == 0 || s.addr[2].len() == 0 {
                Err((KernelErrorKind::InvalidAddress, c))
            } else {
                Ok(SpecLine { code: call_text(s), ..l })
            },
        }
    }
}

/// `spec_call_line` as a function value.
pub open spec fn call_fn() -> spec_fn(SpecLine) -> Result<SpecLine, SpecKernelError> {
    |l: SpecLine| spec_call_line(l)
}

fn call_line(l: &CodeLine) -> (r: Result<CodeLine, KernelError>)
    ensures
        match spec_call_line(l@) {
            Ok(nl) => r is Ok && r->Ok_0@ == nl,
            Err(e) => r is Err && kerr_view(r->Err_0) == e,
        },
{
    let c = &l.code;
    let n = c.len();
    let whole = slice(c, 0, n);
    assert(whole@ =~= c@);
    if l.starts_closure {
        return Ok(CodeLine { code: whole, depth: l.depth, starts_closure: l.starts_closure });
    }
    if n == 0 {
        return Err(KernelError { kind: KernelErrorKind::EmptyLine, text: whole });
    }
    if c[n - 1] != ')' || !contains_char(c, '=') {
        return Ok(CodeLine { code: whole, depth: l.depth, starts_closure: l.starts_closure });
    }
    let mut step: u8 = 0;
    let mut depth: usize = 0;
    let mut count: usize = 0;
    let mut args: Vec<char> = Vec::new();
    let mut name: Vec<char> = Vec::new();
    let mut a0: Vec<char> = Vec::new();
    let mut a1: Vec<char> = Vec::new();
    let mut a2: Vec<char> = Vec::new();
    let mut i: usize = n - 1;
    assert(seq![a0@, a1@, a2@] =~= call_start().addr);
    while i > 1
        invariant
            n == c@.len(),
            l@.code == c@,
            whole@ == c@,
            !l.starts_closure,
            c@.last() == ')',
            has_char(c@, '='),
            1 <= i < n,
            step <= 3,
            depth + i <= n,
            count + i <= n,
            call_scan(c@, n - 1, call_start()) == call_scan(
                c@,
                i as int,
                CallScan {
                    step: step as int,
                    depth: depth as int,
                    count: count as int,
                    args: args@,
                    name: name@,
                    addr: seq![a0@, a1@, a2@],
                },
            ),
        decreases i,
    {
        let ghost s0 = CallScan {
            step: step as int,
            depth: depth as int,
            count: count as int,
            args: args@,
            name: name@,
            addr: seq![a0@, a1@, a2@],
        };
        let ch = c[i - 1];
        assert(call_scan(c@, i as int, s0) == match call_step(s0, ch) {
            Err(k) => Err(k),
            Ok(s2) => call_scan(c@, i - 1, s2),
        });
        if step == 0 {
            if ch == '(' {
                step = 1;
            } else {
                args.insert(0, ch);
                assert(args@ =~= seq![ch] + s0.args);
            }
        } else if step == 1 {
            if ch == '=' {
                step = 2;
            } else {
                name.insert(0, ch);
                assert(name@ =~= seq![ch] + s0.name);
            }
        } else if step == 2 {
            step = 3;
        } else {
            let mut nd = depth;
            if ch == ']' {
                nd = depth + 1;
            } else if ch == '[' {
                if depth == 0 {
                    assert(call_step(s0, ch) is Err);
                    return Err(KernelError { kind: KernelErrorKind::UnmatchedBracket, text: whole });
                }
                nd = depth - 1;
            }
            if ch == ',' && nd == 0 {
                count = count + 1;
            } else if count == 0 {
                a0.insert(0, ch);
                assert(a0@ =~= seq![ch] + s0.addr[0]);
                assert(seq![a0@, a1@, a2@] =~= s0.addr.update(0, seq![ch] + s0.addr[0]));
            } else if count == 1 {
                a1.insert(0, ch);
                assert(a1@ =~= seq![ch] + s0.addr[1]);
                assert(seq![a0@, a1@, a2@] =~= s0.addr.update(1, seq![ch] + s0.addr[1]));
            } else if count == 2 {
                a2.insert(0, ch);
                assert(a2@ =~= seq![ch] + s0.addr[2]);
                assert(seq![a0@, a1@, a2@] =~= s0.addr.update(2, seq![ch] + s0.addr[2]));
            } else {
                assert(call_step(s0, ch) is Err);
                return Err(KernelError { kind: KernelErrorKind::InvalidAddress, text: whole });
            }
            depth = nd;
        }
        i = i - 1;
    }
    if name.len() == 0 {
        return Err(KernelError { kind: KernelErrorKind::NoFunctionName, text: whole });
    }
    if a0.len() == 0 || a1.len() == 0 || a2.len() == 0 {
        return Err(KernelError { kind: KernelErrorKind::InvalidAddress, text: whole });
    }
    let ghost s = CallScan {
        step: step as int,
        depth: depth as int,
        count: count as int,
        args: args@,
        name: name@,
        addr: seq![a0@, a1@, a2@],
    };
    let mut out = name;
    out.push('(');
    let has_args = args.len() > 0;
    append_chars(&mut out, &args);
    if has_args {
        out.push(',');
    }
    append_chars(&mut out, &a2);
    out.push(',');
    append_chars(&mut out, &a1);
    out.push(',');
    append_chars(&mut out, &a0);
    out.push(')');
    assert(out@ =~= call_text(s));
    Ok(CodeLine { code: out, depth: l.depth, starts_closure: l.starts_closure })
}

/// Rewrites every call line `[x,y,z]=name(args)` as `name(args,x,y,z)`.
pub fn function_call(lines: &mut Vec<CodeLine>) -> (r: Result<(), KernelError>)
    ensures
        pass_result(r, lines_view(final(lines)@), map_lines(lines_view(old(lines)@), call_fn())),
{
    let ghost old_v = lines_view(lines@);
    let ghost f = call_fn();
    let mut i: usize = 0;
    assert(old_v.subrange(0, 0) =~= Seq::<SpecLine>::empty());
    assert(lines_view(lines@).subrange(0, 0) =~= Seq::<SpecLine>::empty());
    while i < lines.len()
        invariant
            old_v == lines_view(old(lines)@),
            lines@.len() == old_v.len(),
            i <= old_v.len(),
            f == call_fn(),
            map_lines(old_v.subrange(0, i as int), f) == Ok::<Seq<SpecLine>, SpecKernelError>(
                lines_view(lines@).subrange(0, i as int),
            ),
            forall|k: int| i <= k < old_v.len() ==> #[trigger] lines@[k]@ == old_v[k],
        decreases old_v.len() - i,
    {
        assert(lines@[i as int]@ == old_v[i as int]);
        match call_line(&lines[i]) {
            Ok(nl) => {
                proof {
                    lemma_map_lines_step(old_v, f, i as int, lines_view(lines@).subrange(0, i as int));
                }
                let ghost before = lines_view(lines@).subrange(0, i as int);
                lines.set(i, nl);
                assert(lines_view(lines@).subrange(0, i + 1) =~= before.push(nl@));
            },
            Err(e) => {
                proof {
                    lemma_map_lines_err(old_v, f, i as int);
                }
                return Err(e);
            },
        }
        i = i + 1;
    }
    assert(old_v.subrange(0, old_v.len() as int) =~= old_v);
    assert(lines_view(lines@).subrange(0, old_v.len() as int) =~= lines_view(lines@));
    Ok(())
}


/// Scanning back over arguments without `(` puts them before those already read.
proof fn lemma_scan_args(c: Seq<char>, lo: int, hi: int, s: CallScan)
    requires
        1 <= lo <= hi <= c.len(),
        s.step == 0,
        forall|i: int| lo <= i < hi ==> #[trigger] c[i] != '(',
    ensures
        call_scan(c, hi, s) == call_scan(c, lo, CallScan { args: c.subrange(lo, hi) + s.args, ..s }),
    decreases hi - lo,
{
    if hi > lo {
        let s2 = CallScan { args: seq![c[hi - 1]] + s.args, ..s };
        lemma_scan_args(c, lo, hi - 1, s2);
        assert(c.subrange(lo, hi - 1) + s2.args =~= c.subrange(lo, hi) + s.args);
    } else {
        assert(c.subrange(lo, hi) + s.args =~= s.args);
    }
}

/// Scanning back over a name without `=` puts it before what was read of the name.
proof fn lemma_scan_name(c: Seq<char>, lo: int, hi: int, s: CallScan)
    requires
        1 <= lo <= hi <= c.len(),
        s.step == 1,
        forall|i: int| lo <= i < hi ==> #[trigger] c[i] != '=',
    ensures
        call_scan(c, hi, s) == call_scan(c, lo, CallScan { name: c.subrange(lo, hi) + s.name, ..s }),
    decreases hi - lo,
{
    if hi > lo {
        let s2 = CallScan { name: seq![c[hi - 1]] + s.name, ..s };
        lemma_scan_name(c, lo, hi - 1, s2);
        assert(c.subrange(lo, hi - 1) + s2.name =~= c.subrange(lo, hi) + s.name);
    } else {
        assert(c.subrange(lo, hi) + s.name =~= s.name);
    }
}

/// Scanning back over an address component without brackets or commas puts it before
/// what was read of that component.
proof fn lemma_scan_component(c: Seq<char>, lo: int, hi: int, s: CallScan)
    requires
        1 <= lo <= hi <= c.len(),
        s.step == 3,
        s.depth == 0,
        0 <= s.count < 3,
        s.addr.len() == 3,
        forall|i: int| lo <= i < hi ==> #[trigger] c[i] != '[' && c[i] != ']' && c[i] != ',',
    ensures
        call_scan(c, hi, s) == call_scan(
            c,
            lo,
            CallScan { addr: s.addr.update(s.count, c.subrange(lo, hi) + s.addr[s.count]), ..s },
        ),
    decreases hi - lo,
{
    if hi > lo {
        let s2 = CallScan { addr: s.addr.update(s.count, seq![c[hi - 1]] + s.addr[s.count]), ..s };
        lemma_scan_component(c, lo, hi - 1, s2);
        assert(s2.addr[s.count] == seq![c[hi - 1]] + s.addr[s.count]);
        assert(c.subrange(lo, hi - 1) + (seq![c[hi - 1]] + s.addr[s.count]) =~= c.subrange(lo, hi) + s.addr[s.count]);
        assert(s2.addr.update(s.count, c.subrange(lo, hi - 1) + s2.addr[s.count]) =~= s.addr.update(
            s.count,
            c.subrange(lo, hi) + s.addr[s.count],
        ));
    } else {
        assert(s.addr.update(s.count, c.subrange(lo, hi) + s.addr[s.count]) =~= s.addr);
    }
}

/// The backward scan of a call line `[a,b,c]=name(args)` reads the arguments, the
/// name and the three address components.
#[verifier::rlimit(80)]
#[verifier::spinoff_prover]
proof fn lemma_call_scan_parts(a: Seq<char>, b: Seq<char>, c: Seq<char>, name: Seq<char>, args: Seq<char>)
    requires
        a.len() > 0,
        b.len() > 0,
        c.len() > 0,
        name.len() > 0,
        forall|i: int| 0 <= i < a.len() ==> #[trigger] a[i] != '[' && a[i] != ']' && a[i] != ',',
        forall|i: int| 0 <= i < b.len() ==> #[trigger] b[i] != '[' && b[i] != ']' && b[i] != ',',
        forall|i: int| 0 <= i < c.len() ==> #[trigger] c[i] != '[' && c[i] != ']' && c[i] != ',',
        forall|i: int| 0 <= i < name.len() ==> #[trigger] name[i] != '=',
        forall|i: int| 0 <= i < args.len() ==> #[trigger] args[i] != '(',
    ensures
        ({
            let code = seq!['['] + a + seq![','] + b + seq![','] + c + seq![']', '='] + name + seq!['('] + args
                + seq![')'];
            &&& code.len() >= 2
            &&& code.last() == ')'
            &&& has_char(code, '=')
            &&& call_scan(code, code.len() - 1, call_start()) == Ok::<CallScan, KernelErrorKind>(
                CallScan { step: 3, depth: 0, count: 2, args, name, addr: seq![c, b, a] },
            )
        }),
{
    let code = seq!['['] + a + seq![','] + b + seq![','] + c + seq![']', '='] + name + seq!['('] + args + seq![')'];
    let pa: int = 1;
    let pb: int = pa + a.len() + 1;
    let pc: int = pb + b.len() + 1;
    let q: int = pc + c.len() + 1;
    let pn: int = q + 1;
    let r: int = pn + name.len();
    let n: int = code.len() as int;
    assert(n == r + args.len() + 2);
    assert(code.subrange(pa, pa + a.len()) =~= a);
    assert(code.subrange(pb, pb + b.len()) =~= b);
    assert(code.subrange(pc, pc + c.len()) =~= c);
    assert(code.subrange(pn, r) =~= name);
    assert(code.subrange(r + 1, n - 1) =~= args);
    assert(code[pb - 1] == ',');
    assert(code[pc - 1] == ',');
    assert(code[q - 1] == ']');
    assert(code[q] == '=');
    assert(code[r] == '(');
    assert(code[n - 1] == ')');
    assert(has_char(code, '='));
    let s0 = call_start();
    assert forall|i: int| r + 1 <= i < n - 1 implies #[trigger] code[i] != '(' by {
        assert(code[i] == args[i - r - 1]);
    }
    lemma_scan_args(code, r + 1, n - 1, s0);
    let s1 = CallScan { args: code.subrange(r + 1, n - 1) + s0.args, ..s0 };
    assert(s1.args =~= args);
    let s2 = CallScan { step: 1, ..s1 };
    assert(call_scan(code, r + 1, s1) == call_scan(code, r, s2));
    assert forall|i: int| pn <= i < r implies #[trigger] code[i] != '=' by {
        assert(code[i] == name[i - pn]);
    }
    lemma_scan_name(code, pn, r, s2);
    let s3 = CallScan { name: code.subrange(pn, r) + s2.name, ..s2 };
    assert(s3.name =~= name);
    let s4 = CallScan { step: 2, ..s3 };
    assert(call_scan(code, pn, s3) == call_scan(code, q, s4));
    let s5 = CallScan { step: 3, ..s4 };
    assert(call_scan(code, q, s4) == call_scan(code, q - 1, s5));
    assert forall|i: int| pc <= i < q - 1 implies #[trigger] code[i] != '[' && code[i] != ']' && code[i] != ',' by {
        assert(code[i] == c[i - pc]);
    }
    lemma_scan_component(code, pc, q - 1, s5);
    let s6 = CallScan { addr: s5.addr.update(0, code.subrange(pc, q - 1) + s5.addr[0]), ..s5 };
    let s7 = CallScan { count: 1, ..s6 };
    assert(call_scan(code, pc, s6) == call_scan(code, pc - 1, s7));
    assert forall|i: int| pb <= i < pc - 1 implies #[trigger] code[i] != '[' && code[i] != ']' && code[i] != ',' by {
        assert(code[i] == b[i - pb]);
    }
    lemma_scan_component(code, pb, pc - 1, s7);
    let s8 = CallScan { addr: s7.addr.update(1, code.subrange(pb, pc - 1) + s7.addr[1]), ..s7 };
    let s9 = CallScan { count: 2, ..s8 };
    assert(call_scan(code, pb, s8) == call_scan(code, pb - 1, s9));
    assert forall|i: int| pa <= i < pb - 1 implies #[trigger] code[i] != '[' && code[i] != ']' && code[i] != ',' by {
        assert(code[i] == a[i - pa]);
    }
    lemma_scan_component(code, pa, pb - 1, s9);
    let s10 = CallScan { addr: s9.addr.update(2, code.subrange(pa, pb - 1) + s9.addr[2]), ..s9 };
    assert(call_scan(code, pa, s10) == Ok::<CallScan, KernelErrorKind>(s10));
    assert(s10.addr =~= seq![c, b, a]);
    assert(s10.name == name);
    assert(s10.args == args);
    assert(s10 == CallScan { step: 3, depth: 0, count: 2, args, name, addr: seq![c, b, a] });
}

/// A call line `[a,b,c]=name(args)` becomes `name(args,a,b,c)` (`name(a,b,c)` without
/// arguments): the address of the result follows the arguments.
pub proof fn law_call_line_moves_the_address(
    a: Seq<char>,
    b: Seq<char>,
    c: Seq<char>,
    name: Seq<char>,
    args: Seq<char>,
    depth: u8,
)
    requires
        a.len() > 0,
        b.len() > 0,
        c.len() > 0,
        name.len() > 0,
        forall|i: int| 0 <= i < a.len() ==> #[trigger] a[i] != '[' && a[i] != ']' && a[i] != ',',
        forall|i: int| 0 <= i < b.len() ==> #[trigger] b[i] != '[' && b[i] != ']' && b[i] != ',',
        forall|i: int| 0 <= i < c.len() ==> #[trigger] c[i] != '[' && c[i] != ']' && c[i] != ',',
        forall|i: int| 0 <= i < name.len() ==> #[trigger] name[i] != '=',
        forall|i: int| 0 <= i < args.len() ==> #[trigger] args[i] != '(',
    ensures
        ({
            let code = seq!['['] + a + seq![','] + b + seq![','] + c + seq![']', '='] + name + seq!['('] + args
                + seq![')'];
            let sep: Seq<char> = if args.len() > 0 {
                seq![',']
            } else {
                Seq::empty()
            };
            spec_call_line(SpecLine { code, depth, starts_closure: false }) == Ok::<SpecLine, SpecKernelError>(
                SpecLine {
                    code: name + seq!['('] + args + sep + a + seq![','] + b + seq![','] + c + seq![')'],
                    depth,
                    starts_closure: false,
                },
            )
        }),
{
    lemma_call_scan_parts(a, b, c, name, args);
}


/// Characters that are no bracket leave the pointer scan as it was.
proof fn lemma_ptr_plain(c: Seq<char>, lo: int, hi: int, code: Seq<char>, opens: Seq<int>)
    requires
        0 <= lo <= hi <= c.len(),
        forall|i: int| lo <= i < hi ==> #[trigger] c[i] != '[' && c[i] != ']',
    ensures
        ptr_scan(c, hi, code, opens) == ptr_scan(c, lo, code, opens),
    decreases hi - lo,
{
    if hi > lo {
        lemma_ptr_plain(c, lo, hi - 1, code, opens);
    }
}

/// A pointer `[f,s]` in a line without other brackets becomes the three addresses
/// `[f,s,0],[f,s,1],[f,s,2]`.
#[verifier::rlimit(60)]
pub proof fn law_pointer_expands(pre: Seq<char>, f: Seq<char>, s: Seq<char>, post: Seq<char>, depth: u8, starts_closure: bool)
    requires
        forall|i: int| 0 <= i < pre.len() ==> #[trigger] pre[i] != '[' && pre[i] != ']',
        forall|i: int| 0 <= i < post.len() ==> #[trigger] post[i] != '[' && post[i] != ']',
        no_separators(f),
        no_separators(s),
    ensures
        spec_pointer_line(SpecLine { code: pre + seq!['['] + f + seq![','] + s + seq![']'] + post, depth, starts_closure })
            == Ok::<SpecLine, SpecKernelError>(
            SpecLine { code: pre + pointer_expansion(f, s) + post, depth, starts_closure },
        ),
{
    let inner = f + seq![','] + s;
    let c = pre + seq!['['] + inner + seq![']'] + post;
    let p: int = pre.len() as int;
    let k: int = p + inner.len() + 1;
    let n: int = c.len() as int;
    assert(n == k + 1 + post.len());
    assert(c[p] == '[');
    assert(c[k] == ']');
    assert(c.subrange(p + 1, k) =~= inner);
    assert(c.subrange(0, p) =~= pre);
    assert(c.subrange(k + 1, n) =~= post);
    assert forall|i: int| k + 1 <= i < n implies #[trigger] c[i] != '[' && c[i] != ']' by {
        assert(c[i] == post[i - k - 1]);
    }
    lemma_ptr_plain(c, k + 1, n, c, Seq::empty());
    let opens = Seq::<int>::empty().push(k);
    assert(ptr_scan(c, k + 1, c, Seq::empty()) == ptr_scan(c, k, c, opens));
    assert forall|i: int| p + 1 <= i < k implies #[trigger] c[i] != '[' && c[i] != ']' by {
        assert(c[i] == inner[i - p - 1]);
        if i - p - 1 < f.len() {
            assert(inner[i - p - 1] == f[i - p - 1]);
        } else if i - p - 1 > f.len() {
            assert(inner[i - p - 1] == s[i - p - 2 - f.len()]);
        }
    }
    lemma_ptr_plain(c, p + 1, k, c, opens);
    lemma_split_pair(f, s);
    let next = c.subrange(0, p) + pointer_expansion(f, s) + c.subrange(k + 1, n);
    assert(opens.drop_last() =~= Seq::<int>::empty());
    assert(ptr_scan(c, p + 1, c, opens) == ptr_scan(c, p, next, Seq::empty()));
    assert forall|i: int| 0 <= i < p implies #[trigger] c[i] != '[' && c[i] != ']' by {
        assert(c[i] == pre[i]);
    }
    lemma_ptr_plain(c, 0, p, next, Seq::empty());
    assert(next =~= pre + pointer_expansion(f, s) + post);
    assert(c =~= pre + seq!['['] + f + seq![','] + s + seq![']'] + post);
    assert(ptr_scan(c, n, c, Seq::empty()) == Ok::<Seq<char>, Seq<char>>(next));
}


/// Characters that are neither brackets nor, outside a reference, sigils are copied.
proof fn lemma_ref_plain(c: Seq<char>, lo: int, hi: int, inb: bool, depth: int)
    requires
        0 <= lo <= hi <= c.len(),
        forall|i: int| lo <= i < hi ==> #[trigger] c[i] != '[' && c[i] != ']' && (inb || (c[i] != '#' && c[i] != '&')),
    ensures
        ref_scan(c, lo, inb, depth) == prefixed(c.subrange(lo, hi), ref_scan(c, hi, inb, depth)),
    decreases hi - lo,
{
    if lo < hi {
        lemma_ref_plain(c, lo + 1, hi, inb, depth);
        match ref_scan(c, hi, inb, depth) {
            Some((o, b)) => {
                assert(seq![c[lo]] + (c.subrange(lo + 1, hi) + o) =~= c.subrange(lo, hi) + o);
            },
            None => {},
        }
    } else {
        match ref_scan(c, hi, inb, depth) {
            Some((o, b)) => {
                assert(c.subrange(lo, hi) + o =~= o);
            },
            None => {},
        }
    }
}

/// A reference `&[x]` (or `#[x]`) gives its inside `x`: a name defined as `[0,0,0]` and
/// written `&x` becomes `0,0,0`.
#[verifier::rlimit(40)]
pub proof fn law_reference_gives_the_inside(
    pre: Seq<char>,
    sigil: char,
    x: Seq<char>,
    post: Seq<char>,
    depth: u8,
    starts_closure: bool,
)
    requires
        sigil == '#' || (sigil == '&' && (pre.len() == 0 || pre.last() == '(' || pre.last() == ',')),
        forall|i: int| 0 <= i < pre.len() ==> #[trigger] pre[i] != '[' && pre[i] != ']' && pre[i] != '#' && pre[i] != '&',
        forall|i: int| 0 <= i < x.len() ==> #[trigger] x[i] != '[' && x[i] != ']',
        forall|i: int|
            0 <= i < post.len() ==> #[trigger] post[i] != '[' && post[i] != ']' && post[i] != '#' && post[i] != '&',
    ensures
        spec_reference_line(SpecLine { code: pre + seq![sigil, '['] + x + seq![']'] + post, depth, starts_closure })
            == Ok::<SpecLine, SpecKernelError>(SpecLine { code: pre + x + post, depth, starts_closure }),
{
    let c = pre + seq![sigil, '['] + x + seq![']'] + post;
    let p: int = pre.len() as int;
    let k: int = p + 2 + x.len();
    let n: int = c.len() as int;
    assert(n == k + 1 + post.len());
    assert(c[p] == sigil);
    assert(c[p + 1] == '[');
    assert(c[k] == ']');
    assert(p > 0 ==> c[p - 1] == pre.last());
    assert(ref_sigil(c, p));
    assert forall|i: int| 0 <= i < p implies #[trigger] c[i] != '[' && c[i] != ']' && (c[i] != '#' && c[i] != '&') by {
        assert(c[i] == pre[i]);
    }
    lemma_ref_plain(c, 0, p, false, 0);
    assert(ref_scan(c, p, false, 0) == ref_scan(c, p + 2, true, 0));
    assert forall|i: int| p + 2 <= i < k implies #[trigger] c[i] != '[' && c[i] != ']' by {
        assert(c[i] == x[i - p - 2]);
    }
    lemma_ref_plain(c, p + 2, k, true, 0);
    assert(ref_scan(c, k, true, 0) == ref_scan(c, k + 1, false, 0));
    assert forall|i: int| k + 1 <= i < n implies #[trigger] c[i] != '[' && c[i] != ']' && (c[i] != '#' && c[i]
        != '&') by {
        assert(c[i] == post[i - k - 1]);
    }
    lemma_ref_plain(c, k + 1, n, false, 0);
    assert(ref_scan(c, n, false, 0) == Some::<(Seq<char>, bool)>((Seq::empty(), false)));
    assert(c.subrange(0, p) =~= pre);
    assert(c.subrange(p + 2, k) =~= x);
    assert(c.subrange(k + 1, n) =~= post);
    assert(pre + (x + (post + Seq::<char>::empty())) =~= pre + x + post);
}

} // verus!
