use vstd::prelude::*;

use crate::kerneler::{kerr_view, lines_view, CodeLine, KernelError, KernelErrorKind, SpecKernelError, SpecLine};
use crate::text::{split_char, split_on, texts_view, trim, trim_spec};

verus! {

/// The text from index `i` on with comments removed: `//` starts a comment that runs
/// to the end of its line; the line break itself stays.
pub open spec fn strip_from(c: Seq<char>, i: int, in_comment: bool) -> Seq<char>
    decreases c.len() - i,
{
    if i < 0 || i >= c.len() {
        Seq::empty()
    } else {
        let ch = c[i];
        let ic = if ch == '\n' {
            false
        } else if i < c.len() - 1 && ch == '/' && c[i + 1] == '/' {
            true
        } else {
            in_comment
        };
        (if !ic {
            seq![ch]
        } else {
            Seq::empty()
        }) + strip_from(c, i + 1, ic)
    }
}

/// `s` without line breaks and tabs.
pub open spec fn drop_breaks(s: Seq<char>) -> Seq<char>
    decreases s.len(),
{
    if s.len() == 0 {
        s
    } else if s.last() == '\n' || s.last() == '\t' {
        drop_breaks(s.drop_last())
    } else {
        drop_breaks(s.drop_last()).push(s.last())
    }
}

/// The lines that one `;`-separated piece of code opens, the text after the last `{`
/// of the piece, and the depth after it; `{` opens a block, `}` closes one.
pub open spec fn lex_piece(t: Seq<char>, depth: int) -> Result<(Seq<SpecLine>, Seq<char>, int), SpecKernelError>
    decreases t.len(),
{
    if t.len() == 0 {
        Ok((Seq::empty(), Seq::empty(), depth))
    } else {
        match lex_piece(t.drop_last(), depth) {
            Err(e) => Err(e),
            Ok((ls, buf, d)) => {
                let ch = t.last();
                if ch == '{' {
                    if d >= 255 {
                        Err((KernelErrorKind::TooDeep, Seq::empty()))
                    } else {
                        Ok((ls.push(SpecLine { code: trim_spec(buf), depth: d as u8, starts_closure: true }), Seq::empty(), d + 1))
                    }
                } else if ch == '}' {
                    if d <= 0 {
                        Err((KernelErrorKind::UnopenedClosure, Seq::empty()))
                    } else {
                        Ok((ls, buf, d - 1))
                    }
                } else {
                    Ok((ls, buf.push(ch), d))
                }
            },
        }
    }
}

/// The lines of the pieces of code, and the depth after the last one: each piece ends
/// with the line of its trimmed remaining text, unless that text is empty.
pub open spec fn lex_pieces(parts: Seq<Seq<char>>) -> Result<(Seq<SpecLine>, int), SpecKernelError>
    decreases parts.len(),
{
    if parts.len() == 0 {
        Ok((Seq::empty(), 0))
    } else {
        match lex_pieces(parts.drop_last()) {
            Err(e) => Err(e),
            Ok((ls, d)) => match lex_piece(parts.last(), d) {
                Err(e) => Err(e),
                Ok((ls2, buf, d2)) => {
                    let tr = trim_spec(buf);
                    Ok((
                        ls + ls2 + if tr.len() > 0 {
                            seq![SpecLine { code: tr, depth: d2 as u8, starts_closure: false }]
                        } else {
                            Seq::empty()
                        },
                        d2,
                    ))
                },
            },
        }
    }
}

/// The lines of source code `c`: comments, line breaks and tabs removed, split at `;`,
/// with a line for the header of every block.
pub open spec fn spec_to_code_lines(c: Seq<char>) -> Result<Seq<SpecLine>, SpecKernelError> {
    match lex_pieces(split_on(drop_breaks(strip_from(c, 0, false)), ';')) {
        Ok((ls, _)) => Ok(ls),
        Err(e) => Err(e),
    }
}

/// The depth stays within `0..=255` while lexing.
pub proof fn lemma_lex_piece_depth(t: Seq<char>, depth: int)
    requires
        0 <= depth <= 255,
    ensures
        lex_piece(t, depth) matches Ok((_, _, d)) ==> 0 <= d <= 255,
    decreases t.len(),
{
    if t.len() > 0 {
        lemma_lex_piece_depth(t.drop_last(), depth);
    }
}

/// The depth stays within `0..=255` while lexing.
pub proof fn lemma_lex_pieces_depth(parts: Seq<Seq<char>>)
    ensures
        lex_pieces(parts) matches Ok((_, d)) ==> 0 <= d <= 255,
    decreases parts.len(),
{
    if parts.len() > 0 {
        lemma_lex_pieces_depth(parts.drop_last());
        if let Ok((_, d)) = lex_pieces(parts.drop_last()) {
            lemma_lex_piece_depth(parts.last(), d);
        }
    }
}

fn strip_comments(c: &Vec<char>) -> (r: Vec<char>)
    ensures
        r@ == strip_from(c@, 0, false),
{
    let mut out: Vec<char> = Vec::new();
    let mut in_comment = false;
    let mut i: usize = 0;
    let n = c.len();
    while i < n
        invariant
            n == c@.len(),
            i <= n,
            out@ + strip_from(c@, i as int, in_comment) == strip_from(c@, 0, false),
        decreases n - i,
    {
        let ch = c[i];
        let ghost before = out@;
        let ghost ic0 = in_comment;
        if ch == '\n' {
            in_comment = false;
        } else if i < n - 1 && ch == '/' && c[i + 1] == '/' {
            in_comment = true;
        }
        if !in_comment {
            out.push(ch);
        }
        proof {
            let rest = strip_from(c@, i + 1, in_comment);
            assert(strip_from(c@, i as int, ic0) == (if !in_comment {
                seq![ch]
            } else {
                Seq::<char>::empty()
            }) + rest);
            assert(out@ + rest =~= before + strip_from(c@, i as int, ic0));
        }
        i = i + 1;
    }
    assert(out@ + strip_from(c@, n as int, in_comment) =~= out@);
    out
}

fn remove_breaks(s: &Vec<char>) -> (r: Vec<char>)
    ensures
        r@ == drop_breaks(s@),
{
    let mut r: Vec<char> = Vec::new();
    let mut i: usize = 0;
    while i < s.len()
        invariant
            i <= s@.len(),
            r@ == drop_breaks(s@.subrange(0, i as int)),
        decreases s@.len() - i,
    {
        assert(s@.subrange(0, i + 1).drop_last() =~= s@.subrange(0, i as int));
        assert(s@.subrange(0, i + 1).last() == s@[i as int]);
        let c = s[i];
        if c != '\n' && c != '\t' {
            r.push(c);
        }
        i = i + 1;
    }
    assert(s@.subrange(0, s@.len() as int) =~= s@);
    r
}

/// An error in a prefix of the pieces is the error of all of them.
pub proof fn lemma_lex_pieces_err(parts: Seq<Seq<char>>, p: int)
    requires
        0 <= p <= parts.len(),
        lex_pieces(parts.subrange(0, p)) is Err,
    ensures
        lex_pieces(parts) == lex_pieces(parts.subrange(0, p)),
    decreases parts.len() - p,
{
    if p < parts.len() {
        assert(parts.subrange(0, p + 1).drop_last() =~= parts.subrange(0, p));
        lemma_lex_pieces_err(parts, p + 1);
    } else {
        assert(parts.subrange(0, p) =~= parts);
    }
}

fn lex_piece_exec(line: &Vec<char>, depth: u8) -> (r: Result<(Vec<CodeLine>, Vec<char>, u8), KernelError>)
    ensures
        match lex_piece(line@, depth as int) {
            Ok((ls, buf, d)) => r is Ok && lines_view(r->Ok_0.0@) == ls && r->Ok_0.1@ == buf && r->Ok_0.2 == d,
            Err(e) => r is Err && kerr_view(r->Err_0) == e,
        },
{
    let mut lines: Vec<CodeLine> = Vec::new();
    let mut buffer: Vec<char> = Vec::new();
    let mut d: u8 = depth;
    let mut k: usize = 0;
    assert(line@.subrange(0, 0) =~= Seq::<char>::empty());
    assert(lines_view(lines@) =~= Seq::<SpecLine>::empty());
    while k < line.len()
        invariant
            k <= line@.len(),
            lex_piece(line@.subrange(0, k as int), depth as int) == Ok::<(Seq<SpecLine>, Seq<char>, int), SpecKernelError>(
                (lines_view(lines@), buffer@, d as int),
            ),
        decreases line@.len() - k,
    {
        assert(line@.subrange(0, k + 1).drop_last() =~= line@.subrange(0, k as int));
        assert(line@.subrange(0, k + 1).last() == line@[k as int]);
        let ch = line[k];
        let ghost lv = lines_view(lines@);
        if ch == '{' {
            if d == 255 {
                proof {
                    lemma_lex_piece_err(line@, depth as int, k as int + 1);
                }
                return Err(KernelError { kind: KernelErrorKind::TooDeep, text: Vec::new() });
            }
            let s = trim(&buffer);
            lines.push(CodeLine { code: s, depth: d, starts_closure: true });
            buffer = Vec::new();
            d = d + 1;
            assert(lines_view(lines@) =~= lv.push(lines@.last()@));
        } else if ch == '}' {
            if d == 0 {
                proof {
                    lemma_lex_piece_err(line@, depth as int, k as int + 1);
                }
                return Err(KernelError { kind: KernelErrorKind::UnopenedClosure, text: Vec::new() });
            }
            d = d - 1;
        } else {
            buffer.push(ch);
        }
        k = k + 1;
    }
    assert(line@.subrange(0, line@.len() as int) =~= line@);
    Ok((lines, buffer, d))
}

/// An error in a prefix of a piece is the error of the whole piece.
pub proof fn lemma_lex_piece_err(t: Seq<char>, depth: int, k: int)
    requires
        0 <= k <= t.len(),
        lex_piece(t.subrange(0, k), depth) is Err,
    ensures
        lex_piece(t, depth) == lex_piece(t.subrange(0, k), depth),
    decreases t.len() - k,
{
    if k < t.len() {
        assert(t.subrange(0, k + 1).drop_last() =~= t.subrange(0, k));
        lemma_lex_piece_err(t, depth, k + 1);
    } else {
        assert(t.subrange(0, k) =~= t);
    }
}

/// Splits source code into lines: removes comments, line breaks and tabs, cuts the
/// rest at `;`, and makes a line of the text before every `{` (which opens a block)
/// and of what is left of each piece; `}` closes a block.
pub fn to_code_lines(c: &Vec<char>) -> (r: Result<Vec<CodeLine>, KernelError>)
    ensures
        match spec_to_code_lines(c@) {
            Ok(ls) => r is Ok && lines_view(r->Ok_0@) == ls,
            Err(e) => r is Err && kerr_view(r->Err_0) == e,
        },
{
    let code = strip_comments(c);
    let code = remove_breaks(&code);
    let text_lines = split_char(&code, ';');
    let ghost parts = split_on(code@, ';');
    assert(texts_view(text_lines@) =~= parts);
    let mut lines: Vec<CodeLine> = Vec::new();
    let mut depth: u8 = 0;
    let mut p: usize = 0;
    assert(parts.subrange(0, 0) =~= Seq::<Seq<char>>::empty());
    assert(lines_view(lines@) =~= Seq::<SpecLine>::empty());
    while p < text_lines.len()
        invariant
            texts_view(text_lines@) == parts,
            parts == split_on(drop_breaks(strip_from(c@, 0, false)), ';'),
            p <= parts.len(),
            lex_pieces(parts.subrange(0, p as int)) == Ok::<(Seq<SpecLine>, int), SpecKernelError>(
                (lines_view(lines@), depth as int),
            ),
        decreases parts.len() - p,
    {
        assert(parts.subrange(0, p + 1).drop_last() =~= parts.subrange(0, p as int));
        assert(parts.subrange(0, p + 1).last() == text_lines@[p as int]@);
        let ghost lv = lines_view(lines@);
        match lex_piece_exec(&text_lines[p], depth) {
            Err(e) => {
                proof {
                    lemma_lex_pieces_err(parts, p as int + 1);
                }
                return Err(e);
            },
            Ok((mut more, buffer, d2)) => {
                let s = trim(&buffer);
                let ghost mv = lines_view(more@);
                lines.append(&mut more);
                assert(lines_view(lines@) =~= lv + mv);
                if s.len() > 0 {
                    let ghost lv2 = lines_view(lines@);
                    lines.push(CodeLine { code: s, depth: d2, starts_closure: false });
                    assert(lines_view(lines@) =~= lv + mv + seq![
                        SpecLine { code: trim_spec(buffer@), depth: d2, starts_closure: false },
                    ]);
                } else {
                    assert(lines_view(lines@) =~= lv + mv + Seq::<SpecLine>::empty());
                }
                depth = d2;
            },
        }
        p = p + 1;
    }
    assert(parts.subrange(0, parts.len() as int) =~= parts);
    Ok(lines)
}

} // verus!
