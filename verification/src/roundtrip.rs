use vstd::prelude::*;

use crate::kerneler::{closers, format_state, indent, spec_format_kernel, KernelErrorKind, SpecKernelError, SpecLine};
use crate::lexer::{drop_breaks, lex_piece, lex_pieces, spec_to_code_lines, strip_from};
use crate::text::{is_ws, lead_ws, split_on, trail_ws, trim_spec};

verus! {

/// What lexing has built after some characters: the lines, the text since the last
/// `;`, `{` or line, and the depth.
pub type LexState = Result<(Seq<SpecLine>, Seq<char>, int), SpecKernelError>;

/// The line that the text `buf` ends with at depth `d`, if it holds more than white space.
pub open spec fn flush(buf: Seq<char>, d: int) -> Seq<SpecLine> {
    let tr = trim_spec(buf);
    if tr.len() > 0 {
        seq![SpecLine { code: tr, depth: d as u8, starts_closure: false }]
    } else {
        Seq::empty()
    }
}

/// Lexing one more character: `;` ends a line, `{` opens a block after its header, `}`
/// closes one; any other character joins the text.
pub open spec fn lex_char(st: LexState, ch: char) -> LexState {
    match st {
        Err(e) => Err(e),
        Ok((ls, buf, d)) => if ch == ';' {
            Ok((ls + flush(buf, d), Seq::empty(), d))
        } else if ch == '{' {
            if d >= 255 {
                Err((KernelErrorKind::TooDeep, Seq::empty()))
            } else {
                Ok((ls.push(SpecLine { code: trim_spec(buf), depth: d as u8, starts_closure: true }), Seq::empty(), d + 1))
            }
        } else if ch == '}' {
            if d <= 0 {
                Err((KernelErrorKind::UnopenedClosure, Seq::empty()))
            } else {
                Ok((ls, buf, d - 1))
            }
        } else {
            Ok((ls, buf.push(ch), d))
        }
    }
}

/// Lexing the characters of `s` one after the other from `st`.
pub open spec fn lex_run(st: LexState, s: Seq<char>) -> LexState
    decreases s.len(),
{
    if s.len() == 0 {
        st
    } else {
        lex_char(lex_run(st, s.drop_last()), s.last())
    }
}

/// The state lexing starts from.
pub open spec fn lex_start() -> LexState {
    Ok((Seq::empty(), Seq::empty(), 0))
}

/// Lexing a text in two parts is lexing the second from where the first left.
proof fn lemma_lex_run_concat(st: LexState, a: Seq<char>, b: Seq<char>)
    ensures
        lex_run(st, a + b) == lex_run(lex_run(st, a), b),
    decreases b.len(),
{
    if b.len() == 0 {
        assert(a + b =~= a);
    } else {
        lemma_lex_run_concat(st, a, b.drop_last());
        assert((a + b).drop_last() =~= a + b.drop_last());
        assert((a + b).last() == b.last());
    }
}

/// Splitting at `;` and lexing piece by piece is lexing the characters in order.
proof fn lemma_pieces_stream(s: Seq<char>)
    ensures
        ({
            let parts = split_on(s, ';');
            match lex_pieces(parts.drop_last()) {
                Err(e) => lex_run(lex_start(), s) == Err::<(Seq<SpecLine>, Seq<char>, int), SpecKernelError>(e),
                Ok((ls, d)) => match lex_piece(parts.last(), d) {
                    Err(e) => lex_run(lex_start(), s) == Err::<(Seq<SpecLine>, Seq<char>, int), SpecKernelError>(e),
                    Ok((ls2, buf, d2)) => lex_run(lex_start(), s) == Ok::<(Seq<SpecLine>, Seq<char>, int), SpecKernelError>(
                        (ls + ls2, buf, d2),
                    ),
                },
            }
        }),
    decreases s.len(),
{
    crate::text::lemma_split_on_nonempty(s, ';');
    if s.len() == 0 {
        assert(split_on(s, ';') == seq![Seq::<char>::empty()]);
        assert(seq![Seq::<char>::empty()].drop_last() =~= Seq::<Seq<char>>::empty());
        assert(Seq::<SpecLine>::empty() + Seq::<SpecLine>::empty() =~= Seq::<SpecLine>::empty());
    } else {
        let s0 = s.drop_last();
        let ch = s.last();
        lemma_pieces_stream(s0);
        crate::text::lemma_split_on_nonempty(s0, ';');
        let parts0 = split_on(s0, ';');
        if ch == ';' {
            let parts = parts0.push(Seq::<char>::empty());
            assert(parts.drop_last() =~= parts0);
            match lex_pieces(parts0.drop_last()) {
                Err(e) => {},
                Ok((ls, d)) => match lex_piece(parts0.last(), d) {
                    Err(e) => {},
                    Ok((ls2, buf, d2)) => {
                        assert(lex_pieces(parts0) == Ok::<(Seq<SpecLine>, int), SpecKernelError>(
                            (ls + ls2 + flush(buf, d2), d2),
                        ));
                        assert(ls + ls2 + flush(buf, d2) + Seq::<SpecLine>::empty() =~= ls + ls2 + flush(buf, d2));
                    },
                },
            }
        } else {
            let parts = parts0.update(parts0.len() - 1, parts0.last().push(ch));
            assert(parts.drop_last() =~= parts0.drop_last());
            assert(parts.last().drop_last() =~= parts0.last());
            assert(parts.last().last() == ch);
            match lex_pieces(parts0.drop_last()) {
                Err(e) => {},
                Ok((ls, d)) => match lex_piece(parts0.last(), d) {
                    Err(e) => {},
                    Ok((ls2, buf, d2)) => {
                        if ch == '{' && d2 < 255 {
                            assert(ls + ls2.push(SpecLine { code: trim_spec(buf), depth: d2 as u8, starts_closure: true })
                                =~= (ls + ls2).push(SpecLine { code: trim_spec(buf), depth: d2 as u8, starts_closure: true }));
                        }
                    },
                },
            }
        }
    }
}

/// Lexing source code is lexing its characters, once comments and line breaks are gone,
/// then ending the last line.
proof fn lemma_code_lines_stream(c: Seq<char>)
    ensures
        spec_to_code_lines(c) == match lex_run(lex_start(), drop_breaks(strip_from(c, 0, false))) {
            Err(e) => Err::<Seq<SpecLine>, SpecKernelError>(e),
            Ok((ls, buf, d)) => Ok(ls + flush(buf, d)),
        },
{
    let s = drop_breaks(strip_from(c, 0, false));
    lemma_pieces_stream(s);
    crate::text::lemma_split_on_nonempty(s, ';');
    let parts = split_on(s, ';');
    assert(parts.drop_last().push(parts.last()) =~= parts);
}


/// `s` holds no `//`.
pub open spec fn no_comment(s: Seq<char>) -> bool {
    forall|i: int| 0 <= i < s.len() - 1 ==> !(#[trigger] s[i] == '/' && s[i + 1] == '/')
}

/// Text without `//` has no comment to strip.
proof fn lemma_strip_nothing(c: Seq<char>, i: int)
    requires
        0 <= i <= c.len(),
        no_comment(c),
    ensures
        strip_from(c, i, false) == c.subrange(i, c.len() as int),
    decreases c.len() - i,
{
    if i < c.len() {
        lemma_strip_nothing(c, i + 1);
        assert(seq![c[i]] + c.subrange(i + 1, c.len() as int) =~= c.subrange(i, c.len() as int));
    } else {
        assert(c.subrange(i, c.len() as int) =~= Seq::<char>::empty());
    }
}

/// Two texts without `//`, not joined by two slashes, make a text without `//`.
proof fn lemma_no_comment_concat(a: Seq<char>, b: Seq<char>)
    requires
        no_comment(a),
        no_comment(b),
        a.len() == 0 || b.len() == 0 || a.last() != '/' || b[0] != '/',
    ensures
        no_comment(a + b),
{
    let c = a + b;
    assert forall|i: int| 0 <= i < c.len() - 1 implies !(#[trigger] c[i] == '/' && c[i + 1] == '/') by {
        if i + 1 < a.len() {
            assert(c[i] == a[i] && c[i + 1] == a[i + 1]);
        } else if i >= a.len() {
            assert(c[i] == b[i - a.len()] && c[i + 1] == b[i + 1 - a.len()]);
        } else {
            assert(c[i] == a.last() && c[i + 1] == b[0]);
        }
    }
}

/// Dropping line breaks from two texts is dropping them from each.
proof fn lemma_drop_breaks_concat(a: Seq<char>, b: Seq<char>)
    ensures
        drop_breaks(a + b) == drop_breaks(a) + drop_breaks(b),
    decreases b.len(),
{
    if b.len() == 0 {
        assert(a + b =~= a);
        assert(drop_breaks(a) + drop_breaks(b) =~= drop_breaks(a));
    } else {
        lemma_drop_breaks_concat(a, b.drop_last());
        assert((a + b).drop_last() =~= a + b.drop_last());
        assert((a + b).last() == b.last());
        assert((drop_breaks(a) + drop_breaks(b.drop_last())).push(b.last()) =~= drop_breaks(a) + drop_breaks(
            b.drop_last(),
        ).push(b.last()));
    }
}

/// Text without line breaks or tabs keeps all its characters.
proof fn lemma_drop_breaks_none(s: Seq<char>)
    requires
        forall|i: int| 0 <= i < s.len() ==> #[trigger] s[i] != '\n' && s[i] != '\t',
    ensures
        drop_breaks(s) == s,
    decreases s.len(),
{
    if s.len() > 0 {
        assert forall|i: int| 0 <= i < s.drop_last().len() implies #[trigger] s.drop_last()[i] != '\n'
            && s.drop_last()[i] != '\t' by {
            assert(s.drop_last()[i] == s[i]);
        }
        lemma_drop_breaks_none(s.drop_last());
        assert(s.drop_last().push(s.last()) =~= s);
    }
}

/// Every character of `s` is white space.
pub open spec fn all_ws(s: Seq<char>) -> bool {
    forall|i: int| 0 <= i < s.len() ==> #[trigger] is_ws(s[i])
}

/// `s` neither begins nor ends with white space.
pub open spec fn trimmed(s: Seq<char>) -> bool {
    s.len() == 0 || (!is_ws(s[0]) && !is_ws(s.last()))
}

/// The white space that a text begins with is counted before the rest.
proof fn lemma_lead_ws_prefix(w: Seq<char>, x: Seq<char>)
    requires
        all_ws(w),
    ensures
        lead_ws(w + x) == w.len() + lead_ws(x),
    decreases w.len(),
{
    if w.len() > 0 {
        assert((w + x).drop_first() =~= w.drop_first() + x);
        assert(all_ws(w.drop_first())) by {
            assert forall|i: int| 0 <= i < w.drop_first().len() implies #[trigger] is_ws(w.drop_first()[i]) by {
                assert(w.drop_first()[i] == w[i + 1]);
            }
        }
        assert(is_ws(w[0]));
        assert((w + x)[0] == w[0]);
        lemma_lead_ws_prefix(w.drop_first(), x);
    } else {
        assert(w + x =~= x);
    }
}

/// White space followed by a trimmed text trims to that text.
proof fn lemma_trim_after_ws(w: Seq<char>, code: Seq<char>)
    requires
        all_ws(w),
        trimmed(code),
    ensures
        trim_spec(w + code) == code,
{
    lemma_lead_ws_prefix(w, code);
    if code.len() == 0 {
        assert(w + code =~= w);
    } else {
        assert(lead_ws(code) == 0);
        assert((w + code).last() == code.last());
        assert(trail_ws(w + code) == 0);
        assert((w + code).subrange(w.len() as int, (w + code).len() as int) =~= code);
    }
}


/// `s` holds none of the characters that end a line or open or close a block.
pub open spec fn no_structure(s: Seq<char>) -> bool {
    forall|i: int| 0 <= i < s.len() ==> #[trigger] s[i] != ';' && s[i] != '{' && s[i] != '}'
}

/// `s` holds no `/`.
pub open spec fn no_slash(s: Seq<char>) -> bool {
    forall|i: int| 0 <= i < s.len() ==> #[trigger] s[i] != '/'
}

/// Characters that neither end a line nor open or close a block join the text.
proof fn lemma_lex_plain(ls: Seq<SpecLine>, buf: Seq<char>, d: int, x: Seq<char>)
    requires
        no_structure(x),
    ensures
        lex_run(Ok((ls, buf, d)), x) == Ok::<(Seq<SpecLine>, Seq<char>, int), SpecKernelError>((ls, buf + x, d)),
    decreases x.len(),
{
    if x.len() > 0 {
        let x0 = x.drop_last();
        assert forall|i: int| 0 <= i < x0.len() implies #[trigger] x0[i] != ';' && x0[i] != '{' && x0[i] != '}' by {
            assert(x0[i] == x[i]);
        }
        lemma_lex_plain(ls, buf, d, x0);
        assert(x[x.len() - 1] != ';' && x[x.len() - 1] != '{' && x[x.len() - 1] != '}');
        assert((buf + x0).push(x.last()) =~= buf + x);
    } else {
        assert(buf + x =~= buf);
    }
}

/// An indentation is spaces only.
proof fn lemma_indent(n: nat)
    ensures
        all_ws(indent(n)),
        no_structure(indent(n)),
        no_slash(indent(n)),
        drop_breaks(indent(n)) == indent(n),
{
    lemma_drop_breaks_none(indent(n));
}

/// Lexing the closing lines from depth `open` down to depth `t` lowers the depth to `t`
/// and leaves only white space to come.
proof fn lemma_lex_closers(ls: Seq<SpecLine>, buf: Seq<char>, open: int, t: int)
    requires
        0 <= t <= open,
        all_ws(buf),
    ensures
        lex_run(Ok((ls, buf, open)), drop_breaks(closers(open, t))) is Ok,
        lex_run(Ok((ls, buf, open)), drop_breaks(closers(open, t)))->Ok_0.0 == ls,
        all_ws(lex_run(Ok((ls, buf, open)), drop_breaks(closers(open, t)))->Ok_0.1),
        lex_run(Ok((ls, buf, open)), drop_breaks(closers(open, t)))->Ok_0.2 == t,
        no_slash(closers(open, t)),
    decreases open - t,
{
    if open > t {
        let ind = indent((open - 1) as nat);
        let close = seq!['}', '\n'];
        let rest = closers(open - 1, t);
        assert(closers(open, t) == ind + close + rest);
        lemma_drop_breaks_concat(ind + close, rest);
        lemma_drop_breaks_concat(ind, close);
        lemma_indent((open - 1) as nat);
        assert(close.drop_last() =~= seq!['}']);
        assert(close.last() == '\n');
        assert(seq!['}'].drop_last() =~= Seq::<char>::empty());
        assert(seq!['}'].last() == '}');
        assert(drop_breaks(Seq::<char>::empty()) == Seq::<char>::empty());
        assert(drop_breaks(seq!['}']) =~= Seq::<char>::empty().push('}'));
        assert(drop_breaks(close) =~= seq!['}']);
        let st0: LexState = Ok((ls, buf, open));
        lemma_lex_run_concat(st0, ind + seq!['}'], drop_breaks(rest));
        lemma_lex_run_concat(st0, ind, seq!['}']);
        lemma_lex_plain(ls, buf, open, ind);
        assert(seq!['}'].drop_last() =~= Seq::<char>::empty());
        let buf2 = buf + ind;
        assert(all_ws(buf2)) by {
            assert forall|i: int| 0 <= i < buf2.len() implies #[trigger] is_ws(buf2[i]) by {
                if i < buf.len() {
                    assert(buf2[i] == buf[i]);
                } else {
                    assert(buf2[i] == ind[i - buf.len()]);
                }
            }
        }
        let st1: LexState = Ok((ls, buf2, open));
        assert(lex_run(st1, seq!['}']) == lex_char(lex_run(st1, Seq::<char>::empty()), '}'));
        assert(lex_run(st0, ind + seq!['}']) == Ok::<(Seq<SpecLine>, Seq<char>, int), SpecKernelError>(
            (ls, buf2, open - 1),
        ));
        assert(drop_breaks(closers(open, t)) =~= ind + seq!['}'] + drop_breaks(rest));
        lemma_lex_closers(ls, buf2, open - 1, t);
        let all = ind + close + rest;
        assert forall|i: int| 0 <= i < all.len() implies #[trigger] all[i] != '/' by {
            if i < ind.len() {
                assert(all[i] == ind[i]);
            } else if i < ind.len() + 2 {
                assert(all[i] == close[i - ind.len()]);
            } else {
                assert(all[i] == rest[i - ind.len() - 2]);
            }
        }
    } else {
        assert(closers(open, t) == Seq::<char>::empty());
        assert(drop_breaks(Seq::<char>::empty()) == Seq::<char>::empty());
    }
}


/// A line that formatting and lexing give back: its text holds no `//`, no line break or
/// tab, nothing that ends a line or opens or closes a block, and no white space at either
/// end; a line that opens no block is not empty, and a header stands above depth 255.
pub open spec fn line_ok(l: SpecLine) -> bool {
    &&& no_comment(l.code)
    &&& trimmed(l.code)
    &&& no_structure(l.code)
    &&& forall|i: int| 0 <= i < l.code.len() ==> #[trigger] l.code[i] != '\n' && l.code[i] != '\t'
    &&& (!l.starts_closure ==> l.code.len() > 0)
    &&& (l.starts_closure ==> l.depth < 255)
}

/// Lines that formatting writes in a form lexing reads back: each line is fit, the first
/// stands at depth 0, and each other line at most one level deeper than the block the line
/// before it leaves open.
pub open spec fn formattable(ls: Seq<SpecLine>) -> bool {
    &&& forall|k: int| 0 <= k < ls.len() ==> #[trigger] line_ok(ls[k])
    &&& (ls.len() > 0 ==> ls[0].depth == 0)
    &&& forall|k: int|
        0 < k < ls.len() ==> #[trigger] ls[k].depth <= ls[k - 1].depth + if ls[k - 1].starts_closure {
            1int
        } else {
            0int
        }
}

/// The depth a formatted text leaves open: that of its last line, one more when the line
/// opens a block.
pub open spec fn open_depth(st: (Seq<char>, int, bool)) -> int {
    st.1 + if st.2 {
        1int
    } else {
        0int
    }
}

/// Lexing one formatted line, after white space only, adds that line.
proof fn lemma_lex_line(ls: Seq<SpecLine>, w: Seq<char>, l: SpecLine)
    requires
        all_ws(w),
        line_ok(l),
    ensures
        lex_run(
            Ok((ls, w, l.depth as int)),
            indent(l.depth as nat) + l.code + seq![if l.starts_closure { '{' } else { ';' }],
        ) == Ok::<(Seq<SpecLine>, Seq<char>, int), SpecKernelError>(
            (ls.push(l), Seq::empty(), l.depth + if l.starts_closure { 1int } else { 0int }),
        ),
{
    let ind = indent(l.depth as nat);
    lemma_indent(l.depth as nat);
    let body = ind + l.code;
    assert(no_structure(body)) by {
        assert forall|i: int| 0 <= i < body.len() implies #[trigger] body[i] != ';' && body[i] != '{' && body[i]
            != '}' by {
            if i < ind.len() {
                assert(body[i] == ind[i]);
            } else {
                assert(body[i] == l.code[i - ind.len()]);
            }
        }
    }
    let term = if l.starts_closure { '{' } else { ';' };
    let st0: LexState = Ok((ls, w, l.depth as int));
    lemma_lex_run_concat(st0, body, seq![term]);
    lemma_lex_plain(ls, w, l.depth as int, body);
    let wi = w + ind;
    assert(all_ws(wi)) by {
        assert forall|i: int| 0 <= i < wi.len() implies #[trigger] is_ws(wi[i]) by {
            if i < w.len() {
                assert(wi[i] == w[i]);
            } else {
                assert(wi[i] == ind[i - w.len()]);
            }
        }
    }
    lemma_trim_after_ws(wi, l.code);
    assert(w + body =~= wi + l.code);
    let st1: LexState = Ok((ls, w + body, l.depth as int));
    assert(seq![term].drop_last() =~= Seq::<char>::empty());
    assert(seq![term].last() == term);
    assert(lex_run(st1, seq![term]) == lex_char(lex_run(st1, Seq::<char>::empty()), term));
    if !l.starts_closure {
        assert(flush(w + body, l.depth as int) =~= seq![l]);
        assert(ls + seq![l] =~= ls.push(l));
    }
}

/// The text that formatting writes for one line after its closing lines.
pub open spec fn line_tail(l: SpecLine) -> Seq<char> {
    indent(l.depth as nat) + l.code + seq![if l.starts_closure { '{' } else { ';' }, '\n']
}

/// The text of one formatted line, less its line break, keeps all its characters.
proof fn lemma_line_text(l: SpecLine)
    requires
        line_ok(l),
    ensures
        drop_breaks(line_tail(l)) == indent(l.depth as nat) + l.code + seq![if l.starts_closure { '{' } else { ';' }],
{
    let term = if l.starts_closure { '{' } else { ';' };
    let ind = indent(l.depth as nat);
    let line_text = ind + l.code + seq![term];
    lemma_indent(l.depth as nat);
    assert forall|i: int| 0 <= i < line_text.len() implies #[trigger] line_text[i] != '\n' && line_text[i]
        != '\t' by {
        if i < ind.len() {
            assert(line_text[i] == ind[i]);
        } else if i < ind.len() + l.code.len() {
            assert(line_text[i] == l.code[i - ind.len()]);
        } else {
            assert(line_text[i] == term);
        }
    }
    lemma_drop_breaks_none(line_text);
    assert(line_tail(l) =~= line_text + seq!['\n']);
    lemma_drop_breaks_concat(line_text, seq!['\n']);
    assert(seq!['\n'].drop_last() =~= Seq::<char>::empty());
    assert(seq!['\n'].last() == '\n');
    assert(drop_breaks(Seq::<char>::empty()) == Seq::<char>::empty());
    assert(drop_breaks(seq!['\n']) == Seq::<char>::empty());
    assert(line_text + Seq::<char>::empty() =~= line_text);
}

/// Lexing the closing lines and then one formatted line, after a text that lexing left
/// with no pending text at depth `open`, adds that line.
#[verifier::spinoff_prover]
proof fn lemma_format_step_lex(ls0: Seq<SpecLine>, res0: Seq<char>, open: int, l: SpecLine)
    requires
        lex_run(lex_start(), drop_breaks(res0)) == Ok::<(Seq<SpecLine>, Seq<char>, int), SpecKernelError>(
            (ls0, Seq::empty(), open),
        ),
        0 <= l.depth <= open,
        line_ok(l),
    ensures
        lex_run(lex_start(), drop_breaks(res0 + closers(open, l.depth as int) + line_tail(l))) == Ok::<
            (Seq<SpecLine>, Seq<char>, int),
            SpecKernelError,
        >((ls0.push(l), Seq::empty(), l.depth + if l.starts_closure { 1int } else { 0int })),
{
    let cl = closers(open, l.depth as int);
    let term = if l.starts_closure { '{' } else { ';' };
    let line_text = indent(l.depth as nat) + l.code + seq![term];
    lemma_lex_closers(ls0, Seq::empty(), open, l.depth as int);
    assert(all_ws(Seq::<char>::empty()));
    let after = lex_run(Ok((ls0, Seq::<char>::empty(), open)), drop_breaks(cl))->Ok_0;
    lemma_lex_line(ls0, after.1, l);
    lemma_line_text(l);
    lemma_drop_breaks_concat(res0 + cl, line_tail(l));
    lemma_drop_breaks_concat(res0, cl);
    lemma_lex_run_concat(lex_start(), drop_breaks(res0) + drop_breaks(cl), line_text);
    lemma_lex_run_concat(lex_start(), drop_breaks(res0), drop_breaks(cl));
}

/// Writing the closing lines and one formatted line after a text without `//` that ends
/// with a line break keeps the text without `//`.
#[verifier::spinoff_prover]
proof fn lemma_format_step_comment(res0: Seq<char>, open: int, l: SpecLine)
    requires
        no_comment(res0),
        res0.len() == 0 || res0.last() == '\n',
        0 <= l.depth <= open,
        line_ok(l),
    ensures
        no_comment(res0 + closers(open, l.depth as int) + line_tail(l)),
        (res0 + closers(open, l.depth as int) + line_tail(l)).last() == '\n',
{
    let cl = closers(open, l.depth as int);
    let term = if l.starts_closure { '{' } else { ';' };
    lemma_lex_closers(Seq::empty(), Seq::empty(), open, l.depth as int);
    assert(all_ws(Seq::<char>::empty()));
    assert(no_comment(cl)) by {
        assert forall|i: int| 0 <= i < cl.len() - 1 implies !(#[trigger] cl[i] == '/' && cl[i + 1] == '/') by {
            assert(cl[i] != '/');
        }
    }
    lemma_no_comment_concat(res0, cl);
    let ind = indent(l.depth as nat);
    lemma_indent(l.depth as nat);
    let a1 = res0 + cl;
    assert(no_comment(ind)) by {
        assert forall|i: int| 0 <= i < ind.len() - 1 implies !(#[trigger] ind[i] == '/' && ind[i + 1] == '/') by {
            assert(ind[i] != '/');
        }
    }
    assert(a1.len() == 0 || a1.last() != '/') by {
        if cl.len() > 0 {
            assert(a1.last() == cl[cl.len() - 1]);
        } else if res0.len() > 0 {
            assert(a1.last() == res0.last());
        }
    }
    lemma_no_comment_concat(a1, ind);
    let a2 = a1 + ind;
    assert(a2.len() == 0 || a2.last() != '/') by {
        if ind.len() > 0 {
            assert(a2.last() == ind[ind.len() - 1]);
        } else {
            assert(a2 =~= a1);
        }
    }
    lemma_no_comment_concat(a2, l.code);
    let tt = seq![term, '\n'];
    assert(no_comment(tt));
    let a3 = a2 + l.code;
    assert(a3.len() == 0 || a3.last() != '/' || tt[0] != '/');
    lemma_no_comment_concat(a3, tt);
    assert(a3 + tt =~= res0 + cl + line_tail(l));
}

/// Formatting one more line writes the closing lines down to its depth, then the line.
proof fn lemma_format_state_step(ls: Seq<SpecLine>)
    requires
        ls.len() > 0,
    ensures
        format_state(ls).0 == format_state(ls.drop_last()).0 + closers(
            open_depth(format_state(ls.drop_last())),
            ls.last().depth as int,
        ) + line_tail(ls.last()),
        format_state(ls).1 == ls.last().depth,
        format_state(ls).2 == ls.last().starts_closure,
{
    let l = ls.last();
    let res0 = format_state(ls.drop_last()).0;
    let open0 = open_depth(format_state(ls.drop_last()));
    if (l.depth as int) >= open0 {
        assert(closers(open0, l.depth as int) == Seq::<char>::empty());
        assert(res0 + closers(open0, l.depth as int) =~= res0);
    }
    assert(format_state(ls).0 =~= res0 + closers(open0, l.depth as int) + line_tail(l));
}

/// The lines before the last of formattable lines are formattable, and the last stands
/// no deeper than the block they leave open.
proof fn lemma_formattable_prefix(ls: Seq<SpecLine>)
    requires
        formattable(ls),
        ls.len() > 0,
    ensures
        formattable(ls.drop_last()),
        line_ok(ls.last()),
        ls.last().depth <= open_depth(format_state(ls.drop_last())),
{
    let ls0 = ls.drop_last();
    assert(line_ok(ls[ls.len() - 1]));
    assert forall|k: int| 0 <= k < ls0.len() implies #[trigger] line_ok(ls0[k]) by {
        assert(ls0[k] == ls[k]);
        assert(line_ok(ls[k]));
    }
    assert forall|k: int| 0 < k < ls0.len() implies #[trigger] ls0[k].depth <= ls0[k - 1].depth + if ls0[k
        - 1].starts_closure {
        1int
    } else {
        0int
    } by {
        assert(ls0[k] == ls[k] && ls0[k - 1] == ls[k - 1]);
    }
    if ls0.len() > 0 {
        lemma_format_state_step(ls0);
        assert(ls0.last() == ls[ls.len() - 2]);
        assert(ls[ls.len() - 1].depth <= ls[ls.len() - 2].depth + if ls[ls.len() - 2].starts_closure {
            1int
        } else {
            0int
        });
    }
}

/// Formatting writes lines that lexing reads back, ending every line with a line break
/// and holding no `//`.
proof fn lemma_format_lexes(ls: Seq<SpecLine>)
    requires
        formattable(ls),
    ensures
        lex_run(lex_start(), drop_breaks(format_state(ls).0)) == Ok::<(Seq<SpecLine>, Seq<char>, int), SpecKernelError>(
            (ls, Seq::empty(), open_depth(format_state(ls))),
        ),
        no_comment(format_state(ls).0),
        format_state(ls).0.len() == 0 || format_state(ls).0.last() == '\n',
        0 <= open_depth(format_state(ls)),
    decreases ls.len(),
{
    if ls.len() == 0 {
        assert(drop_breaks(Seq::<char>::empty()) == Seq::<char>::empty());
        assert(ls =~= Seq::<SpecLine>::empty());
    } else {
        let ls0 = ls.drop_last();
        let l = ls.last();
        lemma_formattable_prefix(ls);
        lemma_format_lexes(ls0);
        lemma_format_state_step(ls);
        let res0 = format_state(ls0).0;
        let open0 = open_depth(format_state(ls0));
        lemma_format_step_lex(ls0, res0, open0, l);
        lemma_format_step_comment(res0, open0, l);
        assert(ls0.push(l) =~= ls);
        assert(open_depth(format_state(ls)) == l.depth + if l.starts_closure { 1int } else { 0int });
    }
}

/// Lexing the formatted kernel gives the lines back, when each line is fit to be written
/// and read (`line_ok`) and the depths step as blocks open and close.
pub proof fn law_lex_of_format(ls: Seq<SpecLine>)
    requires
        formattable(ls),
    ensures
        spec_to_code_lines(spec_format_kernel(ls)) == Ok::<Seq<SpecLine>, SpecKernelError>(ls),
{
    lemma_format_lexes(ls);
    let st = format_state(ls);
    let res = st.0;
    let open = open_depth(st);
    let cl = closers(open, 0);
    let text = res + cl;
    assert(spec_format_kernel(ls) == text);
    lemma_lex_closers(ls, Seq::empty(), open, 0);
    lemma_no_comment_concat(res, cl);
    lemma_strip_nothing(text, 0);
    assert(text.subrange(0, text.len() as int) =~= text);
    lemma_drop_breaks_concat(res, cl);
    lemma_lex_run_concat(lex_start(), drop_breaks(res), drop_breaks(cl));
    lemma_code_lines_stream(text);
    let fin = lex_run(Ok((ls, Seq::<char>::empty(), open)), drop_breaks(cl))->Ok_0;
    lemma_trim_after_ws(fin.1, Seq::empty());
    assert(fin.1 + Seq::<char>::empty() =~= fin.1);
    assert(flush(fin.1, fin.2) =~= Seq::<SpecLine>::empty());
    assert(ls + Seq::<SpecLine>::empty() =~= ls);
}

} // verus!
