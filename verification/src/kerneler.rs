use vstd::prelude::*;

use crate::builtin::{binary_value, spec_arg_count, Builtin};
use crate::parse::builtin_name;
use crate::text::{
    occurs_at, search_end, append_chars, find_last, find_last_end, last_end, has_char, has_prefix, is_space, is_ws, last_index, push_all, slice,
    starts_with, contains_char,
};

verus! {

/// One line of kernel code.
#[derive(Debug)]
pub struct CodeLine {
    /// The text of the line.
    pub code: Vec<char>,
    /// How many blocks the line is nested in.
    pub depth: u8,
    /// Whether the line opens a block (a procedure header, an `if`, an `else` or a `while`).
    pub starts_closure: bool,
}

/// The abstract form of a line.
pub struct SpecLine {
    pub code: Seq<char>,
    pub depth: u8,
    pub starts_closure: bool,
}

impl View for CodeLine {
    type V = SpecLine;

    open spec fn view(&self) -> SpecLine {
        SpecLine { code: self.code@, depth: self.depth, starts_closure: self.starts_closure }
    }
}

/// The abstract form of a list of lines.
pub open spec fn lines_view(ls: Seq<CodeLine>) -> Seq<SpecLine> {
    ls.map_values(|l: CodeLine| l@)
}

/// The kinds of error that stop the compilation of source code into kernel code.
#[derive(Debug, PartialEq, Eq, Structural, Clone, Copy)]
pub enum KernelErrorKind {
    /// A `}` without a matching `{`.
    UnopenedClosure,
    /// More nesting than a line's depth can count.
    TooDeep,
    /// A `#size` command without exactly two numbers.
    InvalidSizeCommand,
    /// A `#stack` command without exactly four numbers.
    InvalidStackCommand,
    /// A stack whose corners are in the wrong order.
    InvalidStackDimensions,
    /// A second `#stack` command.
    StackActivatedTwice,
    /// More stack variables than the stack holds.
    StackOverflow,
    /// A `define` without a value while no stack is active.
    DefineWithoutStack,
    /// A `define` with neither one nor two arguments.
    InvalidDefine,
    /// A `#[` without its `]`.
    UnclosedReference,
    /// A `#` without a name after it.
    IsolatedReference,
    /// A `[` without a matching `]`, or the reverse.
    UnmatchedBracket,
    /// An address with more than three components.
    InvalidAddress,
    /// A line that should hold a call is empty.
    EmptyLine,
    /// A function call without a name.
    NoFunctionName,
    /// An operation without `=` before it.
    MissingEquals,
}

/// An error that stops the compilation, with the text it is about.
#[derive(Debug)]
pub struct KernelError {
    pub kind: KernelErrorKind,
    pub text: Vec<char>,
}

/// The abstract form of a compilation error.
pub type SpecKernelError = (KernelErrorKind, Seq<char>);

/// The abstract form of a compilation error value.
pub open spec fn kerr_view(e: KernelError) -> SpecKernelError {
    (e.kind, e.text@)
}

/// The result `r` of a pass that leaves `after` is the expected one.
pub open spec fn pass_result(r: Result<(), KernelError>, after: Seq<SpecLine>, expected: Result<Seq<SpecLine>, SpecKernelError>) -> bool {
    match expected {
        Ok(ls) => r is Ok && after == ls,
        Err(e) => r is Err && kerr_view(r->Err_0) == e,
    }
}

/// Every line passed through `f` in order; the first error stops the pass.
pub open spec fn map_lines(ls: Seq<SpecLine>, f: spec_fn(SpecLine) -> Result<SpecLine, SpecKernelError>) -> Result<Seq<SpecLine>, SpecKernelError>
    decreases ls.len(),
{
    if ls.len() == 0 {
        Ok(Seq::empty())
    } else {
        match map_lines(ls.drop_last(), f) {
            Err(e) => Err(e),
            Ok(done) => match f(ls.last()) {
                Err(e) => Err(e),
                Ok(l) => Ok(done.push(l)),
            },
        }
    }
}

/// An error on one line is the error of the pass when the lines before it pass.
pub proof fn lemma_map_lines_err(ls: Seq<SpecLine>, f: spec_fn(SpecLine) -> Result<SpecLine, SpecKernelError>, k: int)
    requires
        0 <= k < ls.len(),
        map_lines(ls.subrange(0, k), f) is Ok,
        f(ls[k]) is Err,
    ensures
        map_lines(ls, f) == Err::<Seq<SpecLine>, SpecKernelError>(f(ls[k])->Err_0),
    decreases ls.len() - k,
{
    if k == ls.len() - 1 {
        assert(ls.drop_last() =~= ls.subrange(0, k));
    } else {
        assert(ls.drop_last().subrange(0, k) =~= ls.subrange(0, k));
        lemma_map_lines_err(ls.drop_last(), f, k);
    }
}

/// A pass that succeeds on a prefix and on the next line succeeds on the longer prefix.
pub proof fn lemma_map_lines_step(ls: Seq<SpecLine>, f: spec_fn(SpecLine) -> Result<SpecLine, SpecKernelError>, k: int, done: Seq<SpecLine>)
    requires
        0 <= k < ls.len(),
        map_lines(ls.subrange(0, k), f) == Ok::<Seq<SpecLine>, SpecKernelError>(done),
        f(ls[k]) is Ok,
    ensures
        map_lines(ls.subrange(0, k + 1), f) == Ok::<Seq<SpecLine>, SpecKernelError>(done.push(f(ls[k])->Ok_0)),
{
    assert(ls.subrange(0, k + 1).drop_last() =~= ls.subrange(0, k));
}

/// `s` without its white-space characters.
pub open spec fn drop_ws(s: Seq<char>) -> Seq<char>
    decreases s.len(),
{
    if s.len() == 0 {
        s
    } else if is_ws(s.last()) {
        drop_ws(s.drop_last())
    } else {
        drop_ws(s.drop_last()).push(s.last())
    }
}

/// A line without its white space.
pub open spec fn spec_remove_spaces_line(l: SpecLine) -> SpecLine {
    SpecLine { code: drop_ws(l.code), ..l }
}

/// `s` without its white-space characters.
fn without_spaces(s: &Vec<char>) -> (r: Vec<char>)
    ensures
        r@ == drop_ws(s@),
{
    let mut r: Vec<char> = Vec::new();
    let mut i: usize = 0;
    while i < s.len()
        invariant
            i <= s@.len(),
            r@ == drop_ws(s@.subrange(0, i as int)),
        decreases s@.len() - i,
    {
        assert(s@.subrange(0, i + 1).drop_last() =~= s@.subrange(0, i as int));
        assert(s@.subrange(0, i + 1).last() == s@[i as int]);
        let c = s[i];
        if !is_space(c) {
            r.push(c);
            assert(r@ == drop_ws(s@.subrange(0, i + 1)));
        } else {
            assert(r@ == drop_ws(s@.subrange(0, i + 1)));
        }
        i = i + 1;
    }
    assert(s@.subrange(0, s@.len() as int) =~= s@);
    r
}

/// Removes the white space from every line.
pub fn remove_spaces(lines: &mut Vec<CodeLine>)
    ensures
        lines_view(final(lines)@) == lines_view(old(lines)@).map_values(|l: SpecLine| spec_remove_spaces_line(l)),
{
    let ghost old_v = lines_view(lines@);
    let mut i: usize = 0;
    while i < lines.len()
        invariant
            lines@.len() == old_v.len(),
            i <= old_v.len(),
            forall|k: int| 0 <= k < i ==> #[trigger] lines@[k]@ == spec_remove_spaces_line(old_v[k]),
            forall|k: int| i <= k < old_v.len() ==> #[trigger] lines@[k]@ == old_v[k],
        decreases old_v.len() - i,
    {
        assert(lines@[i as int]@ == old_v[i as int]);
        let nl = CodeLine {
            code: without_spaces(&lines[i].code),
            depth: lines[i].depth,
            starts_closure: lines[i].starts_closure,
        };
        lines.set(i, nl);
        i = i + 1;
    }
    assert(lines_view(lines@) =~= old_v.map_values(|l: SpecLine| spec_remove_spaces_line(l)));
}

/// The arguments that a function receives for its result address.
pub open spec fn result_params() -> Seq<char> {
    seq!['$', '1', ',', '$', '2', ',', '$', '3']
}

/// A function header becomes a procedure header with three more arguments, the
/// address of the result; `return:` becomes a write to that address.
pub open spec fn spec_function_line(l: SpecLine) -> SpecLine {
    let c = l.code;
    let n = c.len() as int;
    if l.starts_closure && has_prefix(c, seq!['f', 'n', ':']) {
        let ins = if c[n - 2] == '(' {
            result_params()
        } else {
            seq![','] + result_params()
        };
        let c2 = c.subrange(0, n - 1) + ins + c.subrange(n - 1, n);
        SpecLine { code: seq!['p', 'r', 'o', 'c', ':'] + c2.subrange(3, c2.len() as int), ..l }
    } else if has_prefix(c, seq!['r', 'e', 't', 'u', 'r', 'n', ':']) {
        SpecLine { code: seq!['['] + result_params() + seq![']', '='] + c.subrange(7, n), ..l }
    } else {
        l
    }
}

fn function_line(l: &CodeLine) -> (r: CodeLine)
    ensures
        r@ == spec_function_line(l@),
{
    let c = &l.code;
    let n = c.len();
    if l.starts_closure && starts_with(c, &['f', 'n', ':']) {
        let mut c2 = slice(c, 0, n - 1);
        if c[n - 2] == '(' {
            push_all(&mut c2, &['$', '1', ',', '$', '2', ',', '$', '3']);
        } else {
            push_all(&mut c2, &[',', '$', '1', ',', '$', '2', ',', '$', '3']);
        }
        c2.push(c[n - 1]);
        let mut code: Vec<char> = Vec::new();
        push_all(&mut code, &['p', 'r', 'o', 'c', ':']);
        let rest = slice(&c2, 3, c2.len());
        append_chars(&mut code, &rest);
        proof {
            let ins = if c@[n - 2] == '(' {
                result_params()
            } else {
                seq![','] + result_params()
            };
            let c2 = c@.subrange(0, n - 1) + ins + c@.subrange(n - 1, n as int);
            assert(code@ =~= seq!['p', 'r', 'o', 'c', ':'] + c2.subrange(3, c2.len() as int));
        }
        CodeLine { code, depth: l.depth, starts_closure: l.starts_closure }
    } else if starts_with(c, &['r', 'e', 't', 'u', 'r', 'n', ':']) {
        let mut code: Vec<char> = Vec::new();
        push_all(&mut code, &['[', '$', '1', ',', '$', '2', ',', '$', '3', ']', '=']);
        let tail = slice(c, 7, n);
        append_chars(&mut code, &tail);
        assert(code@ =~= seq!['['] + result_params() + seq![']', '='] + c@.subrange(7, n as int));
        CodeLine { code, depth: l.depth, starts_closure: l.starts_closure }
    } else {
        let code = slice(c, 0, n);
        assert(code@ =~= c@);
        CodeLine { code, depth: l.depth, starts_closure: l.starts_closure }
    }
}

/// Turns function headers into procedure headers and returns into writes.
pub fn function(lines: &mut Vec<CodeLine>)
    ensures
        lines_view(final(lines)@) == lines_view(old(lines)@).map_values(|l: SpecLine| spec_function_line(l)),
{
    let ghost old_v = lines_view(lines@);
    let mut i: usize = 0;
    while i < lines.len()
        invariant
            lines@.len() == old_v.len(),
            i <= old_v.len(),
            forall|k: int| 0 <= k < i ==> #[trigger] lines@[k]@ == spec_function_line(old_v[k]),
            forall|k: int| i <= k < old_v.len() ==> #[trigger] lines@[k]@ == old_v[k],
        decreases old_v.len() - i,
    {
        let nl = function_line(&lines[i]);
        lines.set(i, nl);
        i = i + 1;
    }
    assert(lines_view(lines@) =~= old_v.map_values(|l: SpecLine| spec_function_line(l)));
}

/// `name(` + `inner` + `)`.
pub open spec fn wrap_call(name: Seq<char>, inner: Seq<char>) -> Seq<char> {
    name + seq!['('] + inner + seq![')']
}

/// A line `target=value` that ends in no `)` becomes `target=$write(value)`, split at
/// the last `=`.
pub open spec fn spec_memory_write_line(l: SpecLine) -> SpecLine {
    let c = l.code;
    let n = c.len() as int;
    if !l.starts_closure && has_char(c, '=') && !(n > 0 && c.last() == ')') {
        let k = last_index(c, '=')->Some_0;
        SpecLine {
            code: c.subrange(0, k + 1) + wrap_call(seq!['$', 'w', 'r', 'i', 't', 'e'], c.subrange(k + 1, n)),
            ..l
        }
    } else {
        l
    }
}

fn memory_write_line(l: &CodeLine) -> (r: CodeLine)
    ensures
        r@ == spec_memory_write_line(l@),
{
    let c = &l.code;
    let n = c.len();
    let closes = n > 0 && c[n - 1] == ')';
    if !l.starts_closure && contains_char(c, '=') && !closes {
        proof {
            crate::text::lemma_last_index(c@, '=');
            crate::text::lemma_has_char_last(c@, '=');
        }
        match find_last(c, '=') {
            Some(k) => {
                let mut code = slice(c, 0, k + 1);
                push_all(&mut code, &['$', 'w', 'r', 'i', 't', 'e', '(']);
                let value = slice(c, k + 1, n);
                append_chars(&mut code, &value);
                code.push(')');
                assert(code@ =~= c@.subrange(0, k + 1) + wrap_call(
                    seq!['$', 'w', 'r', 'i', 't', 'e'],
                    c@.subrange(k + 1, n as int),
                ));
                return CodeLine { code, depth: l.depth, starts_closure: l.starts_closure };
            },
            None => {},
        }
    }
    let code = slice(c, 0, n);
    assert(code@ =~= c@);
    CodeLine { code, depth: l.depth, starts_closure: l.starts_closure }
}

/// Turns every plain assignment into a call of `$write`.
pub fn memory_write(lines: &mut Vec<CodeLine>)
    ensures
        lines_view(final(lines)@) == lines_view(old(lines)@).map_values(|l: SpecLine| spec_memory_write_line(l)),
{
    let ghost old_v = lines_view(lines@);
    let mut i: usize = 0;
    while i < lines.len()
        invariant
            lines@.len() == old_v.len(),
            i <= old_v.len(),
            forall|k: int| 0 <= k < i ==> #[trigger] lines@[k]@ == spec_memory_write_line(old_v[k]),
            forall|k: int| i <= k < old_v.len() ==> #[trigger] lines@[k]@ == old_v[k],
        decreases old_v.len() - i,
    {
        let nl = memory_write_line(&lines[i]);
        lines.set(i, nl);
        i = i + 1;
    }
    assert(lines_view(lines@) =~= old_v.map_values(|l: SpecLine| spec_memory_write_line(l)));
}

/// In a line with `=` that holds `sym`, the text from the last `sym` on becomes a
/// call of `name` with the rest of the line as operand.
pub open spec fn mono_step(c: Seq<char>, closure: bool, sym: char, name: Seq<char>) -> Seq<char> {
    if !closure && has_char(c, '=') && has_char(c, sym) {
        let k = last_index(c, sym)->Some_0;
        c.subrange(0, k) + wrap_call(name, c.subrange(k + 1, c.len() as int))
    } else {
        c
    }
}

/// `!x` becomes `$bonot(x)`, then `~x` becomes `$binot(x)`.
pub open spec fn spec_mono_line(l: SpecLine) -> SpecLine {
    let c1 = mono_step(l.code, l.starts_closure, '!', seq!['$', 'b', 'o', 'n', 'o', 't']);
    let c2 = mono_step(c1, l.starts_closure, '~', seq!['$', 'b', 'i', 'n', 'o', 't']);
    SpecLine { code: c2, ..l }
}

/// A text in which `sym` does not stand is left as it is by the step for `sym`.
proof fn lemma_mono_absent(c: Seq<char>, closure: bool, sym: char, name: Seq<char>)
    requires
        forall|i: int| 0 <= i < c.len() ==> #[trigger] c[i] != sym,
    ensures
        mono_step(c, closure, sym, name) == c,
{
}

/// The step for `sym` on `t·sym·a`, where `t` holds the `=` and `a` no `sym`, calls
/// `name` on `a`.
proof fn lemma_mono_wraps(t: Seq<char>, a: Seq<char>, sym: char, name: Seq<char>)
    requires
        has_char(t, '='),
        forall|i: int| 0 <= i < a.len() ==> #[trigger] a[i] != sym,
    ensures
        mono_step(t + seq![sym] + a, false, sym, name) == t + wrap_call(name, a),
{
    let c = t + seq![sym] + a;
    let q = t.len() as int;
    let w = choose|i: int| 0 <= i < t.len() && t[i] == '=';
    assert(c[w] == '=');
    assert(c[q] == sym);
    crate::text::lemma_last_index(c, sym);
    assert forall|j: int| q < j < c.len() implies c[j] != sym by {
        assert(c[j] == a[j - q - 1]);
    }
    assert(last_index(c, sym) == Some(q));
    assert(c.subrange(0, q) =~= t);
    assert(c.subrange(q + 1, c.len() as int) =~= a);
}

/// `t!a`, where `t` holds the `=` and neither `t` nor `a` holds `~` and `a` holds no
/// `!`, becomes a call on `a` of the builtin that gives `1` for `0` and `0` for any other
/// byte: the logical not.
pub proof fn law_not_becomes_call(t: Seq<char>, a: Seq<char>, depth: u8)
    requires
        has_char(t, '='),
        forall|i: int| 0 <= i < t.len() ==> #[trigger] t[i] != '~',
        forall|i: int| 0 <= i < a.len() ==> #[trigger] a[i] != '!' && a[i] != '~',
    ensures
        exists|op: Builtin|
            spec_mono_line(SpecLine { code: t + seq!['!'] + a, depth, starts_closure: false }).code == t + wrap_call(
                #[trigger] builtin_name(op),
                a,
            ) && spec_arg_count(op) == 4 && forall|v: u8| binary_value(op, v, 0) == Ok::<u8, crate::sigma::RuntimeError>(
                if v == 0 {
                    1u8
                } else {
                    0u8
                },
            ),
{
    let name = seq!['$', 'b', 'o', 'n', 'o', 't'];
    lemma_mono_wraps(t, a, '!', name);
    let c1 = t + wrap_call(name, a);
    assert forall|i: int| 0 <= i < c1.len() implies #[trigger] c1[i] != '~' by {
        if i < t.len() {
            assert(c1[i] == t[i]);
        } else if i < t.len() + name.len() {
            assert(c1[i] == name[i - t.len()]);
        } else if i == t.len() + name.len() {
            assert(c1[i] == '(');
        } else if i < t.len() + name.len() + 1 + a.len() {
            assert(c1[i] == a[i - t.len() - name.len() - 1]);
        } else {
            assert(c1[i] == ')');
        }
    }
    lemma_mono_absent(c1, false, '~', seq!['$', 'b', 'i', 'n', 'o', 't']);
    assert(builtin_name(Builtin::Bonot) =~= name);
}

/// `t~a`, where `t` holds the `=` and no `!`, and `a` holds neither `!` nor `~`, becomes
/// a call on `a` of the builtin that flips every bit of a byte.
pub proof fn law_bit_not_becomes_call(t: Seq<char>, a: Seq<char>, depth: u8)
    requires
        has_char(t, '='),
        forall|i: int| 0 <= i < t.len() ==> #[trigger] t[i] != '!',
        forall|i: int| 0 <= i < a.len() ==> #[trigger] a[i] != '!' && a[i] != '~',
    ensures
        exists|op: Builtin|
            spec_mono_line(SpecLine { code: t + seq!['~'] + a, depth, starts_closure: false }).code == t + wrap_call(
                #[trigger] builtin_name(op),
                a,
            ) && spec_arg_count(op) == 4 && forall|v: u8| binary_value(op, v, 0) == Ok::<u8, crate::sigma::RuntimeError>(!v),
{
    let c = t + seq!['~'] + a;
    assert forall|i: int| 0 <= i < c.len() implies #[trigger] c[i] != '!' by {
        if i < t.len() {
            assert(c[i] == t[i]);
        } else if i > t.len() {
            assert(c[i] == a[i - t.len() - 1]);
        }
    }
    lemma_mono_absent(c, false, '!', seq!['$', 'b', 'o', 'n', 'o', 't']);
    let name = seq!['$', 'b', 'i', 'n', 'o', 't'];
    lemma_mono_wraps(t, a, '~', name);
    assert(builtin_name(Builtin::Binot) =~= name);
}

fn mono_exec(c: &Vec<char>, closure: bool, sym: char, name: &[char]) -> (r: Vec<char>)
    ensures
        r@ == mono_step(c@, closure, sym, name@),
{
    let n = c.len();
    if !closure && contains_char(c, '=') && contains_char(c, sym) {
        proof {
            crate::text::lemma_has_char_last(c@, sym);
            crate::text::lemma_last_index(c@, sym);
        }
        match find_last(c, sym) {
            Some(k) => {
                let mut code = slice(c, 0, k);
                push_all(&mut code, name);
                code.push('(');
                let operand = slice(c, k + 1, n);
                append_chars(&mut code, &operand);
                code.push(')');
                assert(code@ =~= c@.subrange(0, k as int) + wrap_call(name@, c@.subrange(k + 1, n as int)));
                return code;
            },
            None => {},
        }
    }
    let r = slice(c, 0, n);
    assert(r@ =~= c@);
    r
}

/// Turns the one-operand operators `!` and `~` into calls.
pub fn mono_operations(lines: &mut Vec<CodeLine>)
    ensures
        lines_view(final(lines)@) == lines_view(old(lines)@).map_values(|l: SpecLine| spec_mono_line(l)),
{
    let ghost old_v = lines_view(lines@);
    let mut i: usize = 0;
    while i < lines.len()
        invariant
            lines@.len() == old_v.len(),
            i <= old_v.len(),
            forall|k: int| 0 <= k < i ==> #[trigger] lines@[k]@ == spec_mono_line(old_v[k]),
            forall|k: int| i <= k < old_v.len() ==> #[trigger] lines@[k]@ == old_v[k],
        decreases old_v.len() - i,
    {
        assert(lines@[i as int]@ == old_v[i as int]);
        let sc = lines[i].starts_closure;
        let c1 = mono_exec(&lines[i].code, sc, '!', &['$', 'b', 'o', 'n', 'o', 't']);
        let c2 = mono_exec(&c1, sc, '~', &['$', 'b', 'i', 'n', 'o', 't']);
        assert(['$', 'b', 'o', 'n', 'o', 't']@ =~= seq!['$', 'b', 'o', 'n', 'o', 't']);
        assert(['$', 'b', 'i', 'n', 'o', 't']@ =~= seq!['$', 'b', 'i', 'n', 'o', 't']);
        let nl = CodeLine { code: c2, depth: lines[i].depth, starts_closure: sc };
        assert(nl@ == spec_mono_line(old_v[i as int]));
        lines.set(i, nl);
        i = i + 1;
    }
    assert(lines_view(lines@) =~= old_v.map_values(|l: SpecLine| spec_mono_line(l)));
}

/// The two-operand operator symbols, in the order in which lines are searched for them:
/// the two-character symbols first, so that `>=` is not read as `>`.
pub open spec fn dual_symbol(k: int) -> Seq<char> {
    if k == 0 { seq!['=', '='] }
    else if k == 1 { seq!['!', '='] }
    else if k == 2 { seq!['>', '='] }
    else if k == 3 { seq!['<', '='] }
    else if k == 4 { seq!['>', '>'] }
    else if k == 5 { seq!['<', '<'] }
    else if k == 6 { seq!['+'] }
    else if k == 7 { seq!['-'] }
    else if k == 8 { seq!['*'] }
    else if k == 9 { seq!['/'] }
    else if k == 10 { seq!['%'] }
    else if k == 11 { seq!['>'] }
    else if k == 12 { seq!['<'] }
    else if k == 13 { seq!['&'] }
    else if k == 14 { seq!['|'] }
    else { seq!['^'] }
}

/// The builtin that each two-operand operator symbol stands for.
pub open spec fn dual_name(k: int) -> Seq<char> {
    if k == 0 { seq!['$', 'e', 'q'] }
    else if k == 1 { seq!['$', 'n', 'e', 'q'] }
    else if k == 2 { seq!['$', 'g', 'e', 'q'] }
    else if k == 3 { seq!['$', 'l', 'e', 'q'] }
    else if k == 4 { seq!['$', 'r', 's', 'h'] }
    else if k == 5 { seq!['$', 'l', 's', 'h'] }
    else if k == 6 { seq!['$', 'a', 'd', 'd'] }
    else if k == 7 { seq!['$', 's', 'u', 'b'] }
    else if k == 8 { seq!['$', 'm', 'u', 'l', 't'] }
    else if k == 9 { seq!['$', 'd', 'i', 'v'] }
    else if k == 10 { seq!['$', 'm', 'o', 'd'] }
    else if k == 11 { seq!['$', 'g'] }
    else if k == 12 { seq!['$', 'l'] }
    else if k == 13 { seq!['$', 'a', 'n', 'd'] }
    else if k == 14 { seq!['$', 'o', 'r'] }
    else { seq!['$', 'x', 'o', 'r'] }
}

/// The number of two-operand operators.
pub const DUAL_OP_COUNT: usize = 16;

fn dual_symbol_exec(k: usize) -> (r: Vec<char>)
    ensures
        r@ == dual_symbol(k as int),
{
    let mut r: Vec<char> = Vec::new();
    if k == 0 { push_all(&mut r, &['=', '=']); }
    else if k == 1 { push_all(&mut r, &['!', '=']); }
    else if k == 2 { push_all(&mut r, &['>', '=']); }
    else if k == 3 { push_all(&mut r, &['<', '=']); }
    else if k == 4 { push_all(&mut r, &['>', '>']); }
    else if k == 5 { push_all(&mut r, &['<', '<']); }
    else if k == 6 { push_all(&mut r, &['+']); }
    else if k == 7 { push_all(&mut r, &['-']); }
    else if k == 8 { push_all(&mut r, &['*']); }
    else if k == 9 { push_all(&mut r, &['/']); }
    else if k == 10 { push_all(&mut r, &['%']); }
    else if k == 11 { push_all(&mut r, &['>']); }
    else if k == 12 { push_all(&mut r, &['<']); }
    else if k == 13 { push_all(&mut r, &['&']); }
    else if k == 14 { push_all(&mut r, &['|']); }
    else { push_all(&mut r, &['^']); }
    assert(r@ =~= dual_symbol(k as int));
    r
}

fn dual_name_exec(k: usize) -> (r: Vec<char>)
    ensures
        r@ == dual_name(k as int),
{
    let mut r: Vec<char> = Vec::new();
    if k == 0 { push_all(&mut r, &['$', 'e', 'q']); }
    else if k == 1 { push_all(&mut r, &['$', 'n', 'e', 'q']); }
    else if k == 2 { push_all(&mut r, &['$', 'g', 'e', 'q']); }
    else if k == 3 { push_all(&mut r, &['$', 'l', 'e', 'q']); }
    else if k == 4 { push_all(&mut r, &['$', 'r', 's', 'h']); }
    else if k == 5 { push_all(&mut r, &['$', 'l', 's', 'h']); }
    else if k == 6 { push_all(&mut r, &['$', 'a', 'd', 'd']); }
    else if k == 7 { push_all(&mut r, &['$', 's', 'u', 'b']); }
    else if k == 8 { push_all(&mut r, &['$', 'm', 'u', 'l', 't']); }
    else if k == 9 { push_all(&mut r, &['$', 'd', 'i', 'v']); }
    else if k == 10 { push_all(&mut r, &['$', 'm', 'o', 'd']); }
    else if k == 11 { push_all(&mut r, &['$', 'g']); }
    else if k == 12 { push_all(&mut r, &['$', 'l']); }
    else if k == 13 { push_all(&mut r, &['$', 'a', 'n', 'd']); }
    else if k == 14 { push_all(&mut r, &['$', 'o', 'r']); }
    else { push_all(&mut r, &['$', 'x', 'o', 'r']); }
    assert(r@ =~= dual_name(k as int));
    r
}

/// In a line with `=` that holds operator `k`, the text after the `=` that precedes
/// the last occurrence of the operator becomes a call of the operator's builtin with
/// the text on each side of the operator as operands. `Err` holds the line when no
/// `=` precedes the operator.
pub open spec fn dual_step(c: Seq<char>, closure: bool, k: int) -> Result<Seq<char>, Seq<char>> {
    let sym = dual_symbol(k);
    if !closure && has_char(c, '=') && last_end(c, sym) is Some {
        let p = last_end(c, sym)->Some_0;
        let s = p + 1 - sym.len();
        if s == 0 || last_index(c.subrange(0, s), '=') is None {
            Err(c)
        } else {
            let q = last_index(c.subrange(0, s), '=')->Some_0;
            Ok(c.subrange(0, q + 1) + wrap_call(
                dual_name(k),
                c.subrange(q + 1, s) + seq![','] + c.subrange(p + 1, c.len() as int),
            ))
        }
    } else {
        Ok(c)
    }
}

/// The search for the last occurrence of `sym` finds the one that ends at `p` when no
/// character after `p` is the last character of `sym`.
proof fn lemma_search_finds(c: Seq<char>, sym: Seq<char>, p: int, p0: int)
    requires
        sym.len() > 0,
        0 <= p <= p0 < c.len(),
        occurs_at(c, sym, p + 1 - sym.len()),
        forall|i: int| p < i < c.len() ==> #[trigger] c[i] != sym.last(),
    ensures
        search_end(c, sym, p0) == Some(p),
    decreases p0 - p,
{
    if p0 > p {
        let st = p0 + 1 - sym.len();
        if occurs_at(c, sym, st) {
            assert(c.subrange(st, st + sym.len())[sym.len() - 1] == c[p0]);
        }
        lemma_search_finds(c, sym, p, p0 - 1);
    }
}

/// A two-operand operator between its operands becomes a call of its builtin with the
/// left operand first: `t=a·b` becomes `t=$name(a,b)`, when the left operand holds no
/// `=` and the right one none of the last character of the operator.
pub proof fn law_operator_becomes_call(t: Seq<char>, a: Seq<char>, b: Seq<char>, k: int)
    requires
        0 <= k < DUAL_OP_COUNT,
        forall|i: int| 0 <= i < a.len() ==> #[trigger] a[i] != '=',
        forall|i: int| 0 <= i < b.len() ==> #[trigger] b[i] != dual_symbol(k).last(),
    ensures
        dual_step(t + seq!['='] + a + dual_symbol(k) + b, false, k) == Ok::<Seq<char>, Seq<char>>(
            t + seq!['='] + wrap_call(dual_name(k), a + seq![','] + b),
        ),
{
    let sym = dual_symbol(k);
    let c = t + seq!['='] + a + sym + b;
    let q = t.len() as int;
    let s0 = q + 1 + a.len();
    let p = s0 + sym.len() - 1;
    assert(sym.len() > 0);
    assert(c.subrange(s0, s0 + sym.len()) =~= sym);
    assert forall|i: int| p < i < c.len() implies #[trigger] c[i] != sym.last() by {
        assert(c[i] == b[i - p - 1]);
    }
    lemma_search_finds(c, sym, p, c.len() - 1);
    assert(c[q] == '=');
    assert(has_char(c, '='));
    let pre = c.subrange(0, s0);
    crate::text::lemma_last_index(pre, '=');
    assert(pre[q] == '=');
    assert forall|j: int| q < j < pre.len() implies pre[j] != '=' by {
        assert(pre[j] == a[j - q - 1]);
    }
    assert(last_index(pre, '=') == Some(q));
    assert(c.subrange(0, q + 1) =~= t + seq!['=']);
    assert(c.subrange(q + 1, s0) =~= a);
    assert(c.subrange(p + 1, c.len() as int) =~= b);
}

/// The operators from `k` on applied to `c` in order.
pub open spec fn dual_from(c: Seq<char>, closure: bool, k: int) -> Result<Seq<char>, Seq<char>>
    decreases 16 - k,
{
    if k >= 16 {
        Ok(c)
    } else {
        match dual_step(c, closure, k) {
            Err(e) => Err(e),
            Ok(c2) => dual_from(c2, closure, k + 1),
        }
    }
}

/// Every two-operand operator in a line turned into a call.
pub open spec fn spec_dual_line(l: SpecLine) -> Result<SpecLine, SpecKernelError> {
    match dual_from(l.code, l.starts_closure, 0) {
        Ok(c) => Ok(SpecLine { code: c, ..l }),
        Err(t) => Err((KernelErrorKind::MissingEquals, t)),
    }
}

fn dual_step_exec(c: &Vec<char>, closure: bool, k: usize) -> (r: Result<Vec<char>, KernelError>)
    requires
        k < 16,
    ensures
        match dual_step(c@, closure, k as int) {
            Ok(c2) => r is Ok && r->Ok_0@ == c2,
            Err(t) => r is Err && kerr_view(r->Err_0) == (KernelErrorKind::MissingEquals, t),
        },
{
    let sym = dual_symbol_exec(k);
    let n = c.len();
    if !closure && contains_char(c, '=') {
        match find_last_end(c, &sym) {
            Some(p) => {
                let s = p + 1 - sym.len();
                if s == 0 {
                    return Err(KernelError { kind: KernelErrorKind::MissingEquals, text: slice(c, 0, n) });
                }
                let head = slice(c, 0, s);
                proof {
                    crate::text::lemma_last_index(head@, '=');
                }
                match find_last(&head, '=') {
                    None => {
                        let t = slice(c, 0, n);
                        assert(t@ =~= c@);
                        return Err(KernelError { kind: KernelErrorKind::MissingEquals, text: t });
                    },
                    Some(q) => {
                        let mut code = slice(c, 0, q + 1);
                        let name = dual_name_exec(k);
                        append_chars(&mut code, &name);
                        code.push('(');
                        let left = slice(c, q + 1, s);
                        append_chars(&mut code, &left);
                        code.push(',');
                        let right = slice(c, p + 1, n);
                        append_chars(&mut code, &right);
                        code.push(')');
                        assert(code@ =~= c@.subrange(0, q + 1) + wrap_call(
                            dual_name(k as int),
                            c@.subrange(q + 1, s as int) + seq![','] + c@.subrange(p + 1, n as int),
                        ));
                        return Ok(code);
                    },
                }
            },
            None => {},
        }
    }
    let r = slice(c, 0, n);
    assert(r@ =~= c@);
    Ok(r)
}

fn dual_line_exec(l: &CodeLine) -> (r: Result<CodeLine, KernelError>)
    ensures
        match spec_dual_line(l@) {
            Ok(nl) => r is Ok && r->Ok_0@ == nl,
            Err(e) => r is Err && kerr_view(r->Err_0) == e,
        },
{
    let mut c = slice(&l.code, 0, l.code.len());
    assert(c@ =~= l.code@);
    let mut k: usize = 0;
    while k < DUAL_OP_COUNT
        invariant
            k <= 16,
            dual_from(l.code@, l.starts_closure, 0) == dual_from(c@, l.starts_closure, k as int),
        decreases 16 - k,
    {
        let c2 = dual_step_exec(&c, l.starts_closure, k)?;
        c = c2;
        k = k + 1;
    }
    Ok(CodeLine { code: c, depth: l.depth, starts_closure: l.starts_closure })
}

/// `spec_dual_line` as a function value.
pub open spec fn dual_fn() -> spec_fn(SpecLine) -> Result<SpecLine, SpecKernelError> {
    |l: SpecLine| spec_dual_line(l)
}

/// Turns the two-operand operators into calls of their builtins.
pub fn dual_operations(lines: &mut Vec<CodeLine>) -> (r: Result<(), KernelError>)
    ensures
        pass_result(r, lines_view(final(lines)@), map_lines(lines_view(old(lines)@), dual_fn())),
{
    let ghost old_v = lines_view(lines@);
    let ghost f = dual_fn();
    let mut i: usize = 0;
    assert(old_v.subrange(0, 0) =~= Seq::<SpecLine>::empty());
    assert(lines_view(lines@).subrange(0, 0) =~= Seq::<SpecLine>::empty());
    while i < lines.len()
        invariant
            old_v == lines_view(old(lines)@),
            lines@.len() == old_v.len(),
            i <= old_v.len(),
            f == dual_fn(),
            map_lines(old_v.subrange(0, i as int), f) == Ok::<Seq<SpecLine>, SpecKernelError>(
                lines_view(lines@).subrange(0, i as int),
            ),
            forall|k: int| i <= k < old_v.len() ==> #[trigger] lines@[k]@ == old_v[k],
        decreases old_v.len() - i,
    {
        assert(lines@[i as int]@ == old_v[i as int]);
        match dual_line_exec(&lines[i]) {
            Ok(nl) => {
                proof {
                    lemma_map_lines_step(old_v, f, i as int, lines_view(lines@).subrange(0, i as int));
                }
                let ghost before = lines_view(lines@).subrange(0, i as int);
                lines.set(i, nl);
                assert(lines_view(lines@).subrange(0, i + 1) =~= before.push(nl@));
            },
            Err(e) => {
                proof {
                    lemma_map_lines_err(old_v, f, i as int);
                }
                return Err(e);
            },
        }
        i = i + 1;
    }
    assert(old_v.subrange(0, old_v.len() as int) =~= old_v);
    assert(lines_view(lines@).subrange(0, old_v.len() as int) =~= lines_view(lines@));
    Ok(())
}

/// A line that opens an `else` block.
pub open spec fn is_else_line(l: SpecLine) -> bool {
    l.starts_closure && has_prefix(l.code, seq!['e', 'l', 's', 'e'])
}

/// The line `l` at depth `d`.
fn at_depth(l: &CodeLine, d: u8) -> (r: CodeLine)
    ensures
        r@ == (SpecLine { depth: d, ..l@ }),
{
    let code = slice(&l.code, 0, l.code.len());
    assert(code@ =~= l.code@);
    CodeLine { code, depth: d, starts_closure: l.starts_closure }
}

/// Moves one level deeper the lines from `j` on that are at depth `d` or deeper, or
/// that open an `else` at depth `base`, up to the first line that is neither.
pub open spec fn shift_from(ls: Seq<SpecLine>, base: u8, d: int, j: int) -> Result<Seq<SpecLine>, SpecKernelError>
    decreases ls.len() - j,
{
    if 0 <= j < ls.len() && (ls[j].depth >= d || (ls[j].depth == base && is_else_line(ls[j]))) {
        if ls[j].depth == 255 {
            Err((KernelErrorKind::TooDeep, ls[j].code))
        } else {
            shift_from(ls.update(j, SpecLine { depth: (ls[j].depth + 1) as u8, ..ls[j] }), base, d, j + 1)
        }
    } else {
        Ok(ls)
    }
}

/// The lines before `i`, from the last to the first, with each `elseif c` turned into
/// an `else` that holds `if c`.
pub open spec fn else_if_from(ls: Seq<SpecLine>, i: int) -> Result<Seq<SpecLine>, SpecKernelError>
    decreases i,
{
    if i <= 0 || i > ls.len() {
        Ok(ls)
    } else {
        let k = i - 1;
        let l = ls[k];
        if l.starts_closure && has_prefix(l.code, seq!['e', 'l', 's', 'e', 'i', 'f']) {
            if l.depth == 255 {
                Err((KernelErrorKind::TooDeep, l.code))
            } else {
                let d = (l.depth + 1) as u8;
                let inner = SpecLine { code: l.code.subrange(4, l.code.len() as int), depth: d, starts_closure: true };
                let ls2 = ls.insert(k + 1, inner).update(k, SpecLine { code: seq!['e', 'l', 's', 'e'], ..l });
                match shift_from(ls2, l.depth, d as int, k + 2) {
                    Err(e) => Err(e),
                    Ok(ls3) => else_if_from(ls3, k),
                }
            }
        } else {
            else_if_from(ls, k)
        }
    }
}

/// A line that opens an `elseif` block.
pub open spec fn is_elseif_line(l: SpecLine) -> bool {
    l.starts_closure && has_prefix(l.code, seq!['e', 'l', 's', 'e', 'i', 'f'])
}

/// Shifting keeps the number of lines and the lines before `j`.
proof fn lemma_shift_keeps_before(ls: Seq<SpecLine>, base: u8, d: int, j: int)
    requires
        0 <= j,
        shift_from(ls, base, d, j) is Ok,
    ensures
        shift_from(ls, base, d, j)->Ok_0.len() == ls.len(),
        forall|m: int| 0 <= m < j ==> #[trigger] shift_from(ls, base, d, j)->Ok_0[m] == ls[m],
    decreases ls.len() - j,
{
    if 0 <= j < ls.len() && (ls[j].depth >= d || (ls[j].depth == base && is_else_line(ls[j]))) {
        let ls2 = ls.update(j, SpecLine { depth: (ls[j].depth + 1) as u8, ..ls[j] });
        lemma_shift_keeps_before(ls2, base, d, j + 1);
    }
}

/// Shifting from `j` moves one level deeper the lines from `j` that are at depth `d` or
/// deeper, and then the `else` at depth `base` that follows them.
proof fn lemma_shift_block_and_else(ls: Seq<SpecLine>, base: u8, d: int, j: int, e: int)
    requires
        0 <= j <= e < ls.len(),
        forall|m: int| j <= m < e ==> #[trigger] ls[m].depth >= d,
        is_else_line(ls[e]),
        ls[e].depth == base,
        shift_from(ls, base, d, j) is Ok,
    ensures
        forall|m: int| j <= m < e ==> #[trigger] shift_from(ls, base, d, j)->Ok_0[m] == (SpecLine {
            depth: (ls[m].depth + 1) as u8,
            ..ls[m]
        }),
        shift_from(ls, base, d, j)->Ok_0[e] == (SpecLine { depth: (base + 1) as u8, ..ls[e] }),
    decreases e - j,
{
    let ls2 = ls.update(j, SpecLine { depth: (ls[j].depth + 1) as u8, ..ls[j] });
    assert(ls[j].depth >= d || (ls[j].depth == base && is_else_line(ls[j])));
    if j < e {
        assert forall|m: int| j + 1 <= m < e implies #[trigger] ls2[m].depth >= d by {
            assert(ls2[m] == ls[m]);
        }
        lemma_shift_block_and_else(ls2, base, d, j + 1, e);
        lemma_shift_keeps_before(ls2, base, d, j + 1);
        assert forall|m: int| j <= m < e implies #[trigger] shift_from(ls, base, d, j)->Ok_0[m] == (SpecLine {
            depth: (ls[m].depth + 1) as u8,
            ..ls[m]
        }) by {
            if m > j {
                assert(ls2[m] == ls[m]);
            }
        }
    } else {
        lemma_shift_keeps_before(ls2, base, d, j + 1);
    }
}

/// Turning `elseif`s into `else` blocks before `i` changes nothing when no line before
/// `i` opens an `elseif`.
proof fn lemma_else_if_none(ls: Seq<SpecLine>, i: int)
    requires
        0 <= i <= ls.len(),
        forall|m: int| 0 <= m < i ==> !#[trigger] is_elseif_line(ls[m]),
    ensures
        else_if_from(ls, i) == Ok::<Seq<SpecLine>, SpecKernelError>(ls),
    decreases i,
{
    if i > 0 {
        assert(!is_elseif_line(ls[i - 1]));
        lemma_else_if_none(ls, i - 1);
    }
}

/// The lines from `k + 1` to `i` that open no `elseif` are passed over.
proof fn lemma_else_if_skip(ls: Seq<SpecLine>, i: int, k: int)
    requires
        0 <= k < i <= ls.len(),
        forall|m: int| k < m < i ==> !#[trigger] is_elseif_line(ls[m]),
    ensures
        else_if_from(ls, i) == else_if_from(ls, k + 1),
    decreases i,
{
    if i > k + 1 {
        assert(!is_elseif_line(ls[i - 1]));
        lemma_else_if_skip(ls, i - 1, k);
    }
}

/// In a chain `if(a){..}elseif(b){..}else{..}`, the `else` that ends the chain becomes
/// the own `else` of the inner `if(b)`: the `elseif` becomes an `else` at its depth
/// followed by `if(b)` one level deeper, the lines of its block and the closing `else`
/// move one level deeper, so that the closing `else` stands at the depth of `if(b)`,
/// right after its block.
pub proof fn law_elseif_chain_else_moves_in(ls: Seq<SpecLine>, k: int, e: int)
    requires
        0 <= k < e < ls.len(),
        is_elseif_line(ls[k]),
        forall|m: int| k < m < e ==> #[trigger] ls[m].depth > ls[k].depth,
        is_else_line(ls[e]),
        ls[e].depth == ls[k].depth,
        forall|m: int| 0 <= m < ls.len() && m != k ==> !#[trigger] is_elseif_line(ls[m]),
        else_if_from(ls, ls.len() as int) is Ok,
    ensures
        ({
            let r = else_if_from(ls, ls.len() as int)->Ok_0;
            let b = ls[k].depth;
            &&& r.len() == ls.len() + 1
            &&& r[k] == SpecLine { code: seq!['e', 'l', 's', 'e'], depth: b, starts_closure: true }
            &&& r[k + 1] == SpecLine {
                code: ls[k].code.subrange(4, ls[k].code.len() as int),
                depth: (b + 1) as u8,
                starts_closure: true,
            }
            &&& forall|m: int| k < m < e ==> #[trigger] r[m + 1] == (SpecLine {
                depth: (ls[m].depth + 1) as u8,
                ..ls[m]
            })
            &&& r[e + 1] == SpecLine { depth: (b + 1) as u8, ..ls[e] }
        }),
{
    lemma_else_if_skip(ls, ls.len() as int, k);
    let l = ls[k];
    let b = l.depth;
    let d = (b + 1) as u8;
    let inner = SpecLine { code: l.code.subrange(4, l.code.len() as int), depth: d, starts_closure: true };
    let ls2 = ls.insert(k + 1, inner).update(k, SpecLine { code: seq!['e', 'l', 's', 'e'], ..l });
    assert(b < 255);
    let sh = shift_from(ls2, b, d as int, k + 2);
    assert(sh is Ok);
    let ls3 = sh->Ok_0;
    assert forall|m: int| k + 2 <= m < e + 1 implies #[trigger] ls2[m].depth >= d by {
        assert(ls2[m] == ls[m - 1]);
    }
    assert(ls2[e + 1] == ls[e]);
    lemma_shift_block_and_else(ls2, b, d as int, k + 2, e + 1);
    lemma_shift_keeps_before(ls2, b, d as int, k + 2);
    assert forall|m: int| 0 <= m < k implies !#[trigger] is_elseif_line(ls3[m]) by {
        assert(ls3[m] == ls2[m]);
        assert(ls2[m] == ls[m]);
    }
    lemma_else_if_none(ls3, k);
    assert(else_if_from(ls, k + 1) == else_if_from(ls3, k));
    assert forall|m: int| k < m < e implies #[trigger] ls3[m + 1] == (SpecLine {
        depth: (ls[m].depth + 1) as u8,
        ..ls[m]
    }) by {
        assert(ls2[m + 1] == ls[m]);
    }
}

/// Turns every `elseif` into an `else` block that holds an `if` block.
pub fn else_if(lines: &mut Vec<CodeLine>) -> (r: Result<(), KernelError>)
    ensures
        pass_result(r, lines_view(final(lines)@), else_if_from(lines_view(old(lines)@), old(lines)@.len() as int)),
{
    let mut i: usize = lines.len();
    while i > 0
        invariant
            i <= lines@.len(),
            else_if_from(lines_view(old(lines)@), old(lines)@.len() as int) == else_if_from(
                lines_view(lines@),
                i as int,
            ),
        decreases i,
    {
        let k = i - 1;
        let ghost before = lines_view(lines@);
        assert(before[k as int] == lines@[k as int]@);
        if lines[k].starts_closure && starts_with(&lines[k].code, &['e', 'l', 's', 'e', 'i', 'f']) {
            let base = lines[k].depth;
            if base == 255 {
                let t = slice(&lines[k].code, 0, lines[k].code.len());
                assert(t@ =~= lines@[k as int].code@);
                return Err(KernelError { kind: KernelErrorKind::TooDeep, text: t });
            }
            let d = base + 1;
            let inner_code = slice(&lines[k].code, 4, lines[k].code.len());
            let inner = CodeLine { code: inner_code, depth: d, starts_closure: true };
            lines.insert(k + 1, inner);
            let mut else_code: Vec<char> = Vec::new();
            push_all(&mut else_code, &['e', 'l', 's', 'e']);
            lines.set(k, CodeLine { code: else_code, depth: base, starts_closure: true });
            let ghost ls2 = lines_view(lines@);
            assert(ls2 =~= before.insert(k + 1, inner@).update(
                k as int,
                SpecLine { code: seq!['e', 'l', 's', 'e'], ..before[k as int] },
            ));
            let n = lines.len();
            assert(k + 2 <= n);
            let mut j = k + 2;
            while j < lines.len() && (lines[j].depth >= d || (lines[j].depth == base
                && starts_with(&lines[j].code, &['e', 'l', 's', 'e']) && lines[j].starts_closure))
                invariant
                    else_if_from(lines_view(old(lines)@), old(lines)@.len() as int) == else_if_from(before, i as int),
                    k == i - 1,
                    0 < i <= before.len(),
                    before[k as int].starts_closure,
                    has_prefix(before[k as int].code, seq!['e', 'l', 's', 'e', 'i', 'f']),
                    before[k as int].depth == base,
                    base < 255,
                    d == base + 1,
                    ls2 == before.insert(k + 1, inner@).update(
                        k as int,
                        SpecLine { code: seq!['e', 'l', 's', 'e'], ..before[k as int] },
                    ),
                    inner@ == (SpecLine { code: before[k as int].code.subrange(4, before[k as int].code.len() as int), depth: d, starts_closure: true }),
                    k + 2 <= j,
                    lines@.len() == ls2.len(),
                    k < lines@.len(),
                    shift_from(ls2, base, d as int, k + 2) == shift_from(lines_view(lines@), base, d as int, j as int),
                    forall|m: int| 0 <= m <= k ==> lines_view(lines@)[m] == ls2[m],
                decreases lines@.len() - j,
            {
                assert(lines_view(lines@)[j as int] == lines@[j as int]@);
                let dj = lines[j].depth;
                if dj == 255 {
                    let t = slice(&lines[j].code, 0, lines[j].code.len());
                    assert(t@ =~= lines@[j as int].code@);
                    return Err(KernelError { kind: KernelErrorKind::TooDeep, text: t });
                }
                let moved = at_depth(&lines[j], dj + 1);
                let ghost lv = lines_view(lines@);
                lines.set(j, moved);
                assert(lines_view(lines@) =~= lv.update(j as int, SpecLine { depth: (dj + 1) as u8, ..lv[j as int] }));
                j = j + 1;
            }
        }
        i = k;
    }
    Ok(())
}

/// The first index from `j` on of a line shallower than `d1`, or the number of lines.
pub open spec fn block_end_from(ls: Seq<SpecLine>, d1: int, j: int) -> int
    decreases ls.len() - j,
{
    if 0 <= j < ls.len() && ls[j].depth >= d1 {
        block_end_from(ls, d1, j + 1)
    } else {
        j
    }
}

/// The lines before `i`, from the last to the first, with an empty `else` block added
/// after every `if` block whose block is not followed by an `else` at the `if`'s own
/// depth (at the end of the code when the block ends it).
pub open spec fn missing_else_from(ls: Seq<SpecLine>, i: int) -> Result<Seq<SpecLine>, SpecKernelError>
    decreases i,
{
    if i <= 0 || i > ls.len() {
        Ok(ls)
    } else {
        let k = i - 1;
        let l = ls[k];
        if l.starts_closure && has_prefix(l.code, seq!['i', 'f']) {
            if l.depth == 255 {
                Err((KernelErrorKind::TooDeep, l.code))
            } else {
                let j = block_end_from(ls, l.depth + 1, k + 1);
                if j < ls.len() && is_else_line(ls[j]) && ls[j].depth == l.depth {
                    missing_else_from(ls, k)
                } else {
                    missing_else_from(
                        ls.insert(j, SpecLine { code: seq!['e', 'l', 's', 'e'], depth: l.depth, starts_closure: true }),
                        k,
                    )
                }
            }
        } else {
            missing_else_from(ls, k)
        }
    }
}

/// The end of a block is at or after its start.
pub proof fn lemma_block_end_bounds(ls: Seq<SpecLine>, d1: int, j: int)
    requires
        0 <= j,
    ensures
        j <= block_end_from(ls, d1, j),
        j <= ls.len() ==> block_end_from(ls, d1, j) <= ls.len(),
    decreases ls.len() - j,
{
    if 0 <= j < ls.len() && ls[j].depth >= d1 {
        lemma_block_end_bounds(ls, d1, j + 1);
    }
}

/// A line that opens an `if` block.
pub open spec fn is_if_line(l: SpecLine) -> bool {
    l.starts_closure && has_prefix(l.code, seq!['i', 'f'])
}

/// The `if` at line `k` has its own `else`: the first line after its block is an `else`
/// at the `if`'s depth.
pub open spec fn own_else(ls: Seq<SpecLine>, k: int) -> bool {
    let j = block_end_from(ls, ls[k].depth + 1, k + 1);
    j < ls.len() && is_else_line(ls[j]) && ls[j].depth == ls[k].depth
}

/// Every `if` from line `i` on has its own `else`.
pub open spec fn ifs_closed_from(ls: Seq<SpecLine>, i: int) -> bool {
    forall|m: int| i <= m < ls.len() && #[trigger] is_if_line(ls[m]) ==> own_else(ls, m)
}

/// The lines of a block lie at its depth or deeper, and the line after it does not.
proof fn lemma_block_end_props(ls: Seq<SpecLine>, d1: int, j: int)
    requires
        0 <= j <= ls.len(),
    ensures
        j <= block_end_from(ls, d1, j) <= ls.len(),
        forall|t: int| j <= t < block_end_from(ls, d1, j) ==> #[trigger] ls[t].depth >= d1,
        block_end_from(ls, d1, j) < ls.len() ==> ls[block_end_from(ls, d1, j)].depth < d1,
    decreases ls.len() - j,
{
    if j < ls.len() && ls[j].depth >= d1 {
        lemma_block_end_props(ls, d1, j + 1);
    }
}

/// A block ends at the first line from `j` on that is shallower than `d1`.
proof fn lemma_block_end_unique(ls: Seq<SpecLine>, d1: int, j: int, e: int)
    requires
        0 <= j <= e <= ls.len(),
        forall|t: int| j <= t < e ==> #[trigger] ls[t].depth >= d1,
        e < ls.len() ==> ls[e].depth < d1,
    ensures
        block_end_from(ls, d1, j) == e,
    decreases e - j,
{
    if j < e {
        lemma_block_end_unique(ls, d1, j + 1, e);
    }
}

/// The `else` added after an `if` block closes that `if`, and leaves every later `if`
/// with its own `else`.
proof fn lemma_insert_else_closes(ls: Seq<SpecLine>, k: int)
    requires
        0 <= k < ls.len(),
        is_if_line(ls[k]),
        ls[k].depth < 255,
        ifs_closed_from(ls, k + 1),
    ensures
        ({
            let d = ls[k].depth;
            let j = block_end_from(ls, d + 1, k + 1);
            let ls2 = ls.insert(j, SpecLine { code: seq!['e', 'l', 's', 'e'], depth: d, starts_closure: true });
            ifs_closed_from(ls2, k)
        }),
{
    let d = ls[k].depth;
    lemma_block_end_props(ls, d + 1, k + 1);
    let j = block_end_from(ls, d + 1, k + 1);
    let el = SpecLine { code: seq!['e', 'l', 's', 'e'], depth: d, starts_closure: true };
    let ls2 = ls.insert(j, el);
    assert(ls2[j] == el);
    assert(el.code.subrange(0, 4) =~= seq!['e', 'l', 's', 'e']);
    assert(is_else_line(el));
    assert(!is_if_line(el)) by {
        assert(el.code.subrange(0, 2) !~= seq!['i', 'f']) by {
            assert(el.code.subrange(0, 2)[0] == 'e');
        }
    }
    assert forall|m: int| k <= m < ls2.len() && #[trigger] is_if_line(ls2[m]) implies own_else(ls2, m) by {
        if m == k {
            assert forall|t: int| k + 1 <= t < j implies #[trigger] ls2[t].depth >= d + 1 by {
                assert(ls2[t] == ls[t]);
            }
            lemma_block_end_unique(ls2, d + 1, k + 1, j);
        } else if m < j {
            assert(ls2[m] == ls[m]);
            assert(ls[m].depth >= d + 1);
            let dm = ls[m].depth;
            assert(own_else(ls, m));
            lemma_block_end_props(ls, dm + 1, m + 1);
            let e = block_end_from(ls, dm + 1, m + 1);
            if j < ls.len() {
                lemma_block_end_unique(ls, dm + 1, m + 1, if e <= j { e } else { j });
            }
            assert(e < j);
            assert forall|t: int| m + 1 <= t < e implies #[trigger] ls2[t].depth >= dm + 1 by {
                assert(ls2[t] == ls[t]);
            }
            assert(ls2[e] == ls[e]);
            lemma_block_end_unique(ls2, dm + 1, m + 1, e);
        } else {
            assert(m > j);
            assert(ls2[m] == ls[m - 1]);
            let dm = ls[m - 1].depth;
            assert(own_else(ls, m - 1));
            lemma_block_end_props(ls, dm + 1, m);
            let e = block_end_from(ls, dm + 1, m);
            assert forall|t: int| m + 1 <= t < e + 1 implies #[trigger] ls2[t].depth >= dm + 1 by {
                assert(ls2[t] == ls[t - 1]);
            }
            assert(ls2[e + 1] == ls[e]);
            lemma_block_end_unique(ls2, dm + 1, m + 1, e + 1);
        }
    }
}

/// What the pass gives from line `i` down keeps every `if` with its own `else`.
proof fn lemma_missing_else_closes(ls: Seq<SpecLine>, i: int)
    requires
        0 <= i <= ls.len(),
        ifs_closed_from(ls, i),
    ensures
        missing_else_from(ls, i) is Ok ==> ifs_closed_from(missing_else_from(ls, i)->Ok_0, 0),
    decreases i,
{
    if i > 0 {
        let k = i - 1;
        let l = ls[k];
        if l.starts_closure && has_prefix(l.code, seq!['i', 'f']) {
            if l.depth < 255 {
                let j = block_end_from(ls, l.depth + 1, k + 1);
                if j < ls.len() && is_else_line(ls[j]) && ls[j].depth == l.depth {
                    assert(own_else(ls, k));
                    assert(ifs_closed_from(ls, k));
                    lemma_missing_else_closes(ls, k);
                } else {
                    lemma_insert_else_closes(ls, k);
                    lemma_block_end_props(ls, l.depth + 1, k + 1);
                    lemma_missing_else_closes(
                        ls.insert(j, SpecLine { code: seq!['e', 'l', 's', 'e'], depth: l.depth, starts_closure: true }),
                        k,
                    );
                }
            }
        } else {
            assert(ifs_closed_from(ls, k));
            lemma_missing_else_closes(ls, k);
        }
    }
}

/// After `missing_else`, every `if` block is followed by an `else` block of its own, at
/// the `if`'s depth: the kernel form `if <v> { <s> } else { <s> }`.
pub proof fn law_missing_else_closes_every_if(ls: Seq<SpecLine>)
    ensures
        missing_else_from(ls, ls.len() as int) is Ok ==> ifs_closed_from(missing_else_from(ls, ls.len() as int)->Ok_0, 0),
{
    lemma_missing_else_closes(ls, ls.len() as int);
}

/// Adds an empty `else` block, at the `if`'s depth, after every `if` block that has no
/// `else` of its own.
pub fn missing_else(lines: &mut Vec<CodeLine>) -> (r: Result<(), KernelError>)
    ensures
        pass_result(r, lines_view(final(lines)@), missing_else_from(lines_view(old(lines)@), old(lines)@.len() as int)),
{
    let mut i: usize = lines.len();
    while i > 0
        invariant
            i <= lines@.len(),
            missing_else_from(lines_view(old(lines)@), old(lines)@.len() as int) == missing_else_from(
                lines_view(lines@),
                i as int,
            ),
        decreases i,
    {
        let k = i - 1;
        let ghost before = lines_view(lines@);
        assert(before[k as int] == lines@[k as int]@);
        if lines[k].starts_closure && starts_with(&lines[k].code, &['i', 'f']) {
            let base = lines[k].depth;
            if base == 255 {
                let t = slice(&lines[k].code, 0, lines[k].code.len());
                assert(t@ =~= lines@[k as int].code@);
                return Err(KernelError { kind: KernelErrorKind::TooDeep, text: t });
            }
            let mut j = k + 1;
            while j < lines.len() && lines[j].depth >= base + 1
                invariant
                    k + 1 <= j <= lines@.len(),
                    lines_view(lines@) == before,
                    base < 255,
                    block_end_from(before, base + 1, k + 1) == block_end_from(before, base + 1, j as int),
                decreases lines@.len() - j,
            {
                assert(before[j as int] == lines@[j as int]@);
                j = j + 1;
            }
            assert(j >= lines@.len() || before[j as int] == lines@[j as int]@);
            let has_own_else = j < lines.len() && lines[j].depth == base && lines[j].starts_closure && starts_with(
                &lines[j].code,
                &['e', 'l', 's', 'e'],
            );
            if !has_own_else {
                let mut else_code: Vec<char> = Vec::new();
                push_all(&mut else_code, &['e', 'l', 's', 'e']);
                let l = CodeLine { code: else_code, depth: base, starts_closure: true };
                lines.insert(j, l);
                assert(lines_view(lines@) =~= before.insert(j as int, l@));
            }
        }
        i = k;
    }
    Ok(())
}

/// Four spaces for each of `n` levels.
pub open spec fn indent(n: nat) -> Seq<char> {
    Seq::new(4 * n, |i: int| ' ')
}

/// The lines `}` that close the blocks from depth `open` down to depth `target`, each
/// indented to its depth.
pub open spec fn closers(open: int, target: int) -> Seq<char>
    decreases open - target,
{
    if open <= target {
        Seq::empty()
    } else {
        indent((open - 1) as nat) + seq!['}', '\n'] + closers(open - 1, target)
    }
}

/// The text that formatting the lines produces before the final closing braces, the
/// depth of the last line, and whether it opens a block.
pub open spec fn format_state(ls: Seq<SpecLine>) -> (Seq<char>, int, bool)
    decreases ls.len(),
{
    if ls.len() == 0 {
        (Seq::empty(), 0, false)
    } else {
        let (res, d, st) = format_state(ls.drop_last());
        let l = ls.last();
        let open = d + if st { 1int } else { 0int };
        let res2 = if (l.depth as int) < open {
            res + closers(open, l.depth as int)
        } else {
            res
        };
        (
            res2 + indent(l.depth as nat) + l.code + seq![if l.starts_closure { '{' } else { ';' }, '\n'],
            l.depth as int,
            l.starts_closure,
        )
    }
}

/// The kernel code as indented text with braces and semicolons.
pub open spec fn spec_format_kernel(ls: Seq<SpecLine>) -> Seq<char> {
    let (res, d, st) = format_state(ls);
    res + closers(d + if st { 1int } else { 0int }, 0)
}

/// The closing lines come one level at a time.
pub proof fn lemma_closers_split(open: int, t: int)
    requires
        t < open,
    ensures
        closers(open, t) == closers(open, t + 1) + indent(t as nat) + seq!['}', '\n'],
    decreases open - t,
{
    if t + 1 < open {
        lemma_closers_split(open - 1, t);
        let a = indent((open - 1) as nat) + seq!['}', '\n'];
        assert(closers(open, t) == a + closers(open - 1, t));
        assert(closers(open, t + 1) == a + closers(open - 1, t + 1));
        let b = indent(t as nat) + seq!['}', '\n'];
        assert((a + closers(open - 1, t + 1)) + b =~= a + (closers(open - 1, t + 1) + b));
    } else {
        assert(closers(open - 1, t) == Seq::<char>::empty());
        assert(closers(open, t + 1) == Seq::<char>::empty());
        assert(closers(open, t) =~= closers(open, t + 1) + indent(t as nat) + seq!['}', '\n']);
    }
}

fn push_indent(out: &mut Vec<char>, n: u8)
    ensures
        final(out)@ == old(out)@ + indent(n as nat),
{
    let mut k: usize = 0;
    let total: usize = 4 * (n as usize);
    while k < total
        invariant
            k <= total,
            total == 4 * n,
            out@ == old(out)@ + Seq::new(k as nat, |i: int| ' '),
        decreases total - k,
    {
        out.push(' ');
        k = k + 1;
        assert(out@ =~= old(out)@ + Seq::new(k as nat, |i: int| ' '));
    }
}

fn push_closers(out: &mut Vec<char>, open: u8, target: u8)
    ensures
        final(out)@ == old(out)@ + closers(open as int, target as int),
{
    if open <= target {
        return;
    }
    let mut t: u8 = open;
    while t > target
        invariant
            target <= t <= open,
            out@ == old(out)@ + closers(open as int, t as int),
        decreases t,
    {
        proof {
            lemma_closers_split(open as int, (t - 1) as int);
        }
        push_indent(out, t - 1);
        out.push('}');
        out.push('\n');
        t = t - 1;
        assert(out@ =~= old(out)@ + closers(open as int, t as int));
    }
}

/// No line that opens a block is at the deepest depth a line can have.
pub open spec fn closures_below_limit(ls: Seq<SpecLine>) -> bool {
    forall|k: int| 0 <= k < ls.len() && (#[trigger] ls[k]).starts_closure ==> ls[k].depth < 255
}

/// The kernel code as indented text with braces and semicolons.
pub fn format_kernel(lines: &Vec<CodeLine>) -> (r: String)
    requires
        closures_below_limit(lines_view(lines@)),
    ensures
        r@ == spec_format_kernel(lines_view(lines@)),
{
    let ghost v = lines_view(lines@);
    let mut result: Vec<char> = Vec::new();
    let mut depth: u8 = 0;
    let mut started_closure = false;
    let mut i: usize = 0;
    while i < lines.len()
        invariant
            v == lines_view(lines@),
            closures_below_limit(v),
            i <= v.len(),
            format_state(v.subrange(0, i as int)) == (result@, depth as int, started_closure),
            started_closure ==> depth < 255,
        decreases v.len() - i,
    {
        assert(v.subrange(0, i + 1).drop_last() =~= v.subrange(0, i as int));
        assert(v[i as int] == lines@[i as int]@);
        let line = &lines[i];
        let open: u8 = if started_closure { depth + 1 } else { depth };
        if line.depth < open {
            push_closers(&mut result, open, line.depth);
        }
        depth = line.depth;
        push_indent(&mut result, depth);
        append_chars(&mut result, &line.code);
        if line.starts_closure {
            result.push('{');
            started_closure = true;
        } else {
            result.push(';');
            started_closure = false;
        }
        result.push('\n');
        i = i + 1;
    }
    assert(v.subrange(0, v.len() as int) =~= v);
    let open: u8 = if started_closure { depth + 1 } else { depth };
    push_closers(&mut result, open, 0);
    crate::text::string_from_chars(&result)
}

} // verus!
