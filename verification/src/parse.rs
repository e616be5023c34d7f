use vstd::prelude::*;

use crate::builtin::{arg_count, binary_value, spec_arg_count, Builtin};
use crate::sigma::RuntimeError;
use crate::kerneler::{block_end_from, dual_name, dual_symbol, is_else_line, lines_view, CodeLine, SpecLine, DUAL_OP_COUNT};
use crate::syntax_tree::{
    err_view, name_index, names_view, position_of, spec_value, value_result_view, Instruction, ParseError,
    ParseErrorKind, Procedure, SpecInstruction, SpecProcedure, Value,
};
use crate::interpreter::tree_view;
use crate::define::{address_text, decimal, digit};
use crate::text::{
    all_digits, before_char, digits_value, find_char, first_index, has_char, has_prefix, is_digit, lemma_first_index,
    lemma_split_extends, no_separators, prefix_before, push_all, slice, spec_parse_u8, split_char, split_on, split_top,
    split_top_level, split_top_state, starts_with, texts_view,
};

verus! {

/// How many builtins every program has.
pub const BUILTIN_COUNT: usize = 19;

/// The builtin at position `k` of the procedure table.
pub open spec fn builtin_at(k: int) -> Builtin {
    if k == 0 {
        Builtin::Write
    } else if k == 1 {
        Builtin::Add
    } else if k == 2 {
        Builtin::Sub
    } else if k == 3 {
        Builtin::Mult
    } else if k == 4 {
        Builtin::Div
    } else if k == 5 {
        Builtin::Modulo
    } else if k == 6 {
        Builtin::Eq
    } else if k == 7 {
        Builtin::Neq
    } else if k == 8 {
        Builtin::G
    } else if k == 9 {
        Builtin::L
    } else if k == 10 {
        Builtin::Geq
    } else if k == 11 {
        Builtin::Leq
    } else if k == 12 {
        Builtin::And
    } else if k == 13 {
        Builtin::Or
    } else if k == 14 {
        Builtin::Xor
    } else if k == 15 {
        Builtin::Rsh
    } else if k == 16 {
        Builtin::Lsh
    } else if k == 17 {
        Builtin::Bonot
    } else {
        Builtin::Binot
    }
}

/// The name by which programs call a builtin.
pub open spec fn builtin_name(op: Builtin) -> Seq<char> {
    match op {
        Builtin::Write => seq!['$', 'w', 'r', 'i', 't', 'e'],
        Builtin::Add => seq!['$', 'a', 'd', 'd'],
        Builtin::Sub => seq!['$', 's', 'u', 'b'],
        Builtin::Mult => seq!['$', 'm', 'u', 'l', 't'],
        Builtin::Div => seq!['$', 'd', 'i', 'v'],
        Builtin::Modulo => seq!['$', 'm', 'o', 'd'],
        Builtin::Eq => seq!['$', 'e', 'q'],
        Builtin::Neq => seq!['$', 'n', 'e', 'q'],
        Builtin::G => seq!['$', 'g'],
        Builtin::L => seq!['$', 'l'],
        Builtin::Geq => seq!['$', 'g', 'e', 'q'],
        Builtin::Leq => seq!['$', 'l', 'e', 'q'],
        Builtin::And => seq!['$', 'a', 'n', 'd'],
        Builtin::Or => seq!['$', 'o', 'r'],
        Builtin::Xor => seq!['$', 'x', 'o', 'r'],
        Builtin::Rsh => seq!['$', 'r', 's', 'h'],
        Builtin::Lsh => seq!['$', 'l', 's', 'h'],
        Builtin::Bonot => seq!['$', 'b', 'o', 'n', 'o', 't'],
        Builtin::Binot => seq!['$', 'b', 'i', 'n', 'o', 't'],
    }
}

/// What the two-operand operator written `sym` computes on the bytes `a` and `b`, as
/// bytes do: sums, differences and products wrap around, comparisons give `1` or `0`,
/// and division or remainder by zero and shifts by eight or more fail.
pub open spec fn operator_value(sym: Seq<char>, a: u8, b: u8) -> Result<u8, RuntimeError> {
    let one = sym.len() == 1;
    let two = sym.len() == 2;
    if one && sym[0] == '+' {
        Ok(((a as int + b as int) % 256) as u8)
    } else if one && sym[0] == '-' {
        Ok(((a as int - b as int + 256) % 256) as u8)
    } else if one && sym[0] == '*' {
        Ok(((a as int * b as int) % 256) as u8)
    } else if one && sym[0] == '/' {
        if b == 0 { Err(RuntimeError::DivisionByZero) } else { Ok((a as int / b as int) as u8) }
    } else if one && sym[0] == '%' {
        if b == 0 { Err(RuntimeError::DivisionByZero) } else { Ok((a as int % b as int) as u8) }
    } else if two && sym[0] == '=' && sym[1] == '=' {
        Ok(if a == b { 1u8 } else { 0u8 })
    } else if two && sym[0] == '!' && sym[1] == '=' {
        Ok(if a != b { 1u8 } else { 0u8 })
    } else if two && sym[0] == '>' && sym[1] == '=' {
        Ok(if a >= b { 1u8 } else { 0u8 })
    } else if two && sym[0] == '<' && sym[1] == '=' {
        Ok(if a <= b { 1u8 } else { 0u8 })
    } else if one && sym[0] == '>' {
        Ok(if a > b { 1u8 } else { 0u8 })
    } else if one && sym[0] == '<' {
        Ok(if a < b { 1u8 } else { 0u8 })
    } else if two && sym[0] == '>' && sym[1] == '>' {
        if b >= 8 { Err(RuntimeError::ShiftOverflow) } else { Ok(a >> b) }
    } else if two && sym[0] == '<' && sym[1] == '<' {
        if b >= 8 { Err(RuntimeError::ShiftOverflow) } else { Ok(a << b) }
    } else if one && sym[0] == '&' {
        Ok(a & b)
    } else if one && sym[0] == '|' {
        Ok(a | b)
    } else {
        Ok(a ^ b)
    }
}

/// Each two-operand operator becomes a call of the builtin that computes it: the name it
/// is given is the name of a builtin that takes two operands and an address, and that
/// builtin computes from any two bytes what the operator means.
pub proof fn law_operators_name_their_builtins(k: int, a: u8, b: u8)
    requires
        0 <= k < DUAL_OP_COUNT,
    ensures
        exists|op: Builtin|
            #[trigger] builtin_name(op) == dual_name(k) && spec_arg_count(op) == 5 && binary_value(op, a, b)
                == operator_value(dual_symbol(k), a, b),
{
    let op = if k == 0 { Builtin::Eq }
        else if k == 1 { Builtin::Neq }
        else if k == 2 { Builtin::Geq }
        else if k == 3 { Builtin::Leq }
        else if k == 4 { Builtin::Rsh }
        else if k == 5 { Builtin::Lsh }
        else if k == 6 { Builtin::Add }
        else if k == 7 { Builtin::Sub }
        else if k == 8 { Builtin::Mult }
        else if k == 9 { Builtin::Div }
        else if k == 10 { Builtin::Modulo }
        else if k == 11 { Builtin::G }
        else if k == 12 { Builtin::L }
        else if k == 13 { Builtin::And }
        else if k == 14 { Builtin::Or }
        else { Builtin::Xor };
    assert(builtin_name(op) =~= dual_name(k));
    if k == 7 {
        assert(((a - b) % 256) as u8 == ((a as int - b as int + 256) % 256) as u8);
    }
    assert(binary_value(op, a, b) == operator_value(dual_symbol(k), a, b));
}

/// The names of the builtins, in table order.
pub open spec fn builtin_names() -> Seq<Seq<char>> {
    Seq::new(BUILTIN_COUNT as nat, |k: int| builtin_name(builtin_at(k)))
}

/// The builtins as procedures, in table order.
pub open spec fn builtin_procs() -> Seq<SpecProcedure> {
    Seq::new(
        BUILTIN_COUNT as nat,
        |k: int| SpecProcedure::BuiltIn { arg_count: spec_arg_count(builtin_at(k)), func: builtin_at(k) },
    )
}

fn builtin_at_exec(k: usize) -> (op: Builtin)
    ensures
        op == builtin_at(k as int),
{
    match k {
        0 => Builtin::Write,
        1 => Builtin::Add,
        2 => Builtin::Sub,
        3 => Builtin::Mult,
        4 => Builtin::Div,
        5 => Builtin::Modulo,
        6 => Builtin::Eq,
        7 => Builtin::Neq,
        8 => Builtin::G,
        9 => Builtin::L,
        10 => Builtin::Geq,
        11 => Builtin::Leq,
        12 => Builtin::And,
        13 => Builtin::Or,
        14 => Builtin::Xor,
        15 => Builtin::Rsh,
        16 => Builtin::Lsh,
        17 => Builtin::Bonot,
        _ => Builtin::Binot,
    }
}

fn text_of(s: &[char]) -> (r: Vec<char>)
    ensures
        r@ == s@,
{
    let mut r: Vec<char> = Vec::new();
    push_all(&mut r, s);
    assert(r@ =~= s@);
    r
}

fn builtin_name_exec(op: Builtin) -> (r: Vec<char>)
    ensures
        r@ == builtin_name(op),
{
    let r = match op {
        Builtin::Write => text_of(&['$', 'w', 'r', 'i', 't', 'e']),
        Builtin::Add => text_of(&['$', 'a', 'd', 'd']),
        Builtin::Sub => text_of(&['$', 's', 'u', 'b']),
        Builtin::Mult => text_of(&['$', 'm', 'u', 'l', 't']),
        Builtin::Div => text_of(&['$', 'd', 'i', 'v']),
        Builtin::Modulo => text_of(&['$', 'm', 'o', 'd']),
        Builtin::Eq => text_of(&['$', 'e', 'q']),
        Builtin::Neq => text_of(&['$', 'n', 'e', 'q']),
        Builtin::G => text_of(&['$', 'g']),
        Builtin::L => text_of(&['$', 'l']),
        Builtin::Geq => text_of(&['$', 'g', 'e', 'q']),
        Builtin::Leq => text_of(&['$', 'l', 'e', 'q']),
        Builtin::And => text_of(&['$', 'a', 'n', 'd']),
        Builtin::Or => text_of(&['$', 'o', 'r']),
        Builtin::Xor => text_of(&['$', 'x', 'o', 'r']),
        Builtin::Rsh => text_of(&['$', 'r', 's', 'h']),
        Builtin::Lsh => text_of(&['$', 'l', 's', 'h']),
        Builtin::Bonot => text_of(&['$', 'b', 'o', 'n', 'o', 't']),
        Builtin::Binot => text_of(&['$', 'b', 'i', 'n', 'o', 't']),
    };
    assert(r@ =~= builtin_name(op));
    r
}

/// The builtin names and procedures, in table order.
fn builtin_table() -> (r: (Vec<Vec<char>>, Vec<Procedure>))
    ensures
        names_view(r.0@) == builtin_names(),
        tree_view(r.1@) == builtin_procs(),
{
    let mut names: Vec<Vec<char>> = Vec::new();
    let mut procs: Vec<Procedure> = Vec::new();
    let mut k: usize = 0;
    assert(names_view(names@) =~= builtin_names().subrange(0, 0));
    assert(tree_view(procs@) =~= builtin_procs().subrange(0, 0));
    while k < BUILTIN_COUNT
        invariant
            k <= BUILTIN_COUNT,
            names_view(names@) == builtin_names().subrange(0, k as int),
            tree_view(procs@) == builtin_procs().subrange(0, k as int),
        decreases BUILTIN_COUNT - k,
    {
        let op = builtin_at_exec(k);
        let ghost n0 = names_view(names@);
        let ghost p0 = tree_view(procs@);
        names.push(builtin_name_exec(op));
        procs.push(Procedure::BuiltIn { arg_count: arg_count(op), func: op });
        assert(names_view(names@) =~= n0.push(builtin_name(op)));
        assert(names_view(names@) =~= builtin_names().subrange(0, k + 1));
        assert(tree_view(procs@) =~= p0.push(
            SpecProcedure::BuiltIn { arg_count: spec_arg_count(op), func: op },
        ));
        assert(tree_view(procs@) =~= builtin_procs().subrange(0, k + 1));
        k = k + 1;
    }
    assert(builtin_names().subrange(0, BUILTIN_COUNT as int) =~= builtin_names());
    assert(builtin_procs().subrange(0, BUILTIN_COUNT as int) =~= builtin_procs());
    (names, procs)
}

/// `proc:`, the word that begins a procedure header.
pub open spec fn proc_word() -> Seq<char> {
    seq!['p', 'r', 'o', 'c', ':']
}

/// The name of the procedure that the header `code` defines.
pub open spec fn header_name(code: Seq<char>) -> Seq<char> {
    before_char(code.subrange(5, code.len() as int), '(')
}

/// The names of the procedures that the lines define, in order; an error for a line
/// outside every procedure.
pub open spec fn defined_names(ls: Seq<SpecLine>) -> Result<Seq<Seq<char>>, (ParseErrorKind, Seq<char>)>
    decreases ls.len(),
{
    if ls.len() == 0 {
        Ok(Seq::empty())
    } else {
        match defined_names(ls.drop_last()) {
            Err(e) => Err(e),
            Ok(ns) => {
                let l = ls.last();
                if l.depth != 0 {
                    Ok(ns)
                } else if has_prefix(l.code, proc_word()) {
                    Ok(ns.push(header_name(l.code)))
                } else {
                    Err((ParseErrorKind::CodeOutsideProcedures, l.code))
                }
            },
        }
    }
}

fn defined_names_exec(lines: &Vec<CodeLine>) -> (r: Result<Vec<Vec<char>>, ParseError>)
    ensures
        match defined_names(lines_view(lines@)) {
            Ok(ns) => r is Ok && names_view(r->Ok_0@) == ns,
            Err(e) => r is Err && err_view(r->Err_0) == e,
        },
{
    let ghost v = lines_view(lines@);
    let mut names: Vec<Vec<char>> = Vec::new();
    let mut i: usize = 0;
    assert(v.subrange(0, 0) =~= Seq::<SpecLine>::empty());
    assert(names_view(names@) =~= Seq::<Seq<char>>::empty());
    while i < lines.len()
        invariant
            v == lines_view(lines@),
            i <= v.len(),
            defined_names(v.subrange(0, i as int)) == Ok::<Seq<Seq<char>>, (ParseErrorKind, Seq<char>)>(
                names_view(names@),
            ),
        decreases v.len() - i,
    {
        assert(v.subrange(0, i + 1).drop_last() =~= v.subrange(0, i as int));
        assert(v.subrange(0, i + 1).last() == lines@[i as int]@);
        let line = &lines[i];
        if line.depth == 0 {
            if !starts_with(&line.code, &['p', 'r', 'o', 'c', ':']) {
                assert(['p', 'r', 'o', 'c', ':']@ =~= proc_word());
                assert(defined_names(v.subrange(0, i + 1)) is Err);
                proof {
                    lemma_defined_names_prefix_err(v, i as int + 1);
                }
                return Err(
                    ParseError { kind: ParseErrorKind::CodeOutsideProcedures, text: slice(&line.code, 0, line.code.len()) },
                );
            }
            assert(['p', 'r', 'o', 'c', ':']@ =~= proc_word());
            let rest = slice(&line.code, 5, line.code.len());
            let name = prefix_before(&rest, '(');
            let ghost n0 = names_view(names@);
            names.push(name);
            assert(names_view(names@) =~= n0.push(header_name(line.code@)));
        }
        i = i + 1;
    }
    assert(v.subrange(0, v.len() as int) =~= v);
    Ok(names)
}

/// An error in the names of the first `k` lines is the error of all the lines.
pub proof fn lemma_defined_names_prefix_err(ls: Seq<SpecLine>, k: int)
    requires
        0 <= k <= ls.len(),
        defined_names(ls.subrange(0, k)) is Err,
    ensures
        defined_names(ls) == defined_names(ls.subrange(0, k)),
    decreases ls.len() - k,
{
    if k < ls.len() {
        assert(ls.subrange(0, k + 1).drop_last() =~= ls.subrange(0, k));
        lemma_defined_names_prefix_err(ls, k + 1);
    } else {
        assert(ls.subrange(0, k) =~= ls);
    }
}


/// The number of instructions that the lines from `j` on give while they are deeper
/// than `d`: every line but those that open an `else`.
pub open spec fn block_count(ls: Seq<SpecLine>, j: int, d: u8) -> int
    decreases ls.len() - j,
{
    if j < 0 || j >= ls.len() || ls[j].depth <= d {
        0
    } else {
        (if is_else_line(ls[j]) {
            0int
        } else {
            1int
        }) + block_count(ls, j + 1, d)
    }
}

/// The lines of `s` that give an instruction: all but those that open an `else`.
pub open spec fn instruction_lines(s: Seq<SpecLine>) -> Seq<SpecLine> {
    s.filter(|l: SpecLine| !is_else_line(l))
}

/// The lines from `j` that are deeper than `d` give as many instructions as `block_count`
/// counts.
proof fn lemma_block_count_lines(ls: Seq<SpecLine>, j: int, d: u8)
    requires
        0 <= j <= ls.len(),
    ensures
        j <= block_end_from(ls, d + 1, j) <= ls.len(),
        block_count(ls, j, d) == instruction_lines(ls.subrange(j, block_end_from(ls, d + 1, j))).len(),
    decreases ls.len() - j,
{
    let e = block_end_from(ls, d + 1, j);
    if j < ls.len() && ls[j].depth > d {
        lemma_block_count_lines(ls, j + 1, d);
        lemma_instruction_lines_cons(ls, j, e);
    } else {
        lemma_instruction_lines_none(ls, j);
    }
}

/// The lines from `j` to `e` give one instruction for line `j`, unless it opens an
/// `else`, and then those of the lines after it.
proof fn lemma_instruction_lines_cons(ls: Seq<SpecLine>, j: int, e: int)
    requires
        0 <= j < e <= ls.len(),
    ensures
        instruction_lines(ls.subrange(j, e)).len() == (if is_else_line(ls[j]) {
            0int
        } else {
            1int
        }) + instruction_lines(ls.subrange(j + 1, e)).len(),
{
    let pred = |l: SpecLine| !is_else_line(l);
    let head = seq![ls[j]];
    let rest = ls.subrange(j + 1, e);
    assert(ls.subrange(j, e) =~= head + rest);
    Seq::filter_distributes_over_add(head, rest, pred);
    reveal_with_fuel(Seq::filter, 2);
    assert(head.drop_last() =~= Seq::<SpecLine>::empty());
    assert(head.last() == ls[j]);
    if is_else_line(ls[j]) {
        assert(head.filter(pred) =~= Seq::<SpecLine>::empty());
        assert(Seq::<SpecLine>::empty() + rest.filter(pred) =~= rest.filter(pred));
    } else {
        assert(head.filter(pred) =~= head);
    }
}

/// No lines give no instruction.
proof fn lemma_instruction_lines_none(ls: Seq<SpecLine>, j: int)
    requires
        0 <= j <= ls.len(),
    ensures
        instruction_lines(ls.subrange(j, j)).len() == 0,
{
    assert(ls.subrange(j, j) =~= Seq::<SpecLine>::empty());
    reveal_with_fuel(Seq::filter, 1);
}

/// Once the `else` was met, the scan after an `if` counts the lines of the `else` block
/// that give an instruction.
proof fn lemma_if_scan_after_else(ls: Seq<SpecLine>, j: int, d: u8, e: int, nx: int)
    requires
        0 <= j <= ls.len(),
    ensures
        if_scan(ls, j, d, true, e, nx) == (e, nx + instruction_lines(ls.subrange(j, block_end_from(ls, d + 1, j))).len()),
    decreases ls.len() - j,
{
    lemma_block_count_lines(ls, j, d);
    let q = block_end_from(ls, d + 1, j);
    if j < ls.len() && ls[j].depth > d {
        lemma_if_scan_after_else(ls, j + 1, d, e, if !is_else_line(ls[j]) { nx + 1 } else { nx });
        lemma_block_count_lines(ls, j + 1, d);
        lemma_instruction_lines_cons(ls, j, q);
    } else {
        lemma_instruction_lines_none(ls, j);
    }
}

/// Before the `else`, the scan after an `if` counts the lines of the `if` block that give
/// an instruction towards both indices, then passes over the `else`.
proof fn lemma_if_scan_before_else(ls: Seq<SpecLine>, j: int, p: int, d: u8, e: int, nx: int)
    requires
        0 <= j <= p < ls.len(),
        forall|m: int| j <= m < p ==> #[trigger] ls[m].depth > d,
        is_else_line(ls[p]),
        ls[p].depth == d,
    ensures
        if_scan(ls, j, d, false, e, nx) == if_scan(
            ls,
            p + 1,
            d,
            true,
            e + instruction_lines(ls.subrange(j, p)).len(),
            nx + instruction_lines(ls.subrange(j, p)).len(),
        ),
    decreases p - j,
{
    if j < p {
        let c: int = if is_else_line(ls[j]) { 0 } else { 1 };
        lemma_if_scan_before_else(ls, j + 1, p, d, e + c, nx + c);
        lemma_instruction_lines_cons(ls, j, p);
    } else {
        lemma_instruction_lines_none(ls, j);
    }
}

/// A `while` jumps, when its condition fails, to the instruction after its block: its
/// own index, one for itself, and one for each line of its block that gives an
/// instruction (every line deeper than the `while` up to the first that is not, but for
/// those that open an `else`).
pub proof fn law_while_jumps_past_its_block(
    ls: Seq<SpecLine>,
    i: int,
    n: int,
    names: Seq<Seq<char>>,
    args: Seq<Seq<char>>,
)
    requires
        0 <= i < ls.len(),
        0 <= n,
        n + ls.len() < usize::MAX,
        spec_line_instruction(ls, i, n, names, args) is Ok,
        spec_line_instruction(ls, i, n, names, args)->Ok_0 is While,
    ensures
        spec_line_instruction(ls, i, n, names, args)->Ok_0->While_next_index == n + 1 + instruction_lines(
            ls.subrange(i + 1, block_end_from(ls, ls[i].depth + 1, i + 1)),
        ).len(),
{
    lemma_block_count_lines(ls, i + 1, ls[i].depth);
    let e = block_end_from(ls, ls[i].depth + 1, i + 1);
    ls.subrange(i + 1, e).lemma_filter_len(|l: SpecLine| !is_else_line(l));
    let c = spec_line_instruction(ls, i, n, names, args);
    let l = ls[i];
    if l.starts_closure && has_prefix(l.code, while_word()) {
    } else if l.starts_closure && has_prefix(l.code, if_word()) {
        assert(!(c->Ok_0 is While));
    } else {
        assert(!(c->Ok_0 is While));
    }
}

/// An `if` whose block is followed by its `else` jumps, when its condition fails, to the
/// first instruction of the `else` block, and from the end of its block to the
/// instruction after the `else` block: its own index, one for itself, then one for each
/// line of the `if` block, and of the `else` block, that gives an instruction.
pub proof fn law_if_jumps_past_its_blocks(
    ls: Seq<SpecLine>,
    i: int,
    p: int,
    n: int,
    names: Seq<Seq<char>>,
    args: Seq<Seq<char>>,
)
    requires
        0 <= i < p < ls.len(),
        forall|m: int| i < m < p ==> #[trigger] ls[m].depth > ls[i].depth,
        is_else_line(ls[p]),
        ls[p].depth == ls[i].depth,
        0 <= n,
        n + ls.len() < usize::MAX,
        spec_line_instruction(ls, i, n, names, args) is Ok,
        spec_line_instruction(ls, i, n, names, args)->Ok_0 is IfElse,
    ensures
        spec_line_instruction(ls, i, n, names, args)->Ok_0->IfElse_else_index == n + 1 + instruction_lines(
            ls.subrange(i + 1, p),
        ).len(),
        spec_line_instruction(ls, i, n, names, args)->Ok_0->IfElse_next_index == n + 1 + instruction_lines(
            ls.subrange(i + 1, p),
        ).len() + instruction_lines(ls.subrange(p + 1, block_end_from(ls, ls[i].depth + 1, p + 1))).len(),
{
    let d = ls[i].depth;
    lemma_if_scan_before_else(ls, i + 1, p, d, n + 1, n + 1);
    let c1 = instruction_lines(ls.subrange(i + 1, p)).len();
    lemma_if_scan_after_else(ls, p + 1, d, n + 1 + c1, n + 1 + c1);
    lemma_block_count_lines(ls, p + 1, d);
    let q = block_end_from(ls, d + 1, p + 1);
    ls.subrange(i + 1, p).lemma_filter_len(|l: SpecLine| !is_else_line(l));
    ls.subrange(p + 1, q).lemma_filter_len(|l: SpecLine| !is_else_line(l));
    let c = spec_line_instruction(ls, i, n, names, args);
    let l = ls[i];
    if l.starts_closure && has_prefix(l.code, while_word()) {
        assert(!(c->Ok_0 is IfElse));
    } else if l.starts_closure && has_prefix(l.code, if_word()) {
    } else {
        assert(!(c->Ok_0 is IfElse));
    }
}

/// The scan after an `if` at depth `d`, from line `j` on: `e` counts up to the `else`
/// at depth `d`, `nx` up to the end of the `else` block. The scan stops at the first
/// line at depth `d` or less once the `else` was met.
pub open spec fn if_scan(ls: Seq<SpecLine>, j: int, d: u8, found: bool, e: int, nx: int) -> (int, int)
    decreases ls.len() - j,
{
    if j < 0 || j >= ls.len() || !(ls[j].depth > d || !found) {
        (e, nx)
    } else {
        let f2 = found || (ls[j].depth == d && is_else_line(ls[j]));
        let counts = !is_else_line(ls[j]);
        if_scan(
            ls,
            j + 1,
            d,
            f2,
            if counts && !f2 {
                e + 1
            } else {
                e
            },
            if counts {
                nx + 1
            } else {
                nx
            },
        )
    }
}

/// The values that the texts `ps` give, in order; the first error stops.
pub open spec fn values_of(ps: Seq<Seq<char>>, names: Seq<Seq<char>>) -> Result<Seq<Value>, (ParseErrorKind, Seq<char>)>
    decreases ps.len(),
{
    if ps.len() == 0 {
        Ok(Seq::empty())
    } else {
        match values_of(ps.drop_last(), names) {
            Err(e) => Err(e),
            Ok(vs) => match spec_value(ps.last(), names) {
                Err(e) => Err(e),
                Ok(v) => Ok(vs.push(v)),
            },
        }
    }
}

/// The text between the first `(` of `c` and the last character of `c`; `None` when
/// `c` has no `(` or ends with it.
pub open spec fn paren_inside(c: Seq<char>) -> Option<Seq<char>> {
    match first_index(c, '(') {
        None => None,
        Some(s) => if s + 1 > c.len() - 1 {
            None
        } else {
            Some(c.subrange(s + 1, c.len() - 1))
        },
    }
}

/// `while`, the word of a loop header.
pub open spec fn while_word() -> Seq<char> {
    seq!['w', 'h', 'i', 'l', 'e']
}

/// `if`, the word of a branch header.
pub open spec fn if_word() -> Seq<char> {
    seq!['i', 'f']
}

/// The instruction that line `i` gives, when the procedure it belongs to has `n`
/// instructions before it; `names` are the procedure names and `args` the argument
/// names of that procedure.
pub open spec fn spec_line_instruction(
    ls: Seq<SpecLine>,
    i: int,
    n: int,
    names: Seq<Seq<char>>,
    args: Seq<Seq<char>>,
) -> Result<SpecInstruction, (ParseErrorKind, Seq<char>)> {
    let l = ls[i];
    let c = l.code;
    if l.starts_closure && has_prefix(c, while_word()) {
        if c.len() < 7 {
            Err((ParseErrorKind::InvalidCondition, c))
        } else {
            match spec_value(c.subrange(6, c.len() - 1), args) {
                Err(e) => Err(e),
                Ok(v) => Ok(
                    SpecInstruction::While { condition: v, next_index: (n + 1 + block_count(ls, i + 1, l.depth)) as usize },
                ),
            }
        }
    } else if l.starts_closure && has_prefix(c, if_word()) {
        if c.len() < 4 {
            Err((ParseErrorKind::InvalidCondition, c))
        } else {
            match spec_value(c.subrange(3, c.len() - 1), args) {
                Err(e) => Err(e),
                Ok(v) => {
                    let (e, nx) = if_scan(ls, i + 1, l.depth, false, n + 1, n + 1);
                    Ok(SpecInstruction::IfElse { condition: v, else_index: e as usize, next_index: nx as usize })
                },
            }
        }
    } else {
        match name_index(names, before_char(c, '(')) {
            None => Err((ParseErrorKind::ProcedureDoesNotExist, c)),
            Some(pi) => match paren_inside(c) {
                None => Err((ParseErrorKind::InvalidProcedureCall, c)),
                Some(inside) => match values_of(split_top(inside), args) {
                    Err(e) => Err(e),
                    Ok(vs) => Ok(SpecInstruction::Call { proc_index: pi as usize, args: vs }),
                },
            },
        }
    }
}

/// The procedures after the lines from `i` on: a header at depth 0 starts a procedure
/// whose argument names are those between its brackets; every other line but an
/// `else` adds an instruction to the last procedure.
pub open spec fn tree_from(
    ls: Seq<SpecLine>,
    i: int,
    names: Seq<Seq<char>>,
    procs: Seq<SpecProcedure>,
    args: Seq<Seq<char>>,
) -> Result<Seq<SpecProcedure>, (ParseErrorKind, Seq<char>)>
    decreases ls.len() - i,
{
    if i < 0 || i >= ls.len() {
        Ok(procs)
    } else {
        let l = ls[i];
        if l.depth == 0 {
            match paren_inside(l.code) {
                None => Err((ParseErrorKind::InvalidProcedureDefinition, l.code)),
                Some(inside) => {
                    let a = split_on(inside, ',');
                    tree_from(
                        ls,
                        i + 1,
                        names,
                        procs.push(SpecProcedure::BuiltOut { arg_count: a.len() as usize, code: Seq::empty() }),
                        a,
                    )
                },
            }
        } else if procs.len() == 0 {
            Err((ParseErrorKind::NoProcedureInitialized, l.code))
        } else {
            match procs.last() {
                SpecProcedure::BuiltIn { .. } => Err((ParseErrorKind::NoProcedureInitialized, l.code)),
                SpecProcedure::BuiltOut { arg_count, code } => if is_else_line(l) {
                    tree_from(ls, i + 1, names, procs, args)
                } else {
                    match spec_line_instruction(ls, i, code.len() as int, names, args) {
                        Err(e) => Err(e),
                        Ok(inst) => tree_from(
                            ls,
                            i + 1,
                            names,
                            procs.update(procs.len() - 1, SpecProcedure::BuiltOut { arg_count, code: code.push(inst) }),
                            args,
                        ),
                    }
                },
            }
        }
    }
}

/// The program tree that the kernel lines `ls` give: the builtins, then one procedure
/// per header.
pub open spec fn spec_syntax_tree(ls: Seq<SpecLine>) -> Result<Seq<SpecProcedure>, (ParseErrorKind, Seq<char>)> {
    match defined_names(ls) {
        Err(e) => Err(e),
        Ok(user) => tree_from(ls, 0, builtin_names() + user, builtin_procs(), Seq::empty()),
    }
}

fn is_else_exec(l: &CodeLine) -> (r: bool)
    ensures
        r == is_else_line(l@),
{
    assert(['e', 'l', 's', 'e']@ =~= seq!['e', 'l', 's', 'e']);
    l.starts_closure && starts_with(&l.code, &['e', 'l', 's', 'e'])
}

fn paren_inside_exec(c: &Vec<char>) -> (r: Option<Vec<char>>)
    ensures
        match paren_inside(c@) {
            Some(t) => r is Some && r->Some_0@ == t,
            None => r is None,
        },
{
    match find_char(c, '(') {
        None => None,
        Some(s) => {
            proof {
                lemma_first_index(c@, '(');
            }
            let n = c.len();
            assert(s < n);
            if s + 1 > n - 1 {
                None
            } else {
                Some(slice(c, s + 1, n - 1))
            }
        },
    }
}

fn values_exec(parts: &Vec<Vec<char>>, args: &Vec<Vec<char>>) -> (r: Result<Vec<Value>, ParseError>)
    ensures
        match values_of(names_view(parts@), names_view(args@)) {
            Ok(vs) => r is Ok && r->Ok_0@ == vs,
            Err(e) => r is Err && err_view(r->Err_0) == e,
        },
{
    let ghost ps = names_view(parts@);
    let mut out: Vec<Value> = Vec::new();
    let mut k: usize = 0;
    assert(ps.subrange(0, 0) =~= Seq::<Seq<char>>::empty());
    while k < parts.len()
        invariant
            ps == names_view(parts@),
            k <= ps.len(),
            values_of(ps.subrange(0, k as int), names_view(args@)) == Ok::<Seq<Value>, (ParseErrorKind, Seq<char>)>(out@),
        decreases ps.len() - k,
    {
        assert(ps.subrange(0, k + 1).drop_last() =~= ps.subrange(0, k as int));
        assert(ps.subrange(0, k + 1).last() == parts@[k as int]@);
        match Value::new(&parts[k], args) {
            Ok(v) => {
                out.push(v);
            },
            Err(e) => {
                proof {
                    lemma_values_prefix_err(ps, names_view(args@), k as int + 1);
                }
                return Err(e);
            },
        }
        k = k + 1;
    }
    assert(ps.subrange(0, ps.len() as int) =~= ps);
    Ok(out)
}

/// An error among the first `k` values is the error of all of them.
pub proof fn lemma_values_prefix_err(ps: Seq<Seq<char>>, names: Seq<Seq<char>>, k: int)
    requires
        0 <= k <= ps.len(),
        values_of(ps.subrange(0, k), names) is Err,
    ensures
        values_of(ps, names) == values_of(ps.subrange(0, k), names),
    decreases ps.len() - k,
{
    if k < ps.len() {
        assert(ps.subrange(0, k + 1).drop_last() =~= ps.subrange(0, k));
        lemma_values_prefix_err(ps, names, k + 1);
    } else {
        assert(ps.subrange(0, k) =~= ps);
    }
}

fn line_instruction(
    lines: &Vec<CodeLine>,
    i: usize,
    n: usize,
    names: &Vec<Vec<char>>,
    args: &Vec<Vec<char>>,
) -> (r: Result<Instruction, ParseError>)
    requires
        i < lines@.len(),
        n <= i,
    ensures
        match spec_line_instruction(lines_view(lines@), i as int, n as int, names_view(names@), names_view(args@)) {
            Ok(inst) => r is Ok && r->Ok_0@ == inst,
            Err(e) => r is Err && err_view(r->Err_0) == e,
        },
{
    let ghost ls = lines_view(lines@);
    let total = lines.len();
    let line = &lines[i];
    assert(ls[i as int] == line@);
    let c = &line.code;
    let len = c.len();
    assert(['w', 'h', 'i', 'l', 'e']@ =~= while_word());
    assert(['i', 'f']@ =~= if_word());
    if line.starts_closure && starts_with(c, &['w', 'h', 'i', 'l', 'e']) {
        if len < 7 {
            return Err(ParseError { kind: ParseErrorKind::InvalidCondition, text: slice(c, 0, len) });
        }
        let cond_text = slice(c, 6, len - 1);
        let condition = match Value::new(&cond_text, args) {
            Ok(v) => v,
            Err(e) => return Err(e),
        };
        let d = line.depth;
        let mut next: usize = n + 1;
        let mut j: usize = i + 1;
        while j < lines.len() && lines[j].depth > d
            invariant
                ls == lines_view(lines@),
                i < j <= ls.len(),
                next <= j,
                n + 1 + block_count(ls, i + 1, d) == next + block_count(ls, j as int, d),
            decreases ls.len() - j,
        {
            assert(lines@[j as int]@ == ls[j as int]);
            if !is_else_exec(&lines[j]) {
                next = next + 1;
            }
            j = j + 1;
        }
        assert(j < ls.len() ==> lines@[j as int]@ == ls[j as int]);
        return Ok(Instruction::While { condition, next_index: next });
    }
    if line.starts_closure && starts_with(c, &['i', 'f']) {
        if len < 4 {
            return Err(ParseError { kind: ParseErrorKind::InvalidCondition, text: slice(c, 0, len) });
        }
        let cond_text = slice(c, 3, len - 1);
        let condition = match Value::new(&cond_text, args) {
            Ok(v) => v,
            Err(e) => return Err(e),
        };
        let d = line.depth;
        let mut else_index: usize = n + 1;
        let mut next: usize = n + 1;
        let mut found = false;
        let mut j: usize = i + 1;
        while j < lines.len() && (lines[j].depth > d || !found)
            invariant
                ls == lines_view(lines@),
                i < j <= ls.len(),
                else_index <= next <= j,
                if_scan(ls, i + 1, d, false, n + 1, n + 1) == if_scan(ls, j as int, d, found, else_index as int, next as int),
            decreases ls.len() - j,
        {
            assert(lines@[j as int]@ == ls[j as int]);
            let is_else = is_else_exec(&lines[j]);
            if lines[j].depth == d && is_else {
                found = true;
            }
            if !is_else {
                next = next + 1;
                if !found {
                    else_index = else_index + 1;
                }
            }
            j = j + 1;
        }
        assert(j < ls.len() ==> lines@[j as int]@ == ls[j as int]);
        return Ok(Instruction::IfElse { condition, else_index, next_index: next });
    }
    let name = prefix_before(c, '(');
    let proc_index = match position_of(names, &name) {
        Some(p) => p,
        None => return Err(ParseError { kind: ParseErrorKind::ProcedureDoesNotExist, text: slice(c, 0, len) }),
    };
    let inside = match paren_inside_exec(c) {
        Some(t) => t,
        None => return Err(ParseError { kind: ParseErrorKind::InvalidProcedureCall, text: slice(c, 0, len) }),
    };
    let parts = split_top_level(&inside);
    assert(names_view(parts@) =~= split_top(inside@));
    let args_values = match values_exec(&parts, args) {
        Ok(vs) => vs,
        Err(e) => return Err(e),
    };
    Ok(Instruction::Call { proc_index, args: args_values })
}


/// Builds the program tree of the kernel lines: the builtins, then one procedure per
/// header at depth 0, each with the instructions of the lines in its block.
pub fn create_syntax_tree(lines: &Vec<CodeLine>) -> (r: Result<Vec<Procedure>, ParseError>)
    ensures
        match spec_syntax_tree(lines_view(lines@)) {
            Ok(t) => r is Ok && tree_view(r->Ok_0@) == t,
            Err(e) => r is Err && err_view(r->Err_0) == e,
        },
{
    let ghost ls = lines_view(lines@);
    let (mut names, mut procs) = builtin_table();
    let mut user = match defined_names_exec(lines) {
        Ok(u) => u,
        Err(e) => return Err(e),
    };
    let ghost user_names = names_view(user@);
    let ghost builtin_part = names_view(names@);
    names.append(&mut user);
    assert(names_view(names@) =~= builtin_part + user_names);
    let mut args: Vec<Vec<char>> = Vec::new();
    let mut i: usize = 0;
    while i < lines.len()
        invariant
            ls == lines_view(lines@),
            i <= ls.len(),
            spec_syntax_tree(ls) == tree_from(ls, i as int, names_view(names@), tree_view(procs@), names_view(args@)),
            procs@.len() >= 1,
            match tree_view(procs@).last() {
                SpecProcedure::BuiltOut { code, .. } => code.len() <= i,
                SpecProcedure::BuiltIn { .. } => true,
            },
        decreases ls.len() - i,
    {
        let line = &lines[i];
        assert(ls[i as int] == line@);
        let ghost pv = tree_view(procs@);
        if line.depth == 0 {
            let inside = match paren_inside_exec(&line.code) {
                Some(t) => t,
                None => {
                    return Err(
                        ParseError {
                            kind: ParseErrorKind::InvalidProcedureDefinition,
                            text: slice(&line.code, 0, line.code.len()),
                        },
                    );
                },
            };
            args = split_char(&inside, ',');
            assert(names_view(args@) =~= split_on(inside@, ','));
            let fresh: Vec<Instruction> = Vec::new();
            assert(fresh@.map_values(|x: Instruction| x@) =~= Seq::<SpecInstruction>::empty());
            procs.push(Procedure::BuiltOut { arg_count: args.len(), code: fresh });
            assert(tree_view(procs@) =~= pv.push(
                SpecProcedure::BuiltOut { arg_count: args.len(), code: Seq::empty() },
            ));
        } else {
            let ghost before_pop = procs@;
            match procs.pop() {
                None => {
                    return Err(
                        ParseError {
                            kind: ParseErrorKind::NoProcedureInitialized,
                            text: slice(&line.code, 0, line.code.len()),
                        },
                    );
                },
                Some(Procedure::BuiltIn { arg_count, func }) => {
                    assert(pv.last() == before_pop.last()@);
                    return Err(
                        ParseError {
                            kind: ParseErrorKind::NoProcedureInitialized,
                            text: slice(&line.code, 0, line.code.len()),
                        },
                    );
                },
                Some(Procedure::BuiltOut { arg_count, mut code }) => {
                    assert(pv.last() == before_pop.last()@);
                    assert(tree_view(procs@) =~= pv.drop_last());
                    let ghost cv = code@.map_values(|x: Instruction| x@);
                    if is_else_exec(line) {
                        procs.push(Procedure::BuiltOut { arg_count, code });
                        assert(tree_view(procs@) =~= pv);
                    } else {
                        let inst = match line_instruction(lines, i, code.len(), &names, &args) {
                            Ok(x) => x,
                            Err(e) => return Err(e),
                        };
                        let ghost iv = inst@;
                        code.push(inst);
                        assert(code@.map_values(|x: Instruction| x@) =~= cv.push(iv));
                        procs.push(Procedure::BuiltOut { arg_count, code });
                        assert(tree_view(procs@) =~= pv.update(
                            pv.len() - 1,
                            SpecProcedure::BuiltOut { arg_count, code: cv.push(iv) },
                        ));
                    }
                },
            }
        }
        i = i + 1;
    }
    Ok(procs)
}


/// The index in the program tree of the procedure called `name`: the builtins come
/// first, then the procedures in the order of their headers. `None` when no procedure
/// has that name or the lines hold code outside every procedure.
pub fn procedure_index(lines: &Vec<CodeLine>, name: &Vec<char>) -> (r: Option<usize>)
    ensures
        match defined_names(lines_view(lines@)) {
            Ok(user) => match name_index(builtin_names() + user, name@) {
                Some(i) => r == Some(i as usize),
                None => r is None,
            },
            Err(_) => r is None,
        },
{
    let (mut names, _) = builtin_table();
    let mut user = match defined_names_exec(lines) {
        Ok(u) => u,
        Err(_) => return None,
    };
    let ghost user_names = names_view(user@);
    let ghost builtin_part = names_view(names@);
    names.append(&mut user);
    assert(names_view(names@) =~= builtin_part + user_names);
    position_of(&names, name)
}


/// The number of lines at depth 0: the procedure headers.
pub open spec fn header_count(ls: Seq<SpecLine>) -> nat
    decreases ls.len(),
{
    if ls.len() == 0 {
        0
    } else {
        header_count(ls.drop_last()) + if ls.last().depth == 0 {
            1nat
        } else {
            0nat
        }
    }
}

/// The names found are one per header.
proof fn lemma_defined_names_len(ls: Seq<SpecLine>)
    ensures
        defined_names(ls) is Ok ==> defined_names(ls)->Ok_0.len() == header_count(ls),
    decreases ls.len(),
{
    if ls.len() > 0 {
        lemma_defined_names_len(ls.drop_last());
    }
}

/// The scan from line `i` adds one defined procedure per header and keeps the builtins
/// where they are.
proof fn lemma_tree_from_shape(
    ls: Seq<SpecLine>,
    i: int,
    names: Seq<Seq<char>>,
    procs: Seq<SpecProcedure>,
    args: Seq<Seq<char>>,
)
    requires
        0 <= i <= ls.len(),
    ensures
        match tree_from(ls, i, names, procs, args) {
            Ok(t) => {
                &&& t.len() == procs.len() + header_count(ls) - header_count(ls.subrange(0, i))
                &&& forall|k: int| 0 <= k < t.len() ==> ((#[trigger] t[k] is BuiltIn) <==> (k < procs.len()
                    && procs[k] is BuiltIn))
            },
            Err(_) => true,
        },
    decreases ls.len() - i,
{
    if i == ls.len() {
        assert(ls.subrange(0, i) =~= ls);
    } else {
        assert(ls.subrange(0, i + 1).drop_last() =~= ls.subrange(0, i));
        assert(ls.subrange(0, i + 1).last() == ls[i]);
        let l = ls[i];
        if l.depth == 0 {
            match paren_inside(l.code) {
                None => {},
                Some(inside) => {
                    let a = split_on(inside, ',');
                    let p2 = procs.push(SpecProcedure::BuiltOut { arg_count: a.len() as usize, code: Seq::empty() });
                    lemma_tree_from_shape(ls, i + 1, names, p2, a);
                    match tree_from(ls, i + 1, names, p2, a) {
                        Ok(t) => {
                            assert forall|k: int| 0 <= k < t.len() implies ((#[trigger] t[k] is BuiltIn) <==> (k
                                < procs.len() && procs[k] is BuiltIn)) by {
                                if k < procs.len() {
                                    assert(p2[k] == procs[k]);
                                }
                            }
                        },
                        Err(_) => {},
                    }
                },
            }
        } else if procs.len() > 0 {
            match procs.last() {
                SpecProcedure::BuiltIn { .. } => {},
                SpecProcedure::BuiltOut { arg_count, code } => if is_else_line(l) {
                    lemma_tree_from_shape(ls, i + 1, names, procs, args);
                } else {
                    match spec_line_instruction(ls, i, code.len() as int, names, args) {
                        Err(_) => {},
                        Ok(inst) => {
                            let p2 = procs.update(
                                procs.len() - 1,
                                SpecProcedure::BuiltOut { arg_count, code: code.push(inst) },
                            );
                            lemma_tree_from_shape(ls, i + 1, names, p2, args);
                            match tree_from(ls, i + 1, names, p2, args) {
                                Ok(t) => {
                                    assert forall|k: int| 0 <= k < t.len() implies ((#[trigger] t[k] is BuiltIn) <==> (k
                                        < procs.len() && procs[k] is BuiltIn)) by {
                                        if k < procs.len() - 1 {
                                            assert(p2[k] == procs[k]);
                                        }
                                    }
                                },
                                Err(_) => {},
                            }
                        },
                    }
                },
            }
        }
    }
}

/// The position a name is found at is a position of the names.
proof fn lemma_name_index_bound(names: Seq<Seq<char>>, s: Seq<char>)
    ensures
        name_index(names, s) is Some ==> 0 <= name_index(names, s)->Some_0 < names.len(),
    decreases names.len(),
{
    if names.len() > 0 {
        lemma_name_index_bound(names.drop_last(), s);
    }
}

/// A program tree holds the builtins, in table order, then one defined procedure per
/// header, in the order of the headers.
pub proof fn law_tree_layout(ls: Seq<SpecLine>)
    requires
        spec_syntax_tree(ls) is Ok,
    ensures
        defined_names(ls) is Ok,
        spec_syntax_tree(ls)->Ok_0.len() == BUILTIN_COUNT + defined_names(ls)->Ok_0.len(),
        forall|k: int| 0 <= k < BUILTIN_COUNT ==> #[trigger] spec_syntax_tree(ls)->Ok_0[k] == builtin_procs()[k],
        forall|k: int|
            BUILTIN_COUNT <= k < spec_syntax_tree(ls)->Ok_0.len() ==> #[trigger] spec_syntax_tree(ls)->Ok_0[k] is BuiltOut,
{
    lemma_defined_names_len(ls);
    let user = defined_names(ls)->Ok_0;
    lemma_tree_from_shape(ls, 0, builtin_names() + user, builtin_procs(), Seq::empty());
    assert(ls.subrange(0, 0) =~= Seq::<SpecLine>::empty());
    let t = spec_syntax_tree(ls)->Ok_0;
    assert forall|k: int| 0 <= k < BUILTIN_COUNT implies #[trigger] t[k] == builtin_procs()[k] by {
        lemma_tree_keeps_prefix(ls, 0, builtin_names() + user, builtin_procs(), Seq::empty(), k);
    }
}

/// Lines after the first header never change the procedures before the last one.
proof fn lemma_tree_keeps_prefix(
    ls: Seq<SpecLine>,
    i: int,
    names: Seq<Seq<char>>,
    procs: Seq<SpecProcedure>,
    args: Seq<Seq<char>>,
    k: int,
)
    requires
        0 <= i <= ls.len(),
        0 <= k < procs.len(),
        procs[k] is BuiltIn,
    ensures
        tree_from(ls, i, names, procs, args) is Ok ==> tree_from(ls, i, names, procs, args)->Ok_0[k] == procs[k],
    decreases ls.len() - i,
{
    if i < ls.len() {
        let l = ls[i];
        if l.depth == 0 {
            match paren_inside(l.code) {
                None => {},
                Some(inside) => {
                    let a = split_on(inside, ',');
                    let p2 = procs.push(SpecProcedure::BuiltOut { arg_count: a.len() as usize, code: Seq::empty() });
                    lemma_tree_keeps_prefix(ls, i + 1, names, p2, a, k);
                },
            }
        } else if procs.len() > 0 {
            match procs.last() {
                SpecProcedure::BuiltIn { .. } => {},
                SpecProcedure::BuiltOut { arg_count, code } => if is_else_line(l) {
                    lemma_tree_keeps_prefix(ls, i + 1, names, procs, args, k);
                } else {
                    match spec_line_instruction(ls, i, code.len() as int, names, args) {
                        Err(_) => {},
                        Ok(inst) => {
                            let p2 = procs.update(
                                procs.len() - 1,
                                SpecProcedure::BuiltOut { arg_count, code: code.push(inst) },
                            );
                            lemma_tree_keeps_prefix(ls, i + 1, names, p2, args, k);
                        },
                    }
                },
            }
        }
    }
}

/// The index that `procedure_index` finds for a name is a procedure of the tree that
/// `create_syntax_tree` builds from the same lines.
pub proof fn law_procedure_index_in_tree(ls: Seq<SpecLine>, name: Seq<char>)
    requires
        spec_syntax_tree(ls) is Ok,
    ensures
        defined_names(ls) is Ok,
        name_index(builtin_names() + defined_names(ls)->Ok_0, name) is Some ==> 0 <= name_index(
            builtin_names() + defined_names(ls)->Ok_0,
            name,
        )->Some_0 < spec_syntax_tree(ls)->Ok_0.len(),
{
    law_tree_layout(ls);
    lemma_name_index_bound(builtin_names() + defined_names(ls)->Ok_0, name);
}


/// A digit character is an ASCII digit of the same value.
proof fn lemma_digit(d: u8)
    ensures
        is_digit(digit(d)),
        (digit(d) as u32) - ('0' as u32) == d % 10,
{
    let k: u32 = ((d % 10) as u32 + 48) as u32;
    assert(48 <= k < 58);
    assert((k as char) as u32 == k);
}

/// The decimal digits of `n` are digits that write `n`.
proof fn lemma_decimal(n: u8)
    ensures
        decimal(n).len() >= 1,
        all_digits(decimal(n)),
        digits_value(decimal(n)) == n,
        spec_parse_u8(decimal(n)) == Some(n),
{
    let s = decimal(n);
    if n >= 100 {
        let (a, b, c) = (n / 100, (n / 10) % 10, n % 10);
        lemma_digit(a);
        lemma_digit(b);
        lemma_digit(c);
        assert(s.drop_last() =~= seq![digit(a), digit(b)]);
        assert(seq![digit(a), digit(b)].drop_last() =~= seq![digit(a)]);
        assert(seq![digit(a)].drop_last() =~= Seq::<char>::empty());
        assert(a % 10 == a && b % 10 == b);
        assert(digits_value(Seq::<char>::empty()) == 0);
        assert(seq![digit(a)].last() == digit(a));
        assert(digits_value(seq![digit(a)]) == a);
        assert(digits_value(seq![digit(a), digit(b)]) == a * 10 + b);
        assert(digits_value(s) == (a * 10 + b) * 10 + c);
        assert((n / 100 * 10 + (n / 10) % 10) * 10 + n % 10 == n) by (nonlinear_arith)
            requires
                n < 256,
        ;
    } else if n >= 10 {
        let (a, b) = (n / 10, n % 10);
        lemma_digit(a);
        lemma_digit(b);
        assert(s.drop_last() =~= seq![digit(a)]);
        assert(seq![digit(a)].drop_last() =~= Seq::<char>::empty());
        assert(a % 10 == a);
        assert(digits_value(Seq::<char>::empty()) == 0);
        assert(seq![digit(a)].last() == digit(a));
        assert(digits_value(seq![digit(a)]) == a);
        assert(digits_value(s) == a * 10 + b);
    } else {
        lemma_digit(n);
        assert(s.drop_last() =~= Seq::<char>::empty());
        assert(n % 10 == n);
        assert(digits_value(Seq::<char>::empty()) == 0);
    }
    assert forall|i: int| 0 <= i < s.len() implies is_digit(#[trigger] s[i]) by {
        if n >= 100 {
            lemma_digit(n / 100);
            lemma_digit((n / 10) % 10);
            lemma_digit(n % 10);
        } else if n >= 10 {
            lemma_digit(n / 10);
            lemma_digit(n % 10);
        } else {
            lemma_digit(n);
        }
    }
}

/// Digits hold no bracket and no comma.
proof fn lemma_digits_no_separators(d: Seq<char>)
    requires
        all_digits(d),
    ensures
        no_separators(d),
{
    assert forall|i: int| 0 <= i < d.len() implies #[trigger] d[i] != '[' && d[i] != ']' && d[i] != ',' by {
        assert(is_digit(d[i]));
    }
}

/// A number written in decimal reads back as itself.
proof fn lemma_decimal_value(n: u8, names: Seq<Seq<char>>)
    ensures
        spec_value(decimal(n), names) == Ok::<Value, (ParseErrorKind, Seq<char>)>(Value::Pure { value: n }),
{
    lemma_decimal(n);
}

/// Three numbers written with commas between them split into their three texts.
proof fn lemma_split_address(d0: Seq<char>, d1: Seq<char>, d2: Seq<char>)
    requires
        all_digits(d0),
        all_digits(d1),
        all_digits(d2),
    ensures
        split_top(d0 + seq![','] + d1 + seq![','] + d2) == seq![d0, d1, d2],
{
    let comma = seq![','];
    let e = Seq::<char>::empty();
    lemma_digits_no_separators(d0);
    lemma_digits_no_separators(d1);
    lemma_digits_no_separators(d2);
    assert(split_top_state(e) == (seq![e], 0int));
    lemma_split_extends(e, d0);
    assert(e + d0 =~= d0);
    assert(seq![e].update(0, e + d0) =~= seq![d0]);
    let x1 = d0 + comma;
    assert(x1.drop_last() =~= d0);
    assert(split_top_state(x1) == (seq![d0, e], 0int)) by {
        assert(seq![d0].push(e) =~= seq![d0, e]);
    }
    lemma_split_extends(x1, d1);
    assert(seq![d0, e].update(1, e + d1) =~= seq![d0, d1]);
    let x2 = x1 + d1 + comma;
    assert(x2.drop_last() =~= x1 + d1);
    assert(split_top_state(x2) == (seq![d0, d1, e], 0int)) by {
        assert(seq![d0, d1].push(e) =~= seq![d0, d1, e]);
    }
    lemma_split_extends(x2, d2);
    assert(seq![d0, d1, e].update(2, e + d2) =~= seq![d0, d1, d2]);
    assert(x2 + d2 =~= d0 + comma + d1 + comma + d2);
}

/// An address written as text reads back as the memory value of its three numbers:
/// what `define` puts in place of a stack variable is a read of the cell it reserved.
pub proof fn law_address_reads_back(v: (u8, u8, u8), names: Seq<Seq<char>>)
    ensures
        spec_value(address_text(v), names) == Ok::<Value, (ParseErrorKind, Seq<char>)>(
            Value::Memory(
                Box::new(Value::Pure { value: v.0 }),
                Box::new(Value::Pure { value: v.1 }),
                Box::new(Value::Pure { value: v.2 }),
            ),
        ),
{
    let (d0, d1, d2) = (decimal(v.0), decimal(v.1), decimal(v.2));
    lemma_decimal(v.0);
    lemma_decimal(v.1);
    lemma_decimal(v.2);
    lemma_decimal_value(v.0, names);
    lemma_decimal_value(v.1, names);
    lemma_decimal_value(v.2, names);
    let inner = d0 + seq![','] + d1 + seq![','] + d2;
    lemma_split_address(d0, d1, d2);
    let s = address_text(v);
    assert(s =~= seq!['['] + inner + seq![']']);
    assert(s.subrange(1, s.len() - 1) =~= inner);
    assert(s[0] == '[');
    assert(s.last() == ']');
    assert(!all_digits(s)) by {
        assert(!is_digit(s[0]));
    }
    assert(has_char(s, '['));
}


/// A call in `inst` targets a procedure below `bound`.
pub open spec fn call_below(inst: SpecInstruction, bound: int) -> bool {
    match inst {
        SpecInstruction::Call { proc_index, .. } => proc_index < bound,
        _ => true,
    }
}

/// Every call in the procedures `procs` targets a procedure below `bound`.
pub open spec fn calls_below(procs: Seq<SpecProcedure>, bound: int) -> bool {
    forall|k: int|
        0 <= k < procs.len() ==> match #[trigger] procs[k] {
            SpecProcedure::BuiltOut { code, .. } => forall|j: int| 0 <= j < code.len() ==> #[trigger] call_below(code[j], bound),
            SpecProcedure::BuiltIn { .. } => true,
        }
}

/// There are no more headers than lines.
proof fn lemma_header_count_bound(ls: Seq<SpecLine>)
    ensures
        header_count(ls) <= ls.len(),
    decreases ls.len(),
{
    if ls.len() > 0 {
        lemma_header_count_bound(ls.drop_last());
    }
}

/// A call that a line gives targets one of the named procedures.
proof fn lemma_line_instruction_calls(
    ls: Seq<SpecLine>,
    i: int,
    n: int,
    names: Seq<Seq<char>>,
    args: Seq<Seq<char>>,
)
    requires
        0 <= i < ls.len(),
        names.len() <= usize::MAX,
    ensures
        spec_line_instruction(ls, i, n, names, args) is Ok ==> call_below(
            spec_line_instruction(ls, i, n, names, args)->Ok_0,
            names.len() as int,
        ),
{
    let c = ls[i].code;
    lemma_name_index_bound(names, before_char(c, '('));
}

/// The scan from line `i` only adds calls of named procedures.
proof fn lemma_tree_from_calls(
    ls: Seq<SpecLine>,
    i: int,
    names: Seq<Seq<char>>,
    procs: Seq<SpecProcedure>,
    args: Seq<Seq<char>>,
)
    requires
        0 <= i <= ls.len(),
        names.len() <= usize::MAX,
        calls_below(procs, names.len() as int),
    ensures
        tree_from(ls, i, names, procs, args) is Ok ==> calls_below(
            tree_from(ls, i, names, procs, args)->Ok_0,
            names.len() as int,
        ),
    decreases ls.len() - i,
{
    let bound = names.len() as int;
    if i < ls.len() {
        let l = ls[i];
        if l.depth == 0 {
            match paren_inside(l.code) {
                None => {},
                Some(inside) => {
                    let a = split_on(inside, ',');
                    let p2 = procs.push(SpecProcedure::BuiltOut { arg_count: a.len() as usize, code: Seq::empty() });
                    assert forall|k: int| 0 <= k < p2.len() implies match #[trigger] p2[k] {
                        SpecProcedure::BuiltOut { code, .. } => forall|j: int|
                            0 <= j < code.len() ==> #[trigger] call_below(code[j], bound),
                        SpecProcedure::BuiltIn { .. } => true,
                    } by {
                        if k < procs.len() {
                            assert(p2[k] == procs[k]);
                        }
                    }
                    lemma_tree_from_calls(ls, i + 1, names, p2, a);
                },
            }
        } else if procs.len() > 0 {
            match procs.last() {
                SpecProcedure::BuiltIn { .. } => {},
                SpecProcedure::BuiltOut { arg_count, code } => if is_else_line(l) {
                    lemma_tree_from_calls(ls, i + 1, names, procs, args);
                } else {
                    lemma_line_instruction_calls(ls, i, code.len() as int, names, args);
                    match spec_line_instruction(ls, i, code.len() as int, names, args) {
                        Err(_) => {},
                        Ok(inst) => {
                            let code2 = code.push(inst);
                            let p2 = procs.update(procs.len() - 1, SpecProcedure::BuiltOut { arg_count, code: code2 });
                            assert(procs[procs.len() - 1] == procs.last());
                            assert forall|k: int| 0 <= k < p2.len() implies match #[trigger] p2[k] {
                                SpecProcedure::BuiltOut { code, .. } => forall|j: int|
                                    0 <= j < code.len() ==> #[trigger] call_below(code[j], bound),
                                SpecProcedure::BuiltIn { .. } => true,
                            } by {
                                if k < procs.len() - 1 {
                                    assert(p2[k] == procs[k]);
                                } else {
                                    assert forall|j: int| 0 <= j < code2.len() implies #[trigger] call_below(
                                        code2[j],
                                        bound,
                                    ) by {
                                        if j < code.len() {
                                            assert(code2[j] == code[j]);
                                        }
                                    }
                                }
                            }
                            lemma_tree_from_calls(ls, i + 1, names, p2, args);
                        },
                    }
                },
            }
        }
    }
}

/// Every call in a program tree targets a procedure of that tree: a tree that
/// `create_syntax_tree` builds never makes the interpreter call past its table.
pub proof fn law_calls_stay_in_tree(ls: Seq<SpecLine>)
    requires
        spec_syntax_tree(ls) is Ok,
        ls.len() + BUILTIN_COUNT <= usize::MAX,
    ensures
        calls_below(spec_syntax_tree(ls)->Ok_0, spec_syntax_tree(ls)->Ok_0.len() as int),
{
    law_tree_layout(ls);
    lemma_defined_names_len(ls);
    lemma_header_count_bound(ls);
    let user = defined_names(ls)->Ok_0;
    let names = builtin_names() + user;
    assert(calls_below(builtin_procs(), names.len() as int));
    lemma_tree_from_calls(ls, 0, names, builtin_procs(), Seq::empty());
}

} // verus!
