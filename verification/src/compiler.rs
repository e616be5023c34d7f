use vstd::prelude::*;

use crate::define::{
    command_numbers, command_numbers_exec, define, define_usage, find_line_with, first_line_with, lemma_first_line_with,
    spec_define,
};
use crate::kerneler::{
    dual_fn, dual_operations, else_if, else_if_from, function, ifs_closed_from, kerr_view, law_missing_else_closes_every_if,
    lines_view, map_lines, memory_write,
    missing_else, missing_else_from, mono_operations, remove_spaces, spec_function_line, spec_memory_write_line,
    spec_mono_line, spec_remove_spaces_line, CodeLine, KernelError, KernelErrorKind, SpecKernelError, SpecLine,
};
use crate::lexer::{spec_to_code_lines, to_code_lines};
use crate::rewrite::{
    arg_reference, arg_reference_fn, call_fn, function_call, pointer, pointer_fn, reference, reference_fn,
};
use crate::text::{is_ascii_text, to_chars};

verus! {

/// The grid size used when the code gives none.
pub const DEFAULT_SIZE: (u8, u8) = (50u8, 50u8);

/// The lines without their first `#size` line, and the grid size it sets (the default
/// size when there is none).
pub open spec fn size_command(ls: Seq<SpecLine>) -> Result<(Seq<SpecLine>, (u8, u8)), SpecKernelError> {
    match first_line_with(ls, seq!['#', 's', 'i', 'z', 'e']) {
        None => Ok((ls, DEFAULT_SIZE)),
        Some(i) => match command_numbers(ls[i].code, 2) {
            None => Err((KernelErrorKind::InvalidSizeCommand, Seq::empty())),
            Some(v) => Ok((ls.remove(i), (v[0], v[1]))),
        },
    }
}

/// `f` applied to the lines in `r`, or the error in `r`.
pub open spec fn and_then(
    r: Result<Seq<SpecLine>, SpecKernelError>,
    f: spec_fn(Seq<SpecLine>) -> Result<Seq<SpecLine>, SpecKernelError>,
) -> Result<Seq<SpecLine>, SpecKernelError> {
    match r {
        Err(e) => Err(e),
        Ok(ls) => f(ls),
    }
}

/// The rewriting passes, in order, from the definitions to the missing `else` blocks.
pub open spec fn spec_passes(ls: Seq<SpecLine>) -> Result<Seq<SpecLine>, SpecKernelError> {
    let defined = spec_define(ls);
    let referenced = and_then(
        defined,
        |a: Seq<SpecLine>| map_lines(a.map_values(|l: SpecLine| spec_remove_spaces_line(l)), reference_fn()),
    );
    let args = and_then(referenced, |a: Seq<SpecLine>| map_lines(a, arg_reference_fn()));
    let pointers = and_then(args, |a: Seq<SpecLine>| map_lines(a, pointer_fn()));
    let operations = and_then(
        pointers,
        |a: Seq<SpecLine>| map_lines(a.map_values(|l: SpecLine| spec_function_line(l)), dual_fn()),
    );
    let calls = and_then(
        operations,
        |a: Seq<SpecLine>|
            map_lines(
                a.map_values(|l: SpecLine| spec_mono_line(l)).map_values(|l: SpecLine| spec_memory_write_line(l)),
                call_fn(),
            ),
    );
    let chained = and_then(calls, |a: Seq<SpecLine>| else_if_from(a, a.len() as int));
    and_then(chained, |a: Seq<SpecLine>| missing_else_from(a, a.len() as int))
}

/// What compiling the source code `code` gives: the kernel lines, the grid size, and
/// the usage of the stack when a `#stack` command activates one.
pub open spec fn spec_kernel(code: Seq<char>) -> Result<(Seq<SpecLine>, (u8, u8), Option<(u32, u32)>), SpecKernelError> {
    match spec_to_code_lines(code) {
        Err(e) => Err(e),
        Ok(ls0) => match size_command(ls0) {
            Err(e) => Err(e),
            Ok((ls1, size)) => match spec_passes(ls1) {
                Err(e) => Err(e),
                Ok(ls) => Ok((ls, size, define_usage(ls1))),
            },
        },
    }
}

/// Takes the `#size` line out of the lines and gives the grid size it sets.
fn take_size(lines: &mut Vec<CodeLine>) -> (r: Result<(u8, u8), KernelError>)
    ensures
        match size_command(lines_view(old(lines)@)) {
            Ok((ls, size)) => r is Ok && lines_view(final(lines)@) == ls && r->Ok_0 == size,
            Err(e) => r is Err && kerr_view(r->Err_0) == e,
        },
{
    let ghost v = lines_view(lines@);
    let word = ['#', 's', 'i', 'z', 'e'];
    assert(word@ =~= seq!['#', 's', 'i', 'z', 'e']);
    match find_line_with(lines, &word) {
        None => Ok(DEFAULT_SIZE),
        Some(i) => {
            proof {
                lemma_first_line_with(v, seq!['#', 's', 'i', 'z', 'e']);
            }
            assert(v[i as int] == lines@[i as int]@);
            match command_numbers_exec(&lines[i].code, 2) {
                None => Err(KernelError { kind: KernelErrorKind::InvalidSizeCommand, text: Vec::new() }),
                Some(nums) => {
                    let size = (nums[0], nums[1]);
                    let _ = lines.remove(i);
                    assert(lines_view(lines@) =~= v.remove(i as int));
                    Ok(size)
                },
            }
        },
    }
}

/// Compiles source code into kernel code: the kernel lines, the grid size, and the
/// cells used and the cells in the region of the stack, when one is active.
pub fn kernel(code: String) -> (r: Result<(Vec<CodeLine>, [u8; 2], Option<(u32, u32)>), KernelError>)
    requires
        is_ascii_text(code@),
    ensures
        match spec_kernel(code@) {
            Ok((ls, size, usage)) => r is Ok && lines_view(r->Ok_0.0@) == ls && r->Ok_0.1@ == seq![size.0, size.1]
                && r->Ok_0.2 == usage,
            Err(e) => r is Err && kerr_view(r->Err_0) == e,
        },
{
    let chars = to_chars(&code);
    let mut lines = match to_code_lines(&chars) {
        Ok(ls) => ls,
        Err(e) => return Err(e),
    };
    let size = match take_size(&mut lines) {
        Ok(s) => s,
        Err(e) => return Err(e),
    };
    let usage = match define(&mut lines) {
        Ok(u) => u,
        Err(e) => return Err(e),
    };
    remove_spaces(&mut lines);
    match reference(&mut lines) {
        Ok(()) => {},
        Err(e) => return Err(e),
    }
    match arg_reference(&mut lines) {
        Ok(()) => {},
        Err(e) => return Err(e),
    }
    match pointer(&mut lines) {
        Ok(()) => {},
        Err(e) => return Err(e),
    }
    function(&mut lines);
    match dual_operations(&mut lines) {
        Ok(()) => {},
        Err(e) => return Err(e),
    }
    mono_operations(&mut lines);
    memory_write(&mut lines);
    match function_call(&mut lines) {
        Ok(()) => {},
        Err(e) => return Err(e),
    }
    match else_if(&mut lines) {
        Ok(()) => {},
        Err(e) => return Err(e),
    }
    match missing_else(&mut lines) {
        Ok(()) => {},
        Err(e) => return Err(e),
    }
    let dims = [size.0, size.1];
    Ok((lines, dims, usage))
}


/// `b` has the lines of `a`, each at the same depth and opening a block as before.
pub open spec fn same_structure(a: Seq<SpecLine>, b: Seq<SpecLine>) -> bool {
    &&& a.len() == b.len()
    &&& forall|k: int| 0 <= k < a.len() ==> (#[trigger] b[k]).depth == a[k].depth && b[k].starts_closure == a[k].starts_closure
}

/// A line rewrite that keeps each line's depth and block flag keeps them for all lines.
proof fn lemma_map_lines_structure(ls: Seq<SpecLine>, f: spec_fn(SpecLine) -> Result<SpecLine, SpecKernelError>)
    requires
        forall|l: SpecLine| #[trigger] f(l) is Ok ==> f(l)->Ok_0.depth == l.depth && f(l)->Ok_0.starts_closure
            == l.starts_closure,
    ensures
        map_lines(ls, f) is Ok ==> same_structure(ls, map_lines(ls, f)->Ok_0),
    decreases ls.len(),
{
    if ls.len() > 0 {
        lemma_map_lines_structure(ls.drop_last(), f);
        if map_lines(ls, f) is Ok {
            let done = map_lines(ls.drop_last(), f)->Ok_0;
            let out = map_lines(ls, f)->Ok_0;
            assert(f(ls.last()) is Ok);
            assert forall|k: int| 0 <= k < ls.len() implies (#[trigger] out[k]).depth == ls[k].depth
                && out[k].starts_closure == ls[k].starts_closure by {
                if k < ls.len() - 1 {
                    assert(out[k] == done[k]);
                    assert(ls[k] == ls.drop_last()[k]);
                }
            }
        }
    }
}

/// The passes that rewrite one line at a time keep the number of lines, and each line
/// keeps its depth and whether it opens a block: removing spaces, references, argument
/// references, pointers, functions, operations, memory writes and calls.
pub proof fn law_line_passes_keep_structure(ls: Seq<SpecLine>)
    ensures
        same_structure(ls, ls.map_values(|l: SpecLine| spec_remove_spaces_line(l))),
        same_structure(ls, ls.map_values(|l: SpecLine| spec_function_line(l))),
        same_structure(ls, ls.map_values(|l: SpecLine| spec_mono_line(l))),
        same_structure(ls, ls.map_values(|l: SpecLine| spec_memory_write_line(l))),
        map_lines(ls, reference_fn()) is Ok ==> same_structure(ls, map_lines(ls, reference_fn())->Ok_0),
        map_lines(ls, arg_reference_fn()) is Ok ==> same_structure(ls, map_lines(ls, arg_reference_fn())->Ok_0),
        map_lines(ls, pointer_fn()) is Ok ==> same_structure(ls, map_lines(ls, pointer_fn())->Ok_0),
        map_lines(ls, dual_fn()) is Ok ==> same_structure(ls, map_lines(ls, dual_fn())->Ok_0),
        map_lines(ls, call_fn()) is Ok ==> same_structure(ls, map_lines(ls, call_fn())->Ok_0),
{
    lemma_map_lines_structure(ls, reference_fn());
    lemma_map_lines_structure(ls, arg_reference_fn());
    lemma_map_lines_structure(ls, pointer_fn());
    lemma_map_lines_structure(ls, dual_fn());
    lemma_map_lines_structure(ls, call_fn());
}

/// Every `if` block of compiled kernel code is followed by an `else` block of its own,
/// at the `if`'s depth.
pub proof fn law_kernel_closes_every_if(code: Seq<char>)
    ensures
        spec_kernel(code) is Ok ==> ifs_closed_from(spec_kernel(code)->Ok_0.0, 0),
{
    match spec_to_code_lines(code) {
        Err(_) => {},
        Ok(ls0) => match size_command(ls0) {
            Err(_) => {},
            Ok((ls1, _)) => {
                let defined = spec_define(ls1);
                let referenced = and_then(
                    defined,
                    |a: Seq<SpecLine>| map_lines(a.map_values(|l: SpecLine| spec_remove_spaces_line(l)), reference_fn()),
                );
                let args = and_then(referenced, |a: Seq<SpecLine>| map_lines(a, arg_reference_fn()));
                let pointers = and_then(args, |a: Seq<SpecLine>| map_lines(a, pointer_fn()));
                let operations = and_then(
                    pointers,
                    |a: Seq<SpecLine>| map_lines(a.map_values(|l: SpecLine| spec_function_line(l)), dual_fn()),
                );
                let calls = and_then(
                    operations,
                    |a: Seq<SpecLine>|
                        map_lines(
                            a.map_values(|l: SpecLine| spec_mono_line(l)).map_values(
                                |l: SpecLine| spec_memory_write_line(l),
                            ),
                            call_fn(),
                        ),
                );
                let chained = and_then(calls, |a: Seq<SpecLine>| else_if_from(a, a.len() as int));
                assert(spec_passes(ls1) == and_then(chained, |a: Seq<SpecLine>| missing_else_from(a, a.len() as int)));
                match chained {
                    Err(_) => {},
                    Ok(a) => {
                        law_missing_else_closes_every_if(a);
                    },
                }
            },
        },
    }
}

} // verus!
