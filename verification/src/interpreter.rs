use vstd::prelude::*;

use crate::builtin::{apply, keeps_shape, spec_arg_count, spec_builtin};
use crate::sigma::{Grid, RuntimeError, Sigma};
use crate::syntax_tree::{spec_eval, Instruction, Procedure, SpecInstruction, SpecProcedure, Value};

verus! {

/// The state of one running procedure.
#[derive(Debug)]
pub struct StackFrame {
    /// The procedure that runs.
    pub proc_index: usize,
    /// The values of its arguments.
    pub args: Vec<u8>,
    /// The instruction to run next.
    pub inst_index: usize,
    /// The indices of the `while` and `if` instructions whose bodies are running,
    /// innermost last.
    pub closure_stack: Vec<usize>,
}

/// The abstract form of a stack frame.
pub struct SpecFrame {
    pub proc_index: usize,
    pub args: Seq<u8>,
    pub inst_index: usize,
    pub closure_stack: Seq<usize>,
}

impl View for StackFrame {
    type V = SpecFrame;

    open spec fn view(&self) -> SpecFrame {
        SpecFrame {
            proc_index: self.proc_index,
            args: self.args@,
            inst_index: self.inst_index,
            closure_stack: self.closure_stack@,
        }
    }
}

/// The abstract form of a call stack.
pub open spec fn frames_view(s: Seq<StackFrame>) -> Seq<SpecFrame> {
    s.map_values(|f: StackFrame| f@)
}

/// The abstract form of a program tree.
pub open spec fn tree_view(t: Seq<Procedure>) -> Seq<SpecProcedure> {
    t.map_values(|p: Procedure| p@)
}

/// The body of procedure `pi`, when it is one that the program defines.
pub open spec fn body_of(tree: Seq<SpecProcedure>, pi: usize) -> Option<Seq<SpecInstruction>> {
    if pi < tree.len() {
        match tree[pi as int] {
            SpecProcedure::BuiltOut { code, .. } => Some(code),
            SpecProcedure::BuiltIn { .. } => None,
        }
    } else {
        None
    }
}

/// The measure that bounds the unwinding done by `spec_check`.
pub open spec fn top_closures(stack: Seq<SpecFrame>) -> nat {
    if stack.len() > 0 {
        stack.last().closure_stack.len()
    } else {
        0
    }
}

/// `stack` with its top frame replaced by `f`.
pub open spec fn with_top(stack: Seq<SpecFrame>, f: SpecFrame) -> Seq<SpecFrame> {
    stack.update(stack.len() - 1, f)
}

/// Leaves the bodies that the top frame has run to their end: a finished procedure
/// returns to its caller, which moves past the call; the end of a `while` body goes
/// back to the `while`; the end of the first branch of an `if` skips the second.
pub open spec fn spec_check(stack: Seq<SpecFrame>, tree: Seq<SpecProcedure>) -> Result<Seq<SpecFrame>, RuntimeError>
    decreases stack.len(), top_closures(stack),
{
    if stack.len() == 0 {
        Ok(stack)
    } else {
        let f = stack.last();
        match body_of(tree, f.proc_index) {
            None => Err(RuntimeError::MalformedProgram),
            Some(code) => if f.closure_stack.len() == 0 {
                if f.inst_index >= code.len() {
                    let rest = stack.drop_last();
                    if rest.len() > 0 {
                        let p = rest.last();
                        if p.inst_index >= usize::MAX {
                            Err(RuntimeError::MalformedProgram)
                        } else {
                            spec_check(
                                with_top(rest, SpecFrame { inst_index: (p.inst_index + 1) as usize, ..p }),
                                tree,
                            )
                        }
                    } else {
                        Ok(rest)
                    }
                } else {
                    Ok(stack)
                }
            } else {
                let ci = f.closure_stack.last();
                if ci >= code.len() {
                    Err(RuntimeError::MalformedProgram)
                } else {
                    match code[ci as int] {
                        SpecInstruction::While { next_index, .. } => if f.inst_index == next_index {
                            Ok(
                                with_top(
                                    stack,
                                    SpecFrame {
                                        inst_index: ci,
                                        closure_stack: f.closure_stack.drop_last(),
                                        ..f
                                    },
                                ),
                            )
                        } else {
                            Ok(stack)
                        },
                        SpecInstruction::IfElse { else_index, next_index, .. } => if f.inst_index
                            == else_index {
                            spec_check(
                                with_top(
                                    stack,
                                    SpecFrame {
                                        inst_index: next_index,
                                        closure_stack: f.closure_stack.drop_last(),
                                        ..f
                                    },
                                ),
                                tree,
                            )
                        } else {
                            Ok(stack)
                        },
                        SpecInstruction::Call { .. } => Err(RuntimeError::MalformedProgram),
                    }
                }
            },
        }
    }
}

/// The values of `vals`, evaluated in order; the first error stops the evaluation.
pub open spec fn spec_eval_all(vals: Seq<Value>, g: Grid, args: Seq<u8>) -> Result<Seq<u8>, RuntimeError>
    decreases vals.len(),
{
    if vals.len() == 0 {
        Ok(Seq::empty())
    } else {
        match spec_eval_all(vals.drop_last(), g, args) {
            Err(e) => Err(e),
            Ok(vs) => match spec_eval(vals.last(), g, args) {
                Err(e) => Err(e),
                Ok(v) => Ok(vs.push(v)),
            },
        }
    }
}

/// The top frame moved to instruction `i` and checked.
pub open spec fn goto(stack: Seq<SpecFrame>, tree: Seq<SpecProcedure>, i: usize) -> Result<Seq<SpecFrame>, RuntimeError> {
    spec_check(with_top(stack, SpecFrame { inst_index: i, ..stack.last() }), tree)
}

/// The top frame entered the body of the `while` or `if` at its current instruction.
pub open spec fn enter(stack: Seq<SpecFrame>, tree: Seq<SpecProcedure>) -> Result<Seq<SpecFrame>, RuntimeError> {
    let f = stack.last();
    if f.inst_index >= usize::MAX {
        Err(RuntimeError::MalformedProgram)
    } else {
        spec_check(
            with_top(
                stack,
                SpecFrame {
                    inst_index: (f.inst_index + 1) as usize,
                    closure_stack: f.closure_stack.push(f.inst_index),
                    ..f
                },
            ),
            tree,
        )
    }
}

/// The outcome of one step: the stack and the memory after it, or the error that
/// stopped the program (with the memory as the step left it).
pub open spec fn spec_step(stack: Seq<SpecFrame>, tree: Seq<SpecProcedure>, g: Grid) -> (Result<Seq<SpecFrame>, RuntimeError>, Grid) {
    let f = stack.last();
    match body_of(tree, f.proc_index) {
        None => (Err(RuntimeError::MalformedProgram), g),
        Some(code) => if f.inst_index >= code.len() {
            (Err(RuntimeError::MalformedProgram), g)
        } else {
            match code[f.inst_index as int] {
                SpecInstruction::While { condition, next_index } => match spec_eval(condition, g, f.args) {
                    Err(e) => (Err(e), g),
                    Ok(v) => if v == 0 {
                        (goto(stack, tree, next_index), g)
                    } else {
                        (enter(stack, tree), g)
                    },
                },
                SpecInstruction::IfElse { condition, else_index, .. } => match spec_eval(condition, g, f.args) {
                    Err(e) => (Err(e), g),
                    Ok(v) => if v == 0 {
                        (goto(stack, tree, else_index), g)
                    } else {
                        (enter(stack, tree), g)
                    },
                },
                SpecInstruction::Call { proc_index, args } => if proc_index >= tree.len() {
                    (Err(RuntimeError::MalformedProgram), g)
                } else {
                    match tree[proc_index as int] {
                        SpecProcedure::BuiltIn { arg_count, func } => if arg_count != args.len() {
                            (Err(RuntimeError::ArgumentCount { given: args.len() as usize, expected: arg_count }), g)
                        } else {
                            match spec_eval_all(args, g, f.args) {
                                Err(e) => (Err(e), g),
                                Ok(vs) => if vs.len() < spec_arg_count(func) {
                                    (Err(RuntimeError::MalformedProgram), g)
                                } else {
                                    let (r, g2) = spec_builtin(func, g, vs);
                                    match r {
                                        Err(e) => (Err(e), g2),
                                        Ok(_) => if f.inst_index >= usize::MAX {
                                            (Err(RuntimeError::MalformedProgram), g2)
                                        } else {
                                            (goto(stack, tree, (f.inst_index + 1) as usize), g2)
                                        },
                                    }
                                },
                            }
                        },
                        SpecProcedure::BuiltOut { arg_count, .. } => if arg_count != args.len() {
                            (Err(RuntimeError::ArgumentCount { given: args.len() as usize, expected: arg_count }), g)
                        } else {
                            match spec_eval_all(args, g, f.args) {
                                Err(e) => (Err(e), g),
                                Ok(vs) => (
                                    spec_check(
                                        stack.push(
                                            SpecFrame {
                                                proc_index,
                                                args: vs,
                                                inst_index: 0,
                                                closure_stack: Seq::empty(),
                                            },
                                        ),
                                        tree,
                                    ),
                                    g,
                                ),
                            }
                        },
                    }
                },
            }
        }
    }
}

/// The outcome of running at most `fuel` steps: whether the program finished, or the
/// error that stopped it, with the stack and memory left.
pub open spec fn spec_run(stack: Seq<SpecFrame>, tree: Seq<SpecProcedure>, g: Grid, fuel: nat) -> (Result<bool, RuntimeError>, Seq<SpecFrame>, Grid)
    decreases fuel,
{
    if stack.len() == 0 {
        (Ok(true), stack, g)
    } else if fuel == 0 {
        (Ok(false), stack, g)
    } else {
        let (r, g2) = spec_step(stack, tree, g);
        match r {
            Err(e) => (Err(e), stack, g2),
            Ok(s2) => spec_run(s2, tree, g2, (fuel - 1) as nat),
        }
    }
}

/// The stack a program starts with: procedure `main_index` at its first instruction,
/// without arguments.
pub open spec fn initial_stack(main_index: usize) -> Seq<SpecFrame> {
    seq![SpecFrame { proc_index: main_index, args: Seq::empty(), inst_index: 0, closure_stack: Seq::empty() }]
}

/// The top frame of a non-empty stack, taken off it.
fn take_top(stack: &mut Vec<StackFrame>) -> (f: StackFrame)
    requires
        old(stack)@.len() > 0,
    ensures
        f == old(stack)@.last(),
        final(stack)@ == old(stack)@.drop_last(),
{
    match stack.pop() {
        Some(f) => f,
        None => {
            assert(false);
            StackFrame { proc_index: 0, args: Vec::new(), inst_index: 0, closure_stack: Vec::new() }
        },
    }
}

/// Leaves the bodies that the top frame has run to their end (see `spec_check`).
pub fn check(stack: &mut Vec<StackFrame>, tree: &Vec<Procedure>) -> (r: Result<(), RuntimeError>)
    ensures
        match spec_check(frames_view(old(stack)@), tree_view(tree@)) {
            Ok(s) => r is Ok && frames_view(final(stack)@) == s,
            Err(e) => r == Err::<(), RuntimeError>(e),
        },
    decreases old(stack)@.len(), top_closures(frames_view(old(stack)@)),
{
    let ghost s0 = frames_view(stack@);
    let ghost t = tree_view(tree@);
    if stack.len() == 0 {
        assert(frames_view(stack@) =~= s0);
        return Ok(());
    }
    let top = stack.len() - 1;
    assert(s0.last() == stack@[top as int]@);
    let pi = stack[top].proc_index;
    if pi >= tree.len() {
        return Err(RuntimeError::MalformedProgram);
    }
    match &tree[pi] {
        Procedure::BuiltIn { .. } => Err(RuntimeError::MalformedProgram),
        Procedure::BuiltOut { arg_count: _, code } => {
            assert(body_of(t, pi) == Some(code@.map_values(|i: Instruction| i@)));
            if stack[top].closure_stack.len() == 0 {
                if stack[top].inst_index >= code.len() {
                    let _ = take_top(stack);
                    assert(frames_view(stack@) =~= s0.drop_last());
                    if stack.len() > 0 {
                        let mut parent = take_top(stack);
                        if parent.inst_index >= usize::MAX {
                            return Err(RuntimeError::MalformedProgram);
                        }
                        parent.inst_index = parent.inst_index + 1;
                        stack.push(parent);
                        assert(frames_view(stack@) =~= with_top(
                            s0.drop_last(),
                            SpecFrame { inst_index: parent.inst_index, ..s0.drop_last().last() },
                        ));
                        return check(stack, tree);
                    }
                    return Ok(());
                }
                assert(frames_view(stack@) =~= s0);
                return Ok(());
            }
            let ci = stack[top].closure_stack[stack[top].closure_stack.len() - 1];
            if ci >= code.len() {
                return Err(RuntimeError::MalformedProgram);
            }
            match &code[ci] {
                Instruction::While { condition: _, next_index } => {
                    if stack[top].inst_index == *next_index {
                        let mut f = take_top(stack);
                        f.inst_index = ci;
                        let _ = f.closure_stack.pop();
                        stack.push(f);
                        assert(frames_view(stack@) =~= with_top(
                            s0,
                            SpecFrame {
                                inst_index: ci,
                                closure_stack: s0.last().closure_stack.drop_last(),
                                ..s0.last()
                            },
                        ));
                    } else {
                        assert(frames_view(stack@) =~= s0);
                    }
                    Ok(())
                },
                Instruction::IfElse { condition: _, else_index, next_index } => {
                    if stack[top].inst_index == *else_index {
                        let mut f = take_top(stack);
                        f.inst_index = *next_index;
                        let _ = f.closure_stack.pop();
                        stack.push(f);
                        assert(frames_view(stack@) =~= with_top(
                            s0,
                            SpecFrame {
                                inst_index: *next_index,
                                closure_stack: s0.last().closure_stack.drop_last(),
                                ..s0.last()
                            },
                        ));
                        return check(stack, tree);
                    }
                    assert(frames_view(stack@) =~= s0);
                    Ok(())
                },
                Instruction::Call { .. } => Err(RuntimeError::MalformedProgram),
            }
        },
    }
}

/// The values of `vals` in memory `sigma` with arguments `args`, in order.
pub fn eval_all(vals: &Vec<Value>, sigma: &Sigma, args: &Vec<u8>) -> (r: Result<Vec<u8>, RuntimeError>)
    requires
        sigma.wf(),
    ensures
        match spec_eval_all(vals@, sigma@, args@) {
            Ok(vs) => r is Ok && r->Ok_0@ == vs,
            Err(e) => r == Err::<Vec<u8>, RuntimeError>(e),
        },
{
    let mut out: Vec<u8> = Vec::new();
    let mut i: usize = 0;
    while i < vals.len()
        invariant
            sigma.wf(),
            i <= vals@.len(),
            spec_eval_all(vals@.subrange(0, i as int), sigma@, args@) == Ok::<Seq<u8>, RuntimeError>(out@),
        decreases vals@.len() - i,
    {
        assert(vals@.subrange(0, i + 1).drop_last() =~= vals@.subrange(0, i as int));
        let v = vals[i].eval(sigma, args);
        match v {
            Ok(x) => out.push(x),
            Err(e) => {
                proof {
                    lemma_eval_all_prefix_err(vals@, sigma@, args@, i as int + 1);
                }
                return Err(e);
            },
        }
        i = i + 1;
    }
    assert(vals@.subrange(0, vals@.len() as int) =~= vals@);
    Ok(out)
}

/// An error in the evaluation of a prefix is the error of the whole evaluation.
pub proof fn lemma_eval_all_prefix_err(vals: Seq<Value>, g: Grid, args: Seq<u8>, k: int)
    requires
        0 <= k <= vals.len(),
        spec_eval_all(vals.subrange(0, k), g, args) is Err,
    ensures
        spec_eval_all(vals, g, args) == spec_eval_all(vals.subrange(0, k), g, args),
    decreases vals.len() - k,
{
    if k < vals.len() {
        assert(vals.subrange(0, k + 1).drop_last() =~= vals.subrange(0, k));
        lemma_eval_all_prefix_err(vals, g, args, k + 1);
    } else {
        assert(vals.subrange(0, k) =~= vals);
    }
}

/// The top frame moved to instruction `i`, then checked.
fn goto_exec(stack: &mut Vec<StackFrame>, tree: &Vec<Procedure>, i: usize) -> (r: Result<(), RuntimeError>)
    requires
        old(stack)@.len() > 0,
    ensures
        match goto(frames_view(old(stack)@), tree_view(tree@), i) {
            Ok(s) => r is Ok && frames_view(final(stack)@) == s,
            Err(e) => r == Err::<(), RuntimeError>(e),
        },
{
    let mut f = take_top(stack);
    f.inst_index = i;
    stack.push(f);
    assert(frames_view(stack@) =~= with_top(
        frames_view(old(stack)@),
        SpecFrame { inst_index: i, ..frames_view(old(stack)@).last() },
    ));
    check(stack, tree)
}

/// The top frame entered the body of its current instruction, then checked.
fn enter_exec(stack: &mut Vec<StackFrame>, tree: &Vec<Procedure>) -> (r: Result<(), RuntimeError>)
    requires
        old(stack)@.len() > 0,
    ensures
        match enter(frames_view(old(stack)@), tree_view(tree@)) {
            Ok(s) => r is Ok && frames_view(final(stack)@) == s,
            Err(e) => r == Err::<(), RuntimeError>(e),
        },
{
    let mut f = take_top(stack);
    if f.inst_index >= usize::MAX {
        return Err(RuntimeError::MalformedProgram);
    }
    let here = f.inst_index;
    f.closure_stack.push(here);
    f.inst_index = here + 1;
    stack.push(f);
    assert(frames_view(stack@) =~= with_top(
        frames_view(old(stack)@),
        SpecFrame {
            inst_index: (here + 1) as usize,
            closure_stack: frames_view(old(stack)@).last().closure_stack.push(here),
            ..frames_view(old(stack)@).last()
        },
    ));
    check(stack, tree)
}

/// Runs the instruction that the top frame is at (see `spec_step`).
pub fn step(stack: &mut Vec<StackFrame>, tree: &Vec<Procedure>, sigma: &mut Sigma) -> (r: Result<(), RuntimeError>)
    requires
        old(stack)@.len() > 0,
        old(sigma).wf(),
    ensures
        keeps_shape(*old(sigma), *final(sigma)),
        ({
            let (res, g) = spec_step(frames_view(old(stack)@), tree_view(tree@), old(sigma)@);
            &&& final(sigma)@ == g
            &&& match res {
                Ok(s) => r is Ok && frames_view(final(stack)@) == s,
                Err(e) => r == Err::<(), RuntimeError>(e),
            }
        }),
{
    let ghost s0 = frames_view(stack@);
    let ghost t = tree_view(tree@);
    let top = stack.len() - 1;
    assert(s0.last() == stack@[top as int]@);
    let pi = stack[top].proc_index;
    if pi >= tree.len() {
        return Err(RuntimeError::MalformedProgram);
    }
    let code = match &tree[pi] {
        Procedure::BuiltIn { .. } => {
            return Err(RuntimeError::MalformedProgram);
        },
        Procedure::BuiltOut { arg_count: _, code } => code,
    };
    assert(body_of(t, pi) == Some(code@.map_values(|i: Instruction| i@)));
    let at = stack[top].inst_index;
    if at >= code.len() {
        return Err(RuntimeError::MalformedProgram);
    }
    match &code[at] {
        Instruction::While { condition, next_index } => {
            let v = condition.eval(sigma, &stack[top].args)?;
            if v == 0 {
                goto_exec(stack, tree, *next_index)
            } else {
                enter_exec(stack, tree)
            }
        },
        Instruction::IfElse { condition, else_index, next_index: _ } => {
            let v = condition.eval(sigma, &stack[top].args)?;
            if v == 0 {
                goto_exec(stack, tree, *else_index)
            } else {
                enter_exec(stack, tree)
            }
        },
        Instruction::Call { proc_index, args } => {
            let callee = *proc_index;
            if callee >= tree.len() {
                return Err(RuntimeError::MalformedProgram);
            }
            match &tree[callee] {
                Procedure::BuiltIn { arg_count, func } => {
                    if *arg_count != args.len() {
                        return Err(RuntimeError::ArgumentCount { given: args.len(), expected: *arg_count });
                    }
                    let vals = eval_all(args, sigma, &stack[top].args)?;
                    if vals.len() < crate::builtin::arg_count(*func) {
                        return Err(RuntimeError::MalformedProgram);
                    }
                    apply(*func, sigma, vals)?;
                    if at >= usize::MAX {
                        return Err(RuntimeError::MalformedProgram);
                    }
                    goto_exec(stack, tree, at + 1)
                },
                Procedure::BuiltOut { arg_count, code: _ } => {
                    if *arg_count != args.len() {
                        return Err(RuntimeError::ArgumentCount { given: args.len(), expected: *arg_count });
                    }
                    let vals = eval_all(args, sigma, &stack[top].args)?;
                    let frame = StackFrame {
                        proc_index: callee,
                        args: vals,
                        inst_index: 0,
                        closure_stack: Vec::new(),
                    };
                    stack.push(frame);
                    assert(frames_view(stack@) =~= s0.push(
                        SpecFrame {
                            proc_index: callee,
                            args: frame@.args,
                            inst_index: 0,
                            closure_stack: Seq::empty(),
                        },
                    ));
                    check(stack, tree)
                },
            }
        },
    }
}

/// The stack a program starts with: procedure `main_index` at its first instruction.
pub fn start(main_index: usize) -> (s: Vec<StackFrame>)
    ensures
        frames_view(s@) == initial_stack(main_index),
{
    let mut s: Vec<StackFrame> = Vec::new();
    s.push(StackFrame { proc_index: main_index, args: Vec::new(), inst_index: 0, closure_stack: Vec::new() });
    assert(frames_view(s@) =~= initial_stack(main_index));
    s
}

/// Runs the program `tree` from procedure `main_index` on `sigma` for at most `fuel`
/// steps: `Ok(true)` when it finished, `Ok(false)` when the steps ran out first.
pub fn interpret(tree: Vec<Procedure>, main_index: usize, sigma: &mut Sigma, fuel: usize) -> (r: Result<bool, RuntimeError>)
    requires
        old(sigma).wf(),
    ensures
        keeps_shape(*old(sigma), *final(sigma)),
        ({
            let (res, _, g) = spec_run(initial_stack(main_index), tree_view(tree@), old(sigma)@, fuel as nat);
            r == res && final(sigma)@ == g
        }),
{
    let mut stack = start(main_index);
    run(&mut stack, &tree, sigma, fuel)
}

/// Runs at most `fuel` steps from `stack` (see `spec_run`).
pub fn run(stack: &mut Vec<StackFrame>, tree: &Vec<Procedure>, sigma: &mut Sigma, fuel: usize) -> (r: Result<bool, RuntimeError>)
    requires
        old(sigma).wf(),
    ensures
        keeps_shape(*old(sigma), *final(sigma)),
        ({
            let (res, s, g) = spec_run(frames_view(old(stack)@), tree_view(tree@), old(sigma)@, fuel as nat);
            &&& r == res
            &&& final(sigma)@ == g
            &&& r is Ok ==> frames_view(final(stack)@) == s
        }),
{
    let mut left = fuel;
    let ghost g0 = sigma@;
    let ghost w0 = sigma.spec_width();
    let ghost h0 = sigma.spec_height();
    while left > 0 && stack.len() > 0
        invariant
            sigma.wf(),
            sigma.spec_width() == w0,
            sigma.spec_height() == h0,
            g0 == old(sigma)@,
            w0 == old(sigma).spec_width(),
            h0 == old(sigma).spec_height(),
            left <= fuel,
            spec_run(frames_view(stack@), tree_view(tree@), sigma@, left as nat) == spec_run(
                frames_view(old(stack)@),
                tree_view(tree@),
                g0,
                fuel as nat,
            ),
        decreases left,
    {
        let ghost before = frames_view(stack@);
        let ghost gb = sigma@;
        match step(stack, tree, sigma) {
            Ok(()) => {},
            Err(e) => {
                proof {
                    let (res, g) = spec_step(before, tree_view(tree@), gb);
                    assert(spec_run(before, tree_view(tree@), gb, left as nat) == (
                        Err::<bool, RuntimeError>(e),
                        before,
                        g,
                    ));
                }
                return Err(e);
            },
        }
        left = left - 1;
    }
    assert(spec_run(frames_view(stack@), tree_view(tree@), sigma@, left as nat) == (
        Ok::<bool, RuntimeError>(stack@.len() == 0),
        frames_view(stack@),
        sigma@,
    ));
    Ok(stack.len() == 0)
}

/// A finished run leaves nothing on the stack; a run that is not finished leaves
/// a frame on it.
pub proof fn law_run_finished_iff_empty(stack: Seq<SpecFrame>, tree: Seq<SpecProcedure>, g: Grid, fuel: nat)
    ensures
        spec_run(stack, tree, g, fuel).0 is Ok ==> (spec_run(stack, tree, g, fuel).0 == Ok::<bool, RuntimeError>(true)
            <==> spec_run(stack, tree, g, fuel).1.len() == 0),
    decreases fuel,
{
    if stack.len() > 0 && fuel > 0 {
        let (r, g2) = spec_step(stack, tree, g);
        if let Ok(s2) = r {
            law_run_finished_iff_empty(s2, tree, g2, (fuel - 1) as nat);
        }
    }
}

/// Running `a + b` steps is running `a` steps, then `b` more from where they stopped
/// when the program neither finished nor failed in the first `a`; otherwise the first
/// run's outcome is the outcome.
pub proof fn law_run_split(stack: Seq<SpecFrame>, tree: Seq<SpecProcedure>, g: Grid, a: nat, b: nat)
    ensures
        ({
            let (r1, s1, g1) = spec_run(stack, tree, g, a);
            spec_run(stack, tree, g, a + b) == if r1 == Ok::<bool, RuntimeError>(false) {
                spec_run(s1, tree, g1, b)
            } else {
                (r1, s1, g1)
            }
        }),
    decreases a,
{
    if stack.len() > 0 && a > 0 {
        let (r, g2) = spec_step(stack, tree, g);
        if let Ok(s2) = r {
            law_run_split(s2, tree, g2, (a - 1) as nat, b);
            assert((a + b - 1) as nat == ((a - 1) as nat + b) as nat);
        }
    }
}

/// Returning from a procedure is moving the caller past its call: when the top frame has
/// run to the end of its body and left no block open, checking the stack gives what moving
/// the caller to the instruction after the call and checking gives; so the end of a
/// `while` or `if` block that the call ends is handled as after any other instruction.
pub proof fn law_return_moves_past_call(stack: Seq<SpecFrame>, tree: Seq<SpecProcedure>)
    requires
        stack.len() >= 2,
        body_of(tree, stack.last().proc_index) is Some,
        stack.last().closure_stack.len() == 0,
        stack.last().inst_index >= body_of(tree, stack.last().proc_index)->Some_0.len(),
        stack.drop_last().last().inst_index < usize::MAX,
    ensures
        spec_check(stack, tree) == goto(
            stack.drop_last(),
            tree,
            (stack.drop_last().last().inst_index + 1) as usize,
        ),
{
}

/// Calling a procedure whose body is empty, with arguments that evaluate, moves past the
/// call as a builtin call that succeeds does: the caller goes to the next instruction and
/// the stack is checked, with the memory unchanged.
pub proof fn law_empty_call_moves_past(stack: Seq<SpecFrame>, tree: Seq<SpecProcedure>, g: Grid)
    requires
        stack.len() >= 1,
        body_of(tree, stack.last().proc_index) is Some,
        stack.last().inst_index < body_of(tree, stack.last().proc_index)->Some_0.len(),
        body_of(tree, stack.last().proc_index)->Some_0[stack.last().inst_index as int] is Call,
        ({
            let inst = body_of(tree, stack.last().proc_index)->Some_0[stack.last().inst_index as int];
            &&& body_of(tree, inst->Call_proc_index) == Some(Seq::<SpecInstruction>::empty())
            &&& tree[inst->Call_proc_index as int]->BuiltOut_arg_count == inst->Call_args.len()
            &&& spec_eval_all(inst->Call_args, g, stack.last().args) is Ok
        }),
    ensures
        spec_step(stack, tree, g) == (
            if stack.last().inst_index >= usize::MAX {
                Err(RuntimeError::MalformedProgram)
            } else {
                goto(stack, tree, (stack.last().inst_index + 1) as usize)
            },
            g,
        ),
{
    let f = stack.last();
    let inst = body_of(tree, f.proc_index)->Some_0[f.inst_index as int];
    let pi = inst->Call_proc_index;
    let vs = spec_eval_all(inst->Call_args, g, f.args)->Ok_0;
    let pushed = stack.push(SpecFrame { proc_index: pi, args: vs, inst_index: 0, closure_stack: Seq::empty() });
    assert(pushed.drop_last() =~= stack);
    assert(pushed.last().proc_index == pi);
}

} // verus!
