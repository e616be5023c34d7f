use termlang::interpreter::{interpret, run, start};
use termlang::kerneler::CodeLine;
use termlang::parse::{create_syntax_tree, procedure_index};
use termlang::sigma::{RuntimeError, Sigma};
use termlang::syntax_tree::{Instruction, ParseErrorKind, Procedure, Value};
use termlang::compiler::kernel;

fn line(code: &str, depth: u8, starts_closure: bool) -> CodeLine {
    CodeLine { code: code.chars().collect(), depth, starts_closure }
}

fn chars(s: &str) -> Vec<char> {
    s.chars().collect()
}

/// Compiles, builds and runs `source`, and gives the memory it leaves.
fn execute(source: &str) -> (Result<bool, RuntimeError>, Sigma) {
    let (lines, size, _) = kernel(source.to_string()).unwrap();
    let tree = create_syntax_tree(&lines).unwrap();
    let main = procedure_index(&lines, &chars("main")).unwrap();
    let mut sigma = Sigma::new(size[0], size[1]);
    let r = interpret(tree, main, &mut sigma, 100_000);
    (r, sigma)
}

#[test]
fn the_tree_starts_with_the_builtins() {
    let lines = vec![line("proc:main()", 0, true), line("$write(7,0,0,0)", 1, false)];
    let tree = create_syntax_tree(&lines).unwrap();
    assert_eq!(tree.len(), 20);
    assert!(matches!(tree[0], Procedure::BuiltIn { arg_count: 4, .. }));
    assert!(matches!(tree[1], Procedure::BuiltIn { arg_count: 5, .. }));
    assert!(matches!(tree[18], Procedure::BuiltIn { arg_count: 4, .. }));
    match &tree[19] {
        Procedure::BuiltOut { arg_count, code } => {
            assert_eq!(*arg_count, 1);
            assert_eq!(code.len(), 1);
            match &code[0] {
                Instruction::Call { proc_index, args } => {
                    assert_eq!(*proc_index, 0);
                    assert_eq!(args.len(), 4);
                    assert!(matches!(args[0], Value::Pure { value: 7 }));
                    assert!(matches!(args[3], Value::Pure { value: 0 }));
                },
                _ => panic!("expected a call"),
            }
        },
        _ => panic!("expected a defined procedure"),
    }
}

#[test]
fn arguments_and_memory_reads_become_values() {
    let lines = vec![line("proc:f(a,b)", 0, true), line("$add([a,1,2],b,0,0,0)", 1, false)];
    let tree = create_syntax_tree(&lines).unwrap();
    match &tree[19] {
        Procedure::BuiltOut { arg_count, code } => {
            assert_eq!(*arg_count, 2);
            match &code[0] {
                Instruction::Call { proc_index, args } => {
                    assert_eq!(*proc_index, 1);
                    match &args[0] {
                        Value::Memory(x, y, z) => {
                            assert!(matches!(**x, Value::Argument { index: 0 }));
                            assert!(matches!(**y, Value::Pure { value: 1 }));
                            assert!(matches!(**z, Value::Pure { value: 2 }));
                        },
                        _ => panic!("expected a memory read"),
                    }
                    assert!(matches!(args[1], Value::Argument { index: 1 }));
                },
                _ => panic!("expected a call"),
            }
        },
        _ => panic!("expected a defined procedure"),
    }
}

#[test]
fn while_jumps_past_its_block() {
    let lines = vec![
        line("proc:main()", 0, true),
        line("while([0,0,0])", 1, true),
        line("$write(1,0,0,0)", 2, false),
        line("$write(2,0,0,0)", 1, false),
    ];
    let tree = create_syntax_tree(&lines).unwrap();
    match &tree[19] {
        Procedure::BuiltOut { code, .. } => {
            assert_eq!(code.len(), 3);
            assert!(matches!(code[0], Instruction::While { next_index: 2, .. }));
        },
        _ => panic!("expected a defined procedure"),
    }
}

#[test]
fn if_knows_its_else_and_its_end() {
    let lines = vec![
        line("proc:main()", 0, true),
        line("if(1)", 1, true),
        line("$write(1,0,0,0)", 2, false),
        line("else", 1, true),
        line("$write(2,0,0,0)", 2, false),
        line("$write(3,0,0,0)", 1, false),
    ];
    let tree = create_syntax_tree(&lines).unwrap();
    match &tree[19] {
        Procedure::BuiltOut { code, .. } => {
            assert_eq!(code.len(), 4);
            assert!(matches!(code[0], Instruction::IfElse { else_index: 2, next_index: 3, .. }));
        },
        _ => panic!("expected a defined procedure"),
    }
}

#[test]
fn code_outside_procedures_is_refused() {
    let err = create_syntax_tree(&vec![line("x", 0, false)]).unwrap_err();
    assert_eq!(err.kind, ParseErrorKind::CodeOutsideProcedures);
}

#[test]
fn code_before_any_procedure_is_refused() {
    let err = create_syntax_tree(&vec![line("$write(1,0,0,0)", 1, false)]).unwrap_err();
    assert_eq!(err.kind, ParseErrorKind::NoProcedureInitialized);
}

#[test]
fn a_header_without_brackets_is_refused() {
    let err = create_syntax_tree(&vec![line("proc:main", 0, true)]).unwrap_err();
    assert_eq!(err.kind, ParseErrorKind::InvalidProcedureDefinition);
}

#[test]
fn an_unknown_procedure_is_refused() {
    let err = create_syntax_tree(&vec![line("proc:main()", 0, true), line("nothing(1)", 1, false)]).unwrap_err();
    assert_eq!(err.kind, ParseErrorKind::ProcedureDoesNotExist);
    assert_eq!(err.text, chars("nothing(1)"));
}

#[test]
fn a_call_without_brackets_is_refused() {
    let err = create_syntax_tree(&vec![line("proc:main()", 0, true), line("$write", 1, false)]).unwrap_err();
    assert_eq!(err.kind, ParseErrorKind::InvalidProcedureCall);
}

#[test]
fn a_condition_too_short_is_refused() {
    let err = create_syntax_tree(&vec![line("proc:main()", 0, true), line("while(", 1, true)]).unwrap_err();
    assert_eq!(err.kind, ParseErrorKind::InvalidCondition);
}

#[test]
fn bad_values_are_refused() {
    let cases = [
        ("$write(300,0,0,0)", ParseErrorKind::InvalidPureValue, "300"),
        ("$write(q,0,0,0)", ParseErrorKind::InvalidArgument, "q"),
        ("$write([1,2,3,4],0,0,0)", ParseErrorKind::InvalidMemoryRead, "[1,2,3,4]"),
        ("$write(1],0,0,0)", ParseErrorKind::InvalidValueFormat, "1],0,0,0"),
    ];
    for (code, kind, text) in cases {
        let err = create_syntax_tree(&vec![line("proc:main()", 0, true), line(code, 1, false)]).unwrap_err();
        assert_eq!(err.kind, kind);
        assert_eq!(err.text, chars(text));
    }
}

#[test]
fn procedure_index_counts_builtins_first() {
    let lines = vec![line("proc:f(a)", 0, true), line("proc:main()", 0, true)];
    assert_eq!(procedure_index(&lines, &chars("$write")), Some(0));
    assert_eq!(procedure_index(&lines, &chars("$binot")), Some(18));
    assert_eq!(procedure_index(&lines, &chars("f")), Some(19));
    assert_eq!(procedure_index(&lines, &chars("main")), Some(20));
    assert_eq!(procedure_index(&lines, &chars("g")), None);
}

#[test]
fn a_value_evaluates_in_memory() {
    let mut sigma = Sigma::new(3, 3);
    sigma.set_cell(1, 2, 0, 42);
    let v = Value::new(&chars("[2,a,0]"), &vec![chars("a")]).unwrap();
    assert_eq!(v.eval(&sigma, &vec![1]), Ok(42));
    assert_eq!(v.eval(&sigma, &vec![]), Err(RuntimeError::MissingArgument { index: 0 }));
    let outside = Value::new(&chars("[3,0,0]"), &vec![]).unwrap();
    assert_eq!(outside.eval(&sigma, &vec![]), Err(RuntimeError::InvalidRead { x: 3, y: 0, c: 0 }));
}

#[test]
fn a_missing_address_component_reads_as_a_bad_number() {
    let err = Value::new(&chars("[1,2]"), &vec![]).unwrap_err();
    assert_eq!(err.kind, ParseErrorKind::InvalidPureValue);
}

#[test]
fn writes_and_additions_run() {
    let (r, sigma) = execute("#size 4 4;\nproc:main(){\n    [0,0,0]=7;\n    [1,0,0]=[0,0,0]+1;\n}\n");
    assert_eq!(r, Ok(true));
    assert_eq!(sigma.cell(0, 0, 0), 7);
    assert_eq!(sigma.cell(0, 1, 0), 8);
}

#[test]
fn a_loop_counts_down() {
    let source = "#size 2 2;proc:main(){[0,0,0]=5;while([0,0,0]){[0,0,0]=[0,0,0]-1;[1,1,0]=[1,1,0]+2;}}";
    let (r, sigma) = execute(source);
    assert_eq!(r, Ok(true));
    assert_eq!(sigma.cell(0, 0, 0), 0);
    assert_eq!(sigma.cell(1, 1, 0), 10);
}

#[test]
fn if_takes_the_first_branch_on_a_non_zero_condition() {
    let source = "#size 2 2;proc:main(){[0,0,0]=3;if([0,0,0]){[1,1,0]=1;}else{[1,1,0]=2;}[0,0,1]=1;}";
    let (r, sigma) = execute(source);
    assert_eq!(r, Ok(true));
    assert_eq!(sigma.cell(1, 1, 0), 1);
    assert_eq!(sigma.cell(0, 0, 1), 1);
}

#[test]
fn if_takes_the_else_branch_on_zero() {
    let source = "#size 2 2;proc:main(){[0,0,0]=0;if([0,0,0]){[1,1,0]=1;}else{[1,1,0]=2;}[0,0,1]=1;}";
    let (r, sigma) = execute(source);
    assert_eq!(r, Ok(true));
    assert_eq!(sigma.cell(1, 1, 0), 2);
    assert_eq!(sigma.cell(0, 0, 1), 1);
}

#[test]
fn elseif_chooses_the_second_branch() {
    let source = "#size 3 3;proc:main(){[0,0,0]=2;if([0,0,1]){[1,1,0]=1;}elseif([0,0,0]){[1,1,0]=2;}[2,2,0]=9;}";
    let (r, sigma) = execute(source);
    assert_eq!(r, Ok(true));
    assert_eq!(sigma.cell(1, 1, 0), 2);
    assert_eq!(sigma.cell(2, 2, 0), 9);
}

#[test]
fn a_function_returns_into_its_address() {
    let source = "#size 3 3;fn:double(v){return:v+v;}proc:main(){[2,2,0]=double(21);}";
    let (r, sigma) = execute(source);
    assert_eq!(r, Ok(true));
    assert_eq!(sigma.cell(2, 2, 0), 42);
}

#[test]
fn a_write_outside_the_memory_stops_the_run() {
    let (r, _) = execute("#size 2 2;proc:main(){[5,0,0]=1;}");
    assert_eq!(r, Err(RuntimeError::InvalidAddress { x: 5, y: 0, c: 0 }));
}

#[test]
fn a_division_by_zero_stops_the_run() {
    let (r, _) = execute("#size 2 2;proc:main(){[0,0,0]=4/[1,1,1];}");
    assert_eq!(r, Err(RuntimeError::DivisionByZero));
}

#[test]
fn a_call_with_the_wrong_argument_count_stops_the_run() {
    let lines = vec![line("proc:main()", 0, true), line("$write(1,0,0)", 1, false)];
    let tree = create_syntax_tree(&lines).unwrap();
    let mut sigma = Sigma::new(2, 2);
    assert_eq!(interpret(tree, 19, &mut sigma, 10), Err(RuntimeError::ArgumentCount { given: 3, expected: 4 }));
}

#[test]
fn running_out_of_fuel_leaves_the_program_unfinished() {
    let source = "#size 2 2;proc:main(){[0,0,0]=1;while([0,0,0]){[1,1,0]=[1,1,0]+1;}}";
    let (lines, size, _) = kernel(source.to_string()).unwrap();
    let tree = create_syntax_tree(&lines).unwrap();
    let mut sigma = Sigma::new(size[0], size[1]);
    let mut stack = start(19);
    assert_eq!(run(&mut stack, &tree, &mut sigma, 7), Ok(false));
    assert!(!stack.is_empty());
    let before = sigma.cell(1, 1, 0);
    assert_eq!(run(&mut stack, &tree, &mut sigma, 2), Ok(false));
    assert_eq!(sigma.cell(1, 1, 0), before.wrapping_add(1));
}

#[test]
fn two_short_runs_equal_one_long_run() {
    let source = "#size 2 2;proc:main(){[0,0,0]=9;while([0,0,0]){[0,0,0]=[0,0,0]-1;[1,1,0]=[1,1,0]+3;}}";
    let (lines, size, _) = kernel(source.to_string()).unwrap();
    let tree = create_syntax_tree(&lines).unwrap();
    let mut one = Sigma::new(size[0], size[1]);
    let mut stack_one = start(19);
    let r_one = run(&mut stack_one, &tree, &mut one, 13);
    let mut two = Sigma::new(size[0], size[1]);
    let mut stack_two = start(19);
    let r_first = run(&mut stack_two, &tree, &mut two, 6);
    assert_eq!(r_first, Ok(false));
    let r_two = run(&mut stack_two, &tree, &mut two, 7);
    assert_eq!(r_one, r_two);
    for row in 0..2 {
        for col in 0..2 {
            for ch in 0..3 {
                assert_eq!(one.cell(row, col, ch), two.cell(row, col, ch));
            }
        }
    }
}

#[test]
fn a_stack_address_reads_back_as_its_cell() {
    let (lines, _, _) = kernel("#stack 2 1 2 1;proc:main(){define x;define y;f(y);}".to_string()).unwrap();
    let call: String = lines[1].code.iter().collect();
    assert_eq!(call, "f([2,1,1])");
    let v = Value::new(&chars("[2,1,1]"), &vec![]).unwrap();
    match v {
        Value::Memory(a, b, c) => {
            assert!(matches!(*a, Value::Pure { value: 2 }));
            assert!(matches!(*b, Value::Pure { value: 1 }));
            assert!(matches!(*c, Value::Pure { value: 1 }));
        },
        _ => panic!("expected a memory read"),
    }
}

#[test]
fn a_builtin_as_entry_point_is_a_malformed_program() {
    let lines = vec![line("proc:main()", 0, true), line("$write(1,0,0,0)", 1, false)];
    let tree = create_syntax_tree(&lines).unwrap();
    let mut sigma = Sigma::new(2, 2);
    assert_eq!(interpret(tree, 0, &mut sigma, 10), Err(RuntimeError::MalformedProgram));
}

#[test]
fn a_finished_run_leaves_an_empty_stack() {
    let (lines, size, _) = kernel("#size 2 2;proc:main(){[1,1,2]=4;}".to_string()).unwrap();
    let tree = create_syntax_tree(&lines).unwrap();
    let mut sigma = Sigma::new(size[0], size[1]);
    let mut stack = start(19);
    assert_eq!(run(&mut stack, &tree, &mut sigma, 100), Ok(true));
    assert!(stack.is_empty());
    assert_eq!(sigma.cell(1, 1, 2), 4);
    assert_eq!(run(&mut stack, &tree, &mut sigma, 100), Ok(true));
}

#[test]
fn every_call_targets_a_procedure_of_the_tree() {
    let source = "#size 3 3;fn:double(v){return:v+v;}proc:main(){[0,0,0]=double(2);[1,1,0]=[0,0,0]*3;}";
    let (lines, _, _) = kernel(source.to_string()).unwrap();
    let tree = create_syntax_tree(&lines).unwrap();
    assert_eq!(tree.len(), 21);
    let mut calls = 0;
    for p in &tree {
        if let Procedure::BuiltOut { code, .. } = p {
            for inst in code {
                if let Instruction::Call { proc_index, .. } = inst {
                    assert!(*proc_index < tree.len());
                    calls += 1;
                }
            }
        }
    }
    assert_eq!(calls, 3);
}

#[test]
fn a_value_reads_what_its_address_was_written() {
    let source = "#size 3 2;proc:main(){[2,1,0]=7;[0,0,0]=[2,1,0]+1;}";
    let (r, sigma) = execute(source);
    assert_eq!(r, Ok(true));
    assert_eq!(sigma.cell(1, 2, 0), 7);
    assert_eq!(sigma.cell(0, 0, 0), 8);
}

#[test]
fn greater_or_equal_runs_as_a_comparison() {
    let source = "#size 2 2;proc:main(){[0,0,0]=5;[1,1,0]=[0,0,0]>=3;[1,1,1]=[0,0,0]>>1;}";
    let (r, sigma) = execute(source);
    assert_eq!(r, Ok(true));
    assert_eq!(sigma.cell(1, 1, 0), 1);
    assert_eq!(sigma.cell(1, 1, 1), 2);
}

#[test]
fn an_if_at_the_end_of_main_runs() {
    let (r, sigma) = execute("#size 2 2;proc:main(){[0,0,0]=1;if([0,0,0]){[1,1,0]=4;}}");
    assert_eq!(r, Ok(true));
    assert_eq!(sigma.cell(1, 1, 0), 4);
}

#[test]
fn a_nested_if_skips_to_the_outer_else_only_from_the_outer_condition() {
    let source = "#size 2 2;proc:main(){[0,0,0]=1;if([0,0,0]){if([0,0,1]){[1,1,0]=1;}}else{[1,1,0]=2;}[1,1,1]=3;}";
    let (r, sigma) = execute(source);
    assert_eq!(r, Ok(true));
    assert_eq!(sigma.cell(1, 1, 0), 0);
    assert_eq!(sigma.cell(1, 1, 1), 3);
}
