use termlang::define::{define, Stack};
use termlang::kerneler::{
    dual_operations, else_if, format_kernel, function, memory_write, missing_else, mono_operations, remove_spaces,
    CodeLine, KernelErrorKind,
};
use termlang::lexer::to_code_lines;
use termlang::rewrite::{arg_reference, function_call, pointer, reference};
use termlang::compiler::kernel;

fn line(code: &str, depth: u8, starts_closure: bool) -> CodeLine {
    CodeLine { code: code.chars().collect(), depth, starts_closure }
}

fn shape(lines: &[CodeLine]) -> Vec<(String, u8, bool)> {
    lines.iter().map(|l| (l.code.iter().collect::<String>(), l.depth, l.starts_closure)).collect()
}

fn owned(v: &[(&str, u8, bool)]) -> Vec<(String, u8, bool)> {
    v.iter().map(|(c, d, s)| (c.to_string(), *d, *s)).collect()
}

#[test]
fn lines_are_split_at_semicolons_and_braces() {
    let lines = to_code_lines(&"a;b{c;}d;".chars().collect()).unwrap();
    assert_eq!(shape(&lines), owned(&[("a", 0, false), ("b", 0, true), ("c", 1, false), ("d", 0, false)]));
}

#[test]
fn comments_and_line_breaks_are_dropped() {
    let lines = to_code_lines(&"x=1; // note; still a note\n\ty = 2;".chars().collect()).unwrap();
    assert_eq!(shape(&lines), owned(&[("x=1", 0, false), ("y = 2", 0, false)]));
}

#[test]
fn an_empty_block_header_is_kept() {
    let lines = to_code_lines(&"{x;}".chars().collect()).unwrap();
    assert_eq!(shape(&lines), owned(&[("", 0, true), ("x", 1, false)]));
}

#[test]
fn a_closing_brace_without_an_opening_one_is_refused() {
    let err = to_code_lines(&"a;};".chars().collect()).unwrap_err();
    assert_eq!(err.kind, KernelErrorKind::UnopenedClosure);
}

#[test]
fn spaces_are_removed() {
    let mut lines = vec![line("[0, 0,0] = 5", 1, false)];
    remove_spaces(&mut lines);
    assert_eq!(shape(&lines), owned(&[("[0,0,0]=5", 1, false)]));
}

#[test]
fn stack_hands_out_cells_row_by_row() {
    let mut s = Stack::new();
    assert!(s.activate((0, 0), (1, 0)).is_ok());
    let mut got = Vec::new();
    for _ in 0..6 {
        got.push(s.get().unwrap());
    }
    assert_eq!(got, vec![(0, 0, 0), (0, 0, 1), (0, 0, 2), (1, 0, 0), (1, 0, 1), (1, 0, 2)]);
    assert_eq!(s.get().unwrap_err().kind, KernelErrorKind::StackOverflow);
}

#[test]
fn stack_counts_used_cells() {
    let mut s = Stack::new();
    assert!(s.activate((2, 3), (4, 5)).is_ok());
    assert_eq!(s.get_used(), (0, 27));
    s.get().unwrap();
    s.get().unwrap();
    assert_eq!(s.get_used(), (2, 27));
    for _ in 0..4 {
        s.get().unwrap();
    }
    assert_eq!(s.get_used(), (6, 27));
}

#[test]
fn stack_refuses_bad_regions_and_a_second_activation() {
    let mut s = Stack::new();
    assert_eq!(s.activate((3, 0), (2, 0)).unwrap_err().kind, KernelErrorKind::InvalidStackDimensions);
    assert!(s.activate((0, 0), (0, 0)).is_ok());
    assert_eq!(s.activate((0, 0), (0, 0)).unwrap_err().kind, KernelErrorKind::StackActivatedTwice);
}

#[test]
fn define_replaces_names_with_values() {
    let mut lines = vec![
        line("proc:main()", 0, true),
        line("define x [1,2,0]", 1, false),
        line("x=x", 1, false),
    ];
    assert!(define(&mut lines).is_ok());
    assert_eq!(shape(&lines), owned(&[("proc:main()", 0, true), ("[1,2,0]=[1,2,0]", 1, false)]));
}

#[test]
fn define_takes_stack_cells() {
    let mut lines = vec![
        line("#stack 0 0 1 1", 0, false),
        line("proc:main()", 0, true),
        line("define a", 1, false),
        line("define b", 1, false),
        line("a=b", 1, false),
    ];
    assert!(define(&mut lines).is_ok());
    assert_eq!(shape(&lines), owned(&[("proc:main()", 0, true), ("[0,0,0]=[0,0,1]", 1, false)]));
}

#[test]
fn define_scopes_end_with_their_block() {
    let mut lines = vec![
        line("proc:main()", 0, true),
        line("define x 1", 1, false),
        line("", 1, true),
        line("define x 2", 2, false),
        line("y=x", 2, false),
        line("z=x", 1, false),
    ];
    assert!(define(&mut lines).is_ok());
    assert_eq!(shape(&lines), owned(&[("proc:main()", 0, true), ("y=2", 1, false), ("z=1", 1, false)]));
}

#[test]
fn define_without_value_needs_a_stack() {
    let mut lines = vec![line("proc:main()", 0, true), line("define a", 1, false)];
    assert_eq!(define(&mut lines).unwrap_err().kind, KernelErrorKind::DefineWithoutStack);
}

#[test]
fn define_with_too_many_words_is_refused() {
    let mut lines = vec![line("proc:main()", 0, true), line("define a 1 2", 1, false)];
    assert_eq!(define(&mut lines).unwrap_err().kind, KernelErrorKind::InvalidDefine);
}

#[test]
fn references_lose_their_brackets() {
    let mut lines = vec![line("f(#[0,1,2],3)", 1, false)];
    assert!(reference(&mut lines).is_ok());
    assert_eq!(shape(&lines), owned(&[("f(0,1,2,3)", 1, false)]));
}

#[test]
fn references_keep_inner_brackets() {
    let mut lines = vec![line("f(#[[0,0,0],1,2])", 1, false)];
    assert!(reference(&mut lines).is_ok());
    assert_eq!(shape(&lines), owned(&[("f([0,0,0],1,2)", 1, false)]));
}

#[test]
fn an_unclosed_reference_is_refused() {
    let mut lines = vec![line("f(#[0,1", 1, false)];
    assert_eq!(reference(&mut lines).unwrap_err().kind, KernelErrorKind::UnclosedReference);
}

#[test]
fn argument_references_expand_to_three_components() {
    let mut lines = vec![line("f(#a,1)", 1, false)];
    assert!(arg_reference(&mut lines).is_ok());
    assert_eq!(shape(&lines), owned(&[("f(a$1,a$2,a$3,1)", 1, false)]));
}

#[test]
fn an_isolated_argument_reference_is_refused() {
    let mut lines = vec![line("f(#,1)", 1, false)];
    assert_eq!(arg_reference(&mut lines).unwrap_err().kind, KernelErrorKind::IsolatedReference);
}

#[test]
fn pointers_expand_to_three_addresses() {
    let mut lines = vec![line("f([2,3])", 1, false)];
    assert!(pointer(&mut lines).is_ok());
    assert_eq!(shape(&lines), owned(&[("f([2,3,0],[2,3,1],[2,3,2])", 1, false)]));
}

#[test]
fn addresses_are_not_pointers() {
    let mut lines = vec![line("[0,1,2]=[3,4,5]", 1, false)];
    assert!(pointer(&mut lines).is_ok());
    assert_eq!(shape(&lines), owned(&[("[0,1,2]=[3,4,5]", 1, false)]));
}

#[test]
fn a_bracket_opened_but_not_closed_is_refused() {
    let mut lines = vec![line("a[1", 1, false)];
    assert_eq!(pointer(&mut lines).unwrap_err().kind, KernelErrorKind::UnmatchedBracket);
}

#[test]
fn functions_become_procedures_with_a_result_address() {
    let mut lines = vec![line("fn:f(a)", 0, true), line("fn:g()", 0, true), line("return:5", 1, false)];
    function(&mut lines);
    assert_eq!(
        shape(&lines),
        owned(&[("proc:f(a,$1,$2,$3)", 0, true), ("proc:g($1,$2,$3)", 0, true), ("[$1,$2,$3]=5", 1, false)])
    );
}

#[test]
fn operations_become_builtin_calls() {
    let mut lines = vec![
        line("[0,0,0]=a+b", 1, false),
        line("[0,0,0]=a==b", 1, false),
        line("[0,0,0]=a!=b", 1, false),
        line("[0,0,0]=a%b", 1, false),
        line("if(a+b)", 1, true),
    ];
    assert!(dual_operations(&mut lines).is_ok());
    assert_eq!(
        shape(&lines),
        owned(&[
            ("[0,0,0]=$add(a,b)", 1, false),
            ("[0,0,0]=$eq(a,b)", 1, false),
            ("[0,0,0]=$neq(a,b)", 1, false),
            ("[0,0,0]=$mod(a,b)", 1, false),
            ("if(a+b)", 1, true),
        ])
    );
}

#[test]
fn two_character_operators_are_read_whole() {
    let mut lines = vec![
        line("[0,0,1]=[0,0,0]>=3", 1, false),
        line("x=a<=b", 1, false),
        line("x=a>>b", 1, false),
        line("x=a<<b", 1, false),
        line("x=a>b", 1, false),
        line("x=a<b", 1, false),
    ];
    assert!(dual_operations(&mut lines).is_ok());
    assert_eq!(
        shape(&lines),
        owned(&[
            ("[0,0,1]=$geq([0,0,0],3)", 1, false),
            ("x=$leq(a,b)", 1, false),
            ("x=$rsh(a,b)", 1, false),
            ("x=$lsh(a,b)", 1, false),
            ("x=$g(a,b)", 1, false),
            ("x=$l(a,b)", 1, false),
        ])
    );
}

#[test]
fn an_operation_before_its_equals_sign_is_refused() {
    let mut lines = vec![line("a+b=c", 1, false)];
    assert_eq!(dual_operations(&mut lines).unwrap_err().kind, KernelErrorKind::MissingEquals);
}

#[test]
fn negations_become_builtin_calls() {
    let mut lines = vec![line("x=!a", 1, false), line("x=~a", 1, false)];
    mono_operations(&mut lines);
    assert_eq!(shape(&lines), owned(&[("x=$bonot(a)", 1, false), ("x=$binot(a)", 1, false)]));
}

#[test]
fn plain_assignments_become_writes() {
    let mut lines = vec![line("x=5", 1, false), line("x=f(1)", 1, false), line("while(x)", 1, true)];
    memory_write(&mut lines);
    assert_eq!(shape(&lines), owned(&[("x=$write(5)", 1, false), ("x=f(1)", 1, false), ("while(x)", 1, true)]));
}

#[test]
fn calls_take_their_result_address_as_arguments() {
    let mut lines = vec![line("[1,2,3]=f(a)", 1, false), line("[1,2,3]=g()", 1, false), line("h(1)", 1, false)];
    assert!(function_call(&mut lines).is_ok());
    assert_eq!(shape(&lines), owned(&[("f(a,1,2,3)", 1, false), ("g(1,2,3)", 1, false), ("h(1)", 1, false)]));
}

#[test]
fn a_call_without_a_name_is_refused() {
    let mut lines = vec![line("[1,2,3]=(a)", 1, false)];
    assert_eq!(function_call(&mut lines).unwrap_err().kind, KernelErrorKind::NoFunctionName);
}

#[test]
fn a_call_with_a_short_address_is_refused() {
    let mut lines = vec![line("[1,2]=f(a)", 1, false)];
    assert_eq!(function_call(&mut lines).unwrap_err().kind, KernelErrorKind::InvalidAddress);
}

#[test]
fn an_empty_line_cannot_be_read_as_a_call() {
    let mut lines = vec![line("", 1, false)];
    assert_eq!(function_call(&mut lines).unwrap_err().kind, KernelErrorKind::EmptyLine);
}

#[test]
fn elseif_becomes_an_if_inside_an_else() {
    let mut lines = vec![
        line("if(a)", 0, true),
        line("x", 1, false),
        line("elseif(b)", 0, true),
        line("y", 1, false),
    ];
    assert!(else_if(&mut lines).is_ok());
    assert_eq!(
        shape(&lines),
        owned(&[("if(a)", 0, true), ("x", 1, false), ("else", 0, true), ("if(b)", 1, true), ("y", 2, false)])
    );
}

#[test]
fn a_missing_else_is_added() {
    let mut lines = vec![line("if(a)", 0, true), line("x", 1, false), line("y", 0, false)];
    assert!(missing_else(&mut lines).is_ok());
    assert_eq!(
        shape(&lines),
        owned(&[("if(a)", 0, true), ("x", 1, false), ("else", 0, true), ("y", 0, false)])
    );
}

#[test]
fn an_if_that_ends_the_code_gets_its_else_at_the_end() {
    let mut lines = vec![line("proc:main()", 0, true), line("if(a)", 1, true), line("f(1)", 2, false)];
    assert!(missing_else(&mut lines).is_ok());
    assert_eq!(
        shape(&lines),
        owned(&[("proc:main()", 0, true), ("if(a)", 1, true), ("f(1)", 2, false), ("else", 1, true)])
    );
}

#[test]
fn a_nested_if_gets_its_own_else() {
    let mut lines = vec![
        line("proc:main()", 0, true),
        line("if(a)", 1, true),
        line("if(b)", 2, true),
        line("f(1)", 3, false),
        line("else", 1, true),
        line("f(2)", 2, false),
    ];
    assert!(missing_else(&mut lines).is_ok());
    assert_eq!(
        shape(&lines),
        owned(&[
            ("proc:main()", 0, true),
            ("if(a)", 1, true),
            ("if(b)", 2, true),
            ("f(1)", 3, false),
            ("else", 2, true),
            ("else", 1, true),
            ("f(2)", 2, false),
        ])
    );
}

#[test]
fn format_kernel_indents_and_closes_blocks() {
    let lines = vec![
        line("proc:main()", 0, true),
        line("if(1)", 1, true),
        line("a", 2, false),
        line("else", 1, true),
        line("b", 2, false),
    ];
    assert_eq!(
        format_kernel(&lines),
        "proc:main(){\n    if(1){\n        a;\n    }\n    else{\n        b;\n    }\n}\n"
    );
}

#[test]
fn lexing_the_formatted_kernel_gives_the_lines_back() {
    let lines = vec![
        line("proc:main()", 0, true),
        line("if(1)", 1, true),
        line("while([0,0,0])", 2, true),
        line("$write(1,0,0,0)", 3, false),
        line("else", 1, true),
        line("f(2)", 2, false),
        line("proc:f(a)", 0, true),
        line("$write(a$1,0,0,0)", 1, false),
    ];
    let text: Vec<char> = format_kernel(&lines).chars().collect();
    let back = to_code_lines(&text).unwrap();
    assert_eq!(shape(&back), shape(&lines));
}

#[test]
fn kernel_compiles_a_small_program() {
    let (lines, size, _) =
        kernel("#size 4 4;\nproc:main(){\n    [0,0,0]=7;\n    [1,0,0]=[0,0,0]+1;\n}\n".to_string()).unwrap();
    assert_eq!(size, [4, 4]);
    assert_eq!(format_kernel(&lines), "proc:main(){\n    $write(7,0,0,0);\n    $add([0,0,0],1,1,0,0);\n}\n");
}

#[test]
fn kernel_uses_the_default_size() {
    let (_, size, _) = kernel("proc:main(){[0,0,0]=1;}".to_string()).unwrap();
    assert_eq!(size, [50, 50]);
}

#[test]
fn kernel_reads_a_size_with_a_plus_sign() {
    let (_, size, _) = kernel("#size +3 2;proc:main(){[0,0,0]=1;}".to_string()).unwrap();
    assert_eq!(size, [3, 2]);
}

#[test]
fn kernel_refuses_a_size_without_two_numbers() {
    let err = kernel("#size 4;proc:main(){[0,0,0]=1;}".to_string()).unwrap_err();
    assert_eq!(err.kind, KernelErrorKind::InvalidSizeCommand);
    let err = kernel("#size 4 300;proc:main(){[0,0,0]=1;}".to_string()).unwrap_err();
    assert_eq!(err.kind, KernelErrorKind::InvalidSizeCommand);
}

#[test]
fn kernel_expands_functions_and_returns() {
    let (lines, _, _) = kernel("fn:double(v){return:v+v;}proc:main(){[2,2,0]=double(21);}".to_string()).unwrap();
    assert_eq!(
        format_kernel(&lines),
        "proc:double(v,$1,$2,$3){\n    $add(v,v,$1,$2,$3);\n}\nproc:main(){\n    double(21,2,2,0);\n}\n"
    );
}

#[test]
fn kernel_expands_stack_variables_and_references() {
    let (lines, _, _) =
        kernel("#stack 1 1 1 1;proc:main(){define x;x=3;f(#x);}".to_string()).unwrap();
    assert_eq!(format_kernel(&lines), "proc:main(){\n    $write(3,1,1,0);\n    f(1,1,0);\n}\n");
}

#[test]
fn kernel_adds_the_else_of_an_elseif() {
    let source = "proc:main(){[0,0,0]=2;if([0,0,1]){[1,1,0]=1;}elseif([0,0,0]){[1,1,0]=2;}[2,2,0]=9;}";
    let (lines, _, _) = kernel(source.to_string()).unwrap();
    assert_eq!(
        format_kernel(&lines),
        "proc:main(){\n    $write(2,0,0,0);\n    if([0,0,1]){\n        $write(1,1,1,0);\n    }\n    else{\n        if([0,0,0]){\n            $write(2,1,1,0);\n        }\n        else{\n        }\n    }\n    $write(9,2,2,0);\n}\n"
    );
}

#[test]
fn kernel_closes_an_if_at_the_end_with_an_else() {
    let (lines, _, _) = kernel("proc:main(){if(1){[0,0,0]=1;}}".to_string()).unwrap();
    assert_eq!(format_kernel(&lines), "proc:main(){\n    if(1){\n        $write(1,0,0,0);\n    }\n    else{\n    }\n}\n");
}

#[test]
fn hash_def_defines_a_name() {
    let (lines, _, _) = kernel("proc:main(){#def x [0,0,0]; x = 5;}".to_string()).unwrap();
    assert_eq!(shape(&lines), owned(&[("proc:main()", 0, true), ("$write(5,0,0,0)", 1, false)]));
}

#[test]
fn ampersand_takes_the_address_of_a_name() {
    let (lines, _, _) = kernel("proc:main(){define x [0,0,0]; f(&x);}".to_string()).unwrap();
    assert_eq!(shape(&lines), owned(&[("proc:main()", 0, true), ("f(0,0,0)", 1, false)]));
}

#[test]
fn ampersand_passes_the_address_in_an_argument() {
    let mut lines = vec![line("g(1,&a)", 1, false)];
    assert!(arg_reference(&mut lines).is_ok());
    assert_eq!(shape(&lines), owned(&[("g(1,a$1,a$2,a$3)", 1, false)]));
}

#[test]
fn ampersand_after_an_operand_is_bitwise_and() {
    let (lines, _, _) = kernel("proc:main(){[0,0,0]=[1,1,1]&3;}".to_string()).unwrap();
    assert_eq!(shape(&lines), owned(&[("proc:main()", 0, true), ("$and([1,1,1],3,0,0,0)", 1, false)]));
}

#[test]
fn kernel_reports_the_stack_usage() {
    let (lines, _, usage) =
        kernel("#stack 0 0 1 0;proc:main(){define a;define b;f(a,b);}".to_string()).unwrap();
    assert_eq!(shape(&lines), owned(&[("proc:main()", 0, true), ("f([0,0,0],[0,0,1])", 1, false)]));
    assert_eq!(usage, Some((2, 6)));
    let (_, _, usage) = kernel("proc:main(){f(1);}".to_string()).unwrap();
    assert_eq!(usage, None);
}

#[test]
fn define_gives_the_stack_usage() {
    let mut lines = vec![
        line("#stack 0 0 0 0", 0, false),
        line("proc:main()", 0, true),
        line("define a", 1, false),
        line("define b", 1, false),
        line("define c", 1, false),
    ];
    assert_eq!(define(&mut lines).unwrap(), Some((3, 3)));
}

#[test]
fn a_stack_is_used_up_when_its_count_reaches_its_size() {
    let mut s = Stack::new();
    assert!(s.activate((0, 0), (0, 0)).is_ok());
    for n in 1..=3u32 {
        s.get().unwrap();
        assert_eq!(s.get_used(), (n, 3));
    }
    assert_eq!(s.get().unwrap_err().kind, KernelErrorKind::StackOverflow);
}

#[test]
fn a_stack_two_hundred_fifty_six_wide_is_counted() {
    let mut s = Stack::new();
    assert!(s.activate((0, 0), (255, 0)).is_ok());
    assert_eq!(s.get_used(), (0, 768));
}

#[test]
fn unicode_white_space_is_removed() {
    let mut lines = vec![line("[0,\u{A0}0,0]\u{3000}=5", 1, false)];
    remove_spaces(&mut lines);
    assert_eq!(shape(&lines), owned(&[("[0,0,0]=5", 1, false)]));
}

#[test]
fn too_many_nested_blocks_are_refused() {
    let source: String = "{".repeat(256);
    let err = to_code_lines(&source.chars().collect()).unwrap_err();
    assert_eq!(err.kind, KernelErrorKind::TooDeep);
}

#[test]
fn a_stack_command_without_four_numbers_is_refused() {
    let mut lines = vec![line("#stack 1 2 3", 0, false), line("proc:main()", 0, true)];
    assert_eq!(define(&mut lines).unwrap_err().kind, KernelErrorKind::InvalidStackCommand);
}

#[test]
fn a_stack_with_corners_in_the_wrong_order_is_refused_by_define() {
    let mut lines = vec![line("#stack 2 0 1 0", 0, false), line("proc:main()", 0, true)];
    assert_eq!(define(&mut lines).unwrap_err().kind, KernelErrorKind::InvalidStackDimensions);
}

#[test]
fn two_operators_nest_in_the_order_of_the_symbol_table() {
    let mut lines = vec![line("x=a+b-c", 1, false)];
    assert!(dual_operations(&mut lines).is_ok());
    assert_eq!(shape(&lines), owned(&[("x=$sub($add(a,b,c))", 1, false)]));
}

#[test]
fn a_copy_becomes_a_write_of_a_read() {
    let mut lines = vec![line("[0,0,0]=[1,1,1]", 1, false)];
    memory_write(&mut lines);
    assert!(function_call(&mut lines).is_ok());
    assert_eq!(shape(&lines), owned(&[("$write([1,1,1],0,0,0)", 1, false)]));
}

#[test]
fn an_address_component_may_itself_be_a_read() {
    let mut lines = vec![line("[[0,0,0],1,2]=f()", 1, false)];
    assert!(function_call(&mut lines).is_ok());
    assert_eq!(shape(&lines), owned(&[("f([0,0,0],1,2)", 1, false)]));
}

#[test]
fn a_fourth_address_component_is_refused() {
    let mut lines = vec![line("[1,2,3,4]=f()", 1, false)];
    assert_eq!(function_call(&mut lines).unwrap_err().kind, KernelErrorKind::InvalidAddress);
}
