use termlang::builtin::{
    add, and, apply, arg_count, binot, bonot, div, eq, g, geq, l, leq, lsh, modulo, mult, neq, or, rsh, sub, xor, Builtin,
};
use termlang::sigma::{RuntimeError, Sigma};

fn grid() -> Sigma {
    Sigma::new(4, 3)
}

#[test]
fn write_stores_at_column_row_channel() {
    let mut s = grid();
    assert_eq!(termlang::builtin::write(&mut s, vec![9, 2, 1, 0]), Ok(()));
    assert_eq!(s.cell(1, 2, 0), 9);
    assert_eq!(s.cell(2, 1, 0), 0);
}

#[test]
fn write_rejects_a_column_outside() {
    let mut s = grid();
    assert_eq!(termlang::builtin::write(&mut s, vec![9, 4, 0, 0]), Err(RuntimeError::InvalidAddress { x: 4, y: 0, c: 0 }));
}

#[test]
fn write_rejects_a_row_outside() {
    let mut s = grid();
    assert_eq!(termlang::builtin::write(&mut s, vec![9, 0, 3, 0]), Err(RuntimeError::InvalidAddress { x: 0, y: 3, c: 0 }));
}

#[test]
fn write_rejects_a_fourth_channel() {
    let mut s = grid();
    assert_eq!(termlang::builtin::write(&mut s, vec![9, 0, 0, 3]), Err(RuntimeError::InvalidAddress { x: 0, y: 0, c: 3 }));
}

fn run_binary(op: fn(&mut Sigma, Vec<u8>) -> Result<(), RuntimeError>, a: u8, b: u8) -> Result<u8, RuntimeError> {
    let mut s = grid();
    op(&mut s, vec![a, b, 3, 2, 1])?;
    Ok(s.cell(2, 3, 1))
}

#[test]
fn add_wraps() {
    assert_eq!(run_binary(add, 200, 100), Ok(44));
    assert_eq!(run_binary(add, 2, 3), Ok(5));
}

#[test]
fn sub_wraps() {
    assert_eq!(run_binary(sub, 5, 10), Ok(251));
    assert_eq!(run_binary(sub, 10, 4), Ok(6));
}

#[test]
fn mult_wraps() {
    assert_eq!(run_binary(mult, 16, 16), Ok(0));
    assert_eq!(run_binary(mult, 3, 5), Ok(15));
}

#[test]
fn div_truncates_and_refuses_zero() {
    assert_eq!(run_binary(div, 7, 2), Ok(3));
    assert_eq!(run_binary(div, 7, 0), Err(RuntimeError::DivisionByZero));
}

#[test]
fn modulo_gives_the_remainder_and_refuses_zero() {
    assert_eq!(run_binary(modulo, 7, 3), Ok(1));
    assert_eq!(run_binary(modulo, 7, 0), Err(RuntimeError::DivisionByZero));
}

#[test]
fn comparisons_give_flags() {
    assert_eq!(run_binary(eq, 4, 4), Ok(1));
    assert_eq!(run_binary(eq, 4, 5), Ok(0));
    assert_eq!(run_binary(neq, 4, 5), Ok(1));
    assert_eq!(run_binary(neq, 4, 4), Ok(0));
    assert_eq!(run_binary(g, 5, 4), Ok(1));
    assert_eq!(run_binary(g, 4, 4), Ok(0));
    assert_eq!(run_binary(l, 3, 4), Ok(1));
    assert_eq!(run_binary(l, 4, 4), Ok(0));
    assert_eq!(run_binary(geq, 4, 4), Ok(1));
    assert_eq!(run_binary(geq, 3, 4), Ok(0));
    assert_eq!(run_binary(leq, 4, 4), Ok(1));
    assert_eq!(run_binary(leq, 5, 4), Ok(0));
}

#[test]
fn bitwise_operations() {
    assert_eq!(run_binary(and, 0b1100, 0b1010), Ok(0b1000));
    assert_eq!(run_binary(or, 0b1100, 0b1010), Ok(0b1110));
    assert_eq!(run_binary(xor, 0b1100, 0b1010), Ok(0b0110));
}

#[test]
fn shifts_refuse_eight_bits_or_more() {
    assert_eq!(run_binary(rsh, 0b1000_0000, 7), Ok(1));
    assert_eq!(run_binary(lsh, 1, 7), Ok(128));
    assert_eq!(run_binary(lsh, 0b1100_0000, 1), Ok(0b1000_0000));
    assert_eq!(run_binary(rsh, 5, 8), Err(RuntimeError::ShiftOverflow));
    assert_eq!(run_binary(lsh, 5, 9), Err(RuntimeError::ShiftOverflow));
}

#[test]
fn not_operations() {
    let mut s = grid();
    assert_eq!(bonot(&mut s, vec![0, 1, 1, 2]), Ok(()));
    assert_eq!(s.cell(1, 1, 2), 1);
    assert_eq!(bonot(&mut s, vec![7, 1, 1, 2]), Ok(()));
    assert_eq!(s.cell(1, 1, 2), 0);
    assert_eq!(binot(&mut s, vec![0b1010_1010, 0, 0, 0]), Ok(()));
    assert_eq!(s.cell(0, 0, 0), 0b0101_0101);
}

#[test]
fn a_failed_operation_leaves_memory_alone() {
    let mut s = grid();
    assert_eq!(div(&mut s, vec![9, 0, 0, 0, 0]), Err(RuntimeError::DivisionByZero));
    assert_eq!(s.cell(0, 0, 0), 0);
    assert_eq!(add(&mut s, vec![1, 1, 9, 0, 0]), Err(RuntimeError::InvalidAddress { x: 9, y: 0, c: 0 }));
    for row in 0..3 {
        for col in 0..4 {
            for ch in 0..3 {
                assert_eq!(s.cell(row, col, ch), 0);
            }
        }
    }
}

#[test]
fn argument_counts_of_builtins() {
    assert_eq!(arg_count(Builtin::Write), 4);
    assert_eq!(arg_count(Builtin::Bonot), 4);
    assert_eq!(arg_count(Builtin::Binot), 4);
    assert_eq!(arg_count(Builtin::Add), 5);
    assert_eq!(arg_count(Builtin::Lsh), 5);
}

#[test]
fn apply_runs_the_named_builtin() {
    let mut s = grid();
    assert_eq!(apply(Builtin::Mult, &mut s, vec![6, 7, 0, 1, 2]), Ok(()));
    assert_eq!(s.cell(1, 0, 2), 42);
}
