use vstd::prelude::*;

use crate::sigma::{spec_store, Grid, RuntimeError, Sigma};

verus! {

/// The procedures that every program can call without defining them.
#[derive(Debug, PartialEq, Eq, Structural, Clone, Copy)]
pub enum Builtin {
    Write,
    Add,
    Sub,
    Mult,
    Div,
    Modulo,
    Eq,
    Neq,
    G,
    L,
    Geq,
    Leq,
    And,
    Or,
    Xor,
    Rsh,
    Lsh,
    Bonot,
    Binot,
}

/// The number of arguments a builtin takes: the operands, then the three
/// components of the address it writes to.
pub open spec fn spec_arg_count(op: Builtin) -> usize {
    match op {
        Builtin::Write | Builtin::Bonot | Builtin::Binot => 4,
        _ => 5,
    }
}

/// `1` when `b` holds, else `0`.
pub open spec fn flag(b: bool) -> u8 {
    if b {
        1
    } else {
        0
    }
}

/// The value a two-operand builtin computes from `a` and `b`.
pub open spec fn binary_value(op: Builtin, a: u8, b: u8) -> Result<u8, RuntimeError> {
    match op {
        Builtin::Add => Ok(((a + b) % 256) as u8),
        Builtin::Sub => Ok(((a - b) % 256) as u8),
        Builtin::Mult => Ok(((a * b) % 256) as u8),
        Builtin::Div => if b == 0 {
            Err(RuntimeError::DivisionByZero)
        } else {
            Ok((a / b) as u8)
        },
        Builtin::Modulo => if b == 0 {
            Err(RuntimeError::DivisionByZero)
        } else {
            Ok((a % b) as u8)
        },
        Builtin::Eq => Ok(flag(a == b)),
        Builtin::Neq => Ok(flag(a != b)),
        Builtin::G => Ok(flag(a > b)),
        Builtin::L => Ok(flag(a < b)),
        Builtin::Geq => Ok(flag(a >= b)),
        Builtin::Leq => Ok(flag(a <= b)),
        Builtin::And => Ok(a & b),
        Builtin::Or => Ok(a | b),
        Builtin::Xor => Ok(a ^ b),
        Builtin::Rsh => if b >= 8 {
            Err(RuntimeError::ShiftOverflow)
        } else {
            Ok(a >> b)
        },
        Builtin::Lsh => if b >= 8 {
            Err(RuntimeError::ShiftOverflow)
        } else {
            Ok(a << b)
        },
        // one-operand builtins
        Builtin::Bonot => Ok(flag(a == 0)),
        Builtin::Binot => Ok(!a),
        Builtin::Write => Ok(a),
    }
}

/// What running builtin `op` on `args` returns and leaves in memory.
pub open spec fn spec_builtin(op: Builtin, g: Grid, args: Seq<u8>) -> (Result<(), RuntimeError>, Grid) {
    if spec_arg_count(op) == 4 {
        match binary_value(op, args[0], 0) {
            Ok(v) => spec_store(g, v, args[1], args[2], args[3]),
            Err(e) => (Err(e), g),
        }
    } else {
        match binary_value(op, args[0], args[1]) {
            Ok(v) => spec_store(g, v, args[2], args[3], args[4]),
            Err(e) => (Err(e), g),
        }
    }
}

/// `after` has the dimensions of `before` and is well formed.
pub open spec fn keeps_shape(before: Sigma, after: Sigma) -> bool {
    &&& after.wf()
    &&& after.spec_width() == before.spec_width()
    &&& after.spec_height() == before.spec_height()
}

/// `$write(value, $1, $2, $3)`: stores `value` at `[$1, $2, $3]`.
pub fn write(sigma: &mut Sigma, args: Vec<u8>) -> (r: Result<(), RuntimeError>)
    requires
        old(sigma).wf(),
        args.len() >= 4,
    ensures
        keeps_shape(*old(sigma), *final(sigma)),
        (r, final(sigma)@) == spec_builtin(Builtin::Write, old(sigma)@, args@),
{
    sigma.store(args[0], args[1], args[2], args[3])
}

/// `$add(a, b, $1, $2, $3)`: stores `a + b` modulo 256.
pub fn add(sigma: &mut Sigma, args: Vec<u8>) -> (r: Result<(), RuntimeError>)
    requires
        old(sigma).wf(),
        args.len() >= 5,
    ensures
        keeps_shape(*old(sigma), *final(sigma)),
        (r, final(sigma)@) == spec_builtin(Builtin::Add, old(sigma)@, args@),
{
    let v = args[0].wrapping_add(args[1]);
    write(sigma, vec![v, args[2], args[3], args[4]])
}

/// `$sub(a, b, $1, $2, $3)`: stores `a - b` modulo 256.
pub fn sub(sigma: &mut Sigma, args: Vec<u8>) -> (r: Result<(), RuntimeError>)
    requires
        old(sigma).wf(),
        args.len() >= 5,
    ensures
        keeps_shape(*old(sigma), *final(sigma)),
        (r, final(sigma)@) == spec_builtin(Builtin::Sub, old(sigma)@, args@),
{
    let v = args[0].wrapping_sub(args[1]);
    write(sigma, vec![v, args[2], args[3], args[4]])
}

/// `$mult(a, b, $1, $2, $3)`: stores `a * b` modulo 256.
pub fn mult(sigma: &mut Sigma, args: Vec<u8>) -> (r: Result<(), RuntimeError>)
    requires
        old(sigma).wf(),
        args.len() >= 5,
    ensures
        keeps_shape(*old(sigma), *final(sigma)),
        (r, final(sigma)@) == spec_builtin(Builtin::Mult, old(sigma)@, args@),
{
    let v = args[0].wrapping_mul(args[1]);
    write(sigma, vec![v, args[2], args[3], args[4]])
}

/// `$div(a, b, $1, $2, $3)`: stores `a / b`; a zero divisor stops the program.
pub fn div(sigma: &mut Sigma, args: Vec<u8>) -> (r: Result<(), RuntimeError>)
    requires
        old(sigma).wf(),
        args.len() >= 5,
    ensures
        keeps_shape(*old(sigma), *final(sigma)),
        (r, final(sigma)@) == spec_builtin(Builtin::Div, old(sigma)@, args@),
{
    if args[1] == 0 {
        return Err(RuntimeError::DivisionByZero);
    }
    let v = args[0] / args[1];
    write(sigma, vec![v, args[2], args[3], args[4]])
}

/// `$mod(a, b, $1, $2, $3)`: stores `a % b`; a zero divisor stops the program.
pub fn modulo(sigma: &mut Sigma, args: Vec<u8>) -> (r: Result<(), RuntimeError>)
    requires
        old(sigma).wf(),
        args.len() >= 5,
    ensures
        keeps_shape(*old(sigma), *final(sigma)),
        (r, final(sigma)@) == spec_builtin(Builtin::Modulo, old(sigma)@, args@),
{
    if args[1] == 0 {
        return Err(RuntimeError::DivisionByZero);
    }
    let v = args[0] % args[1];
    write(sigma, vec![v, args[2], args[3], args[4]])
}

/// `$eq(a, b, $1, $2, $3)`: stores `1` when `a == b`, else `0`.
pub fn eq(sigma: &mut Sigma, args: Vec<u8>) -> (r: Result<(), RuntimeError>)
    requires
        old(sigma).wf(),
        args.len() >= 5,
    ensures
        keeps_shape(*old(sigma), *final(sigma)),
        (r, final(sigma)@) == spec_builtin(Builtin::Eq, old(sigma)@, args@),
{
    let v: u8 = if args[0] == args[1] { 1 } else { 0 };
    write(sigma, vec![v, args[2], args[3], args[4]])
}

/// `$neq(a, b, $1, $2, $3)`: stores `1` when `a != b`, else `0`.
pub fn neq(sigma: &mut Sigma, args: Vec<u8>) -> (r: Result<(), RuntimeError>)
    requires
        old(sigma).wf(),
        args.len() >= 5,
    ensures
        keeps_shape(*old(sigma), *final(sigma)),
        (r, final(sigma)@) == spec_builtin(Builtin::Neq, old(sigma)@, args@),
{
    let v: u8 = if args[0] != args[1] { 1 } else { 0 };
    write(sigma, vec![v, args[2], args[3], args[4]])
}

/// `$g(a, b, $1, $2, $3)`: stores `1` when `a > b`, else `0`.
pub fn g(sigma: &mut Sigma, args: Vec<u8>) -> (r: Result<(), RuntimeError>)
    requires
        old(sigma).wf(),
        args.len() >= 5,
    ensures
        keeps_shape(*old(sigma), *final(sigma)),
        (r, final(sigma)@) == spec_builtin(Builtin::G, old(sigma)@, args@),
{
    let v: u8 = if args[0] > args[1] { 1 } else { 0 };
    write(sigma, vec![v, args[2], args[3], args[4]])
}

/// `$l(a, b, $1, $2, $3)`: stores `1` when `a < b`, else `0`.
pub fn l(sigma: &mut Sigma, args: Vec<u8>) -> (r: Result<(), RuntimeError>)
    requires
        old(sigma).wf(),
        args.len() >= 5,
    ensures
        keeps_shape(*old(sigma), *final(sigma)),
        (r, final(sigma)@) == spec_builtin(Builtin::L, old(sigma)@, args@),
{
    let v: u8 = if args[0] < args[1] { 1 } else { 0 };
    write(sigma, vec![v, args[2], args[3], args[4]])
}

/// `$geq(a, b, $1, $2, $3)`: stores `1` when `a >= b`, else `0`.
pub fn geq(sigma: &mut Sigma, args: Vec<u8>) -> (r: Result<(), RuntimeError>)
    requires
        old(sigma).wf(),
        args.len() >= 5,
    ensures
        keeps_shape(*old(sigma), *final(sigma)),
        (r, final(sigma)@) == spec_builtin(Builtin::Geq, old(sigma)@, args@),
{
    let v: u8 = if args[0] >= args[1] { 1 } else { 0 };
    write(sigma, vec![v, args[2], args[3], args[4]])
}

/// `$leq(a, b, $1, $2, $3)`: stores `1` when `a <= b`, else `0`.
pub fn leq(sigma: &mut Sigma, args: Vec<u8>) -> (r: Result<(), RuntimeError>)
    requires
        old(sigma).wf(),
        args.len() >= 5,
    ensures
        keeps_shape(*old(sigma), *final(sigma)),
        (r, final(sigma)@) == spec_builtin(Builtin::Leq, old(sigma)@, args@),
{
    let v: u8 = if args[0] <= args[1] { 1 } else { 0 };
    write(sigma, vec![v, args[2], args[3], args[4]])
}

/// `$and(a, b, $1, $2, $3)`: stores the bitwise and.
pub fn and(sigma: &mut Sigma, args: Vec<u8>) -> (r: Result<(), RuntimeError>)
    requires
        old(sigma).wf(),
        args.len() >= 5,
    ensures
        keeps_shape(*old(sigma), *final(sigma)),
        (r, final(sigma)@) == spec_builtin(Builtin::And, old(sigma)@, args@),
{
    let v = args[0] & args[1];
    write(sigma, vec![v, args[2], args[3], args[4]])
}

/// `$or(a, b, $1, $2, $3)`: stores the bitwise or.
pub fn or(sigma: &mut Sigma, args: Vec<u8>) -> (r: Result<(), RuntimeError>)
    requires
        old(sigma).wf(),
        args.len() >= 5,
    ensures
        keeps_shape(*old(sigma), *final(sigma)),
        (r, final(sigma)@) == spec_builtin(Builtin::Or, old(sigma)@, args@),
{
    let v = args[0] | args[1];
    write(sigma, vec![v, args[2], args[3], args[4]])
}

/// `$xor(a, b, $1, $2, $3)`: stores the bitwise exclusive or.
pub fn xor(sigma: &mut Sigma, args: Vec<u8>) -> (r: Result<(), RuntimeError>)
    requires
        old(sigma).wf(),
        args.len() >= 5,
    ensures
        keeps_shape(*old(sigma), *final(sigma)),
        (r, final(sigma)@) == spec_builtin(Builtin::Xor, old(sigma)@, args@),
{
    let v = args[0] ^ args[1];
    write(sigma, vec![v, args[2], args[3], args[4]])
}

/// `$rsh(a, b, $1, $2, $3)`: stores `a >> b`; a shift of eight or more stops the program.
pub fn rsh(sigma: &mut Sigma, args: Vec<u8>) -> (r: Result<(), RuntimeError>)
    requires
        old(sigma).wf(),
        args.len() >= 5,
    ensures
        keeps_shape(*old(sigma), *final(sigma)),
        (r, final(sigma)@) == spec_builtin(Builtin::Rsh, old(sigma)@, args@),
{
    if args[1] >= 8 {
        return Err(RuntimeError::ShiftOverflow);
    }
    let v = args[0] >> args[1];
    write(sigma, vec![v, args[2], args[3], args[4]])
}

/// `$lsh(a, b, $1, $2, $3)`: stores `a << b` (high bits dropped); a shift of eight or
/// more stops the program.
pub fn lsh(sigma: &mut Sigma, args: Vec<u8>) -> (r: Result<(), RuntimeError>)
    requires
        old(sigma).wf(),
        args.len() >= 5,
    ensures
        keeps_shape(*old(sigma), *final(sigma)),
        (r, final(sigma)@) == spec_builtin(Builtin::Lsh, old(sigma)@, args@),
{
    if args[1] >= 8 {
        return Err(RuntimeError::ShiftOverflow);
    }
    let v = args[0] << args[1];
    write(sigma, vec![v, args[2], args[3], args[4]])
}

/// `$bonot(a, $1, $2, $3)`: stores `1` when `a` is zero, else `0`.
pub fn bonot(sigma: &mut Sigma, args: Vec<u8>) -> (r: Result<(), RuntimeError>)
    requires
        old(sigma).wf(),
        args.len() >= 4,
    ensures
        keeps_shape(*old(sigma), *final(sigma)),
        (r, final(sigma)@) == spec_builtin(Builtin::Bonot, old(sigma)@, args@),
{
    let v: u8 = if args[0] != 0 { 0 } else { 1 };
    write(sigma, vec![v, args[1], args[2], args[3]])
}

/// `$binot(a, $1, $2, $3)`: stores the bitwise complement of `a`.
pub fn binot(sigma: &mut Sigma, args: Vec<u8>) -> (r: Result<(), RuntimeError>)
    requires
        old(sigma).wf(),
        args.len() >= 4,
    ensures
        keeps_shape(*old(sigma), *final(sigma)),
        (r, final(sigma)@) == spec_builtin(Builtin::Binot, old(sigma)@, args@),
{
    let v = !args[0];
    write(sigma, vec![v, args[1], args[2], args[3]])
}

/// The number of arguments builtin `op` takes.
pub fn arg_count(op: Builtin) -> (n: usize)
    ensures
        n == spec_arg_count(op),
{
    match op {
        Builtin::Write | Builtin::Bonot | Builtin::Binot => 4,
        _ => 5,
    }
}

/// Runs builtin `op` on `args`.
pub fn apply(op: Builtin, sigma: &mut Sigma, args: Vec<u8>) -> (r: Result<(), RuntimeError>)
    requires
        old(sigma).wf(),
        args.len() >= spec_arg_count(op),
    ensures
        keeps_shape(*old(sigma), *final(sigma)),
        (r, final(sigma)@) == spec_builtin(op, old(sigma)@, args@),
{
    match op {
        Builtin::Write => write(sigma, args),
        Builtin::Add => self::add(sigma, args),
        Builtin::Sub => self::sub(sigma, args),
        Builtin::Mult => mult(sigma, args),
        Builtin::Div => div(sigma, args),
        Builtin::Modulo => modulo(sigma, args),
        Builtin::Eq => eq(sigma, args),
        Builtin::Neq => neq(sigma, args),
        Builtin::G => g(sigma, args),
        Builtin::L => l(sigma, args),
        Builtin::Geq => geq(sigma, args),
        Builtin::Leq => leq(sigma, args),
        Builtin::And => and(sigma, args),
        Builtin::Or => or(sigma, args),
        Builtin::Xor => xor(sigma, args),
        Builtin::Rsh => rsh(sigma, args),
        Builtin::Lsh => lsh(sigma, args),
        Builtin::Bonot => bonot(sigma, args),
        Builtin::Binot => binot(sigma, args),
    }
}

} // verus!
