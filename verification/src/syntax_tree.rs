use vstd::prelude::*;

use crate::builtin::Builtin;
use crate::sigma::{spec_read, Grid, RuntimeError, Sigma};
use crate::text::{
    is_digit, all_digits, contains_char, ends_with_char, has_char, parse_u8, same_text, spec_parse_u8,
    split_top, split_top_level, split_top_state,
};

verus! {

/// A value of the kernel language: a number, an argument of the running procedure,
/// or the memory cell at the address that three values give.
#[derive(Debug)]
pub enum Value {
    Pure { value: u8 },
    Argument { index: usize },
    Memory(Box<Value>, Box<Value>, Box<Value>),
}

/// One instruction of a procedure body.
#[derive(Debug)]
pub enum Instruction {
    /// Calls procedure `proc_index` with the values of `args`.
    Call { proc_index: usize, args: Vec<Value> },
    /// Runs the instructions up to `else_index` when the condition is not zero, and
    /// those from `else_index` up to `next_index` otherwise.
    IfElse { condition: Value, else_index: usize, next_index: usize },
    /// Runs the instructions up to `next_index` while the condition is not zero.
    While { condition: Value, next_index: usize },
}

/// A procedure: one of the builtins, or one defined by the program.
#[derive(Debug)]
pub enum Procedure {
    BuiltIn { arg_count: usize, func: Builtin },
    BuiltOut { arg_count: usize, code: Vec<Instruction> },
}

/// The abstract form of an instruction.
pub enum SpecInstruction {
    Call { proc_index: usize, args: Seq<Value> },
    IfElse { condition: Value, else_index: usize, next_index: usize },
    While { condition: Value, next_index: usize },
}

/// The abstract form of a procedure.
pub enum SpecProcedure {
    BuiltIn { arg_count: usize, func: Builtin },
    BuiltOut { arg_count: usize, code: Seq<SpecInstruction> },
}

impl View for Instruction {
    type V = SpecInstruction;

    open spec fn view(&self) -> SpecInstruction {
        match self {
            Instruction::Call { proc_index, args } => SpecInstruction::Call {
                proc_index: *proc_index,
                args: args@,
            },
            Instruction::IfElse { condition, else_index, next_index } => SpecInstruction::IfElse {
                condition: *condition,
                else_index: *else_index,
                next_index: *next_index,
            },
            Instruction::While { condition, next_index } => SpecInstruction::While {
                condition: *condition,
                next_index: *next_index,
            },
        }
    }
}

impl View for Procedure {
    type V = SpecProcedure;

    open spec fn view(&self) -> SpecProcedure {
        match self {
            Procedure::BuiltIn { arg_count, func } => SpecProcedure::BuiltIn {
                arg_count: *arg_count,
                func: *func,
            },
            Procedure::BuiltOut { arg_count, code } => SpecProcedure::BuiltOut {
                arg_count: *arg_count,
                code: code@.map_values(|i: Instruction| i@),
            },
        }
    }
}

/// The kinds of error that stop building a tree from kernel code.
#[derive(Debug, PartialEq, Eq, Structural, Clone, Copy)]
pub enum ParseErrorKind {
    /// A value made of digits that is not a number from 0 to 255.
    InvalidPureValue,
    /// A name that is not an argument of the procedure.
    InvalidArgument,
    /// A memory read whose address does not have three components.
    InvalidMemoryRead,
    /// A value of no known form.
    InvalidValueFormat,
    /// A line outside every procedure.
    CodeOutsideProcedures,
    /// A procedure header without an argument list.
    InvalidProcedureDefinition,
    /// Code before the first procedure.
    NoProcedureInitialized,
    /// A call of a procedure that no header defines.
    ProcedureDoesNotExist,
    /// A call without an argument list.
    InvalidProcedureCall,
    /// A `while` or `if` line too short to hold a condition.
    InvalidCondition,
}

/// An error that stops building the tree, with the text it is about.
#[derive(Debug)]
pub struct ParseError {
    pub kind: ParseErrorKind,
    pub text: Vec<char>,
}

/// The abstract form of a tree-building error.
pub open spec fn err_view(e: ParseError) -> (ParseErrorKind, Seq<char>) {
    (e.kind, e.text@)
}

/// The abstract form of the result of parsing a value.
pub open spec fn value_result_view(r: Result<Value, ParseError>) -> Result<Value, (ParseErrorKind, Seq<char>)> {
    match r {
        Ok(v) => Ok(v),
        Err(e) => Err(err_view(e)),
    }
}

/// The position of the first name in `names` that equals `s`.
pub open spec fn name_index(names: Seq<Seq<char>>, s: Seq<char>) -> Option<int>
    decreases names.len(),
{
    if names.len() == 0 {
        None
    } else {
        match name_index(names.drop_last(), s) {
            Some(i) => Some(i),
            None => if names.last() == s {
                Some(names.len() - 1)
            } else {
                None
            },
        }
    }
}

/// Component `k` of an address, empty when it is missing.
pub open spec fn component(parts: Seq<Seq<char>>, k: int) -> Seq<char> {
    if k < parts.len() {
        parts[k]
    } else {
        Seq::empty()
    }
}

/// The pieces of a split are no longer than the text split.
pub proof fn lemma_split_top_lengths(s: Seq<char>)
    ensures
        forall|k: int| 0 <= k < split_top(s).len() ==> #[trigger] split_top(s)[k].len() <= s.len(),
    decreases s.len(),
{
    crate::text::lemma_split_top_nonempty(s);
    if s.len() > 0 {
        lemma_split_top_lengths(s.drop_last());
        crate::text::lemma_split_top_nonempty(s.drop_last());
        let (ps, d) = split_top_state(s.drop_last());
        let parts = split_top(s);
        assert forall|k: int| 0 <= k < parts.len() implies #[trigger] parts[k].len() <= s.len() by {
            if k < ps.len() {
                assert(split_top(s.drop_last())[k].len() <= s.drop_last().len());
            }
        }
    }
}

/// What reading the text `s` as a value gives, with `names` the argument names of
/// the procedure.
pub open spec fn spec_value(s: Seq<char>, names: Seq<Seq<char>>) -> Result<Value, (ParseErrorKind, Seq<char>)>
    decreases s.len(),
{
    if all_digits(s) {
        match spec_parse_u8(s) {
            Some(v) => Ok(Value::Pure { value: v }),
            None => Err((ParseErrorKind::InvalidPureValue, s)),
        }
    } else if !(has_char(s, '[') || has_char(s, ']')) {
        match name_index(names, s) {
            Some(i) => Ok(Value::Argument { index: i as usize }),
            None => Err((ParseErrorKind::InvalidArgument, s)),
        }
    } else if s.len() > 0 && s[0] == '[' && s.last() == ']' {
        let parts = split_top(s.subrange(1, s.len() - 1));
        if parts.len() > 3 {
            Err((ParseErrorKind::InvalidMemoryRead, s))
        } else {
            proof {
                lemma_split_top_lengths(s.subrange(1, s.len() - 1));
            }
            match spec_value(component(parts, 0), names) {
                Err(e) => Err(e),
                Ok(a) => match spec_value(component(parts, 1), names) {
                    Err(e) => Err(e),
                    Ok(b) => match spec_value(component(parts, 2), names) {
                        Err(e) => Err(e),
                        Ok(c) => Ok(Value::Memory(Box::new(a), Box::new(b), Box::new(c))),
                    },
                },
            }
        }
    } else {
        Err((ParseErrorKind::InvalidValueFormat, s))
    }
}

/// What evaluating `v` gives, with `args` the arguments of the running procedure.
pub open spec fn spec_eval(v: Value, g: Grid, args: Seq<u8>) -> Result<u8, RuntimeError>
    decreases v,
{
    match v {
        Value::Pure { value } => Ok(value),
        Value::Argument { index } => if index < args.len() {
            Ok(args[index as int])
        } else {
            Err(RuntimeError::MissingArgument { index })
        },
        Value::Memory(a, b, c) => match spec_eval(*a, g, args) {
            Err(e) => Err(e),
            Ok(x) => match spec_eval(*b, g, args) {
                Err(e) => Err(e),
                Ok(y) => match spec_eval(*c, g, args) {
                    Err(e) => Err(e),
                    Ok(z) => spec_read(g, x, y, z),
                },
            },
        },
    }
}

/// The argument names as abstract texts.
pub open spec fn names_view(names: Seq<Vec<char>>) -> Seq<Seq<char>> {
    names.map_values(|n: Vec<char>| n@)
}

/// The position of the first of `names` equal to `s`.
pub fn position_of(names: &Vec<Vec<char>>, s: &Vec<char>) -> (r: Option<usize>)
    ensures
        match r {
            Some(i) => name_index(names_view(names@), s@) == Some(i as int),
            None => name_index(names_view(names@), s@) == None::<int>,
        },
{
    let mut i: usize = 0;
    while i < names.len()
        invariant
            i <= names@.len(),
            name_index(names_view(names@.subrange(0, i as int)), s@) == None::<int>,
        decreases names@.len() - i,
    {
        proof {
            assert(names_view(names@.subrange(0, i + 1)).drop_last() =~= names_view(
                names@.subrange(0, i as int),
            ));
        }
        if same_text(&names[i], s) {
            proof {
                lemma_name_index_prefix(names_view(names@), s@, i as int + 1);
                assert(names_view(names@).subrange(0, i + 1) =~= names_view(names@.subrange(0, i + 1)));
            }
            return Some(i);
        }
        i = i + 1;
    }
    assert(names@.subrange(0, names@.len() as int) =~= names@);
    None
}

/// A match found among the first `k` names is the first match of all.
pub proof fn lemma_name_index_prefix(names: Seq<Seq<char>>, s: Seq<char>, k: int)
    requires
        0 <= k <= names.len(),
    ensures
        name_index(names.subrange(0, k), s) is Some ==> name_index(names, s) == name_index(
            names.subrange(0, k),
            s,
        ),
    decreases names.len() - k,
{
    if k < names.len() {
        lemma_name_index_prefix(names, s, k + 1);
        assert(names.subrange(0, k + 1).drop_last() =~= names.subrange(0, k));
    } else {
        assert(names.subrange(0, k) =~= names);
    }
}

impl Value {
    /// Reads the text `str` as a value; `arg_names` are the argument names of the
    /// procedure it stands in.
    pub fn new(str: &Vec<char>, arg_names: &Vec<Vec<char>>) -> (r: Result<Value, ParseError>)
        ensures
            value_result_view(r) == spec_value(str@, names_view(arg_names@)),
        decreases str@.len(),
    {
        let mut digits = true;
        let mut i: usize = 0;
        while i < str.len()
            invariant
                i <= str@.len(),
                digits == all_digits(str@.subrange(0, i as int)),
            decreases str@.len() - i,
        {
            let c = str[i];
            let ghost before = str@.subrange(0, i as int);
            let ghost after = str@.subrange(0, i + 1);
            assert(after.drop_last() =~= before);
            assert(after[i as int] == c);
            proof {
            if all_digits(after) {
                assert(is_digit(after[i as int]));
                assert forall|j: int| 0 <= j < before.len() implies is_digit(#[trigger] before[j]) by {
                    assert(before[j] == after[j]);
                }
            }
            if all_digits(before) && is_digit(c) {
                assert forall|j: int| 0 <= j < after.len() implies is_digit(#[trigger] after[j]) by {
                    if j < i {
                        assert(before[j] == after[j]);
                    }
                }
            }
            }
            digits = digits && '0' <= c && c <= '9';
            i = i + 1;
        }
        assert(str@.subrange(0, str@.len() as int) =~= str@);
        if digits {
            return match parse_u8(str) {
                Some(value) => Ok(Value::Pure { value }),
                None => Err(ParseError { kind: ParseErrorKind::InvalidPureValue, text: str.clone() }),
            };
        }
        if !(contains_char(str, '[') || contains_char(str, ']')) {
            return match position_of(arg_names, str) {
                Some(index) => Ok(Value::Argument { index }),
                None => Err(ParseError { kind: ParseErrorKind::InvalidArgument, text: str.clone() }),
            };
        }
        if str.len() > 0 && str[0] == '[' && ends_with_char(str, ']') {
            let inner = crate::text::slice(str, 1, str.len() - 1);
            let addr = split_top_level(&inner);
            if addr.len() > 3 {
                return Err(ParseError { kind: ParseErrorKind::InvalidMemoryRead, text: str.clone() });
            }
            proof {
                lemma_split_top_lengths(inner@);
                crate::text::lemma_split_top_nonempty(inner@);
                assert(addr@[0]@.len() < str@.len());
            }
            let empty: Vec<char> = Vec::new();
            let a = Value::new(&addr[0], arg_names)?;
            let b = if addr.len() > 1 {
                Value::new(&addr[1], arg_names)?
            } else {
                Value::new(&empty, arg_names)?
            };
            let c = if addr.len() > 2 {
                Value::new(&addr[2], arg_names)?
            } else {
                Value::new(&empty, arg_names)?
            };
            return Ok(Value::Memory(Box::new(a), Box::new(b), Box::new(c)));
        }
        Err(ParseError { kind: ParseErrorKind::InvalidValueFormat, text: str.clone() })
    }

    /// The value of `self` in memory `sigma`, with `args_value` the arguments of the
    /// running procedure.
    pub fn eval(&self, sigma: &Sigma, args_value: &Vec<u8>) -> (r: Result<u8, RuntimeError>)
        requires
            sigma.wf(),
        ensures
            r == spec_eval(*self, sigma@, args_value@),
        decreases self,
    {
        match self {
            Value::Pure { value } => Ok(*value),
            Value::Argument { index } => {
                if *index < args_value.len() {
                    Ok(args_value[*index])
                } else {
                    Err(RuntimeError::MissingArgument { index: *index })
                }
            },
            Value::Memory(one, two, three) => {
                let x = Value::eval(&**one, sigma, args_value)?;
                let y = Value::eval(&**two, sigma, args_value)?;
                let z = Value::eval(&**three, sigma, args_value)?;
                sigma.read(x, y, z)
            },
        }
    }
}

} // verus!
