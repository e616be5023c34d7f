use vstd::prelude::*;

pub mod sigma;
pub mod builtin;
pub mod text;
pub mod syntax_tree;
pub mod interpreter;
pub mod kerneler;
pub mod lexer;
pub mod define;
pub mod rewrite;
pub mod compiler;
pub mod parse;
pub mod renderer;
pub mod roundtrip;

verus! {
} // verus!
