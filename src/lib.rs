//! An optimising compiler and interpreter for Brainfuck: programs are lowered
//! to blocks of parallel symbolic byte assignments, adjacent blocks are fused,
//! expressions are normalised as polynomials, and simple loops are replaced by
//! their closed form.
use vstd::prelude::*;

pub mod arith;
pub mod expr;
pub mod lower;
pub mod multinomial;
pub mod optimiser;
pub mod interpreter;
pub mod parser;
pub mod pretty;
pub mod fusion;
pub mod order;
pub mod stepper;

verus! {

/// A Brainfuck instruction, with loops already matched.
#[derive(Debug)]
pub enum BFRaw {
    /// `<`: move the head left.
    Lft,
    /// `>`: move the head right.
    Rgh,
    /// `+`: add one to the cell at the head.
    Inc,
    /// `-`: subtract one from the cell at the head.
    Dec,
    /// `,`: read a byte into the cell at the head.
    Ask,
    /// `.`: write the cell at the head.
    Put,
    /// `[...]`: run the body while the cell at the head is not zero.
    Loop(Vec<BFRaw>),
}

} // verus!
