//! The intermediate representation: symbolic byte expressions and the blocks
//! built from them, with their meaning over a tape.
use std::rc::Rc;
use vstd::prelude::*;

use crate::arith::quotient;

verus! {

broadcast use vstd::std_specs::vec::axiom_vec_index_decreases, vstd::seq::axiom_seq_index_decreases;

/// A symbolic byte expression.
#[derive(Debug, Clone, PartialEq, Eq, Hash, PartialOrd, Ord)]
pub enum ProcExpr {
    /// A literal byte.
    Lit(u8),
    /// The cell at `head + r` on entry to the enclosing atomic effect.
    Reg(i32),
    /// Sum with wrap-around.
    Add(Rc<ProcExpr>, Rc<ProcExpr>),
    /// Product with wrap-around.
    Mul(Rc<ProcExpr>, Rc<ProcExpr>),
    /// `Into(a, b)` is the smallest `q` with `q * a == b (mod 256)`; it fails
    /// where there is none.
    Into(Rc<ProcExpr>, Rc<ProcExpr>),
}

/// A unit of execution.
#[derive(Debug, PartialEq, Eq)]
pub enum OptimisedBlock {
    /// Read one byte into the cell at the head.
    Ask,
    /// Write the cell at the head.
    Put,
    /// Parallel assignments, keyed by register in increasing order, then a
    /// move of the head.
    AtomicEffect(Vec<(i32, Rc<ProcExpr>)>, i32),
    /// Run the body while the cell at the head is not zero.
    Loop(Vec<OptimisedBlock>),
}

/// What a block is, with sequences in place of vectors.
pub ghost enum Block {
    Ask,
    Put,
    Effect(Seq<(i32, ProcExpr)>, i32),
    Loop(Seq<Block>),
}

/// The assignments of an atomic effect as a sequence of values.
pub open spec fn assigns_view(v: Seq<(i32, Rc<ProcExpr>)>) -> Seq<(i32, ProcExpr)> {
    Seq::new(v.len(), |i: int| (v[i].0, *v[i].1))
}

impl OptimisedBlock {
    /// The block with its vectors seen as sequences.
    pub open spec fn view(&self) -> Block
        decreases self,
    {
        match self {
            OptimisedBlock::Ask => Block::Ask,
            OptimisedBlock::Put => Block::Put,
            OptimisedBlock::AtomicEffect(v, s) => Block::Effect(assigns_view(v@), *s),
            OptimisedBlock::Loop(bs) => Block::Loop(views(bs@)),
        }
    }
}

/// The blocks of a sequence, viewed.
pub open spec fn views(bs: Seq<OptimisedBlock>) -> Seq<Block>
    decreases bs,
{
    if bs.len() == 0 {
        Seq::empty()
    } else {
        views(bs.drop_last()).push(bs.last().view())
    }
}

/// The view of a sequence of blocks is taken element by element.
pub proof fn lemma_views_index(bs: Seq<OptimisedBlock>)
    ensures
        views(bs).len() == bs.len(),
        forall|i: int| 0 <= i < bs.len() ==> #[trigger] views(bs)[i] == bs[i]@,
    decreases bs.len(),
{
    if bs.len() > 0 {
        lemma_views_index(bs.drop_last());
    }
}

/// The cell at offset `i`; cells never written hold zero.
pub open spec fn cell(tape: Map<i32, u8>, i: i32) -> u8 {
    if tape.contains_key(i) {
        tape[i]
    } else {
        0
    }
}

/// The offset `r` cells from `head`; offsets wrap around.
pub open spec fn at(head: i32, r: i32) -> i32 {
    vstd::wrapping::i32_specs::wrapping_add(head, r)
}

/// The value of `e` with the head at `head`, or `None` where an `Into` in it
/// has no quotient.
pub open spec fn eval(e: ProcExpr, tape: Map<i32, u8>, head: i32) -> Option<u8>
    decreases e,
{
    match e {
        ProcExpr::Lit(v) => Some(v),
        ProcExpr::Reg(r) => Some(cell(tape, at(head, r))),
        ProcExpr::Add(a, b) => match (eval(*a, tape, head), eval(*b, tape, head)) {
            (Some(x), Some(y)) => Some(vstd::wrapping::u8_specs::wrapping_add(x, y)),
            _ => None,
        },
        ProcExpr::Mul(a, b) => match (eval(*a, tape, head), eval(*b, tape, head)) {
            (Some(x), Some(y)) => Some(vstd::wrapping::u8_specs::wrapping_mul(x, y)),
            _ => None,
        },
        ProcExpr::Into(a, b) => match (eval(*a, tape, head), eval(*b, tape, head)) {
            (Some(x), Some(y)) => quotient(y, x),
            _ => None,
        },
    }
}

/// The registers that `e` reads.
pub open spec fn regs(e: ProcExpr) -> Set<i32>
    decreases e,
{
    match e {
        ProcExpr::Lit(_) => Set::empty(),
        ProcExpr::Reg(r) => set![r],
        ProcExpr::Add(a, b) => regs(*a).union(regs(*b)),
        ProcExpr::Mul(a, b) => regs(*a).union(regs(*b)),
        ProcExpr::Into(a, b) => regs(*a).union(regs(*b)),
    }
}

/// `e` with every register moved by `s`.
pub open spec fn shifted(s: i32, e: ProcExpr) -> ProcExpr
    decreases e,
{
    match e {
        ProcExpr::Lit(v) => ProcExpr::Lit(v),
        ProcExpr::Reg(r) => ProcExpr::Reg(at(s, r)),
        ProcExpr::Add(a, b) => ProcExpr::Add(Rc::new(shifted(s, *a)), Rc::new(shifted(s, *b))),
        ProcExpr::Mul(a, b) => ProcExpr::Mul(Rc::new(shifted(s, *a)), Rc::new(shifted(s, *b))),
        ProcExpr::Into(a, b) => ProcExpr::Into(Rc::new(shifted(s, *a)), Rc::new(shifted(s, *b))),
    }
}

/// Structural equality of expressions.
pub fn expr_eq(a: &ProcExpr, b: &ProcExpr) -> (r: bool)
    ensures
        r == (*a == *b),
    decreases a,
{
    match (a, b) {
        (ProcExpr::Lit(x), ProcExpr::Lit(y)) => *x == *y,
        (ProcExpr::Reg(x), ProcExpr::Reg(y)) => *x == *y,
        (ProcExpr::Add(a1, a2), ProcExpr::Add(b1, b2)) => expr_eq(a1, b1) && expr_eq(a2, b2),
        (ProcExpr::Mul(a1, a2), ProcExpr::Mul(b1, b2)) => expr_eq(a1, b1) && expr_eq(a2, b2),
        (ProcExpr::Into(a1, a2), ProcExpr::Into(b1, b2)) => expr_eq(a1, b1) && expr_eq(a2, b2),
        _ => false,
    }
}

/// Whether `e` reads register `r`.
pub fn reads(e: &ProcExpr, r: i32) -> (b: bool)
    ensures
        b == regs(*e).contains(r),
    decreases e,
{
    match e {
        ProcExpr::Lit(_) => false,
        ProcExpr::Reg(x) => *x == r,
        ProcExpr::Add(a, c) => reads(a, r) || reads(c, r),
        ProcExpr::Mul(a, c) => reads(a, r) || reads(c, r),
        ProcExpr::Into(a, c) => reads(a, r) || reads(c, r),
    }
}

/// `e` with every register moved by `s`.
pub fn shift(s: i32, e: &ProcExpr) -> (r: Rc<ProcExpr>)
    ensures
        *r == shifted(s, *e),
    decreases e,
{
    Rc::new(
        match e {
            ProcExpr::Lit(v) => ProcExpr::Lit(*v),
            ProcExpr::Reg(r) => ProcExpr::Reg(s.wrapping_add(*r)),
            ProcExpr::Add(a, b) => ProcExpr::Add(shift(s, a), shift(s, b)),
            ProcExpr::Mul(a, b) => ProcExpr::Mul(shift(s, a), shift(s, b)),
            ProcExpr::Into(a, b) => ProcExpr::Into(shift(s, a), shift(s, b)),
        },
    )
}

} // verus!
