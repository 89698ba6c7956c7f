//! The interpreter of optimised blocks over a tape of bytes.
use std::collections::HashMap;
use std::rc::Rc;
use vstd::prelude::*;

use crate::arith::div_u8;
use crate::BFRaw;
use crate::expr::{at, cell, eval, expr_eq, lemma_views_index, views, Block, OptimisedBlock, ProcExpr};

verus! {

broadcast use vstd::std_specs::hash::group_hash_axioms, vstd::std_specs::vec::axiom_vec_index_decreases,
    vstd::seq::axiom_seq_index_decreases;

/// Cells indexed by offset; cells never written read as zero.
pub struct Tape {
    cells: HashMap<i32, u8>,
}

impl View for Tape {
    type V = Map<i32, u8>;

    closed spec fn view(&self) -> Map<i32, u8> {
        self.cells@
    }
}

impl Tape {
    /// A tape of zeros.
    pub fn new() -> (r: Tape)
        ensures
            r@ == Map::<i32, u8>::empty(),
    {
        Tape { cells: HashMap::new() }
    }

    /// The cell at offset `i`.
    pub fn get(&self, i: i32) -> (r: u8)
        ensures
            r == cell(self@, i),
    {
        match self.cells.get(&i) {
            Some(v) => *v,
            None => 0,
        }
    }

    /// Writes `v` to the cell at offset `i`.
    pub fn set(&mut self, i: i32, v: u8)
        ensures
            final(self)@ == old(self)@.insert(i, v),
    {
        self.cells.insert(i, v);
    }

    /// Sets every cell back to zero.
    pub fn clear(&mut self)
        ensures
            final(self)@ == Map::<i32, u8>::empty(),
    {
        self.cells.clear();
    }
}

/// Where the interpreter reads input bytes from and writes output bytes to.
pub trait Console {
    /// The next input byte.
    fn ask(&mut self) -> u8;

    /// Writes one output byte.
    fn put(&mut self, x: u8);
}

/// How a run ended.
#[derive(Debug, Clone, Copy, PartialEq, Eq, Structural)]
pub enum Outcome {
    /// Every block ran to its end.
    Halted,
    /// An `Into` had no quotient on the cells at hand: a loop that was
    /// closed would not have halted.
    Aborted,
    /// A loop was to start another run with no fuel left.
    OutOfFuel,
}

/// The interpreter's state: the head, the tape, the console, the fuel (the
/// number of loop-body runs still allowed), and a record of the bytes read
/// and written.
pub struct BFCtx<C: Console> {
    pub index: i32,
    pub tape: Tape,
    pub io: C,
    pub fuel: u64,
    pub read: Ghost<Seq<u8>>,
    pub written: Ghost<Seq<u8>>,
}

impl<C: Console> BFCtx<C> {
    /// A context with the head at zero, an empty tape and `fuel` loop runs.
    pub fn new(io: C, fuel: u64) -> (r: BFCtx<C>)
        ensures
            r.index == 0,
            r.tape@ == Map::<i32, u8>::empty(),
            r.fuel == fuel,
            r.read@ == Seq::<u8>::empty(),
            r.written@ == Seq::<u8>::empty(),
    {
        BFCtx { index: 0, tape: Tape::new(), io, fuel, read: Ghost(Seq::empty()), written: Ghost(Seq::empty()) }
    }
}

/// The state that the semantics of blocks and instructions speaks of.
pub ghost struct Machine {
    pub head: i32,
    pub tape: Map<i32, u8>,
    /// How many input bytes have been read.
    pub read: nat,
    pub written: Seq<u8>,
    pub fuel: nat,
}

/// The state of a context, as the semantics sees it.
pub open spec fn machine<C: Console>(ctx: BFCtx<C>) -> Machine {
    Machine { head: ctx.index, tape: ctx.tape@, read: ctx.read@.len(), written: ctx.written@, fuel: ctx.fuel as nat }
}

/// The `k`-th byte of the input `o`.
pub open spec fn input_at(o: Seq<u8>, k: nat) -> u8 {
    if k < o.len() {
        o[k as int]
    } else {
        0
    }
}

/// Every expression of the effect has a value on the entry snapshot.
pub open spec fn effect_ok(xs: Seq<(i32, ProcExpr)>, tape: Map<i32, u8>, head: i32) -> bool {
    forall|i: int| 0 <= i < xs.len() ==> #[trigger] eval(xs[i].1, tape, head) is Some
}

/// `base` with the first `n` assignments written, each valued on `snap`.
pub open spec fn commit(xs: Seq<(i32, ProcExpr)>, snap: Map<i32, u8>, head: i32, n: int, base: Map<i32, u8>) -> Map<
    i32,
    u8,
>
    decreases n,
{
    if n <= 0 {
        base
    } else {
        commit(xs, snap, head, n - 1, base).insert(at(head, xs[n - 1].0), eval(xs[n - 1].1, snap, head).unwrap())
    }
}

/// Running one block on input `o`: how it ends and the state after it.
pub open spec fn run_block(b: Block, m: Machine, o: Seq<u8>) -> (Outcome, Machine)
    decreases m.fuel, b,
{
    match b {
        Block::Ask => (
            Outcome::Halted,
            Machine { tape: m.tape.insert(m.head, input_at(o, m.read)), read: m.read + 1, ..m },
        ),
        Block::Put => (Outcome::Halted, Machine { written: m.written.push(cell(m.tape, m.head)), ..m }),
        Block::Effect(xs, s) => if effect_ok(xs, m.tape, m.head) {
            (
                Outcome::Halted,
                Machine { tape: commit(xs, m.tape, m.head, xs.len() as int, m.tape), head: at(m.head, s), ..m },
            )
        } else {
            (Outcome::Aborted, m)
        },
        Block::Loop(body) => run_loop(body, m, o),
    }
}

/// Running a loop with body `body`: while the cell at the head is not zero,
/// one unit of fuel and one run of the body.
pub open spec fn run_loop(body: Seq<Block>, m: Machine, o: Seq<u8>) -> (Outcome, Machine)
    decreases m.fuel, body,
{
    if cell(m.tape, m.head) == 0 {
        (Outcome::Halted, m)
    } else if m.fuel == 0 {
        (Outcome::OutOfFuel, m)
    } else {
        let (r, m1) = run_seq(body, Machine { fuel: (m.fuel - 1) as nat, ..m }, o);
        if r != Outcome::Halted {
            (r, m1)
        } else if m1.fuel < m.fuel {
            run_loop(body, m1, o)
        } else {
            (Outcome::OutOfFuel, m1)
        }
    }
}

/// Running blocks in order, up to the first that does not halt.
pub open spec fn run_seq(bs: Seq<Block>, m: Machine, o: Seq<u8>) -> (Outcome, Machine)
    decreases m.fuel, bs,
{
    if bs.len() == 0 {
        (Outcome::Halted, m)
    } else {
        let (r, m1) = run_block(bs[0], m, o);
        if r != Outcome::Halted {
            (r, m1)
        } else if m1.fuel <= m.fuel {
            run_seq(bs.drop_first(), m1, o)
        } else {
            (Outcome::OutOfFuel, m1)
        }
    }
}

/// Running one instruction directly, without lowering.
pub open spec fn raw_step(i: BFRaw, m: Machine, o: Seq<u8>) -> (Outcome, Machine)
    decreases m.fuel, i,
{
    match i {
        BFRaw::Lft => (Outcome::Halted, Machine { head: vstd::wrapping::i32_specs::wrapping_sub(m.head, 1), ..m }),
        BFRaw::Rgh => (Outcome::Halted, Machine { head: vstd::wrapping::i32_specs::wrapping_add(m.head, 1), ..m }),
        BFRaw::Inc => (
            Outcome::Halted,
            Machine { tape: m.tape.insert(m.head, vstd::wrapping::u8_specs::wrapping_add(cell(m.tape, m.head), 1)), ..m },
        ),
        BFRaw::Dec => (
            Outcome::Halted,
            Machine { tape: m.tape.insert(m.head, vstd::wrapping::u8_specs::wrapping_sub(cell(m.tape, m.head), 1)), ..m },
        ),
        BFRaw::Ask => (
            Outcome::Halted,
            Machine { tape: m.tape.insert(m.head, input_at(o, m.read)), read: m.read + 1, ..m },
        ),
        BFRaw::Put => (Outcome::Halted, Machine { written: m.written.push(cell(m.tape, m.head)), ..m }),
        BFRaw::Loop(is) => raw_loop(is@, m, o),
    }
}

/// Running a loop of instructions: while the cell at the head is not zero,
/// one unit of fuel and one run of the body.
pub open spec fn raw_loop(is: Seq<BFRaw>, m: Machine, o: Seq<u8>) -> (Outcome, Machine)
    decreases m.fuel, is,
{
    if cell(m.tape, m.head) == 0 {
        (Outcome::Halted, m)
    } else if m.fuel == 0 {
        (Outcome::OutOfFuel, m)
    } else {
        let (r, m1) = raw_seq(is, Machine { fuel: (m.fuel - 1) as nat, ..m }, o);
        if r != Outcome::Halted {
            (r, m1)
        } else if m1.fuel < m.fuel {
            raw_loop(is, m1, o)
        } else {
            (Outcome::OutOfFuel, m1)
        }
    }
}

/// Running instructions in order, up to the first that does not halt.
pub open spec fn raw_seq(is: Seq<BFRaw>, m: Machine, o: Seq<u8>) -> (Outcome, Machine)
    decreases m.fuel, is,
{
    if is.len() == 0 {
        (Outcome::Halted, m)
    } else {
        let (r, m1) = raw_step(is[0], m, o);
        if r != Outcome::Halted {
            (r, m1)
        } else if m1.fuel <= m.fuel {
            raw_seq(is.drop_first(), m1, o)
        } else {
            (Outcome::OutOfFuel, m1)
        }
    }
}

/// Every remembered value is the value of its expression.
pub open spec fn memo_ok(memo: Seq<(Rc<ProcExpr>, u8)>, tape: Map<i32, u8>, head: i32) -> bool {
    forall|i: int| 0 <= i < memo.len() ==> eval(*#[trigger] memo[i].0, tape, head) == Some(memo[i].1)
}

/// The value of `e` on `tape` with the head at `head`; compound
/// subexpressions already valued are taken from `memo`, and new values are
/// added to it.
fn compute(tape: &Tape, head: i32, memo: &mut Vec<(Rc<ProcExpr>, u8)>, e: &Rc<ProcExpr>) -> (r: Option<u8>)
    requires
        memo_ok(old(memo)@, tape@, head),
    ensures
        r == eval(**e, tape@, head),
        memo_ok(final(memo)@, tape@, head),
    decreases **e,
{
    let inner: &ProcExpr = e;
    if let ProcExpr::Lit(v) = inner {
        return Some(*v);
    }
    if let ProcExpr::Reg(r) = inner {
        return Some(tape.get(head.wrapping_add(*r)));
    }
    let mut i: usize = 0;
    while i < memo.len()
        invariant
            memo_ok(memo@, tape@, head),
        decreases memo.len() - i,
    {
        if expr_eq(&memo[i].0, e) {
            return Some(memo[i].1);
        }
        i = i + 1;
    }
    let v = match inner {
        ProcExpr::Add(a, b) => match (compute(tape, head, memo, a), compute(tape, head, memo, b)) {
            (Some(x), Some(y)) => Some(x.wrapping_add(y)),
            _ => None,
        },
        ProcExpr::Mul(a, b) => match (compute(tape, head, memo, a), compute(tape, head, memo, b)) {
            (Some(x), Some(y)) => Some(x.wrapping_mul(y)),
            _ => None,
        },
        ProcExpr::Into(a, b) => match (compute(tape, head, memo, a), compute(tape, head, memo, b)) {
            (Some(x), Some(y)) => div_u8(y, x),
            _ => None,
        },
        _ => None,
    };
    if let Some(x) = v {
        memo.push((e.clone(), x));
    }
    v
}

/// Runs an atomic effect: every expression is valued on the cells as they
/// are on entry, then all are written, then the head moves.
pub(crate) fn run_effect<C: Console>(ctx: &mut BFCtx<C>, xs: &Vec<(i32, Rc<ProcExpr>)>, s: i32) -> (r: Outcome)
    ensures
        run_block(Block::Effect(crate::expr::assigns_view(xs@), s), machine(*old(ctx)), Seq::empty()) == (r, machine(*final(ctx))),
        final(ctx).read == old(ctx).read,
{
    let ghost xv = crate::expr::assigns_view(xs@);
    let ghost snap = ctx.tape@;
    let head = ctx.index;
    let mut memo: Vec<(Rc<ProcExpr>, u8)> = Vec::new();
    let mut vals: Vec<u8> = Vec::new();
    let mut i: usize = 0;
    while i < xs.len()
        invariant
            xv == crate::expr::assigns_view(xs@),
            snap == ctx.tape@,
            head == ctx.index,
            i <= xs.len(),
            vals@.len() == i,
            memo_ok(memo@, snap, head),
            forall|k: int| 0 <= k < i ==> #[trigger] eval(xv[k].1, snap, head) == Some(vals@[k]),
        decreases xs.len() - i,
    {
        match compute(&ctx.tape, head, &mut memo, &xs[i].1) {
            Some(v) => {
                vals.push(v);
            },
            None => {
                proof {
                    assert(eval(xv[i as int].1, snap, head) is None);
                    assert(!effect_ok(xv, snap, head));
                }
                return Outcome::Aborted;
            },
        }
        i = i + 1;
    }
    proof {
        assert(effect_ok(xv, snap, head));
    }
    let mut j: usize = 0;
    while j < xs.len()
        invariant
            xv == crate::expr::assigns_view(xs@),
            head == ctx.index,
            j <= xs.len(),
            vals@.len() == xs.len(),
            forall|k: int| 0 <= k < xs.len() ==> #[trigger] eval(xv[k].1, snap, head) == Some(vals@[k]),
            ctx.tape@ == commit(xv, snap, head, j as int, snap),
            ctx.read == old(ctx).read,
            ctx.written == old(ctx).written,
            ctx.fuel == old(ctx).fuel,
        decreases xs.len() - j,
    {
        ctx.tape.set(head.wrapping_add(xs[j].0), vals[j]);
        j = j + 1;
    }
    ctx.index = head.wrapping_add(s);
    Outcome::Halted
}

proof fn lemma_prefix_trans(a: Seq<u8>, b: Seq<u8>, c: Seq<u8>)
    requires
        a.is_prefix_of(b),
        b.is_prefix_of(c),
    ensures
        a.is_prefix_of(c),
{
    assert(a =~= c.subrange(0, a.len() as int)) by {
        assert forall|i: int| 0 <= i < a.len() implies a[i] == c[i] by {
            assert(a[i] == b[i]);
            assert(b[i] == c[i]);
        }
    }
}

proof fn lemma_prefix_refl(a: Seq<u8>)
    ensures
        a.is_prefix_of(a),
{
    assert(a =~= a.subrange(0, a.len() as int));
}

proof fn lemma_prefix_push(a: Seq<u8>, x: u8, o: Seq<u8>)
    requires
        a.push(x).is_prefix_of(o),
    ensures
        a.is_prefix_of(o),
        input_at(o, a.len()) == x,
{
    assert(a.push(x)[a.len() as int] == x);
    assert(o.subrange(0, a.len() as int + 1)[a.len() as int] == o[a.len() as int]);
    assert(a =~= o.subrange(0, a.len() as int)) by {
        assert forall|i: int| 0 <= i < a.len() implies a[i] == o[i] by {
            assert(a.push(x)[i] == a[i]);
            assert(o.subrange(0, a.len() as int + 1)[i] == o[i]);
        }
    }
}

/// Runs one block. A loop runs its body while the cell at the head is not
/// zero, each run costing one unit of fuel. What the run does is
/// `run_block`, on any input that begins with the bytes read.
pub fn run_bfoptimised_block<C: Console>(ctx: &mut BFCtx<C>, b: &OptimisedBlock) -> (r: Outcome)
    ensures
        final(ctx).fuel <= old(ctx).fuel,
        old(ctx).read@.is_prefix_of(final(ctx).read@),
        forall|o: Seq<u8>|
            final(ctx).read@.is_prefix_of(o) ==> #[trigger] run_block(b@, machine(*old(ctx)), o) == (
                r,
                machine(*final(ctx)),
            ),
    decreases old(ctx).fuel, b@,
{
    match b {
        OptimisedBlock::Ask => {
            let x = ctx.io.ask();
            let h = ctx.index;
            ctx.tape.set(h, x);
            let ghost before = ctx.read@;
            ctx.read = Ghost(ctx.read@.push(x));
            proof {
                assert(before.is_prefix_of(ctx.read@)) by {
                    assert(before =~= ctx.read@.subrange(0, before.len() as int));
                }
                assert forall|o: Seq<u8>| ctx.read@.is_prefix_of(o) implies #[trigger] run_block(b@, machine(*old(ctx)), o) == (
                    Outcome::Halted,
                    machine(*ctx),
                ) by {
                    lemma_prefix_push(before, x, o);
                }
            }
            Outcome::Halted
        },
        OptimisedBlock::Put => {
            let x = ctx.tape.get(ctx.index);
            ctx.io.put(x);
            ctx.written = Ghost(ctx.written@.push(x));
            proof {
                lemma_prefix_refl(ctx.read@);
            }
            Outcome::Halted
        },
        OptimisedBlock::AtomicEffect(xs, s) => {
            let r = run_effect(ctx, xs, *s);
            proof {
                lemma_prefix_refl(ctx.read@);
            }
            r
        },
        OptimisedBlock::Loop(body) => {
            let ghost m0 = machine(*ctx);
            let ghost bv = views(body@);
            proof {
                lemma_prefix_refl(ctx.read@);
            }
            while ctx.tape.get(ctx.index) != 0
                invariant
                    bv == views(body@),
                    b@ == Block::Loop(bv),
                    m0 == machine(*old(ctx)),
                    ctx.fuel <= old(ctx).fuel,
                    old(ctx).read@.is_prefix_of(ctx.read@),
                    forall|o: Seq<u8>|
                        ctx.read@.is_prefix_of(o) ==> #[trigger] run_loop(bv, m0, o) == run_loop(bv, machine(*ctx), o),
                decreases ctx.fuel,
            {
                if ctx.fuel == 0 {
                    proof {
                        assert forall|o: Seq<u8>| ctx.read@.is_prefix_of(o) implies #[trigger] run_block(b@, machine(*old(ctx)), o) == (
                            Outcome::OutOfFuel,
                            machine(*ctx),
                        ) by {
                            assert(run_loop(bv, m0, o) == run_loop(bv, machine(*ctx), o));
                        }
                    }
                    return Outcome::OutOfFuel;
                }
                let ghost before = *ctx;
                ctx.fuel = ctx.fuel - 1;
                let ghost mid = *ctx;
                proof {
                    assert(machine(mid) == Machine { fuel: (machine(before).fuel - 1) as nat, ..machine(before) });
                }
                let r = run_blocks(ctx, body);
                proof {
                    lemma_prefix_trans(old(ctx).read@, before.read@, ctx.read@);
                    assert forall|o: Seq<u8>| ctx.read@.is_prefix_of(o) implies #[trigger] run_loop(bv, m0, o) == run_loop(
                        bv,
                        machine(*ctx),
                        o,
                    ) || r != Outcome::Halted by {
                        lemma_prefix_trans(before.read@, ctx.read@, o);
                        assert(run_seq(views(body@), machine(mid), o) == (r, machine(*ctx)));
                    }
                }
                if r != Outcome::Halted {
                    proof {
                        assert forall|o: Seq<u8>| ctx.read@.is_prefix_of(o) implies #[trigger] run_block(b@, machine(*old(ctx)), o) == (
                            r,
                            machine(*ctx),
                        ) by {
                            lemma_prefix_trans(before.read@, ctx.read@, o);
                            assert(run_seq(views(body@), machine(mid), o) == (r, machine(*ctx)));
                            assert(run_loop(bv, m0, o) == run_loop(bv, machine(before), o));
                        }
                    }
                    return r;
                }
            }
            proof {
                assert forall|o: Seq<u8>| ctx.read@.is_prefix_of(o) implies #[trigger] run_block(b@, machine(*old(ctx)), o) == (
                    Outcome::Halted,
                    machine(*ctx),
                ) by {
                    assert(run_loop(bv, m0, o) == run_loop(bv, machine(*ctx), o));
                }
            }
            Outcome::Halted
        },
    }
}

/// Runs blocks in order, up to the first that does not halt.
fn run_blocks<C: Console>(ctx: &mut BFCtx<C>, bs: &Vec<OptimisedBlock>) -> (r: Outcome)
    ensures
        final(ctx).fuel <= old(ctx).fuel,
        old(ctx).read@.is_prefix_of(final(ctx).read@),
        forall|o: Seq<u8>|
            final(ctx).read@.is_prefix_of(o) ==> #[trigger] run_seq(views(bs@), machine(*old(ctx)), o) == (
                r,
                machine(*final(ctx)),
            ),
    decreases old(ctx).fuel, views(bs@),
{
    let ghost all = views(bs@);
    let ghost m0 = machine(*ctx);
    let mut i: usize = 0;
    proof {
        lemma_views_index(bs@);
        lemma_prefix_refl(ctx.read@);
        assert(all.subrange(0, all.len() as int) =~= all);
    }
    while i < bs.len()
        invariant
            all == views(bs@),
            all.len() == bs@.len(),
            forall|k: int| 0 <= k < bs@.len() ==> #[trigger] all[k] == bs@[k]@,
            m0 == machine(*old(ctx)),
            i <= bs.len(),
            ctx.fuel <= old(ctx).fuel,
            old(ctx).read@.is_prefix_of(ctx.read@),
            forall|o: Seq<u8>|
                ctx.read@.is_prefix_of(o) ==> #[trigger] run_seq(all, m0, o) == run_seq(
                    all.subrange(i as int, all.len() as int),
                    machine(*ctx),
                    o,
                ),
        decreases bs.len() - i,
    {
        let ghost before = *ctx;
        let ghost rest = all.subrange(i as int, all.len() as int);
        proof {
            assert(rest[0] == all[i as int]);
            assert(rest.drop_first() =~= all.subrange(i + 1, all.len() as int));
        }
        let r = run_bfoptimised_block(ctx, &bs[i]);
        proof {
            lemma_prefix_trans(old(ctx).read@, before.read@, ctx.read@);
        }
        if r != Outcome::Halted {
            proof {
                assert forall|o: Seq<u8>| ctx.read@.is_prefix_of(o) implies #[trigger] run_seq(all, m0, o) == (r, machine(*ctx)) by {
                    lemma_prefix_trans(before.read@, ctx.read@, o);
                    assert(run_block(bs@[i as int]@, machine(before), o) == (r, machine(*ctx)));
                    assert(run_seq(rest, machine(before), o) == (r, machine(*ctx)));
                }
            }
            return r;
        }
        proof {
            assert forall|o: Seq<u8>| ctx.read@.is_prefix_of(o) implies #[trigger] run_seq(all, m0, o) == run_seq(
                all.subrange(i + 1, all.len() as int),
                machine(*ctx),
                o,
            ) by {
                lemma_prefix_trans(before.read@, ctx.read@, o);
                assert(run_block(bs@[i as int]@, machine(before), o) == (r, machine(*ctx)));
                assert(run_seq(rest, machine(before), o) == run_seq(rest.drop_first(), machine(*ctx), o));
            }
        }
        i = i + 1;
    }
    proof {
        assert forall|o: Seq<u8>| ctx.read@.is_prefix_of(o) implies #[trigger] run_seq(all, m0, o) == (
            Outcome::Halted,
            machine(*ctx),
        ) by {
            assert(all.subrange(i as int, all.len() as int) =~= Seq::<Block>::empty());
        }
    }
    Outcome::Halted
}

/// Runs a program of blocks; see `run_bfoptimised_block`.
pub fn run_bfoptimised<C: Console>(ctx: &mut BFCtx<C>, bs: Vec<OptimisedBlock>) -> (r: Outcome)
    ensures
        final(ctx).fuel <= old(ctx).fuel,
        old(ctx).read@.is_prefix_of(final(ctx).read@),
        forall|o: Seq<u8>|
            final(ctx).read@.is_prefix_of(o) ==> #[trigger] run_seq(views(bs@), machine(*old(ctx)), o) == (
                r,
                machine(*final(ctx)),
            ),
{
    run_blocks(ctx, &bs)
}

/// Runs one instruction directly. A loop runs its body while the cell at
/// the head is not zero, each run costing one unit of fuel. What the run
/// does is `raw_step`, on any input that begins with the bytes read.
pub fn run_bfraw_instruction<C: Console>(ctx: &mut BFCtx<C>, i: &BFRaw) -> (r: Outcome)
    ensures
        final(ctx).fuel <= old(ctx).fuel,
        old(ctx).read@.is_prefix_of(final(ctx).read@),
        forall|o: Seq<u8>|
            final(ctx).read@.is_prefix_of(o) ==> #[trigger] raw_step(*i, machine(*old(ctx)), o) == (
                r,
                machine(*final(ctx)),
            ),
    decreases old(ctx).fuel, *i,
{
    proof {
        lemma_prefix_refl(ctx.read@);
    }
    match i {
        BFRaw::Lft => {
            ctx.index = ctx.index.wrapping_sub(1);
            Outcome::Halted
        },
        BFRaw::Rgh => {
            ctx.index = ctx.index.wrapping_add(1);
            Outcome::Halted
        },
        BFRaw::Inc => {
            let h = ctx.index;
            let v = ctx.tape.get(h);
            ctx.tape.set(h, v.wrapping_add(1));
            Outcome::Halted
        },
        BFRaw::Dec => {
            let h = ctx.index;
            let v = ctx.tape.get(h);
            ctx.tape.set(h, v.wrapping_sub(1));
            Outcome::Halted
        },
        BFRaw::Ask => {
            let x = ctx.io.ask();
            let h = ctx.index;
            ctx.tape.set(h, x);
            let ghost before = ctx.read@;
            ctx.read = Ghost(ctx.read@.push(x));
            proof {
                assert(before.is_prefix_of(ctx.read@)) by {
                    assert(before =~= ctx.read@.subrange(0, before.len() as int));
                }
                assert forall|o: Seq<u8>| ctx.read@.is_prefix_of(o) implies #[trigger] raw_step(*i, machine(*old(ctx)), o) == (
                    Outcome::Halted,
                    machine(*ctx),
                ) by {
                    lemma_prefix_push(before, x, o);
                }
            }
            Outcome::Halted
        },
        BFRaw::Put => {
            let x = ctx.tape.get(ctx.index);
            ctx.io.put(x);
            ctx.written = Ghost(ctx.written@.push(x));
            Outcome::Halted
        },
        BFRaw::Loop(is) => {
            let ghost m0 = machine(*ctx);
            while ctx.tape.get(ctx.index) != 0
                invariant
                    *i == BFRaw::Loop(*is),
                    m0 == machine(*old(ctx)),
                    ctx.fuel <= old(ctx).fuel,
                    old(ctx).read@.is_prefix_of(ctx.read@),
                    forall|o: Seq<u8>|
                        ctx.read@.is_prefix_of(o) ==> #[trigger] raw_loop(is@, m0, o) == raw_loop(is@, machine(*ctx), o),
                decreases ctx.fuel,
            {
                if ctx.fuel == 0 {
                    proof {
                        assert forall|o: Seq<u8>| ctx.read@.is_prefix_of(o) implies #[trigger] raw_step(*i, machine(*old(ctx)), o) == (
                            Outcome::OutOfFuel,
                            machine(*ctx),
                        ) by {
                            assert(raw_loop(is@, m0, o) == raw_loop(is@, machine(*ctx), o));
                        }
                    }
                    return Outcome::OutOfFuel;
                }
                let ghost before = *ctx;
                ctx.fuel = ctx.fuel - 1;
                let ghost mid = *ctx;
                proof {
                    assert(machine(mid) == Machine { fuel: (machine(before).fuel - 1) as nat, ..machine(before) });
                }
                let r = run_bfraw(ctx, is);
                proof {
                    lemma_prefix_trans(old(ctx).read@, before.read@, ctx.read@);
                    assert forall|o: Seq<u8>| ctx.read@.is_prefix_of(o) implies #[trigger] raw_loop(is@, m0, o) == raw_loop(
                        is@,
                        machine(*ctx),
                        o,
                    ) || r != Outcome::Halted by {
                        lemma_prefix_trans(before.read@, ctx.read@, o);
                        assert(raw_seq(is@, machine(mid), o) == (r, machine(*ctx)));
                    }
                }
                if r != Outcome::Halted {
                    proof {
                        assert forall|o: Seq<u8>| ctx.read@.is_prefix_of(o) implies #[trigger] raw_step(*i, machine(*old(ctx)), o) == (
                            r,
                            machine(*ctx),
                        ) by {
                            lemma_prefix_trans(before.read@, ctx.read@, o);
                            assert(raw_seq(is@, machine(mid), o) == (r, machine(*ctx)));
                            assert(raw_loop(is@, m0, o) == raw_loop(is@, machine(before), o));
                        }
                    }
                    return r;
                }
            }
            proof {
                assert forall|o: Seq<u8>| ctx.read@.is_prefix_of(o) implies #[trigger] raw_step(*i, machine(*old(ctx)), o) == (
                    Outcome::Halted,
                    machine(*ctx),
                ) by {
                    assert(raw_loop(is@, m0, o) == raw_loop(is@, machine(*ctx), o));
                }
            }
            Outcome::Halted
        },
    }
}

/// Runs instructions in order, up to the first that does not halt.
pub fn run_bfraw<C: Console>(ctx: &mut BFCtx<C>, is: &Vec<BFRaw>) -> (r: Outcome)
    ensures
        final(ctx).fuel <= old(ctx).fuel,
        old(ctx).read@.is_prefix_of(final(ctx).read@),
        forall|o: Seq<u8>|
            final(ctx).read@.is_prefix_of(o) ==> #[trigger] raw_seq(is@, machine(*old(ctx)), o) == (r, machine(*final(ctx))),
    decreases old(ctx).fuel, is@,
{
    let ghost all = is@;
    let ghost m0 = machine(*ctx);
    let mut k: usize = 0;
    proof {
        lemma_prefix_refl(ctx.read@);
        assert(all.subrange(0, all.len() as int) =~= all);
    }
    while k < is.len()
        invariant
            all == is@,
            m0 == machine(*old(ctx)),
            k <= is.len(),
            ctx.fuel <= old(ctx).fuel,
            old(ctx).read@.is_prefix_of(ctx.read@),
            forall|o: Seq<u8>|
                ctx.read@.is_prefix_of(o) ==> #[trigger] raw_seq(all, m0, o) == raw_seq(
                    all.subrange(k as int, all.len() as int),
                    machine(*ctx),
                    o,
                ),
        decreases is.len() - k,
    {
        let ghost before = *ctx;
        let ghost rest = all.subrange(k as int, all.len() as int);
        proof {
            assert(rest[0] == all[k as int]);
            assert(rest.drop_first() =~= all.subrange(k + 1, all.len() as int));
        }
        let r = run_bfraw_instruction(ctx, &is[k]);
        proof {
            lemma_prefix_trans(old(ctx).read@, before.read@, ctx.read@);
        }
        if r != Outcome::Halted {
            proof {
                assert forall|o: Seq<u8>| ctx.read@.is_prefix_of(o) implies #[trigger] raw_seq(all, m0, o) == (r, machine(*ctx)) by {
                    lemma_prefix_trans(before.read@, ctx.read@, o);
                    assert(raw_step(all[k as int], machine(before), o) == (r, machine(*ctx)));
                    assert(raw_seq(rest, machine(before), o) == (r, machine(*ctx)));
                }
            }
            return r;
        }
        proof {
            assert forall|o: Seq<u8>| ctx.read@.is_prefix_of(o) implies #[trigger] raw_seq(all, m0, o) == raw_seq(
                all.subrange(k + 1, all.len() as int),
                machine(*ctx),
                o,
            ) by {
                lemma_prefix_trans(before.read@, ctx.read@, o);
                assert(raw_step(all[k as int], machine(before), o) == (r, machine(*ctx)));
                assert(raw_seq(rest, machine(before), o) == raw_seq(rest.drop_first(), machine(*ctx), o));
            }
        }
        k = k + 1;
    }
    proof {
        assert forall|o: Seq<u8>| ctx.read@.is_prefix_of(o) implies #[trigger] raw_seq(all, m0, o) == (
            Outcome::Halted,
            machine(*ctx),
        ) by {
            assert(all.subrange(k as int, all.len() as int) =~= Seq::<BFRaw>::empty());
        }
    }
    Outcome::Halted
}

} // verus!
