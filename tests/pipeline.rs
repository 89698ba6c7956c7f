use std::rc::Rc;

use brainfuck_optimiser::expr::{OptimisedBlock, ProcExpr};
use brainfuck_optimiser::interpreter::{run_bfoptimised, BFCtx, Console, Outcome};
use brainfuck_optimiser::lower::convert;
use brainfuck_optimiser::multinomial::{reduce, Multinomial};
use brainfuck_optimiser::optimiser::{merge_all, optimising_convert, try_loop_optimise, try_merge};
use brainfuck_optimiser::stepper::{Step, Stepper};
use brainfuck_optimiser::BFRaw;

struct Script {
    input: Vec<u8>,
    pos: usize,
    out: Vec<u8>,
}

impl Console for Script {
    fn ask(&mut self) -> u8 {
        let x = if self.pos < self.input.len() { self.input[self.pos] } else { 0 };
        self.pos += 1;
        x
    }

    fn put(&mut self, x: u8) {
        self.out.push(x);
    }
}

fn script(input: &[u8]) -> Script {
    Script { input: input.to_vec(), pos: 0, out: vec![] }
}

fn tokens(src: &[u8], i: &mut usize) -> Vec<BFRaw> {
    let mut v = vec![];
    while *i < src.len() {
        let c = src[*i];
        *i += 1;
        match c {
            b'<' => v.push(BFRaw::Lft),
            b'>' => v.push(BFRaw::Rgh),
            b'+' => v.push(BFRaw::Inc),
            b'-' => v.push(BFRaw::Dec),
            b',' => v.push(BFRaw::Ask),
            b'.' => v.push(BFRaw::Put),
            b'[' => v.push(BFRaw::Loop(tokens(src, i))),
            b']' => return v,
            _ => {}
        }
    }
    v
}

fn bf(src: &str) -> Vec<BFRaw> {
    let mut i = 0;
    tokens(src.as_bytes(), &mut i)
}

fn lit(v: u8) -> Rc<ProcExpr> {
    Rc::new(ProcExpr::Lit(v))
}

fn reg(r: i32) -> Rc<ProcExpr> {
    Rc::new(ProcExpr::Reg(r))
}

fn add(a: Rc<ProcExpr>, b: Rc<ProcExpr>) -> Rc<ProcExpr> {
    Rc::new(ProcExpr::Add(a, b))
}

fn mul(a: Rc<ProcExpr>, b: Rc<ProcExpr>) -> Rc<ProcExpr> {
    Rc::new(ProcExpr::Mul(a, b))
}

fn into(a: Rc<ProcExpr>, b: Rc<ProcExpr>) -> Rc<ProcExpr> {
    Rc::new(ProcExpr::Into(a, b))
}

fn run(src: &str, input: &[u8]) -> (Vec<OptimisedBlock>, Outcome, BFCtx<Script>) {
    let code = optimising_convert(bf(src));
    let shown = optimising_convert(bf(src));
    let mut ctx = BFCtx::new(script(input), 100_000);
    let r = run_bfoptimised(&mut ctx, code);
    (shown, r, ctx)
}

fn has_loop(bs: &[OptimisedBlock]) -> bool {
    bs.iter().any(|b| matches!(b, OptimisedBlock::Loop(_)))
}

#[test]
fn lowering_a_moved_increment() {
    let bs = convert(bf(">+<"));
    assert_eq!(bs, vec![OptimisedBlock::AtomicEffect(vec![(1, add(reg(1), lit(1)))], 0)]);
}

#[test]
fn lowering_cancelled_increments() {
    let bs = convert(bf("++--"));
    assert!(bs.is_empty());
    let mut ctx = BFCtx::new(script(&[]), 10);
    assert_eq!(run_bfoptimised(&mut ctx, bs), Outcome::Halted);
    for i in -3..4 {
        assert_eq!(ctx.tape.get(i), 0);
    }
    assert_eq!(ctx.index, 0);
}

#[test]
fn lowering_splits_at_io_and_loops() {
    let bs = convert(bf("+>,.<[-]"));
    assert_eq!(bs.len(), 5);
    assert_eq!(bs[0], OptimisedBlock::AtomicEffect(vec![(0, add(reg(0), lit(1)))], 1));
    assert_eq!(bs[1], OptimisedBlock::Ask);
    assert_eq!(bs[2], OptimisedBlock::Put);
    assert_eq!(bs[3], OptimisedBlock::AtomicEffect(vec![], -1));
    assert_eq!(
        bs[4],
        OptimisedBlock::Loop(vec![OptimisedBlock::AtomicEffect(vec![(0, add(reg(0), lit(255)))], 0)])
    );
}

#[test]
fn lowering_keeps_zero_change_with_a_move() {
    let bs = convert(bf("+->"));
    assert_eq!(bs, vec![OptimisedBlock::AtomicEffect(vec![(0, add(reg(0), lit(0)))], 1)]);
}

#[test]
fn clear_loop_closes() {
    let bs = optimising_convert(bf("[-]"));
    assert_eq!(bs, vec![OptimisedBlock::AtomicEffect(vec![(0, lit(0))], 0)]);
}

#[test]
fn move_loop_closes() {
    let body = optimising_convert(bf("->+<"));
    assert_eq!(body.len(), 1);
    let closed = try_loop_optimise(&body[0]).expect("closable");
    match &closed {
        OptimisedBlock::AtomicEffect(lines, 0) => {
            assert_eq!(lines.len(), 2);
            assert_eq!(lines[0], (0, lit(0)));
            assert_eq!(lines[1].0, 1);
            assert_eq!(lines[1].1, add(reg(1), mul(into(lit(1), reg(0)), lit(1))));
            assert_eq!(reduce(lines[1].1.clone()), add(reg(0), reg(1)));
        }
        _ => panic!("not an atomic effect"),
    }
    let bs = optimising_convert(bf("[->+<]"));
    assert_eq!(bs, vec![OptimisedBlock::AtomicEffect(vec![(0, lit(0)), (1, add(reg(0), reg(1)))], 0)]);
}

#[test]
fn loop_whose_step_reads_a_written_cell_stays_open() {
    let body = OptimisedBlock::AtomicEffect(vec![(0, add(reg(0), reg(1))), (1, lit(5))], 0);
    assert!(try_loop_optimise(&body).is_none());
    let moving = OptimisedBlock::AtomicEffect(vec![(0, add(reg(0), lit(255)))], 1);
    assert!(try_loop_optimise(&moving).is_none());
    let no_zero = OptimisedBlock::AtomicEffect(vec![(1, add(reg(1), lit(1)))], 0);
    assert!(try_loop_optimise(&no_zero).is_none());
    assert!(try_loop_optimise(&OptimisedBlock::Put).is_none());
}

#[test]
fn loop_whose_change_reads_a_written_cell_stays_open() {
    let body = OptimisedBlock::AtomicEffect(vec![(0, add(reg(0), lit(255))), (1, add(reg(1), reg(0)))], 0);
    assert!(try_loop_optimise(&body).is_none());
}

#[test]
fn scenario_three_increments() {
    let (bs, r, ctx) = run("+++", &[]);
    assert_eq!(r, Outcome::Halted);
    assert_eq!(ctx.tape.get(0), 3);
    assert_eq!(ctx.index, 0);
    assert_eq!(bs.len(), 1);
    assert!(matches!(bs[0], OptimisedBlock::AtomicEffect(_, _)));
}

#[test]
fn scenario_two_cells() {
    let (bs, r, ctx) = run("+++>++<", &[]);
    assert_eq!(r, Outcome::Halted);
    assert_eq!(ctx.tape.get(0), 3);
    assert_eq!(ctx.tape.get(1), 2);
    assert_eq!(ctx.index, 0);
    assert_eq!(bs.len(), 1);
}

#[test]
fn scenario_closed_move() {
    let (bs, r, ctx) = run("++[->+<]", &[]);
    assert_eq!(r, Outcome::Halted);
    assert_eq!(ctx.tape.get(0), 0);
    assert_eq!(ctx.tape.get(1), 2);
    assert!(!has_loop(&bs));
    assert_eq!(ctx.fuel, 100_000);
}

#[test]
fn scenario_closed_double() {
    let (bs, r, ctx) = run("++[->++<]", &[]);
    assert_eq!(r, Outcome::Halted);
    assert_eq!(ctx.tape.get(0), 0);
    assert_eq!(ctx.tape.get(1), 4);
    assert!(!has_loop(&bs));
}

#[test]
fn scenario_moving_loop_is_not_closed() {
    let (bs, r, ctx) = run("+++[>]", &[]);
    assert!(has_loop(&bs));
    assert_eq!(r, Outcome::Halted);
    assert_eq!(ctx.tape.get(0), 3);
    assert_eq!(ctx.index, 1);
}

#[test]
fn scenario_echo_loop_is_not_closed() {
    let (bs, r, ctx) = run(",[.,]", &[5, 7, 0]);
    assert!(has_loop(&bs));
    assert_eq!(r, Outcome::Halted);
    assert_eq!(ctx.io.out, vec![5, 7]);
    assert_eq!(ctx.tape.get(0), 0);
}

#[test]
fn closed_loop_that_never_halts_aborts() {
    let (bs, r, _ctx) = run("+[-->+<]", &[]);
    assert!(!has_loop(&bs));
    assert_eq!(r, Outcome::Aborted);
}

#[test]
fn open_loop_that_never_halts_runs_out_of_fuel() {
    let code = optimising_convert(bf("+[>+<]"));
    assert!(has_loop(&code));
    let mut ctx = BFCtx::new(script(&[]), 50);
    assert_eq!(run_bfoptimised(&mut ctx, code), Outcome::OutOfFuel);
    assert_eq!(ctx.fuel, 0);
}

#[test]
fn merging_runs_like_the_blocks_it_fuses() {
    let a = OptimisedBlock::AtomicEffect(vec![(0, add(reg(0), lit(3))), (1, mul(reg(0), lit(2)))], 1);
    let b = OptimisedBlock::AtomicEffect(vec![(-1, add(reg(-1), reg(0))), (0, add(reg(0), lit(1)))], -1);
    let c = OptimisedBlock::AtomicEffect(vec![(0, mul(reg(1), reg(0)))], 2);
    let start = |ctx: &mut BFCtx<Script>| {
        ctx.tape.set(0, 5);
        ctx.tape.set(1, 9);
        ctx.tape.set(2, 11);
    };
    let mut plain = BFCtx::new(script(&[]), 10);
    start(&mut plain);
    let blocks = vec![a, b, c];
    let fused = merge_all(vec![
        try_merge(&blocks[0], &blocks[1]).unwrap(),
        OptimisedBlock::AtomicEffect(vec![(0, mul(reg(1), reg(0)))], 2),
    ]);
    assert_eq!(fused.len(), 1);
    assert_eq!(run_bfoptimised(&mut plain, blocks), Outcome::Halted);
    let mut merged = BFCtx::new(script(&[]), 10);
    start(&mut merged);
    assert_eq!(run_bfoptimised(&mut merged, fused), Outcome::Halted);
    for i in -2..5 {
        assert_eq!(plain.tape.get(i), merged.tape.get(i), "cell {i}");
    }
    assert_eq!(plain.index, merged.index);
    assert_eq!(plain.index, 2);
}

#[test]
fn merge_refuses_registers_that_would_leave_the_offset_range() {
    let far = OptimisedBlock::AtomicEffect(vec![], i32::MAX);
    let next = OptimisedBlock::AtomicEffect(vec![(1, add(reg(1), lit(1)))], 0);
    assert!(try_merge(&far, &next).is_none());
    let near = OptimisedBlock::AtomicEffect(vec![], i32::MAX - 1);
    assert_eq!(
        try_merge(&near, &next),
        Some(OptimisedBlock::AtomicEffect(vec![(i32::MAX, add(reg(i32::MAX), lit(1)))], i32::MAX - 1))
    );
    let merged = merge_all(vec![far, next, OptimisedBlock::AtomicEffect(vec![(0, lit(7))], 0)]);
    assert_eq!(merged.len(), 2);
}

#[test]
fn merge_substitutes_all_at_once() {
    let swap = OptimisedBlock::AtomicEffect(vec![(0, reg(1)), (1, reg(0))], 0);
    let read = OptimisedBlock::AtomicEffect(vec![(2, add(reg(0), reg(1)))], 0);
    let m = try_merge(&swap, &read).unwrap();
    assert_eq!(m, OptimisedBlock::AtomicEffect(vec![(0, reg(1)), (1, reg(0)), (2, add(reg(1), reg(0)))], 0));
    assert!(try_merge(&swap, &OptimisedBlock::Ask).is_none());
}

#[test]
fn canonical_forms() {
    let e = add(mul(reg(2), lit(3)), reg(1));
    assert_eq!(reduce(add(e.clone(), lit(0))), reduce(e.clone()));
    assert_eq!(reduce(mul(e.clone(), lit(1))), reduce(e.clone()));
    assert_eq!(reduce(mul(e.clone(), lit(0))), lit(0));
    assert_eq!(reduce(into(lit(1), e.clone())), reduce(e.clone()));
    assert_eq!(reduce(into(lit(0), lit(0))), lit(0));
    assert_eq!(reduce(e.clone()), add(reg(1), mul(lit(3), reg(2))));
    assert_eq!(reduce(into(lit(5), lit(4))), lit(52));
    let folded = reduce(add(into(lit(5), lit(4)), lit(3)));
    assert_eq!(folded, lit(55));
    assert_eq!(reduce(folded.clone()), folded);
    let mixed = reduce(add(mul(into(lit(2), lit(6)), reg(1)), into(reg(0), lit(3))));
    assert_eq!(mixed, add(mul(lit(3), reg(1)), into(reg(0), lit(3))));
    assert_eq!(reduce(mixed.clone()), mixed);
    assert_eq!(reduce(into(lit(2), lit(3))), into(lit(2), lit(3)));
    assert_eq!(reduce(add(reg(0), mul(lit(255), reg(0)))), lit(0));
    assert_eq!(reduce(mul(add(reg(0), lit(1)), add(reg(0), lit(1)))), add(add(lit(1), mul(lit(2), reg(0))), mul(reg(0), reg(0))));
}

#[test]
fn multinomial_operations() {
    assert_eq!(Multinomial::value(0).as_val(), lit(0));
    assert_eq!(Multinomial::value(7).as_val(), lit(7));
    assert_eq!(Multinomial::symbol(reg(4)).as_val(), reg(4));
    let x = Multinomial::symbol(reg(0));
    let two = Multinomial::value(2);
    assert_eq!(x.add(&two).as_val(), add(lit(2), reg(0)));
    assert_eq!(x.mul(&two).as_val(), mul(lit(2), reg(0)));
    assert_eq!(x.mul(&x).as_val(), mul(reg(0), reg(0)));
    let minus_two = Multinomial::value(254);
    assert_eq!(two.add(&minus_two).as_val(), lit(0));
}

fn drive(src: &str, input: &[u8]) -> (bool, BFCtx<Script>, Vec<u8>) {
    let mut ctx = BFCtx::new(script(&[]), 0);
    let mut run = Stepper::new(optimising_convert(bf(src)));
    let mut pending = input.iter();
    let mut out = vec![];
    for _ in 0..100_000 {
        match run.step(&mut ctx) {
            Step::Ran => {}
            Step::NeedInput => run.give(&mut ctx, *pending.next().unwrap_or(&0)),
            Step::Output(x) => out.push(x),
            Step::Halted => return (true, ctx, out),
            Step::Aborted => return (false, ctx, out),
        }
    }
    panic!("did not finish");
}

#[test]
fn stepper_matches_the_interpreter() {
    for src in ["+++>++<", "++[->+<]", ",[.,]", "+++++[->++>+++<<]>>-.", "+[-[>+<-]]", "++[>+[>+<-]<-]>>."] {
        let (done, stepped, out) = drive(src, &[4, 9, 0]);
        assert!(done, "{src}");
        let (_, r, ctx) = run(src, &[4, 9, 0]);
        assert_eq!(r, Outcome::Halted, "{src}");
        for i in -2..6 {
            assert_eq!(stepped.tape.get(i), ctx.tape.get(i), "{src}: cell {i}");
        }
        assert_eq!(stepped.index, ctx.index, "{src}");
        assert_eq!(out, ctx.io.out, "{src}");
    }
}

#[test]
fn stepper_reports_input_and_abort() {
    let mut ctx = BFCtx::new(script(&[]), 0);
    let mut run = Stepper::new(optimising_convert(bf(",.")));
    assert_eq!(run.step(&mut ctx), Step::NeedInput);
    assert_eq!(run.step(&mut ctx), Step::NeedInput);
    run.give(&mut ctx, 42);
    assert_eq!(run.step(&mut ctx), Step::Output(42));
    assert_eq!(run.step(&mut ctx), Step::Halted);
    assert_eq!(run.step(&mut ctx), Step::Halted);
    let (done, _, _) = drive("+[-->+<]", &[]);
    assert!(!done);
}
