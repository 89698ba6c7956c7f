use std::rc::Rc;

use brainfuck_optimiser::expr::{OptimisedBlock, ProcExpr};
use brainfuck_optimiser::interpreter::{run_bfraw, run_bfraw_instruction, BFCtx, Console, Outcome};
use brainfuck_optimiser::lower::convert;
use brainfuck_optimiser::optimiser::optimising_convert;
use brainfuck_optimiser::parser::{parse_bfcmd, parse_program, CommandError, ParseError, BFCMD};
use brainfuck_optimiser::pretty::byte_code_pretty;
use brainfuck_optimiser::BFRaw;

struct Script {
    input: Vec<u8>,
    pos: usize,
    out: Vec<u8>,
}

impl Console for Script {
    fn ask(&mut self) -> u8 {
        let x = if self.pos < self.input.len() { self.input[self.pos] } else { 0 };
        self.pos += 1;
        x
    }

    fn put(&mut self, x: u8) {
        self.out.push(x);
    }
}

fn script(input: &[u8]) -> Script {
    Script { input: input.to_vec(), pos: 0, out: vec![] }
}

fn parsed(src: &str) -> Vec<BFRaw> {
    parse_program(src.as_bytes()).expect("balanced")
}

#[test]
fn parses_nested_loops_and_skips_comments() {
    let is = parsed("a+[b->[<]]. x");
    assert_eq!(is.len(), 3);
    assert!(matches!(is[0], BFRaw::Inc));
    match &is[1] {
        BFRaw::Loop(body) => {
            assert_eq!(body.len(), 3);
            assert!(matches!(body[0], BFRaw::Dec));
            assert!(matches!(body[1], BFRaw::Rgh));
            match &body[2] {
                BFRaw::Loop(inner) => {
                    assert_eq!(inner.len(), 1);
                    assert!(matches!(inner[0], BFRaw::Lft));
                }
                _ => panic!("inner loop expected"),
            }
        }
        _ => panic!("loop expected"),
    }
    assert!(matches!(is[2], BFRaw::Put));
    assert!(parse_program(b"").unwrap().is_empty());
    assert!(parse_program(b"no commands here").unwrap().is_empty());
}

#[test]
fn rejects_unbalanced_brackets() {
    assert_eq!(parse_program(b"+]").unwrap_err(), ParseError::UnmatchedClose);
    assert_eq!(parse_program(b"[[]").unwrap_err(), ParseError::Unclosed);
    assert_eq!(parse_program(b"][").unwrap_err(), ParseError::UnmatchedClose);
    assert_eq!(parse_program(b"[]]").unwrap_err(), ParseError::UnmatchedClose);
}

#[test]
fn parses_commands() {
    assert_eq!(parse_bfcmd(b":q"), Ok(BFCMD::Exit));
    assert_eq!(parse_bfcmd(b":c"), Ok(BFCMD::Clear));
    assert_eq!(parse_bfcmd(b":h"), Ok(BFCMD::Help));
    assert_eq!(parse_bfcmd(b":f"), Ok(BFCMD::Find));
    assert_eq!(parse_bfcmd(b":r 12"), Ok(BFCMD::Read(12)));
    assert_eq!(parse_bfcmd(b":r -3 "), Ok(BFCMD::Read(-3)));
    assert_eq!(parse_bfcmd(b":m +7"), Ok(BFCMD::Move(7)));
    assert_eq!(parse_bfcmd(b":m -2147483648"), Ok(BFCMD::Move(i32::MIN)));
    assert_eq!(parse_bfcmd(b":m 2147483648"), Err(CommandError::Number));
    assert_eq!(parse_bfcmd(b":r"), Err(CommandError::Number));
    assert_eq!(parse_bfcmd(b":r 1 2"), Err(CommandError::Number));
    assert_eq!(parse_bfcmd(b":r x"), Err(CommandError::Number));
    assert_eq!(parse_bfcmd(b":z"), Err(CommandError::Unknown));
    assert_eq!(parse_bfcmd(b"q"), Err(CommandError::Unknown));
}

#[test]
fn raw_interpreter_runs_loops_step_by_step() {
    let is = parsed("++[->+++<]>.");
    let mut ctx = BFCtx::new(script(&[]), 1000);
    assert_eq!(run_bfraw(&mut ctx, &is), Outcome::Halted);
    assert_eq!(ctx.tape.get(0), 0);
    assert_eq!(ctx.tape.get(1), 6);
    assert_eq!(ctx.index, 1);
    assert_eq!(ctx.io.out, vec![6]);
    assert_eq!(ctx.fuel, 998);
}

#[test]
fn raw_interpreter_wraps_cells_and_reads_input() {
    let mut ctx = BFCtx::new(script(&[9]), 10);
    assert_eq!(run_bfraw_instruction(&mut ctx, &BFRaw::Dec), Outcome::Halted);
    assert_eq!(ctx.tape.get(0), 255);
    assert_eq!(run_bfraw_instruction(&mut ctx, &BFRaw::Inc), Outcome::Halted);
    assert_eq!(ctx.tape.get(0), 0);
    assert_eq!(run_bfraw_instruction(&mut ctx, &BFRaw::Lft), Outcome::Halted);
    assert_eq!(ctx.index, -1);
    assert_eq!(run_bfraw_instruction(&mut ctx, &BFRaw::Ask), Outcome::Halted);
    assert_eq!(ctx.tape.get(-1), 9);
    let spin = parsed("[]");
    assert_eq!(run_bfraw(&mut ctx, &spin), Outcome::OutOfFuel);
}

#[test]
fn raw_and_optimised_agree() {
    for src in ["+++>++<", "++[->+<]", "+++++[->++>+++<<]>>-.", "++[>+<-]>[-]", ",[.,]"] {
        let mut raw = BFCtx::new(script(&[3, 2, 0]), 10_000);
        assert_eq!(run_bfraw(&mut raw, &parsed(src)), Outcome::Halted);
        let mut opt = BFCtx::new(script(&[3, 2, 0]), 10_000);
        let code = optimising_convert(parsed(src));
        assert_eq!(brainfuck_optimiser::interpreter::run_bfoptimised(&mut opt, code), Outcome::Halted);
        for i in -2..6 {
            assert_eq!(raw.tape.get(i), opt.tape.get(i), "{src}: cell {i}");
        }
        assert_eq!(raw.index, opt.index, "{src}");
        assert_eq!(raw.io.out, opt.io.out, "{src}");
    }
}

#[test]
fn pretty_prints_blocks() {
    let bs = optimising_convert(parsed("[->+<]"));
    assert_eq!(byte_code_pretty(&bs), "block {\n\t~#0 = 0;\n\t~#1 = (~#0 + ~#1);\n} (move 0)");
    let bs = convert(parsed("+[>],."));
    assert_eq!(
        byte_code_pretty(&bs),
        "block {\n\t~#0 = (~#0 + 1);\n} (move 0)\nloop [\n\tblock {} (move 1)\n]\nask\nput"
    );
    let e = Rc::new(ProcExpr::Into(
        Rc::new(ProcExpr::Mul(Rc::new(ProcExpr::Lit(2)), Rc::new(ProcExpr::Reg(-1)))),
        Rc::new(ProcExpr::Lit(4)),
    ));
    let bs = vec![OptimisedBlock::Loop(vec![OptimisedBlock::AtomicEffect(vec![(-12, e)], -3)])];
    assert_eq!(byte_code_pretty(&bs), "loop [\n\tblock {\n\t\t~#-12 = (2 * ~#-1 into 4);\n\t} (move -3)\n]");
    assert_eq!(byte_code_pretty(&vec![]), "");
    assert_eq!(byte_code_pretty(&vec![OptimisedBlock::Loop(vec![])]), "loop [\n\t\n]");
}

#[test]
fn head_wraps_around_the_offset_range() {
    let mut ctx = BFCtx::new(script(&[]), 10);
    ctx.index = i32::MIN;
    assert_eq!(run_bfraw(&mut ctx, &parsed("<+")), Outcome::Halted);
    assert_eq!(ctx.index, i32::MAX);
    assert_eq!(ctx.tape.get(i32::MAX), 1);
    let mut opt = BFCtx::new(script(&[]), 10);
    opt.index = i32::MIN;
    let code = optimising_convert(parsed("<+>>+"));
    assert_eq!(brainfuck_optimiser::interpreter::run_bfoptimised(&mut opt, code), Outcome::Halted);
    assert_eq!(opt.index, i32::MIN + 1);
    assert_eq!(opt.tape.get(i32::MAX), 1);
    assert_eq!(opt.tape.get(i32::MIN + 1), 1);
    assert_eq!(opt.tape.get(i32::MIN), 0);
}

#[test]
fn clearing_the_tape() {
    let mut ctx = BFCtx::new(script(&[]), 10);
    assert_eq!(run_bfraw(&mut ctx, &parsed("+>++>+++")), Outcome::Halted);
    assert_eq!(ctx.tape.get(2), 3);
    ctx.tape.clear();
    for i in 0..3 {
        assert_eq!(ctx.tape.get(i), 0);
    }
}
