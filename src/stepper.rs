//! A resumable run of optimised blocks, one block or loop test at a time,
//! for callers that must wait for input between steps: a step that needs
//! input stops and reports it, and the caller hands the byte in later.
use vstd::prelude::*;

use crate::expr::{cell, lemma_views_index, views, Block, OptimisedBlock};
use crate::interpreter::{machine, run_block, BFCtx, Console, Machine, Outcome};

verus! {

/// What one step did.
#[derive(Debug, Clone, Copy, PartialEq, Eq, Structural)]
pub enum Step {
    /// An atomic effect ran, or a loop was entered, left or repeated.
    Ran,
    /// The next block reads input: hand a byte in with `give`.
    NeedInput,
    /// The cell at the head was written out.
    Output(u8),
    /// The program has ended.
    Halted,
    /// An `Into` had no quotient: a closed loop would not have halted.
    Aborted,
}

/// The list of blocks that a position path points into: each position but
/// the last selects a loop, whose body the next position indexes.
pub open spec fn list_at(bs: Seq<Block>, path: Seq<usize>) -> Option<Seq<Block>>
    decreases path.len(),
{
    if path.len() <= 1 {
        Some(bs)
    } else if path[0] < bs.len() && bs[path[0] as int] is Loop {
        list_at(bs[path[0] as int]->Loop_0, path.drop_first())
    } else {
        None
    }
}

/// The path moved to the next block of the same list.
pub open spec fn advanced(path: Seq<usize>) -> Seq<usize> {
    path.update(path.len() - 1, (path.last() + 1) as usize)
}

/// One step of a run of `code` at position `path` from state `m`: the
/// event, the next position and the next state. A loop whose cell at the
/// head is not zero is entered (again); an input block waits.
pub open spec fn step_of(code: Seq<Block>, path: Seq<usize>, m: Machine) -> (Step, Seq<usize>, Machine) {
    if path.len() == 0 {
        (Step::Halted, path, m)
    } else {
        match list_at(code, path) {
            None => (Step::Halted, path, m),
            Some(list) => {
                let i = path.last() as int;
                if i < list.len() {
                    match list[i] {
                        Block::Ask => (Step::NeedInput, path, m),
                        Block::Put => (
                            Step::Output(cell(m.tape, m.head)),
                            advanced(path),
                            Machine { written: m.written.push(cell(m.tape, m.head)), ..m },
                        ),
                        Block::Effect(xs, s) => {
                            let (r, m1) = run_block(Block::Effect(xs, s), m, Seq::empty());
                            if r == Outcome::Halted {
                                (Step::Ran, advanced(path), m1)
                            } else {
                                (Step::Aborted, path, m)
                            }
                        },
                        Block::Loop(_) => if cell(m.tape, m.head) != 0 {
                            (Step::Ran, path.push(0), m)
                        } else {
                            (Step::Ran, advanced(path), m)
                        },
                    }
                } else if path.len() == 1 {
                    (Step::Halted, path, m)
                } else if cell(m.tape, m.head) != 0 {
                    (Step::Ran, path.drop_last().push(0), m)
                } else {
                    (Step::Ran, advanced(path.drop_last()), m)
                }
            },
        }
    }
}

/// The block at position `path`, if there is one.
pub open spec fn block_at(code: Seq<Block>, path: Seq<usize>) -> Option<Block> {
    match list_at(code, path) {
        Some(list) => if path.len() > 0 && path.last() < list.len() {
            Some(list[path.last() as int])
        } else {
            None
        },
        None => None,
    }
}

/// A program being run, and where the run stands.
pub struct Stepper {
    pub code: Vec<OptimisedBlock>,
    pub path: Vec<usize>,
}

fn list_of<'a>(code: &'a Vec<OptimisedBlock>, path: &Vec<usize>) -> (r: Option<&'a Vec<OptimisedBlock>>)
    ensures
        match r {
            Some(l) => list_at(views(code@), path@) == Some(views(l@)),
            None => list_at(views(code@), path@) is None,
        },
{
    let mut l: &Vec<OptimisedBlock> = code;
    let mut k: usize = 0;
    let n = path.len();
    proof {
        assert(path@.subrange(0, path@.len() as int) =~= path@);
    }
    while k + 1 < n
        invariant
            n == path@.len(),
            k <= path@.len(),
            path@.len() == 0 || k < path@.len(),
            list_at(views(code@), path@) == list_at(views(l@), path@.subrange(k as int, path@.len() as int)),
        decreases path@.len() - k,
    {
        let i = path[k];
        let ghost rest = path@.subrange(k as int, path@.len() as int);
        proof {
            lemma_views_index(l@);
            assert(rest[0] == i);
            assert(rest.drop_first() =~= path@.subrange(k + 1, path@.len() as int));
        }
        if i >= l.len() {
            return None;
        }
        match &l[i] {
            OptimisedBlock::Loop(body) => {
                l = body;
            },
            _ => {
                return None;
            },
        }
        k = k + 1;
    }
    proof {
        if path@.len() > 0 {
            assert(path@.subrange(k as int, path@.len() as int).len() == 1);
        }
    }
    Some(l)
}

proof fn lemma_list_parent(bs: Seq<Block>, p: Seq<usize>)
    requires
        p.len() >= 2,
        list_at(bs, p) is Some,
    ensures
        list_at(bs, p.drop_last()) is Some,
        p[p.len() - 2] < list_at(bs, p.drop_last()).unwrap().len(),
    decreases p.len(),
{
    let body = bs[p[0] as int]->Loop_0;
    if p.len() > 2 {
        assert(p.drop_first().drop_last() =~= p.drop_last().drop_first());
        lemma_list_parent(body, p.drop_first());
        assert(p.drop_first()[p.drop_first().len() - 2] == p[p.len() - 2]);
    }
}

impl Stepper {
    /// A run of `code` from its first block.
    pub fn new(code: Vec<OptimisedBlock>) -> (r: Stepper)
        ensures
            r.code == code,
            r.path@ == seq![0usize],
    {
        let mut path: Vec<usize> = Vec::new();
        path.push(0);
        proof {
            assert(path@ =~= seq![0usize]);
        }
        Stepper { code, path }
    }

    /// Takes one step on the tape and head of `ctx`; see `step_of`.
    pub fn step<C: Console>(&mut self, ctx: &mut BFCtx<C>) -> (r: Step)
        ensures
            final(self).code == old(self).code,
            step_of(views(old(self).code@), old(self).path@, machine(*old(ctx))) == (
                r,
                final(self).path@,
                machine(*final(ctx)),
            ),
            final(ctx).read == old(ctx).read,
    {
        if self.path.len() == 0 {
            return Step::Halted;
        }
        let list = match list_of(&self.code, &self.path) {
            Some(l) => l,
            None => {
                return Step::Halted;
            },
        };
        proof {
            lemma_views_index(list@);
        }
        let last = self.path.len() - 1;
        let i = self.path[last];
        let ghost code_view = views(self.code@);
        let ghost old_path = self.path@;
        proof {
            assert(list_at(code_view, old_path) == Some(views(list@)));
            assert(old_path.last() == i);
        }
        if i < list.len() {
            proof {
                assert(views(list@)[i as int] == list@[i as int]@);
            }
            match &list[i] {
                OptimisedBlock::Ask => Step::NeedInput,
                OptimisedBlock::Put => {
                    let x = ctx.tape.get(ctx.index);
                    ctx.written = Ghost(ctx.written@.push(x));
                    self.path.set(last, i + 1);
                    proof {
                        assert(self.path@ =~= advanced(old_path));
                    }
                    Step::Output(x)
                },
                OptimisedBlock::AtomicEffect(xs, s) => {
                    let r = crate::interpreter::run_effect(ctx, xs, *s);
                    if r == Outcome::Halted {
                        self.path.set(last, i + 1);
                        proof {
                            assert(self.path@ =~= advanced(old_path));
                        }
                        Step::Ran
                    } else {
                        Step::Aborted
                    }
                },
                OptimisedBlock::Loop(_) => {
                    if ctx.tape.get(ctx.index) != 0 {
                        self.path.push(0);
                    } else {
                        self.path.set(last, i + 1);
                        proof {
                            assert(self.path@ =~= advanced(old_path));
                        }
                    }
                    Step::Ran
                },
            }
        } else if last == 0 {
            Step::Halted
        } else {
            proof {
                lemma_list_parent(views(self.code@), self.path@);
            }
            self.path.pop();
            proof {
                assert(self.path@ == old(self).path@.drop_last());
            }
            if ctx.tape.get(ctx.index) != 0 {
                self.path.push(0);
            } else {
                let up = self.path.len() - 1;
                let j = self.path[up];
                let parent = list_of(&self.code, &self.path);
                if let Some(pl) = parent {
                    proof {
                        lemma_views_index(pl@);
                    }
                    if j < pl.len() {
                        self.path.set(up, j + 1);
                        proof {
                            assert(self.path@ =~= advanced(old_path.drop_last()));
                        }
                    }
                }
            }
            Step::Ran
        }
    }

    /// Hands in the input byte that the block at the current position
    /// waits for: it is written to the cell at the head, and the run moves
    /// on.
    pub fn give<C: Console>(&mut self, ctx: &mut BFCtx<C>, x: u8)
        requires
            block_at(views(old(self).code@), old(self).path@) == Some(Block::Ask),
        ensures
            final(self).code == old(self).code,
            final(self).path@ == advanced(old(self).path@),
            final(ctx).read@ == old(ctx).read@.push(x),
            machine(*final(ctx)) == (Machine {
                tape: machine(*old(ctx)).tape.insert(old(ctx).index, x),
                read: machine(*old(ctx)).read + 1,
                ..machine(*old(ctx))
            }),
    {
        let h = ctx.index;
        ctx.tape.set(h, x);
        ctx.read = Ghost(ctx.read@.push(x));
        let last = self.path.len() - 1;
        let i = self.path[last];
        let ghost old_path = self.path@;
        match list_of(&self.code, &self.path) {
            Some(list) => {
                proof {
                    lemma_views_index(list@);
                }
                if i < list.len() {
                    self.path.set(last, i + 1);
                    proof {
                        assert(self.path@ =~= advanced(old_path));
                    }
                }
            },
            None => {},
        }
    }
}

} // verus!
