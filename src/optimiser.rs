//! The optimiser: fusing adjacent atomic effects, closing simple loops, and
//! bringing every expression to its canonical form.
use std::rc::Rc;
use vstd::prelude::*;

use crate::expr::{
    assigns_view, at, lemma_views_index, reads, regs, shift, shifted, views, Block, OptimisedBlock, ProcExpr,
};
use crate::fusion::{lemma_merged_all_keys, lemma_optimised_keys};
use crate::lower::{blocks_keys_ok, convert, lemma_views_push, lowered};
use crate::multinomial::{lemma_rest, lemma_whole, reduce, reduced};
use crate::BFRaw;

verus! {

broadcast use vstd::std_specs::vec::axiom_vec_index_decreases, vstd::seq::axiom_seq_index_decreases;

/// The expression assigned to register `k`, if any (the first, where keys repeat).
pub open spec fn lookup(xs: Seq<(i32, ProcExpr)>, k: i32) -> Option<ProcExpr>
    decreases xs.len(),
{
    if xs.len() == 0 {
        None
    } else if xs[0].0 == k {
        Some(xs[0].1)
    } else {
        lookup(xs.drop_first(), k)
    }
}

/// `e` with every register that `xs` assigns replaced, all at once, by the
/// expression assigned to it.
pub open spec fn substituted(xs: Seq<(i32, ProcExpr)>, e: ProcExpr) -> ProcExpr
    decreases e,
{
    match e {
        ProcExpr::Lit(v) => ProcExpr::Lit(v),
        ProcExpr::Reg(r) => match lookup(xs, r) {
            Some(x) => x,
            None => ProcExpr::Reg(r),
        },
        ProcExpr::Add(a, b) => ProcExpr::Add(Rc::new(substituted(xs, *a)), Rc::new(substituted(xs, *b))),
        ProcExpr::Mul(a, b) => ProcExpr::Mul(Rc::new(substituted(xs, *a)), Rc::new(substituted(xs, *b))),
        ProcExpr::Into(a, b) => ProcExpr::Into(Rc::new(substituted(xs, *a)), Rc::new(substituted(xs, *b))),
    }
}

/// The assignments of `ys` seen from `s` cells further on, with those of `xs`
/// substituted into them.
pub open spec fn carried(xs: Seq<(i32, ProcExpr)>, s: i32, ys: Seq<(i32, ProcExpr)>) -> Seq<(i32, ProcExpr)> {
    Seq::new(ys.len(), |i: int| (at(s, ys[i].0), substituted(xs, shifted(s, ys[i].1))))
}

/// The union of two assignment lists ordered by key; on a shared key the
/// second wins.
pub open spec fn union(xs: Seq<(i32, ProcExpr)>, ys: Seq<(i32, ProcExpr)>) -> Seq<(i32, ProcExpr)>
    decreases xs.len() + ys.len(),
{
    if xs.len() == 0 {
        ys
    } else if ys.len() == 0 {
        xs
    } else if xs[0].0 < ys[0].0 {
        seq![xs[0]] + union(xs.drop_first(), ys)
    } else if ys[0].0 < xs[0].0 {
        seq![ys[0]] + union(xs, ys.drop_first())
    } else {
        seq![ys[0]] + union(xs.drop_first(), ys.drop_first())
    }
}

/// Moving the keys of `ys` by `s` stays within the offsets an `i32` holds.
pub open spec fn shift_fits(s: i32, ys: Seq<(i32, ProcExpr)>) -> bool {
    forall|q: int| 0 <= q < ys.len() ==> i32::MIN <= s + #[trigger] ys[q].0 <= i32::MAX
}

/// Two atomic effects run one after the other, as one atomic effect; none
/// where the second's registers, moved by the first's shift, would leave the
/// range of offsets.
pub open spec fn merged(a: Block, b: Block) -> Option<Block> {
    match (a, b) {
        (Block::Effect(xs, i), Block::Effect(ys, j)) => if shift_fits(i, ys) {
            Some(Block::Effect(union(xs, carried(xs, i, ys)), vstd::wrapping::i32_specs::wrapping_add(i, j)))
        } else {
            None
        },
        _ => None,
    }
}

/// Greedy fusion from the left: a fused pair is tried again with what follows.
pub open spec fn merged_all(bs: Seq<Block>) -> Seq<Block>
    decreases bs.len(),
{
    if bs.len() < 2 {
        bs
    } else {
        match merged(bs[0], bs[1]) {
            Some(c) => merged_all(seq![c] + bs.subrange(2, bs.len() as int)),
            None => seq![bs[0]] + merged_all(bs.drop_first()),
        }
    }
}

/// The change to cell 0 in one run of a loop body that assigns `e0` to it,
/// in canonical form.
pub open spec fn step_of(e0: ProcExpr) -> ProcExpr {
    reduced(ProcExpr::Add(Rc::new(ProcExpr::Reg(0)), Rc::new(ProcExpr::Mul(Rc::new(ProcExpr::Lit(255)), Rc::new(e0)))))
}

/// The change to register `r` in one run of a loop body that assigns `e` to
/// it, in canonical form.
pub open spec fn delta_of(r: i32, e: ProcExpr) -> ProcExpr {
    reduced(ProcExpr::Add(Rc::new(e), Rc::new(ProcExpr::Mul(Rc::new(ProcExpr::Lit(255)), Rc::new(ProcExpr::Reg(r))))))
}

/// The number of runs that bring cell 0 to zero.
pub open spec fn cycles_of(step: ProcExpr) -> ProcExpr {
    ProcExpr::Into(Rc::new(step), Rc::new(ProcExpr::Reg(0)))
}

/// A loop with this body can be closed: the body assigns cell 0, and neither
/// the step nor the change of any other register reads a register that the
/// body writes.
pub open spec fn closable(xs: Seq<(i32, ProcExpr)>) -> bool {
    &&& lookup(xs, 0) is Some
    &&& forall|i: int| 0 <= i < xs.len() ==> !#[trigger] regs(step_of(lookup(xs, 0).unwrap())).contains(xs[i].0)
    &&& forall|i: int, j: int|
        0 <= i < xs.len() && 0 <= j < xs.len() && xs[i].0 != 0 ==> !#[trigger] regs(delta_of(xs[i].0, xs[i].1)).contains(
            #[trigger] xs[j].0,
        )
}

/// The assignments of the closed loop: cell 0 becomes zero, every other
/// register gains `cycles` times its change.
pub open spec fn closed_assigns(xs: Seq<(i32, ProcExpr)>, cycles: ProcExpr) -> Seq<(i32, ProcExpr)> {
    Seq::new(
        xs.len(),
        |i: int|
            if xs[i].0 == 0 {
                (0i32, ProcExpr::Lit(0))
            } else {
                (
                    xs[i].0,
                    ProcExpr::Add(
                        Rc::new(ProcExpr::Reg(xs[i].0)),
                        Rc::new(ProcExpr::Mul(Rc::new(cycles), Rc::new(delta_of(xs[i].0, xs[i].1)))),
                    ),
                )
            },
    )
}

/// The closed form of a loop whose body is `b`, where there is one.
pub open spec fn closed_loop(b: Block) -> Option<Block> {
    match b {
        Block::Effect(xs, s) => if s == 0 && closable(xs) {
            Some(Block::Effect(closed_assigns(xs, cycles_of(step_of(lookup(xs, 0).unwrap()))), 0))
        } else {
            None
        },
        _ => None,
    }
}

/// A block with each expression of an atomic effect in canonical form.
pub open spec fn reduced_block(b: Block) -> Block {
    match b {
        Block::Effect(xs, s) => Block::Effect(Seq::new(xs.len(), |i: int| (xs[i].0, reduced(xs[i].1))), s),
        _ => b,
    }
}

/// A loop with its body optimised and, where the body is one block that
/// can be closed, closed; other blocks as they are.
pub open spec fn loop_optimised(b: Block) -> Block
    decreases b, 2int,
{
    match b {
        Block::Loop(body) => {
            let ob = optimised(body);
            if ob.len() == 1 {
                match closed_loop(ob[0]) {
                    Some(c) => c,
                    None => Block::Loop(ob),
                }
            } else {
                Block::Loop(ob)
            }
        },
        _ => b,
    }
}

/// Each block with `loop_optimised` applied.
pub open spec fn loops_optimised(bs: Seq<Block>) -> Seq<Block>
    decreases bs, 0int,
{
    if bs.len() == 0 {
        Seq::empty()
    } else {
        loops_optimised(bs.drop_last()).push(loop_optimised(bs.last()))
    }
}

/// The optimised form of a block sequence: loops first, then fusion, then
/// canonical expressions.
pub open spec fn optimised(bs: Seq<Block>) -> Seq<Block>
    decreases bs, 1int,
{
    let m = merged_all(loops_optimised(bs));
    Seq::new(m.len(), |i: int| reduced_block(m[i]))
}

/// A loop whose step reads a register that its body writes is never closed,
/// whatever the body's move.
pub proof fn lemma_step_reads_written(xs: Seq<(i32, ProcExpr)>, k: int, s: i32)
    requires
        lookup(xs, 0) is Some,
        0 <= k < xs.len(),
        regs(step_of(lookup(xs, 0).unwrap())).contains(xs[k].0),
    ensures
        closed_loop(Block::Effect(xs, s)) is None,
{
}

proof fn lemma_assigns_push(v: Seq<(i32, Rc<ProcExpr>)>, x: (i32, Rc<ProcExpr>))
    ensures
        assigns_view(v.push(x)) == assigns_view(v).push((x.0, *x.1)),
{
    assert(assigns_view(v.push(x)) =~= assigns_view(v).push((x.0, *x.1)));
}

/// The expression that `xs` assigns to register `k`, if any.
fn lookup_in(xs: &Vec<(i32, Rc<ProcExpr>)>, k: i32) -> (r: Option<Rc<ProcExpr>>)
    ensures
        match r {
            Some(e) => lookup(assigns_view(xs@), k) == Some(*e),
            None => lookup(assigns_view(xs@), k) is None,
        },
{
    let ghost av = assigns_view(xs@);
    let mut i: usize = 0;
    proof {
        lemma_whole(av);
    }
    while i < xs.len()
        invariant
            i <= xs.len(),
            av == assigns_view(xs@),
            lookup(av, k) == lookup(av.subrange(i as int, av.len() as int), k),
        decreases xs.len() - i,
    {
        proof {
            lemma_rest(av, i as int);
        }
        if xs[i].0 == k {
            return Some(xs[i].1.clone());
        }
        i = i + 1;
    }
    None
}

/// `e` with the assignments of `xs` substituted, all at once, for the
/// registers they write.
fn substitute(xs: &Vec<(i32, Rc<ProcExpr>)>, e: &Rc<ProcExpr>) -> (r: Rc<ProcExpr>)
    ensures
        *r == substituted(assigns_view(xs@), **e),
    decreases **e,
{
    let inner: &ProcExpr = e;
    match inner {
        ProcExpr::Lit(_) => e.clone(),
        ProcExpr::Reg(r) => match lookup_in(xs, *r) {
            Some(x) => x,
            None => e.clone(),
        },
        ProcExpr::Add(a, b) => Rc::new(ProcExpr::Add(substitute(xs, a), substitute(xs, b))),
        ProcExpr::Mul(a, b) => Rc::new(ProcExpr::Mul(substitute(xs, a), substitute(xs, b))),
        ProcExpr::Into(a, b) => Rc::new(ProcExpr::Into(substitute(xs, a), substitute(xs, b))),
    }
}

fn carry(xs: &Vec<(i32, Rc<ProcExpr>)>, s: i32, ys: &Vec<(i32, Rc<ProcExpr>)>) -> (r: Vec<(i32, Rc<ProcExpr>)>)
    ensures
        assigns_view(r@) == carried(assigns_view(xs@), s, assigns_view(ys@)),
{
    let mut r: Vec<(i32, Rc<ProcExpr>)> = Vec::new();
    let mut i: usize = 0;
    while i < ys.len()
        invariant
            i <= ys.len(),
            assigns_view(r@) == carried(assigns_view(xs@), s, assigns_view(ys@)).subrange(0, i as int),
        decreases ys.len() - i,
    {
        let moved = shift(s, &ys[i].1);
        let x = (s.wrapping_add(ys[i].0), substitute(xs, &moved));
        proof {
            lemma_assigns_push(r@, x);
            assert(assigns_view(r@.push(x)) =~= carried(assigns_view(xs@), s, assigns_view(ys@)).subrange(0, i + 1));
        }
        r.push(x);
        i = i + 1;
    }
    proof {
        lemma_whole(carried(assigns_view(xs@), s, assigns_view(ys@)));
    }
    r
}

fn union_of(xs: &Vec<(i32, Rc<ProcExpr>)>, ys: &Vec<(i32, Rc<ProcExpr>)>) -> (r: Vec<(i32, Rc<ProcExpr>)>)
    ensures
        assigns_view(r@) == union(assigns_view(xs@), assigns_view(ys@)),
{
    let ghost xv = assigns_view(xs@);
    let ghost yv = assigns_view(ys@);
    let mut out: Vec<(i32, Rc<ProcExpr>)> = Vec::new();
    let mut i: usize = 0;
    let mut j: usize = 0;
    proof {
        lemma_whole(xv);
        lemma_whole(yv);
        assert(assigns_view(out@) =~= Seq::empty());
    }
    while i < xs.len() || j < ys.len()
        invariant
            xv == assigns_view(xs@),
            yv == assigns_view(ys@),
            i <= xs.len(),
            j <= ys.len(),
            union(xv, yv) == assigns_view(out@) + union(xv.subrange(i as int, xv.len() as int), yv.subrange(j as int, yv.len() as int)),
        decreases xs.len() + ys.len() - i - j,
    {
        let ghost rx = xv.subrange(i as int, xv.len() as int);
        let ghost ry = yv.subrange(j as int, yv.len() as int);
        let ghost before = assigns_view(out@);
        if i < xs.len() {
            proof {
                lemma_rest(xv, i as int);
            }
        }
        if j < ys.len() {
            proof {
                lemma_rest(yv, j as int);
            }
        }
        if j == ys.len() || (i < xs.len() && xs[i].0 < ys[j].0) {
            let x = (xs[i].0, xs[i].1.clone());
            proof {
                lemma_assigns_push(out@, x);
                assert(before.push(rx[0]) + union(rx.drop_first(), ry) =~= before + (seq![rx[0]] + union(rx.drop_first(), ry)));
            }
            out.push(x);
            i = i + 1;
        } else {
            let y = (ys[j].0, ys[j].1.clone());
            proof {
                lemma_assigns_push(out@, y);
                if rx.len() == 0 {
                    assert(ry =~= seq![ry[0]] + ry.drop_first());
                    assert(union(rx, ry.drop_first()) == ry.drop_first());
                    assert(before.push(ry[0]) + union(rx, ry.drop_first()) =~= before + (seq![ry[0]] + union(rx, ry.drop_first())));
                } else if ry[0].0 < rx[0].0 {
                    assert(before.push(ry[0]) + union(rx, ry.drop_first()) =~= before + (seq![ry[0]] + union(rx, ry.drop_first())));
                } else {
                    assert(before.push(ry[0]) + union(rx.drop_first(), ry.drop_first()) =~= before + (seq![ry[0]] + union(rx.drop_first(), ry.drop_first())));
                }
            }
            out.push(y);
            if i < xs.len() && xs[i].0 == ys[j].0 {
                i = i + 1;
            }
            j = j + 1;
        }
    }
    proof {
        assert(xv.subrange(i as int, xv.len() as int) =~= Seq::<(i32, ProcExpr)>::empty());
        assert(yv.subrange(j as int, yv.len() as int) =~= Seq::<(i32, ProcExpr)>::empty());
        assert(assigns_view(out@) + Seq::<(i32, ProcExpr)>::empty() =~= assigns_view(out@));
    }
    out
}

/// Fuses two atomic effects into one: the second's registers are moved by
/// the first's shift, the first's assignments are substituted into the
/// second's expressions, and on a shared register the second's write wins.
/// `None` where either block is not an atomic effect, or the second's
/// registers, moved by the first's shift, would leave the range of offsets.
pub fn try_merge(a: &OptimisedBlock, b: &OptimisedBlock) -> (r: Option<OptimisedBlock>)
    ensures
        match r {
            Some(c) => merged(a@, b@) == Some(c@),
            None => merged(a@, b@) is None,
        },
{
    match (a, b) {
        (OptimisedBlock::AtomicEffect(xs, i), OptimisedBlock::AtomicEffect(ys, j)) => {
            let ghost yv = assigns_view(ys@);
            proof {
                assert(b@ == Block::Effect(yv, *j));
                assert(a@ == Block::Effect(assigns_view(xs@), *i));
            }
            let mut q: usize = 0;
            while q < ys.len()
                invariant
                    yv == assigns_view(ys@),
                    b@ == Block::Effect(yv, *j),
                    a@ == Block::Effect(assigns_view(xs@), *i),
                    q <= ys.len(),
                    forall|p: int| 0 <= p < q ==> i32::MIN <= *i + #[trigger] yv[p].0 <= i32::MAX,
                decreases ys.len() - q,
            {
                let moved = (*i as i64) + (ys[q].0 as i64);
                if moved < i32::MIN as i64 || moved > i32::MAX as i64 {
                    proof {
                        assert(!(i32::MIN <= *i + yv[q as int].0 <= i32::MAX));
                        assert(!shift_fits(*i, yv));
                        assert(b@ == Block::Effect(yv, *j));
                    }
                    return None;
                }
                q = q + 1;
            }
            let moved = carry(xs, *i, ys);
            let lines = union_of(xs, &moved);
            Some(OptimisedBlock::AtomicEffect(lines, i.wrapping_add(*j)))
        },
        _ => None,
    }
}

/// Greedy fusion from the left: whenever two neighbours fuse, the result is
/// tried again with its successor.
pub fn merge_all(bs: Vec<OptimisedBlock>) -> (r: Vec<OptimisedBlock>)
    ensures
        views(r@) == merged_all(views(bs@)),
        blocks_keys_ok(views(bs@)) ==> blocks_keys_ok(views(r@)),
{
    let ghost all = views(bs@);
    proof {
        if blocks_keys_ok(all) {
            lemma_merged_all_keys(all);
        }
    }
    if bs.len() == 0 {
        return bs;
    }
    let mut rest = bs;
    let mut out: Vec<OptimisedBlock> = Vec::new();
    proof {
        lemma_views_index(rest@);
    }
    let mut cur = rest.remove(0);
    proof {
        lemma_views_index(rest@);
        assert(seq![cur@] + views(rest@) =~= all);
        assert(views(out@) =~= Seq::<Block>::empty());
        assert(views(out@) + merged_all(all) =~= merged_all(all));
    }
    while rest.len() > 0
        invariant
            merged_all(all) == views(out@) + merged_all(seq![cur@] + views(rest@)),
        decreases rest.len(),
    {
        let ghost old_rest = rest@;
        let next = rest.remove(0);
        proof {
            lemma_views_index(old_rest);
            lemma_views_index(rest@);
        }
        let ghost whole = seq![cur@] + views(old_rest);
        proof {
            assert(whole[0] == cur@);
            assert(whole[1] == next@);
        }
        match try_merge(&cur, &next) {
            Some(c) => {
                proof {
                    assert(whole.subrange(2, whole.len() as int) =~= views(rest@));
                }
                cur = c;
            },
            None => {
                proof {
                    assert(whole.drop_first() =~= seq![next@] + views(rest@));
                    lemma_views_push(out@, cur);
                    assert(views(out@) + (seq![cur@] + merged_all(whole.drop_first())) =~= views(out@).push(cur@) + merged_all(whole.drop_first()));
                }
                out.push(cur);
                cur = next;
            },
        }
    }
    proof {
        assert(views(rest@) =~= Seq::<Block>::empty());
        assert(seq![cur@] + views(rest@) =~= seq![cur@]);
        lemma_views_push(out@, cur);
    }
    out.push(cur);
    proof {
        if blocks_keys_ok(all) {
            lemma_merged_all_keys(all);
        }
    }
    out
}

/// The closed form of a loop whose body is the single block `b`: cell 0 is
/// set to zero and every other register gains `cycles` times its change per
/// run, where `cycles = Into(step, Reg(0))`. `None` where the loop cannot be
/// closed (see `closable`), or `b` moves the head.
pub fn try_loop_optimise(b: &OptimisedBlock) -> (r: Option<OptimisedBlock>)
    ensures
        match r {
            Some(c) => closed_loop(b@) == Some(c@),
            None => closed_loop(b@) is None,
        },
{
    match b {
        OptimisedBlock::AtomicEffect(xs, s) => {
            let ghost av = assigns_view(xs@);
            if *s != 0 {
                return None;
            }
            proof {
                assert(b@ == Block::Effect(av, 0));
            }
            let e0 = match lookup_in(xs, 0) {
                Some(e) => e,
                None => {
                    return None;
                },
            };
            let step = reduce(
                Rc::new(ProcExpr::Add(Rc::new(ProcExpr::Reg(0)), Rc::new(ProcExpr::Mul(Rc::new(ProcExpr::Lit(255)), e0)))),
            );
            proof {
                assert(*step == step_of(lookup(av, 0).unwrap()));
            }
            let mut i: usize = 0;
            while i < xs.len()
                invariant
                    av == assigns_view(xs@),
                    i <= xs.len(),
                    lookup(av, 0) is Some,
                    b@ == Block::Effect(av, 0),
                    *step == step_of(lookup(av, 0).unwrap()),
                    forall|k: int| 0 <= k < i ==> !#[trigger] regs(*step).contains(av[k].0),
                decreases xs.len() - i,
            {
                if reads(&step, xs[i].0) {
                    proof {
                        assert(regs(step_of(lookup(av, 0).unwrap())).contains(av[i as int].0));
                        assert(!closable(av));
                        assert(b@ == Block::Effect(av, 0));
                    }
                    return None;
                }
                i = i + 1;
            }
            let cycles = Rc::new(ProcExpr::Into(step, Rc::new(ProcExpr::Reg(0))));
            let mut lines: Vec<(i32, Rc<ProcExpr>)> = Vec::new();
            i = 0;
            while i < xs.len()
                invariant
                    av == assigns_view(xs@),
                    i <= xs.len(),
                    lookup(av, 0) is Some,
                    b@ == Block::Effect(av, 0),
                    forall|k: int| 0 <= k < xs.len() ==> !#[trigger] regs(step_of(lookup(av, 0).unwrap())).contains(av[k].0),
                    *cycles == cycles_of(step_of(lookup(av, 0).unwrap())),
                    assigns_view(lines@) == closed_assigns(av, *cycles).subrange(0, i as int),
                    forall|k: int, j: int|
                        0 <= k < i && 0 <= j < xs.len() && av[k].0 != 0 ==> !#[trigger] regs(delta_of(av[k].0, av[k].1)).contains(
                            #[trigger] av[j].0,
                        ),
                decreases xs.len() - i,
            {
                let r = xs[i].0;
                if r == 0 {
                    let x = (0i32, Rc::new(ProcExpr::Lit(0)));
                    proof {
                        lemma_assigns_push(lines@, x);
                        assert(assigns_view(lines@.push(x)) =~= closed_assigns(av, *cycles).subrange(0, i + 1));
                    }
                    lines.push(x);
                } else {
                    let delta = reduce(
                        Rc::new(
                            ProcExpr::Add(xs[i].1.clone(), Rc::new(ProcExpr::Mul(Rc::new(ProcExpr::Lit(255)), Rc::new(ProcExpr::Reg(r))))),
                        ),
                    );
                    let mut j: usize = 0;
                    while j < xs.len()
                        invariant
                            av == assigns_view(xs@),
                            i < xs.len(),
                            j <= xs.len(),
                            av[i as int].0 != 0,
                            lookup(av, 0) is Some,
                            b@ == Block::Effect(av, 0),
                            *delta == delta_of(av[i as int].0, av[i as int].1),
                            forall|l: int| 0 <= l < j ==> !#[trigger] regs(*delta).contains(av[l].0),
                        decreases xs.len() - j,
                    {
                        if reads(&delta, xs[j].0) {
                            proof {
                                assert(regs(delta_of(av[i as int].0, av[i as int].1)).contains(av[j as int].0));
                                assert(av[i as int].0 != 0);
                                if closable(av) {
                                    assert(!regs(delta_of(av[i as int].0, av[i as int].1)).contains(av[j as int].0));
                                }
                                assert(b@ == Block::Effect(av, 0));
                            }
                            return None;
                        }
                        j = j + 1;
                    }
                    let x = (r, Rc::new(ProcExpr::Add(Rc::new(ProcExpr::Reg(r)), Rc::new(ProcExpr::Mul(cycles.clone(), delta)))));
                    proof {
                        lemma_assigns_push(lines@, x);
                        assert(assigns_view(lines@.push(x)) =~= closed_assigns(av, *cycles).subrange(0, i + 1));
                    }
                    lines.push(x);
                }
                i = i + 1;
            }
            proof {
                assert(closed_assigns(av, *cycles).subrange(0, xs.len() as int) =~= closed_assigns(av, *cycles));
                assert(closable(av));
            }
            Some(OptimisedBlock::AtomicEffect(lines, 0))
        },
        _ => None,
    }
}

/// Every atomic effect with its expressions in canonical form.
fn reduce_all(bs: Vec<OptimisedBlock>) -> (r: Vec<OptimisedBlock>)
    ensures
        views(r@) == Seq::new(views(bs@).len(), |i: int| reduced_block(views(bs@)[i])),
{
    let ghost all = views(bs@);
    let mut bs = bs;
    let mut i: usize = 0;
    proof {
        lemma_views_index(bs@);
    }
    while i < bs.len()
        invariant
            all.len() == bs.len(),
            i <= bs.len(),
            forall|k: int| 0 <= k < i ==> #[trigger] bs@[k]@ == reduced_block(all[k]),
            forall|k: int| i <= k < bs.len() ==> #[trigger] bs@[k]@ == all[k],
        decreases bs.len() - i,
    {
        if let OptimisedBlock::AtomicEffect(lines, s) = &bs[i] {
            let ghost lv = assigns_view(lines@);
            let mut nl: Vec<(i32, Rc<ProcExpr>)> = Vec::new();
            let mut j: usize = 0;
            while j < lines.len()
                invariant
                    j <= lines.len(),
                    lv == assigns_view(lines@),
                    assigns_view(nl@) == Seq::new(j as nat, |k: int| (lv[k].0, reduced(lv[k].1))),
                decreases lines.len() - j,
            {
                let x = (lines[j].0, reduce(lines[j].1.clone()));
                proof {
                    lemma_assigns_push(nl@, x);
                    assert(assigns_view(nl@.push(x)) =~= Seq::new((j + 1) as nat, |k: int| (lv[k].0, reduced(lv[k].1))));
                }
                nl.push(x);
                j = j + 1;
            }
            let ns = *s;
            proof {
                assert(bs@[i as int]@ == Block::Effect(lv, ns));
                assert(assigns_view(nl@) =~= Seq::new(lv.len(), |k: int| (lv[k].0, reduced(lv[k].1))));
            }
            bs.set(i, OptimisedBlock::AtomicEffect(nl, ns));
        }
        i = i + 1;
    }
    proof {
        lemma_views_index(bs@);
        assert(views(bs@) =~= Seq::new(all.len(), |i: int| reduced_block(all[i])));
    }
    bs
}

fn optimise_block(b: OptimisedBlock) -> (r: OptimisedBlock)
    ensures
        r@ == loop_optimised(b@),
    decreases b@, 2int,
{
    match b {
        OptimisedBlock::Loop(body) => {
            let ob = optimise(body);
            proof {
                lemma_views_index(ob@);
            }
            if ob.len() == 1 {
                match try_loop_optimise(&ob[0]) {
                    Some(c) => c,
                    None => OptimisedBlock::Loop(ob),
                }
            } else {
                OptimisedBlock::Loop(ob)
            }
        },
        _ => b,
    }
}

fn optimise_loops(bs: Vec<OptimisedBlock>) -> (r: Vec<OptimisedBlock>)
    ensures
        views(r@) == loops_optimised(views(bs@)),
    decreases views(bs@), 0int,
{
    let ghost all = views(bs@);
    let mut rest = bs;
    let mut out: Vec<OptimisedBlock> = Vec::new();
    let mut i: usize = 0;
    let n = rest.len();
    proof {
        lemma_views_index(rest@);
        assert(all.len() == n);
        assert(all.subrange(0, 0) =~= Seq::<Block>::empty());
        assert(views(out@) =~= loops_optimised(all.subrange(0, 0)));
        assert(views(rest@) =~= all.subrange(0, all.len() as int));
    }
    while rest.len() > 0
        invariant
            i <= all.len(),
            views(out@) == loops_optimised(all.subrange(0, i as int)),
            views(rest@) == all.subrange(i as int, all.len() as int),
            all == views(bs@),
            all.len() <= usize::MAX,
        decreases rest.len(),
    {
        proof {
            lemma_views_index(rest@);
        }
        let ghost old_rest = rest@;
        let b = rest.remove(0);
        proof {
            lemma_views_index(rest@);
            assert(views(old_rest)[0] == old_rest[0]@);
            assert(all.subrange(i as int, all.len() as int)[0] == all[i as int]);
            assert(b@ == all[i as int]);
            assert forall|k: int| 0 <= k < rest@.len() implies views(rest@)[k] == all[i + 1 + k] by {
                assert(views(rest@)[k] == rest@[k]@);
                assert(rest@[k] == old_rest[k + 1]);
                assert(views(old_rest)[k + 1] == old_rest[k + 1]@);
                assert(all.subrange(i as int, all.len() as int)[k + 1] == all[i + 1 + k]);
            }
            assert(views(rest@) =~= all.subrange(i + 1, all.len() as int));
        }
        let ob = optimise_block(b);
        proof {
            lemma_views_push(out@, ob);
            assert(all.subrange(0, i + 1).drop_last() =~= all.subrange(0, i as int));
        }
        out.push(ob);
        i = i + 1;
    }
    proof {
        lemma_views_index(rest@);
        assert(all.subrange(0, i as int) =~= all);
    }
    out
}

/// Optimises a block sequence: loops are optimised and, where possible,
/// closed; neighbouring atomic effects are fused; every expression is brought
/// to canonical form.
pub fn optimise(bs: Vec<OptimisedBlock>) -> (r: Vec<OptimisedBlock>)
    ensures
        views(r@) == optimised(views(bs@)),
        blocks_keys_ok(views(bs@)) ==> blocks_keys_ok(views(r@)),
    decreases views(bs@), 1int,
{
    proof {
        if blocks_keys_ok(views(bs@)) {
            lemma_optimised_keys(views(bs@));
        }
    }
    let a = optimise_loops(bs);
    let m = merge_all(a);
    reduce_all(m)
}

/// Lowers and optimises a program.
pub fn optimising_convert(raw: Vec<BFRaw>) -> (r: Vec<OptimisedBlock>)
    ensures
        views(r@) == optimised(lowered(raw@)),
        blocks_keys_ok(views(r@)),
{
    optimise(convert(raw))
}

} // verus!
