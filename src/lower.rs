//! Lowering of Brainfuck instructions to blocks: each run of moves and
//! increments becomes one atomic effect.
use std::rc::Rc;
use vstd::prelude::*;

use crate::expr::{Block, OptimisedBlock, ProcExpr, views};
use crate::BFRaw;

verus! {

broadcast use vstd::std_specs::vec::axiom_vec_index_decreases, vstd::seq::axiom_seq_index_decreases;

/// What lowering has gathered so far: the blocks written, the pending change
/// of each cell (in increasing order of offset) and the pending move.
pub ghost struct Lowering {
    pub blocks: Seq<Block>,
    pub diff: Seq<(i32, u8)>,
    pub offset: i32,
}

/// How many leading entries of `diff` have an offset below `k`.
pub open spec fn pos(diff: Seq<(i32, u8)>, k: i32) -> nat
    decreases diff.len(),
{
    if diff.len() == 0 || diff[0].0 >= k {
        0
    } else {
        1 + pos(diff.drop_first(), k)
    }
}

/// `diff` with `d` added to the change at offset `k`.
pub open spec fn bump(diff: Seq<(i32, u8)>, k: i32, d: u8) -> Seq<(i32, u8)> {
    let i = pos(diff, k) as int;
    if i < diff.len() && diff[i].0 == k {
        diff.update(i, (k, vstd::wrapping::u8_specs::wrapping_add(diff[i].1, d)))
    } else {
        diff.insert(i, (k, d))
    }
}

/// The assignments `r := Reg(r) + Lit(d)` for the pending changes.
pub open spec fn effect_of(diff: Seq<(i32, u8)>) -> Seq<(i32, ProcExpr)> {
    Seq::new(
        diff.len(),
        |i: int| (diff[i].0, ProcExpr::Add(Rc::new(ProcExpr::Reg(diff[i].0)), Rc::new(ProcExpr::Lit(diff[i].1)))),
    )
}

/// A pending block is written only if it changes a cell or moves the head.
pub open spec fn nontrivial(diff: Seq<(i32, u8)>, offset: i32) -> bool {
    offset != 0 || exists|i: int| 0 <= i < diff.len() && #[trigger] diff[i].1 != 0
}

/// The blocks with the pending effect written out, if it is not trivial.
pub open spec fn flushed(st: Lowering) -> Seq<Block> {
    if nontrivial(st.diff, st.offset) {
        st.blocks.push(Block::Effect(effect_of(st.diff), st.offset))
    } else {
        st.blocks
    }
}

/// The state after the first `n` instructions of `raw`.
pub open spec fn lowering(raw: Seq<BFRaw>, n: int) -> Lowering
    decreases raw, n,
{
    if n <= 0 || n > raw.len() {
        Lowering { blocks: Seq::empty(), diff: Seq::empty(), offset: 0 }
    } else {
        let st = lowering(raw, n - 1);
        match raw[n - 1] {
            BFRaw::Lft => Lowering { offset: vstd::wrapping::i32_specs::wrapping_sub(st.offset, 1), ..st },
            BFRaw::Rgh => Lowering { offset: vstd::wrapping::i32_specs::wrapping_add(st.offset, 1), ..st },
            BFRaw::Inc => Lowering { diff: bump(st.diff, st.offset, 1), ..st },
            BFRaw::Dec => Lowering { diff: bump(st.diff, st.offset, 255), ..st },
            BFRaw::Ask => Lowering { blocks: flushed(st).push(Block::Ask), diff: Seq::empty(), offset: 0 },
            BFRaw::Put => Lowering { blocks: flushed(st).push(Block::Put), diff: Seq::empty(), offset: 0 },
            BFRaw::Loop(is) => Lowering {
                blocks: flushed(st).push(Block::Loop(lowered(is@))),
                diff: Seq::empty(),
                offset: 0,
            },
        }
    }
}

/// The blocks that a sequence of instructions lowers to.
pub open spec fn lowered(raw: Seq<BFRaw>) -> Seq<Block>
    decreases raw, raw.len() + 1,
{
    flushed(lowering(raw, raw.len() as int))
}

/// The keys of `xs` are strictly increasing, so each appears once.
pub open spec fn keys_increasing(xs: Seq<(i32, ProcExpr)>) -> bool {
    forall|p: int, q: int| 0 <= p < q < xs.len() ==> #[trigger] xs[p].0 < #[trigger] xs[q].0
}

/// The offsets of pending changes are strictly increasing.
pub open spec fn diff_sorted(diff: Seq<(i32, u8)>) -> bool {
    forall|p: int, q: int| 0 <= p < q < diff.len() ==> #[trigger] diff[p].0 < #[trigger] diff[q].0
}

/// Every atomic effect in `b`, inside loops too, has strictly increasing keys.
pub open spec fn block_keys_ok(b: Block) -> bool
    decreases b,
{
    match b {
        Block::Effect(xs, _) => keys_increasing(xs),
        Block::Loop(body) => blocks_keys_ok(body),
        _ => true,
    }
}

/// Every block of `bs` satisfies `block_keys_ok`.
pub open spec fn blocks_keys_ok(bs: Seq<Block>) -> bool
    decreases bs,
{
    if bs.len() == 0 {
        true
    } else {
        blocks_keys_ok(bs.drop_last()) && block_keys_ok(bs.last())
    }
}

proof fn lemma_pos_bounds(diff: Seq<(i32, u8)>, k: i32)
    ensures
        pos(diff, k) <= diff.len(),
        forall|j: int| 0 <= j < pos(diff, k) ==> #[trigger] diff[j].0 < k,
        pos(diff, k) < diff.len() ==> diff[pos(diff, k) as int].0 >= k,
    decreases diff.len(),
{
    if diff.len() > 0 && diff[0].0 < k {
        lemma_pos_bounds(diff.drop_first(), k);
        assert forall|j: int| 0 <= j < pos(diff, k) implies #[trigger] diff[j].0 < k by {
            if j > 0 {
                assert(diff[j] == diff.drop_first()[j - 1]);
            }
        }
    }
}

proof fn lemma_bump_sorted(diff: Seq<(i32, u8)>, k: i32, d: u8)
    requires
        diff_sorted(diff),
    ensures
        diff_sorted(bump(diff, k, d)),
{
    lemma_pos_bounds(diff, k);
    let i = pos(diff, k) as int;
    let r = bump(diff, k, d);
    if i < diff.len() && diff[i].0 == k {
        assert forall|p: int, q: int| 0 <= p < q < r.len() implies #[trigger] r[p].0 < #[trigger] r[q].0 by {
            assert(diff[p].0 < diff[q].0);
        }
    } else {
        assert forall|p: int, q: int| 0 <= p < q < r.len() implies #[trigger] r[p].0 < #[trigger] r[q].0 by {
            if q < i {
                assert(r[p] == diff[p] && r[q] == diff[q]);
            } else if q == i {
                assert(r[p] == diff[p]);
            } else if p < i {
                assert(r[p] == diff[p] && r[q] == diff[q - 1]);
                if q - 1 > i {
                    assert(diff[i].0 < diff[q - 1].0);
                }
            } else if p == i {
                assert(r[q] == diff[q - 1]);
                if q - 1 > i {
                    assert(diff[i].0 < diff[q - 1].0);
                }
            } else {
                assert(r[p] == diff[p - 1] && r[q] == diff[q - 1]);
            }
        }
    }
}

proof fn lemma_keys_push(bs: Seq<Block>, b: Block)
    ensures
        blocks_keys_ok(bs.push(b)) == (blocks_keys_ok(bs) && block_keys_ok(b)),
{
    assert(bs.push(b).drop_last() == bs);
}

proof fn lemma_flushed_keys(st: Lowering)
    requires
        blocks_keys_ok(st.blocks),
        diff_sorted(st.diff),
    ensures
        blocks_keys_ok(flushed(st)),
{
    if nontrivial(st.diff, st.offset) {
        lemma_keys_push(st.blocks, Block::Effect(effect_of(st.diff), st.offset));
    }
}

proof fn lemma_lowering_keys(raw: Seq<BFRaw>, n: int)
    ensures
        blocks_keys_ok(lowering(raw, n).blocks),
        diff_sorted(lowering(raw, n).diff),
    decreases raw, n,
{
    if n <= 0 || n > raw.len() {
        assert(blocks_keys_ok(Seq::<Block>::empty()));
    } else {
        lemma_lowering_keys(raw, n - 1);
        let st = lowering(raw, n - 1);
        match raw[n - 1] {
            BFRaw::Inc => lemma_bump_sorted(st.diff, st.offset, 1),
            BFRaw::Dec => lemma_bump_sorted(st.diff, st.offset, 255),
            BFRaw::Ask => {
                lemma_flushed_keys(st);
                lemma_keys_push(flushed(st), Block::Ask);
            },
            BFRaw::Put => {
                lemma_flushed_keys(st);
                lemma_keys_push(flushed(st), Block::Put);
            },
            BFRaw::Loop(is) => {
                lemma_flushed_keys(st);
                lemma_lowered_keys(is@);
                lemma_keys_push(flushed(st), Block::Loop(lowered(is@)));
            },
            _ => {},
        }
    }
}

/// Lowering writes every atomic effect with strictly increasing keys: each
/// register is assigned at most once.
pub proof fn lemma_lowered_keys(raw: Seq<BFRaw>)
    ensures
        blocks_keys_ok(lowered(raw)),
    decreases raw, raw.len() + 1,
{
    lemma_lowering_keys(raw, raw.len() as int);
    lemma_flushed_keys(lowering(raw, raw.len() as int));
}

proof fn lemma_pos(s: Seq<(i32, u8)>, k: i32, i: int)
    requires
        0 <= i <= s.len(),
        forall|j: int| 0 <= j < i ==> #[trigger] s[j].0 < k,
        i == s.len() || s[i].0 >= k,
    ensures
        pos(s, k) == i,
    decreases i,
{
    if i > 0 {
        assert forall|j: int| 0 <= j < i - 1 implies #[trigger] s.drop_first()[j].0 < k by {
            assert(s.drop_first()[j] == s[j + 1]);
        }
        lemma_pos(s.drop_first(), k, i - 1);
    }
}

/// Pushing a block pushes its view.
pub proof fn lemma_views_push(bs: Seq<OptimisedBlock>, b: OptimisedBlock)
    ensures
        views(bs.push(b)) == views(bs).push(b@),
{
    assert(bs.push(b).drop_last() == bs);
}

fn bump_in(diff: &mut Vec<(i32, u8)>, k: i32, d: u8)
    ensures
        final(diff)@ == bump(old(diff)@, k, d),
{
    let mut i: usize = 0;
    while i < diff.len() && diff[i].0 < k
        invariant
            i <= diff.len(),
            diff@ == old(diff)@,
            forall|j: int| 0 <= j < i ==> #[trigger] diff@[j].0 < k,
        decreases diff.len() - i,
    {
        i = i + 1;
    }
    proof {
        lemma_pos(diff@, k, i as int);
    }
    if i < diff.len() && diff[i].0 == k {
        let v = diff[i].1.wrapping_add(d);
        diff.set(i, (k, v));
    } else {
        diff.insert(i, (k, d));
    }
}

/// Writes the pending effect to `blocks`, if it is not trivial.
fn flush(blocks: &mut Vec<OptimisedBlock>, diff: &Vec<(i32, u8)>, offset: i32)
    ensures
        views(final(blocks)@) == flushed(Lowering { blocks: views(old(blocks)@), diff: diff@, offset }),
{
    let mut changes = offset != 0;
    let mut i: usize = 0;
    while i < diff.len()
        invariant
            i <= diff.len(),
            changes == (offset != 0 || exists|j: int| 0 <= j < i && #[trigger] diff@[j].1 != 0),
        decreases diff.len() - i,
    {
        if diff[i].1 != 0 {
            changes = true;
        }
        i = i + 1;
    }
    if changes {
        let mut lines: Vec<(i32, Rc<ProcExpr>)> = Vec::new();
        let mut i: usize = 0;
        while i < diff.len()
            invariant
                i <= diff.len(),
                lines@.len() == i,
                forall|j: int| 0 <= j < i ==> #[trigger] lines@[j].0 == effect_of(diff@)[j].0 && *lines@[j].1 == effect_of(diff@)[j].1,
            decreases diff.len() - i,
        {
            let (k, v) = diff[i];
            lines.push((k, Rc::new(ProcExpr::Add(Rc::new(ProcExpr::Reg(k)), Rc::new(ProcExpr::Lit(v))))));
            i = i + 1;
        }
        let b = OptimisedBlock::AtomicEffect(lines, offset);
        proof {
            assert(crate::expr::assigns_view(lines@) == effect_of(diff@));
            lemma_views_push(blocks@, b);
        }
        blocks.push(b);
    }
}

fn lower(raw: &Vec<BFRaw>) -> (r: Vec<OptimisedBlock>)
    ensures
        views(r@) == lowered(raw@),
    decreases raw@,
{
    let mut blocks: Vec<OptimisedBlock> = Vec::new();
    let mut diff: Vec<(i32, u8)> = Vec::new();
    let mut offset: i32 = 0;
    let mut n: usize = 0;
    proof {
        assert(views(blocks@) == Seq::<Block>::empty());
    }
    while n < raw.len()
        invariant
            n <= raw.len(),
            lowering(raw@, n as int) == (Lowering { blocks: views(blocks@), diff: diff@, offset }),
        decreases raw.len() - n,
    {
        match &raw[n] {
            BFRaw::Lft => {
                offset = offset.wrapping_sub(1);
            },
            BFRaw::Rgh => {
                offset = offset.wrapping_add(1);
            },
            BFRaw::Inc => {
                bump_in(&mut diff, offset, 1);
            },
            BFRaw::Dec => {
                bump_in(&mut diff, offset, 255);
            },
            BFRaw::Ask => {
                flush(&mut blocks, &diff, offset);
                proof {
                    lemma_views_push(blocks@, OptimisedBlock::Ask);
                }
                blocks.push(OptimisedBlock::Ask);
                diff = Vec::new();
                offset = 0;
            },
            BFRaw::Put => {
                flush(&mut blocks, &diff, offset);
                proof {
                    lemma_views_push(blocks@, OptimisedBlock::Put);
                }
                blocks.push(OptimisedBlock::Put);
                diff = Vec::new();
                offset = 0;
            },
            BFRaw::Loop(is) => {
                flush(&mut blocks, &diff, offset);
                let body = lower(is);
                let b = OptimisedBlock::Loop(body);
                proof {
                    lemma_views_push(blocks@, b);
                }
                blocks.push(b);
                diff = Vec::new();
                offset = 0;
            },
        }
        n = n + 1;
    }
    flush(&mut blocks, &diff, offset);
    blocks
}

/// Lowers instructions to blocks: each maximal run of moves and increments
/// becomes one atomic effect (omitted where it changes nothing), and `,`,
/// `.` and loops become blocks of their own.
pub fn convert(raw: Vec<BFRaw>) -> (r: Vec<OptimisedBlock>)
    ensures
        views(r@) == lowered(raw@),
        blocks_keys_ok(views(r@)),
{
    proof {
        lemma_lowered_keys(raw@);
    }
    lower(&raw)
}

} // verus!
