//! Why fusing atomic effects is sound: the fused effect does what running
//! the two effects one after the other does.
use vstd::prelude::*;

use crate::expr::{at, eval, shifted, Block, ProcExpr};
use crate::lower::{block_keys_ok, blocks_keys_ok, keys_increasing};
use crate::interpreter::{commit, effect_ok, run_block, run_seq, Machine, Outcome};
use crate::optimiser::{
    carried, closed_loop, loop_optimised, loops_optimised, lookup, merged, merged_all, optimised,
    reduced_block, shift_fits, substituted, union,
};

verus! {

proof fn lemma_at_assoc(h: i32, s: i32, k: i32)
    ensures
        at(at(h, s), k) == at(h, at(s, k)),
{
}

proof fn lemma_at_inj(h: i32, k1: i32, k2: i32)
    ensures
        at(h, k1) == at(h, k2) ==> k1 == k2,
{
}

proof fn lemma_at_onto(h: i32, a: i32)
    ensures
        at(h, vstd::wrapping::i32_specs::wrapping_sub(a, h)) == a,
{
}

proof fn lemma_lookup_index(xs: Seq<(i32, ProcExpr)>, idx: int)
    requires
        keys_increasing(xs),
        0 <= idx < xs.len(),
    ensures
        lookup(xs, xs[idx].0) == Some(xs[idx].1),
    decreases xs.len(),
{
    if idx > 0 {
        assert(xs[0].0 < xs[idx].0);
        assert(keys_increasing(xs.drop_first())) by {
            assert forall|p: int, q: int| 0 <= p < q < xs.drop_first().len() implies #[trigger] xs.drop_first()[p].0
                < #[trigger] xs.drop_first()[q].0 by {
                assert(xs[p + 1].0 < xs[q + 1].0);
            }
        }
        lemma_lookup_index(xs.drop_first(), idx - 1);
    }
}

proof fn lemma_lookup_some(xs: Seq<(i32, ProcExpr)>, k: i32)
    ensures
        lookup(xs, k) is Some ==> exists|idx: int| 0 <= idx < xs.len() && #[trigger] xs[idx] == (k, lookup(xs, k).unwrap()),
        lookup(xs, k) is None ==> forall|idx: int| 0 <= idx < xs.len() ==> #[trigger] xs[idx].0 != k,
    decreases xs.len(),
{
    if xs.len() > 0 && xs[0].0 != k {
        lemma_lookup_some(xs.drop_first(), k);
        if lookup(xs, k) is Some {
            let idx = choose|idx: int| 0 <= idx < xs.drop_first().len() && #[trigger] xs.drop_first()[idx] == (k, lookup(xs, k).unwrap());
            assert(xs[idx + 1] == xs.drop_first()[idx]);
        } else {
            assert forall|idx: int| 0 <= idx < xs.len() implies #[trigger] xs[idx].0 != k by {
                if idx > 0 {
                    assert(xs[idx] == xs.drop_first()[idx - 1]);
                }
            }
        }
    } else if xs.len() > 0 {
        assert(xs[0] == (k, lookup(xs, k).unwrap()));
    }
}

/// What a committed tape holds at `at(h, k)`: the value of the expression
/// assigned to `k`, or what `base` holds.
proof fn lemma_commit(xs: Seq<(i32, ProcExpr)>, snap: Map<i32, u8>, h: i32, n: int, base: Map<i32, u8>, k: i32)
    requires
        keys_increasing(xs),
        0 <= n <= xs.len(),
    ensures
        ({
            let t = commit(xs, snap, h, n, base);
            match lookup(xs.subrange(0, n), k) {
                Some(e) => t.contains_key(at(h, k)) && t[at(h, k)] == eval(e, snap, h).unwrap(),
                None => t.contains_key(at(h, k)) == base.contains_key(at(h, k)) && t[at(h, k)] == base[at(h, k)],
            }
        }),
    decreases n,
{
    let pre = xs.subrange(0, n);
    assert(keys_increasing(pre));
    if n > 0 {
        lemma_commit(xs, snap, h, n - 1, base, k);
        let pre1 = xs.subrange(0, n - 1);
        assert(keys_increasing(pre1));
        lemma_at_inj(h, xs[n - 1].0, k);
        lemma_lookup_some(pre1, k);
        lemma_lookup_some(pre, k);
        if xs[n - 1].0 == k {
            lemma_lookup_index(pre, n - 1);
        } else {
            match lookup(pre, k) {
                Some(e) => {
                    let idx = choose|idx: int| 0 <= idx < pre.len() && #[trigger] pre[idx] == (k, e);
                    assert(idx < n - 1);
                    assert(pre1[idx] == pre[idx]);
                    lemma_lookup_index(pre1, idx);
                },
                None => {
                    if lookup(pre1, k) is Some {
                        let idx = choose|idx: int| 0 <= idx < pre1.len() && #[trigger] pre1[idx] == (k, lookup(pre1, k).unwrap());
                        assert(pre[idx] == pre1[idx]);
                    }
                },
            }
        }
    } else {
        assert(pre.len() == 0);
    }
}

proof fn lemma_drop_increasing(xs: Seq<(i32, ProcExpr)>)
    requires
        keys_increasing(xs),
        xs.len() > 0,
    ensures
        keys_increasing(xs.drop_first()),
        forall|p: int| 0 <= p < xs.drop_first().len() ==> #[trigger] xs.drop_first()[p].0 > xs[0].0,
{
    assert forall|p: int, q: int| 0 <= p < q < xs.drop_first().len() implies #[trigger] xs.drop_first()[p].0
        < #[trigger] xs.drop_first()[q].0 by {
        assert(xs[p + 1].0 < xs[q + 1].0);
    }
    assert forall|p: int| 0 <= p < xs.drop_first().len() implies #[trigger] xs.drop_first()[p].0 > xs[0].0 by {
        assert(xs[0].0 < xs[p + 1].0);
    }
}

/// The two operands of a binary expression.
pub open spec fn operands(e: ProcExpr) -> (ProcExpr, ProcExpr) {
    match e {
        ProcExpr::Add(a, b) => (*a, *b),
        ProcExpr::Mul(a, b) => (*a, *b),
        ProcExpr::Into(a, b) => (*a, *b),
        _ => (e, e),
    }
}

/// Substituting the assignments of `xs` into an expression moved by `s`
/// gives, on the cells before `xs`, what the expression gives on the cells
/// after `xs` with the head moved by `s`.
proof fn lemma_subst(xs: Seq<(i32, ProcExpr)>, s: i32, e: ProcExpr, t: Map<i32, u8>, h: i32)
    requires
        keys_increasing(xs),
        effect_ok(xs, t, h),
    ensures
        eval(substituted(xs, shifted(s, e)), t, h) == eval(e, commit(xs, t, h, xs.len() as int, t), at(h, s)),
    decreases e,
{
    match e {
        ProcExpr::Lit(_) => {},
        ProcExpr::Reg(r) => {
            let k = at(s, r);
            assert(xs.subrange(0, xs.len() as int) =~= xs);
            lemma_commit(xs, t, h, xs.len() as int, t, k);
            lemma_at_assoc(h, s, r);
            lemma_lookup_some(xs, k);
            match lookup(xs, k) {
                Some(x) => {
                    let idx = choose|idx: int| 0 <= idx < xs.len() && #[trigger] xs[idx] == (k, x);
                    assert(eval(xs[idx].1, t, h) is Some);
                },
                None => {},
            }
        },
        _ => {
            lemma_subst(xs, s, operands(e).0, t, h);
            lemma_subst(xs, s, operands(e).1, t, h);
        },
    }
}

proof fn lemma_carried_lookup(xs: Seq<(i32, ProcExpr)>, i: i32, ys: Seq<(i32, ProcExpr)>, k: i32)
    ensures
        lookup(carried(xs, i, ys), at(i, k)) == match lookup(ys, k) {
            Some(e) => Some(substituted(xs, shifted(i, e))),
            None => None,
        },
    decreases ys.len(),
{
    if ys.len() > 0 {
        assert(carried(xs, i, ys).drop_first() =~= carried(xs, i, ys.drop_first()));
        lemma_at_inj(i, ys[0].0, k);
        lemma_carried_lookup(xs, i, ys.drop_first(), k);
    }
}

proof fn lemma_carried_increasing(xs: Seq<(i32, ProcExpr)>, i: i32, ys: Seq<(i32, ProcExpr)>)
    requires
        keys_increasing(ys),
        shift_fits(i, ys),
    ensures
        keys_increasing(carried(xs, i, ys)),
{
    let zs = carried(xs, i, ys);
    assert forall|p: int, q: int| 0 <= p < q < zs.len() implies #[trigger] zs[p].0 < #[trigger] zs[q].0 by {
        assert(ys[p].0 < ys[q].0);
        assert(i32::MIN <= i + ys[p].0 <= i32::MAX);
        assert(i32::MIN <= i + ys[q].0 <= i32::MAX);
    }
}

proof fn lemma_union_above(xs: Seq<(i32, ProcExpr)>, zs: Seq<(i32, ProcExpr)>, b: i32)
    requires
        forall|p: int| 0 <= p < xs.len() ==> #[trigger] xs[p].0 > b,
        forall|q: int| 0 <= q < zs.len() ==> #[trigger] zs[q].0 > b,
    ensures
        forall|u: int| 0 <= u < union(xs, zs).len() ==> #[trigger] union(xs, zs)[u].0 > b,
    decreases xs.len() + zs.len(),
{
    if xs.len() > 0 && zs.len() > 0 {
        let u = union(xs, zs);
        if xs[0].0 < zs[0].0 {
            lemma_union_above(xs.drop_first(), zs, b);
            assert forall|k: int| 0 <= k < u.len() implies #[trigger] u[k].0 > b by {
                if k > 0 {
                    assert(u[k] == union(xs.drop_first(), zs)[k - 1]);
                }
            }
        } else if zs[0].0 < xs[0].0 {
            lemma_union_above(xs, zs.drop_first(), b);
            assert forall|k: int| 0 <= k < u.len() implies #[trigger] u[k].0 > b by {
                if k > 0 {
                    assert(u[k] == union(xs, zs.drop_first())[k - 1]);
                }
            }
        } else {
            lemma_union_above(xs.drop_first(), zs.drop_first(), b);
            assert forall|k: int| 0 <= k < u.len() implies #[trigger] u[k].0 > b by {
                if k > 0 {
                    assert(u[k] == union(xs.drop_first(), zs.drop_first())[k - 1]);
                }
            }
        }
    }
}

proof fn lemma_union_increasing(xs: Seq<(i32, ProcExpr)>, zs: Seq<(i32, ProcExpr)>)
    requires
        keys_increasing(xs),
        keys_increasing(zs),
    ensures
        keys_increasing(union(xs, zs)),
    decreases xs.len() + zs.len(),
{
    if xs.len() > 0 && zs.len() > 0 {
        let u = union(xs, zs);
        lemma_drop_increasing(xs);
        lemma_drop_increasing(zs);
        let (head, rest) = if xs[0].0 < zs[0].0 {
            lemma_union_increasing(xs.drop_first(), zs);
            assert forall|q: int| 0 <= q < zs.len() implies #[trigger] zs[q].0 > xs[0].0 by {
                if q > 0 {
                    assert(zs[0].0 < zs[q].0);
                }
            }
            lemma_union_above(xs.drop_first(), zs, xs[0].0);
            (xs[0], union(xs.drop_first(), zs))
        } else if zs[0].0 < xs[0].0 {
            lemma_union_increasing(xs, zs.drop_first());
            assert forall|p: int| 0 <= p < xs.len() implies #[trigger] xs[p].0 > zs[0].0 by {
                if p > 0 {
                    assert(xs[0].0 < xs[p].0);
                }
            }
            lemma_union_above(xs, zs.drop_first(), zs[0].0);
            (zs[0], union(xs, zs.drop_first()))
        } else {
            lemma_union_increasing(xs.drop_first(), zs.drop_first());
            lemma_union_above(xs.drop_first(), zs.drop_first(), zs[0].0);
            (zs[0], union(xs.drop_first(), zs.drop_first()))
        };
        assert(u == seq![head] + rest);
        assert forall|p: int, q: int| 0 <= p < q < u.len() implies #[trigger] u[p].0 < #[trigger] u[q].0 by {
            assert(u[q] == rest[q - 1]);
            if p > 0 {
                assert(u[p] == rest[p - 1]);
            }
        }
    }
}

proof fn lemma_lookup_below(xs: Seq<(i32, ProcExpr)>, k: i32)
    requires
        forall|p: int| 0 <= p < xs.len() ==> #[trigger] xs[p].0 > k,
    ensures
        lookup(xs, k) is None,
{
    lemma_lookup_some(xs, k);
    if lookup(xs, k) is Some {
        let idx = choose|idx: int| 0 <= idx < xs.len() && #[trigger] xs[idx] == (k, lookup(xs, k).unwrap());
        assert(xs[idx].0 > k);
    }
}

proof fn lemma_union_lookup(xs: Seq<(i32, ProcExpr)>, zs: Seq<(i32, ProcExpr)>, k: i32)
    requires
        keys_increasing(xs),
        keys_increasing(zs),
    ensures
        lookup(union(xs, zs), k) == if lookup(zs, k) is Some {
            lookup(zs, k)
        } else {
            lookup(xs, k)
        },
    decreases xs.len() + zs.len(),
{
    if xs.len() > 0 && zs.len() > 0 {
        let u = union(xs, zs);
        lemma_drop_increasing(xs);
        lemma_drop_increasing(zs);
        if xs[0].0 < zs[0].0 {
            let rest = union(xs.drop_first(), zs);
            assert(u == seq![xs[0]] + rest);
            assert(u.drop_first() =~= rest);
            lemma_union_lookup(xs.drop_first(), zs, k);
            if k == xs[0].0 {
                assert forall|q: int| 0 <= q < zs.len() implies #[trigger] zs[q].0 > k by {
                    if q > 0 {
                        assert(zs[0].0 < zs[q].0);
                    }
                }
                lemma_lookup_below(zs, k);
            }
        } else if zs[0].0 < xs[0].0 {
            let rest = union(xs, zs.drop_first());
            assert(u == seq![zs[0]] + rest);
            assert(u.drop_first() =~= rest);
            lemma_union_lookup(xs, zs.drop_first(), k);
        } else {
            let rest = union(xs.drop_first(), zs.drop_first());
            assert(u == seq![zs[0]] + rest);
            assert(u.drop_first() =~= rest);
            lemma_union_lookup(xs.drop_first(), zs.drop_first(), k);
        }
    }
}

/// Fusing two atomic effects is sound: where `Effect(xs, i)` and then
/// `Effect(ys, j)` both run to their end from `m`, their fusion runs to its
/// end from `m` and leaves the same head, tape and record of input and
/// output. (Each effect assigns a register at most once, as lowering and
/// fusion keep them.)
pub proof fn lemma_merge_runs_like_sequence(
    xs: Seq<(i32, ProcExpr)>,
    i: i32,
    ys: Seq<(i32, ProcExpr)>,
    j: i32,
    m: Machine,
    o: Seq<u8>,
)
    requires
        keys_increasing(xs),
        keys_increasing(ys),
        merged(Block::Effect(xs, i), Block::Effect(ys, j)) is Some,
        run_block(Block::Effect(xs, i), m, o).0 == Outcome::Halted,
        run_block(Block::Effect(ys, j), run_block(Block::Effect(xs, i), m, o).1, o).0 == Outcome::Halted,
    ensures
        run_block(merged(Block::Effect(xs, i), Block::Effect(ys, j)).unwrap(), m, o) == run_block(
            Block::Effect(ys, j),
            run_block(Block::Effect(xs, i), m, o).1,
            o,
        ),
{
    let t = m.tape;
    let h = m.head;
    assert(effect_ok(xs, t, h));
    let t1 = commit(xs, t, h, xs.len() as int, t);
    let h1 = at(h, i);
    assert(effect_ok(ys, t1, h1));
    let zs = carried(xs, i, ys);
    let u = union(xs, zs);
    lemma_carried_increasing(xs, i, ys);
    lemma_union_increasing(xs, zs);
    let t2 = commit(ys, t1, h1, ys.len() as int, t1);
    let tm = commit(u, t, h, u.len() as int, t);
    assert(u.subrange(0, u.len() as int) =~= u);
    assert(xs.subrange(0, xs.len() as int) =~= xs);
    assert(ys.subrange(0, ys.len() as int) =~= ys);
    assert forall|idx: int| 0 <= idx < u.len() implies #[trigger] eval(u[idx].1, t, h) is Some by {
        let k = u[idx].0;
        lemma_lookup_index(u, idx);
        lemma_union_lookup(xs, zs, k);
        lemma_lookup_some(zs, k);
        lemma_lookup_some(xs, k);
        if lookup(zs, k) is Some {
            let q = choose|q: int| 0 <= q < zs.len() && #[trigger] zs[q] == (k, lookup(zs, k).unwrap());
            lemma_subst(xs, i, ys[q].1, t, h);
            assert(eval(ys[q].1, t1, h1) is Some);
        } else {
            let p = choose|p: int| 0 <= p < xs.len() && #[trigger] xs[p] == (k, lookup(xs, k).unwrap());
            assert(eval(xs[p].1, t, h) is Some);
        }
    }
    assert(effect_ok(u, t, h));
    assert forall|a: i32| #[trigger] tm.contains_key(a) == t2.contains_key(a) && (tm.contains_key(a) ==> tm[a] == t2[a]) by {
        let k = vstd::wrapping::i32_specs::wrapping_sub(a, h);
        lemma_at_onto(h, a);
        let k2 = vstd::wrapping::i32_specs::wrapping_sub(k, i);
        lemma_at_onto(i, k);
        lemma_at_assoc(h, i, k2);
        lemma_commit(u, t, h, u.len() as int, t, k);
        lemma_commit(ys, t1, h1, ys.len() as int, t1, k2);
        lemma_commit(xs, t, h, xs.len() as int, t, k);
        lemma_union_lookup(xs, zs, k);
        lemma_carried_lookup(xs, i, ys, k2);
        lemma_lookup_some(ys, k2);
        match lookup(ys, k2) {
            Some(ey) => {
                let q = choose|q: int| 0 <= q < ys.len() && #[trigger] ys[q] == (k2, ey);
                assert(eval(ys[q].1, t1, h1) is Some);
                lemma_subst(xs, i, ey, t, h);
            },
            None => {},
        }
    }
    assert(tm =~= t2);
    lemma_at_assoc(h, i, j);
}

/// Fusion keeps each register assigned once: where both effects have
/// strictly increasing keys and moving the second's keys does not wrap
/// around, so does the fused effect.
pub proof fn lemma_merged_keys(xs: Seq<(i32, ProcExpr)>, i: i32, ys: Seq<(i32, ProcExpr)>)
    requires
        keys_increasing(xs),
        keys_increasing(ys),
        shift_fits(i, ys),
    ensures
        keys_increasing(union(xs, carried(xs, i, ys))),
{
    lemma_carried_increasing(xs, i, ys);
    lemma_union_increasing(xs, carried(xs, i, ys));
}

/// Fusion is associative in effect: where three atomic effects run to their
/// end one after the other from `m`, fusing the first two and then the
/// third, or the first with the fusion of the last two, runs like the three
/// in turn, wherever the fusions can be made. (Each effect assigns a
/// register at most once.)
pub proof fn lemma_merge_assoc(
    xs: Seq<(i32, ProcExpr)>,
    i: i32,
    ys: Seq<(i32, ProcExpr)>,
    j: i32,
    zs: Seq<(i32, ProcExpr)>,
    k: i32,
    m: Machine,
    o: Seq<u8>,
)
    requires
        keys_increasing(xs),
        keys_increasing(ys),
        keys_increasing(zs),
        merged(Block::Effect(xs, i), Block::Effect(ys, j)) is Some,
        merged(Block::Effect(ys, j), Block::Effect(zs, k)) is Some,
        merged(merged(Block::Effect(xs, i), Block::Effect(ys, j)).unwrap(), Block::Effect(zs, k)) is Some,
        merged(Block::Effect(xs, i), merged(Block::Effect(ys, j), Block::Effect(zs, k)).unwrap()) is Some,
        run_block(Block::Effect(xs, i), m, o).0 == Outcome::Halted,
        run_block(Block::Effect(ys, j), run_block(Block::Effect(xs, i), m, o).1, o).0 == Outcome::Halted,
        run_block(
            Block::Effect(zs, k),
            run_block(Block::Effect(ys, j), run_block(Block::Effect(xs, i), m, o).1, o).1,
            o,
        ).0 == Outcome::Halted,
    ensures
        ({
            let a = Block::Effect(xs, i);
            let b = Block::Effect(ys, j);
            let c = Block::Effect(zs, k);
            let seq_run = run_block(c, run_block(b, run_block(a, m, o).1, o).1, o);
            &&& run_block(merged(merged(a, b).unwrap(), c).unwrap(), m, o) == seq_run
            &&& run_block(merged(a, merged(b, c).unwrap()).unwrap(), m, o) == seq_run
        }),
{
    let a = Block::Effect(xs, i);
    let b = Block::Effect(ys, j);
    let c = Block::Effect(zs, k);
    let m1 = run_block(a, m, o).1;
    lemma_merge_runs_like_sequence(xs, i, ys, j, m, o);
    lemma_merged_keys(xs, i, ys);
    let ab = union(xs, carried(xs, i, ys));
    lemma_merge_runs_like_sequence(ab, at(i, j), zs, k, m, o);
    lemma_merge_runs_like_sequence(ys, j, zs, k, m1, o);
    lemma_merged_keys(ys, j, zs);
    let bc = union(ys, carried(ys, j, zs));
    lemma_merge_runs_like_sequence(xs, i, bc, at(j, k), m, o);
}

/// `blocks_keys_ok` holds of a sequence exactly when it holds of each block.
pub proof fn lemma_keys_each(bs: Seq<Block>)
    ensures
        blocks_keys_ok(bs) == forall|i: int| 0 <= i < bs.len() ==> #[trigger] block_keys_ok(bs[i]),
    decreases bs.len(),
{
    if bs.len() > 0 {
        lemma_keys_each(bs.drop_last());
        if forall|i: int| 0 <= i < bs.len() ==> #[trigger] block_keys_ok(bs[i]) {
            assert forall|i: int| 0 <= i < bs.drop_last().len() implies #[trigger] block_keys_ok(bs.drop_last()[i]) by {
                assert(bs.drop_last()[i] == bs[i]);
            }
            assert(block_keys_ok(bs[bs.len() - 1]));
        }
        if blocks_keys_ok(bs) {
            assert forall|i: int| 0 <= i < bs.len() implies #[trigger] block_keys_ok(bs[i]) by {
                if i < bs.len() - 1 {
                    assert(bs.drop_last()[i] == bs[i]);
                }
            }
        }
    }
}

proof fn lemma_merged_block_keys(a: Block, b: Block)
    requires
        block_keys_ok(a),
        block_keys_ok(b),
        merged(a, b) is Some,
    ensures
        block_keys_ok(merged(a, b).unwrap()),
{
    match (a, b) {
        (Block::Effect(xs, i), Block::Effect(ys, _)) => lemma_merged_keys(xs, i, ys),
        _ => {},
    }
}

/// Greedy fusion keeps each register assigned at most once in every effect.
pub proof fn lemma_merged_all_keys(bs: Seq<Block>)
    requires
        blocks_keys_ok(bs),
    ensures
        blocks_keys_ok(merged_all(bs)),
    decreases bs.len(),
{
    lemma_keys_each(bs);
    if bs.len() >= 2 {
        match merged(bs[0], bs[1]) {
            Some(c) => {
                lemma_merged_block_keys(bs[0], bs[1]);
                let next = seq![c] + bs.subrange(2, bs.len() as int);
                assert forall|i: int| 0 <= i < next.len() implies #[trigger] block_keys_ok(next[i]) by {
                    if i > 0 {
                        assert(next[i] == bs[i + 1]);
                    }
                }
                lemma_keys_each(next);
                lemma_merged_all_keys(next);
            },
            None => {
                let rest = bs.drop_first();
                assert forall|i: int| 0 <= i < rest.len() implies #[trigger] block_keys_ok(rest[i]) by {
                    assert(rest[i] == bs[i + 1]);
                }
                lemma_keys_each(rest);
                lemma_merged_all_keys(rest);
                let r = seq![bs[0]] + merged_all(rest);
                lemma_keys_each(merged_all(rest));
                assert forall|i: int| 0 <= i < r.len() implies #[trigger] block_keys_ok(r[i]) by {
                    if i > 0 {
                        assert(r[i] == merged_all(rest)[i - 1]);
                    }
                }
                lemma_keys_each(r);
            },
        }
    }
}

proof fn lemma_closed_keys(b: Block)
    requires
        block_keys_ok(b),
        closed_loop(b) is Some,
    ensures
        block_keys_ok(closed_loop(b).unwrap()),
{
    match b {
        Block::Effect(xs, _) => {
            let c = closed_loop(b).unwrap()->Effect_0;
            assert forall|p: int, q: int| 0 <= p < q < c.len() implies #[trigger] c[p].0 < #[trigger] c[q].0 by {
                assert(xs[p].0 < xs[q].0);
            }
        },
        _ => {},
    }
}

proof fn lemma_loop_optimised_keys(b: Block)
    requires
        block_keys_ok(b),
    ensures
        block_keys_ok(loop_optimised(b)),
    decreases b, 2int,
{
    match b {
        Block::Loop(body) => {
            lemma_optimised_keys(body);
            let ob = optimised(body);
            if ob.len() == 1 {
                lemma_keys_each(ob);
                if closed_loop(ob[0]) is Some {
                    lemma_closed_keys(ob[0]);
                }
            }
        },
        _ => {},
    }
}

proof fn lemma_loops_optimised_keys(bs: Seq<Block>)
    requires
        blocks_keys_ok(bs),
    ensures
        blocks_keys_ok(loops_optimised(bs)),
    decreases bs, 0int,
{
    if bs.len() > 0 {
        lemma_loops_optimised_keys(bs.drop_last());
        lemma_loop_optimised_keys(bs.last());
        let l = loops_optimised(bs);
        assert(l.drop_last() == loops_optimised(bs.drop_last()));
    }
}

/// Optimising keeps each register assigned at most once in every effect.
pub proof fn lemma_optimised_keys(bs: Seq<Block>)
    requires
        blocks_keys_ok(bs),
    ensures
        blocks_keys_ok(optimised(bs)),
    decreases bs, 1int,
{
    lemma_loops_optimised_keys(bs);
    let m = merged_all(loops_optimised(bs));
    lemma_merged_all_keys(loops_optimised(bs));
    lemma_keys_each(m);
    let r = optimised(bs);
    assert forall|i: int| 0 <= i < r.len() implies #[trigger] block_keys_ok(r[i]) by {
        assert(r[i] == reduced_block(m[i]));
        assert(block_keys_ok(m[i]));
    }
    lemma_keys_each(r);
}

/// Greedy fusion of a whole sequence is sound: where the blocks run to
/// their end one after the other from `m`, the fused sequence does too and
/// ends in the same state, with the same input read and output written.
/// (Each effect assigns a register at most once.)
pub proof fn lemma_merge_all_runs(bs: Seq<Block>, m: Machine, o: Seq<u8>)
    requires
        blocks_keys_ok(bs),
        run_seq(bs, m, o).0 == Outcome::Halted,
    ensures
        run_seq(merged_all(bs), m, o) == run_seq(bs, m, o),
    decreases bs.len(),
{
    lemma_keys_each(bs);
    if bs.len() >= 2 {
        let rest = bs.drop_first();
        assert(rest[0] == bs[1]);
        let m0 = run_block(bs[0], m, o).1;
        assert(run_block(bs[0], m, o).0 == Outcome::Halted);
        match merged(bs[0], bs[1]) {
            Some(c) => {
                let (xs, i) = (bs[0]->Effect_0, bs[0]->Effect_1);
                let (ys, j) = (bs[1]->Effect_0, bs[1]->Effect_1);
                assert(block_keys_ok(bs[0]) && block_keys_ok(bs[1]));
                assert(run_seq(bs, m, o) == run_seq(rest, m0, o));
                assert(run_block(bs[1], m0, o).0 == Outcome::Halted);
                let m1 = run_block(bs[1], m0, o).1;
                let tail = bs.subrange(2, bs.len() as int);
                assert(rest.drop_first() =~= tail);
                assert(run_seq(rest, m0, o) == run_seq(tail, m1, o));
                lemma_merge_runs_like_sequence(xs, i, ys, j, m, o);
                lemma_merged_block_keys(bs[0], bs[1]);
                let next = seq![c] + tail;
                assert(next[0] == c);
                assert(next.drop_first() =~= tail);
                assert(run_seq(next, m, o) == run_seq(tail, m1, o));
                assert forall|k: int| 0 <= k < next.len() implies #[trigger] block_keys_ok(next[k]) by {
                    if k > 0 {
                        assert(next[k] == bs[k + 1]);
                    }
                }
                lemma_keys_each(next);
                lemma_merge_all_runs(next, m, o);
            },
            None => {
                assert(run_seq(bs, m, o) == run_seq(rest, m0, o));
                assert forall|k: int| 0 <= k < rest.len() implies #[trigger] block_keys_ok(rest[k]) by {
                    assert(rest[k] == bs[k + 1]);
                }
                lemma_keys_each(rest);
                lemma_merge_all_runs(rest, m0, o);
                let r = seq![bs[0]] + merged_all(rest);
                assert(r[0] == bs[0]);
                assert(r.drop_first() =~= merged_all(rest));
            },
        }
    }
}

} // verus!
