//! A readable rendering of optimised blocks, for display.
use std::rc::Rc;
use vstd::prelude::*;

use crate::expr::{assigns_view, lemma_views_index, views, Block, OptimisedBlock, ProcExpr};

verus! {

/// The character of a decimal digit.
pub open spec fn digit_char(d: int) -> char {
    if d == 0 {
        '0'
    } else if d == 1 {
        '1'
    } else if d == 2 {
        '2'
    } else if d == 3 {
        '3'
    } else if d == 4 {
        '4'
    } else if d == 5 {
        '5'
    } else if d == 6 {
        '6'
    } else if d == 7 {
        '7'
    } else if d == 8 {
        '8'
    } else {
        '9'
    }
}

/// The decimal digits of `n`.
pub open spec fn digits(n: nat) -> Seq<char>
    decreases n,
{
    if n < 10 {
        seq![digit_char(n as int)]
    } else {
        digits(n / 10).push(digit_char((n % 10) as int))
    }
}

/// `n` in decimal, with a `-` where it is negative.
pub open spec fn decimal(n: int) -> Seq<char> {
    if n < 0 {
        seq!['-'] + digits((-n) as nat)
    } else {
        digits(n as nat)
    }
}

/// An expression with infix `+`, `*` and `into`, `~#r` for registers and
/// decimal literals.
pub open spec fn expr_text(e: ProcExpr) -> Seq<char>
    decreases e,
{
    match e {
        ProcExpr::Lit(x) => decimal(x as int),
        ProcExpr::Reg(r) => seq!['~', '#'] + decimal(r as int),
        ProcExpr::Add(a, b) => seq!['('] + expr_text(*a) + seq![' ', '+', ' '] + expr_text(*b) + seq![')'],
        ProcExpr::Mul(a, b) => expr_text(*a) + seq![' ', '*', ' '] + expr_text(*b),
        ProcExpr::Into(a, b) => seq!['('] + expr_text(*a) + seq![' ', 'i', 'n', 't', 'o', ' '] + expr_text(*b) + seq![')'],
    }
}

/// Lines joined by newlines.
pub open spec fn join(parts: Seq<Seq<char>>) -> Seq<char>
    decreases parts.len(),
{
    if parts.len() == 0 {
        Seq::empty()
    } else if parts.len() == 1 {
        parts[0]
    } else {
        join(parts.drop_last()) + seq!['\n'] + parts.last()
    }
}

/// `s` with a tab after every newline.
pub open spec fn tabbed(s: Seq<char>) -> Seq<char>
    decreases s.len(),
{
    if s.len() == 0 {
        Seq::empty()
    } else if s.last() == '\n' {
        tabbed(s.drop_last()) + seq!['\n', '\t']
    } else {
        tabbed(s.drop_last()).push(s.last())
    }
}

/// `s` with every line indented by a tab.
pub open spec fn indent(s: Seq<char>) -> Seq<char> {
    seq!['\t'] + tabbed(s)
}

/// One assignment: `~#r = expr;`.
pub open spec fn line_text(a: (i32, ProcExpr)) -> Seq<char> {
    seq!['~', '#'] + decimal(a.0 as int) + seq![' ', '=', ' '] + expr_text(a.1) + seq![';']
}

/// The head move of an atomic effect: `(move k)`.
pub open spec fn move_text(k: i32) -> Seq<char> {
    seq!['(', 'm', 'o', 'v', 'e', ' '] + decimal(k as int) + seq![')']
}

/// A block: `ask`, `put`, `block { ... } (move k)` or `loop [ ... ]`, with
/// the lines inside indented.
pub open spec fn block_text(b: Block) -> Seq<char>
    decreases b,
{
    match b {
        Block::Ask => seq!['a', 's', 'k'],
        Block::Put => seq!['p', 'u', 't'],
        Block::Effect(xs, k) => if xs.len() == 0 {
            seq!['b', 'l', 'o', 'c', 'k', ' ', '{', '}', ' '] + move_text(k)
        } else {
            seq!['b', 'l', 'o', 'c', 'k', ' ', '{', '\n'] + indent(join(Seq::new(xs.len(), |i: int| line_text(xs[i]))))
                + seq!['\n', '}', ' '] + move_text(k)
        },
        Block::Loop(bs) => seq!['l', 'o', 'o', 'p', ' ', '[', '\n'] + indent(join(texts(bs))) + seq!['\n', ']'],
    }
}

/// The text of each block.
pub open spec fn texts(bs: Seq<Block>) -> Seq<Seq<char>>
    decreases bs,
{
    if bs.len() == 0 {
        Seq::empty()
    } else {
        texts(bs.drop_last()).push(block_text(bs.last()))
    }
}

fn push_all(out: &mut Vec<char>, cs: &[char])
    ensures
        final(out)@ == old(out)@ + cs@,
{
    let mut i: usize = 0;
    while i < cs.len()
        invariant
            i <= cs@.len(),
            out@ == old(out)@ + cs@.subrange(0, i as int),
        decreases cs@.len() - i,
    {
        out.push(cs[i]);
        proof {
            assert(out@ =~= old(out)@ + cs@.subrange(0, i + 1));
        }
        i = i + 1;
    }
    proof {
        assert(cs@.subrange(0, cs@.len() as int) =~= cs@);
    }
}

fn digit_of(d: u32) -> (c: char)
    requires
        d < 10,
    ensures
        c == digit_char(d as int),
{
    if d == 0 {
        '0'
    } else if d == 1 {
        '1'
    } else if d == 2 {
        '2'
    } else if d == 3 {
        '3'
    } else if d == 4 {
        '4'
    } else if d == 5 {
        '5'
    } else if d == 6 {
        '6'
    } else if d == 7 {
        '7'
    } else if d == 8 {
        '8'
    } else {
        '9'
    }
}

fn write_digits(out: &mut Vec<char>, n: u32)
    ensures
        final(out)@ == old(out)@ + digits(n as nat),
    decreases n,
{
    if n >= 10 {
        write_digits(out, n / 10);
    }
    out.push(digit_of(n % 10));
    proof {
        if n >= 10 {
            assert(old(out)@ + digits((n / 10) as nat) + seq![digit_char((n % 10) as int)] =~= old(out)@ + digits(n as nat));
        } else {
            assert(old(out)@ + seq![digit_char((n % 10) as int)] =~= old(out)@ + digits(n as nat));
        }
    }
}

fn write_decimal(out: &mut Vec<char>, n: i32)
    ensures
        final(out)@ == old(out)@ + decimal(n as int),
{
    if n < 0 {
        out.push('-');
        let m: u32 = if n == i32::MIN {
            2147483648u32
        } else {
            (-n) as u32
        };
        write_digits(out, m);
        proof {
            assert(old(out)@.push('-') + digits(m as nat) =~= old(out)@ + decimal(n as int));
        }
    } else {
        write_digits(out, n as u32);
    }
}

fn write_expr(out: &mut Vec<char>, e: &ProcExpr)
    ensures
        final(out)@ == old(out)@ + expr_text(*e),
    decreases e,
{
    match e {
        ProcExpr::Lit(x) => {
            write_decimal(out, *x as i32);
        },
        ProcExpr::Reg(r) => {
            push_all(out, &['~', '#']);
            write_decimal(out, *r);
            proof {
                assert(old(out)@ + seq!['~', '#'] + decimal(*r as int) =~= old(out)@ + expr_text(*e));
            }
        },
        ProcExpr::Add(a, b) => {
            out.push('(');
            let ghost o1 = out@;
            write_expr(out, a);
            push_all(out, &[' ', '+', ' ']);
            write_expr(out, b);
            out.push(')');
            proof {
                assert(out@ =~= old(out)@ + expr_text(*e));
            }
        },
        ProcExpr::Mul(a, b) => {
            write_expr(out, a);
            push_all(out, &[' ', '*', ' ']);
            write_expr(out, b);
            proof {
                assert(out@ =~= old(out)@ + expr_text(*e));
            }
        },
        ProcExpr::Into(a, b) => {
            out.push('(');
            write_expr(out, a);
            push_all(out, &[' ', 'i', 'n', 't', 'o', ' ']);
            write_expr(out, b);
            out.push(')');
            proof {
                assert(out@ =~= old(out)@ + expr_text(*e));
            }
        },
    }
}

fn write_indented(out: &mut Vec<char>, inner: &Vec<char>)
    ensures
        final(out)@ == old(out)@ + indent(inner@),
{
    out.push('\t');
    let mut i: usize = 0;
    proof {
        assert(inner@.subrange(0, 0) =~= Seq::<char>::empty());
        assert(out@ =~= old(out)@ + seq!['\t'] + tabbed(inner@.subrange(0, 0)));
    }
    while i < inner.len()
        invariant
            i <= inner@.len(),
            out@ == old(out)@ + seq!['\t'] + tabbed(inner@.subrange(0, i as int)),
        decreases inner@.len() - i,
    {
        let ghost before = out@;
        let c = inner[i];
        proof {
            assert(inner@.subrange(0, i + 1).drop_last() =~= inner@.subrange(0, i as int));
        }
        if c == '\n' {
            out.push('\n');
            out.push('\t');
            proof {
                assert(out@ =~= before + seq!['\n', '\t']);
            }
        } else {
            out.push(c);
        }
        proof {
            assert(out@ =~= old(out)@ + seq!['\t'] + tabbed(inner@.subrange(0, i + 1)));
        }
        i = i + 1;
    }
    proof {
        assert(inner@.subrange(0, inner@.len() as int) =~= inner@);
        assert(old(out)@ + seq!['\t'] + tabbed(inner@) =~= old(out)@ + indent(inner@));
    }
}

fn write_move(out: &mut Vec<char>, k: i32)
    ensures
        final(out)@ == old(out)@ + move_text(k),
{
    push_all(out, &['(', 'm', 'o', 'v', 'e', ' ']);
    write_decimal(out, k);
    out.push(')');
    proof {
        assert(out@ =~= old(out)@ + move_text(k));
    }
}

fn write_lines(out: &mut Vec<char>, xs: &Vec<(i32, Rc<ProcExpr>)>)
    ensures
        final(out)@ == old(out)@ + join(Seq::new(xs@.len(), |i: int| line_text(assigns_view(xs@)[i]))),
{
    let ghost av = assigns_view(xs@);
    let ghost f = |i: int| line_text(av[i]);
    let mut i: usize = 0;
    proof {
        assert(Seq::new(0, f) =~= Seq::<Seq<char>>::empty());
        assert(out@ =~= old(out)@ + join(Seq::new(0, f)));
    }
    while i < xs.len()
        invariant
            av == assigns_view(xs@),
            f == (|i: int| line_text(av[i])),
            i <= xs@.len(),
            out@ == old(out)@ + join(Seq::new(i as nat, f)),
        decreases xs@.len() - i,
    {
        let ghost before = out@;
        if i > 0 {
            out.push('\n');
        }
        push_all(out, &['~', '#']);
        write_decimal(out, xs[i].0);
        push_all(out, &[' ', '=', ' ']);
        write_expr(out, &xs[i].1);
        out.push(';');
        proof {
            assert(Seq::new((i + 1) as nat, f).drop_last() =~= Seq::new(i as nat, f));
            assert(Seq::new((i + 1) as nat, f).last() == line_text(av[i as int]));
            if i > 0 {
                assert(out@ =~= before + seq!['\n'] + line_text(av[i as int]));
                assert(out@ =~= old(out)@ + join(Seq::new((i + 1) as nat, f)));
            } else {
                assert(out@ =~= before + line_text(av[i as int]));
                assert(out@ =~= old(out)@ + join(Seq::new((i + 1) as nat, f)));
            }
        }
        i = i + 1;
    }
    proof {
        assert(Seq::new(xs@.len(), f) =~= Seq::new(xs@.len(), |i: int| line_text(assigns_view(xs@)[i])));
    }
}

fn write_block(out: &mut Vec<char>, b: &OptimisedBlock)
    ensures
        final(out)@ == old(out)@ + block_text(b@),
    decreases b,
{
    match b {
        OptimisedBlock::Ask => {
            push_all(out, &['a', 's', 'k']);
        },
        OptimisedBlock::Put => {
            push_all(out, &['p', 'u', 't']);
        },
        OptimisedBlock::AtomicEffect(xs, k) => {
            if xs.len() == 0 {
                push_all(out, &['b', 'l', 'o', 'c', 'k', ' ', '{', '}', ' ']);
                write_move(out, *k);
                proof {
                    assert(out@ =~= old(out)@ + block_text(b@));
                }
            } else {
                push_all(out, &['b', 'l', 'o', 'c', 'k', ' ', '{', '\n']);
                let mut inner: Vec<char> = Vec::new();
                write_lines(&mut inner, xs);
                write_indented(out, &inner);
                push_all(out, &['\n', '}', ' ']);
                write_move(out, *k);
                proof {
                    assert(inner@ =~= Seq::<char>::empty() + join(Seq::new(xs@.len(), |i: int| line_text(assigns_view(xs@)[i]))));
                    assert(out@ =~= old(out)@ + block_text(b@));
                }
            }
        },
        OptimisedBlock::Loop(bs) => {
            push_all(out, &['l', 'o', 'o', 'p', ' ', '[', '\n']);
            let mut inner: Vec<char> = Vec::new();
            write_blocks(&mut inner, bs);
            write_indented(out, &inner);
            push_all(out, &['\n', ']']);
            proof {
                assert(inner@ =~= Seq::<char>::empty() + join(texts(views(bs@))));
                assert(out@ =~= old(out)@ + block_text(b@));
            }
        },
    }
}

fn write_blocks(out: &mut Vec<char>, bs: &Vec<OptimisedBlock>)
    ensures
        final(out)@ == old(out)@ + join(texts(views(bs@))),
    decreases bs,
{
    let ghost all = views(bs@);
    let mut i: usize = 0;
    proof {
        lemma_views_index(bs@);
        assert(all.subrange(0, 0) =~= Seq::<Block>::empty());
        assert(out@ =~= old(out)@ + join(texts(all.subrange(0, 0))));
    }
    while i < bs.len()
        invariant
            all == views(bs@),
            all.len() == bs@.len(),
            forall|k: int| 0 <= k < bs@.len() ==> #[trigger] all[k] == bs@[k]@,
            i <= bs@.len(),
            out@ == old(out)@ + join(texts(all.subrange(0, i as int))),
        decreases bs@.len() - i,
    {
        let ghost before = out@;
        if i > 0 {
            out.push('\n');
        }
        write_block(out, &bs[i]);
        proof {
            let p = all.subrange(0, i + 1);
            assert(p.drop_last() =~= all.subrange(0, i as int));
            assert(p.last() == bs@[i as int]@);
            assert(texts(p) == texts(all.subrange(0, i as int)).push(block_text(bs@[i as int]@)));
            assert(texts(p).drop_last() == texts(all.subrange(0, i as int)));
            if i > 0 {
                assert(out@ =~= before + seq!['\n'] + block_text(bs@[i as int]@));
            } else {
                assert(texts(p).len() == 1);
                assert(out@ =~= before + block_text(bs@[i as int]@));
            }
            assert(out@ =~= old(out)@ + join(texts(p)));
        }
        i = i + 1;
    }
    proof {
        assert(all.subrange(0, bs@.len() as int) =~= all);
    }
}

/// Relies on `String`'s `FromIterator<&char>`: the string holds the
/// characters, in order.
#[verifier::external_body]
fn string_of(cs: &Vec<char>) -> (r: String)
    ensures
        r@ == cs@,
{
    cs.iter().collect()
}

/// The blocks, one after the other on lines of their own: an atomic effect
/// as `block { ~#r = expr; ... } (move k)`, a loop as `loop [ ... ]`, with
/// the lines inside indented by a tab.
pub fn byte_code_pretty(bs: &Vec<OptimisedBlock>) -> (r: String)
    ensures
        r@ == join(texts(views(bs@))),
{
    let mut out: Vec<char> = Vec::new();
    write_blocks(&mut out, bs);
    proof {
        assert(out@ =~= join(texts(views(bs@))));
    }
    string_of(&out)
}

} // verus!
