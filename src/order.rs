//! The order of expressions and of products is a strict total order, and
//! polynomials stay sorted under the operations that build them.
use std::rc::Rc;
use vstd::prelude::*;

use crate::expr::ProcExpr;
use crate::fusion::operands;
use crate::multinomial::{
    cmp_expr, cmp_term, merge_syms, monomial, mul_row, mul_rows, poly_add, poly_mul, poly_of, poly_value, reduced, tag,
    Poly,
};

verus! {

/// `cmp_expr` is zero only on equal expressions and flips with its
/// arguments.
pub proof fn lemma_cmp_expr_pair(a: ProcExpr, b: ProcExpr)
    ensures
        cmp_expr(a, b) == 0 <==> a == b,
        cmp_expr(a, b) == -cmp_expr(b, a),
        -1 <= cmp_expr(a, b) <= 1,
    decreases a,
{
    let (a1, a2) = operands(a);
    let (b1, b2) = operands(b);
    if tag(a) >= 2 && tag(a) == tag(b) {
        lemma_cmp_expr_pair(a1, b1);
        lemma_cmp_expr_pair(a2, b2);
    }
}

/// "Below" in the order of expressions is transitive.
pub proof fn lemma_cmp_expr_trans(a: ProcExpr, b: ProcExpr, c: ProcExpr)
    ensures
        cmp_expr(a, b) < 0 && cmp_expr(b, c) < 0 ==> cmp_expr(a, c) < 0,
    decreases a,
{
    let (a1, a2) = operands(a);
    let (b1, b2) = operands(b);
    let (c1, c2) = operands(c);
    lemma_cmp_expr_pair(a, b);
    lemma_cmp_expr_pair(b, c);
    lemma_cmp_expr_pair(a, c);
    if tag(a) >= 2 && tag(a) == tag(b) && tag(b) == tag(c) {
        lemma_cmp_expr_pair(a1, b1);
        lemma_cmp_expr_pair(b1, c1);
        lemma_cmp_expr_pair(a1, c1);
        lemma_cmp_expr_pair(a2, b2);
        lemma_cmp_expr_pair(b2, c2);
        lemma_cmp_expr_pair(a2, c2);
        lemma_cmp_expr_trans(a1, b1, c1);
        lemma_cmp_expr_trans(a2, b2, c2);
    }
}

/// The `i`-th symbol of a product.
pub open spec fn sym(s: Seq<Rc<ProcExpr>>, i: int) -> ProcExpr {
    *s[i]
}

/// `cmp_term` is zero only on equal products and flips with its arguments.
pub proof fn lemma_cmp_term_pair(s: Seq<Rc<ProcExpr>>, t: Seq<Rc<ProcExpr>>)
    ensures
        cmp_term(s, t) == 0 <==> s == t,
        cmp_term(s, t) == -cmp_term(t, s),
    decreases s.len(),
{
    if s.len() > 0 && t.len() > 0 {
        lemma_cmp_expr_pair(sym(s, 0), sym(t, 0));
        lemma_cmp_term_pair(s.drop_first(), t.drop_first());
        if cmp_expr(sym(s, 0), sym(t, 0)) == 0 && s.drop_first() == t.drop_first() {
            assert(s =~= t) by {
                assert forall|i: int| 0 <= i < s.len() implies s[i] == t[i] by {
                    if i > 0 {
                        assert(s[i] == s.drop_first()[i - 1]);
                        assert(t[i] == t.drop_first()[i - 1]);
                    }
                }
            }
        }
    } else if s.len() == 0 && t.len() == 0 {
        assert(s =~= t);
    }
}

/// "Below" in the order of products is transitive.
pub proof fn lemma_cmp_term_trans(s: Seq<Rc<ProcExpr>>, t: Seq<Rc<ProcExpr>>, u: Seq<Rc<ProcExpr>>)
    ensures
        cmp_term(s, t) < 0 && cmp_term(t, u) < 0 ==> cmp_term(s, u) < 0,
    decreases s.len(),
{
    lemma_cmp_term_pair(s, t);
    lemma_cmp_term_pair(t, u);
    if s.len() > 0 && t.len() > 0 && u.len() > 0 {
        lemma_cmp_expr_pair(sym(s, 0), sym(t, 0));
        lemma_cmp_expr_pair(sym(t, 0), sym(u, 0));
        lemma_cmp_expr_pair(sym(s, 0), sym(u, 0));
        lemma_cmp_expr_trans(sym(s, 0), sym(t, 0), sym(u, 0));
        lemma_cmp_term_trans(s.drop_first(), t.drop_first(), u.drop_first());
    }
}

/// A polynomial in normal form: products strictly increasing, no zero
/// coefficient.
pub open spec fn wf_poly(p: Poly) -> bool {
    &&& forall|a: int, b: int| 0 <= a < b < p.len() ==> cmp_term(#[trigger] p[a].0, #[trigger] p[b].0) < 0
    &&& forall|a: int| 0 <= a < p.len() ==> #[trigger] p[a].1 != 0
}

/// Every product of `p` lies above `t`.
pub open spec fn above(p: Poly, t: Seq<Rc<ProcExpr>>) -> bool {
    forall|a: int| 0 <= a < p.len() ==> cmp_term(t, #[trigger] p[a].0) < 0
}

proof fn lemma_drop_wf(p: Poly)
    requires
        wf_poly(p),
        p.len() > 0,
    ensures
        wf_poly(p.drop_first()),
        above(p.drop_first(), p[0].0),
{
    assert forall|a: int, b: int| 0 <= a < b < p.drop_first().len() implies cmp_term(
        #[trigger] p.drop_first()[a].0,
        #[trigger] p.drop_first()[b].0,
    ) < 0 by {
        assert(cmp_term(p[a + 1].0, p[b + 1].0) < 0);
    }
    assert forall|a: int| 0 <= a < p.drop_first().len() implies cmp_term(p[0].0, #[trigger] p.drop_first()[a].0) < 0 by {
        assert(cmp_term(p[0].0, p[a + 1].0) < 0);
    }
}

proof fn lemma_add_above(p: Poly, q: Poly, t: Seq<Rc<ProcExpr>>)
    requires
        above(p, t),
        above(q, t),
    ensures
        above(poly_add(p, q), t),
    decreases p.len() + q.len(),
{
    if p.len() > 0 && q.len() > 0 {
        let r = poly_add(p, q);
        assert(above(p.drop_first(), t)) by {
            assert forall|a: int| 0 <= a < p.drop_first().len() implies cmp_term(t, #[trigger] p.drop_first()[a].0) < 0 by {
                assert(p.drop_first()[a] == p[a + 1]);
            }
        }
        assert(above(q.drop_first(), t)) by {
            assert forall|a: int| 0 <= a < q.drop_first().len() implies cmp_term(t, #[trigger] q.drop_first()[a].0) < 0 by {
                assert(q.drop_first()[a] == q[a + 1]);
            }
        }
        lemma_add_above(p.drop_first(), q, t);
        lemma_add_above(p, q.drop_first(), t);
        lemma_add_above(p.drop_first(), q.drop_first(), t);
        assert(cmp_term(t, p[0].0) < 0);
        assert(cmp_term(t, q[0].0) < 0);
        assert forall|a: int| 0 <= a < r.len() implies cmp_term(t, #[trigger] r[a].0) < 0 by {
            if cmp_term(p[0].0, q[0].0) < 0 {
                if a > 0 {
                    assert(r[a] == poly_add(p.drop_first(), q)[a - 1]);
                }
            } else if cmp_term(p[0].0, q[0].0) > 0 {
                if a > 0 {
                    assert(r[a] == poly_add(p, q.drop_first())[a - 1]);
                }
            } else {
                let c = vstd::wrapping::u8_specs::wrapping_add(p[0].1, q[0].1);
                if c != 0 && a > 0 {
                    assert(r[a] == poly_add(p.drop_first(), q.drop_first())[a - 1]);
                }
            }
        }
    }
}

/// The sum of two polynomials in normal form is in normal form.
pub proof fn lemma_add_wf(p: Poly, q: Poly)
    requires
        wf_poly(p),
        wf_poly(q),
    ensures
        wf_poly(poly_add(p, q)),
    decreases p.len() + q.len(),
{
    if p.len() > 0 && q.len() > 0 {
        let r = poly_add(p, q);
        lemma_drop_wf(p);
        lemma_drop_wf(q);
        lemma_cmp_term_pair(p[0].0, q[0].0);
        if cmp_term(p[0].0, q[0].0) < 0 {
            let rest = poly_add(p.drop_first(), q);
            lemma_add_wf(p.drop_first(), q);
            assert(above(q, p[0].0)) by {
                assert forall|a: int| 0 <= a < q.len() implies cmp_term(p[0].0, #[trigger] q[a].0) < 0 by {
                    if a > 0 {
                        assert(q.drop_first()[a - 1] == q[a]);
                        lemma_cmp_term_trans(p[0].0, q[0].0, q[a].0);
                    }
                }
            }
            lemma_add_above(p.drop_first(), q, p[0].0);
            assert(r == seq![p[0]] + rest);
            lemma_cons_wf(p[0], rest);
        } else if cmp_term(p[0].0, q[0].0) > 0 {
            let rest = poly_add(p, q.drop_first());
            lemma_add_wf(p, q.drop_first());
            assert(above(p, q[0].0)) by {
                assert forall|a: int| 0 <= a < p.len() implies cmp_term(q[0].0, #[trigger] p[a].0) < 0 by {
                    if a > 0 {
                        assert(p.drop_first()[a - 1] == p[a]);
                        lemma_cmp_term_trans(q[0].0, p[0].0, p[a].0);
                    }
                }
            }
            lemma_add_above(p, q.drop_first(), q[0].0);
            assert(r == seq![q[0]] + rest);
            lemma_cons_wf(q[0], rest);
        } else {
            let rest = poly_add(p.drop_first(), q.drop_first());
            lemma_add_wf(p.drop_first(), q.drop_first());
            assert(p[0].0 == q[0].0);
            lemma_add_above(p.drop_first(), q.drop_first(), p[0].0);
            let c = vstd::wrapping::u8_specs::wrapping_add(p[0].1, q[0].1);
            if c != 0 {
                assert(r == seq![(p[0].0, c)] + rest);
                lemma_cons_wf((p[0].0, c), rest);
            }
        }
    }
}

proof fn lemma_cons_wf(x: (Seq<Rc<ProcExpr>>, u8), rest: Poly)
    requires
        wf_poly(rest),
        above(rest, x.0),
        x.1 != 0,
    ensures
        wf_poly(seq![x] + rest),
{
    let r = seq![x] + rest;
    assert forall|a: int, b: int| 0 <= a < b < r.len() implies cmp_term(#[trigger] r[a].0, #[trigger] r[b].0) < 0 by {
        assert(r[b] == rest[b - 1]);
        if a > 0 {
            assert(r[a] == rest[a - 1]);
        }
    }
    assert forall|a: int| 0 <= a < r.len() implies #[trigger] r[a].1 != 0 by {
        if a > 0 {
            assert(r[a] == rest[a - 1]);
        }
    }
}

proof fn lemma_monomial_wf(t: Seq<Rc<ProcExpr>>, c: u8)
    ensures
        wf_poly(monomial(t, c)),
{
}

pub proof fn lemma_mul_row_wf(t: (Seq<Rc<ProcExpr>>, u8), q: Poly, j: int, acc: Poly)
    requires
        wf_poly(acc),
    ensures
        wf_poly(mul_row(t, q, j, acc)),
    decreases j,
{
    if j > 0 {
        lemma_mul_row_wf(t, q, j - 1, acc);
        let m = monomial(merge_syms(t.0, q[j - 1].0), vstd::wrapping::u8_specs::wrapping_mul(t.1, q[j - 1].1));
        lemma_monomial_wf(merge_syms(t.0, q[j - 1].0), vstd::wrapping::u8_specs::wrapping_mul(t.1, q[j - 1].1));
        lemma_add_wf(mul_row(t, q, j - 1, acc), m);
    }
}

pub proof fn lemma_mul_rows_wf(p: Poly, q: Poly, i: int)
    ensures
        wf_poly(mul_rows(p, q, i)),
    decreases i,
{
    if i > 0 {
        lemma_mul_rows_wf(p, q, i - 1);
        lemma_mul_row_wf(p[i - 1], q, q.len() as int, mul_rows(p, q, i - 1));
    }
}

/// The polynomial of every expression is in normal form.
pub proof fn lemma_poly_of_wf(e: ProcExpr)
    ensures
        wf_poly(poly_of(e)),
    decreases e,
{
    let (a, b) = operands(e);
    match e {
        ProcExpr::Lit(v) => {
            lemma_monomial_wf(Seq::empty(), v);
        },
        ProcExpr::Reg(_) => {},
        ProcExpr::Add(..) => {
            lemma_poly_of_wf(a);
            lemma_poly_of_wf(b);
            lemma_add_wf(poly_of(a), poly_of(b));
        },
        ProcExpr::Mul(..) => {
            lemma_mul_rows_wf(poly_of(a), poly_of(b), poly_of(a).len() as int);
        },
        ProcExpr::Into(..) => {
            lemma_poly_of_wf(b);
        },
    }
}

proof fn lemma_add_last(p: Poly, x: (Seq<Rc<ProcExpr>>, u8))
    requires
        forall|a: int| 0 <= a < p.len() ==> cmp_term(#[trigger] p[a].0, x.0) < 0,
    ensures
        poly_add(p, seq![x]) == p.push(x),
    decreases p.len(),
{
    if p.len() > 0 {
        assert forall|a: int| 0 <= a < p.drop_first().len() implies cmp_term(#[trigger] p.drop_first()[a].0, x.0) < 0 by {
            assert(p.drop_first()[a] == p[a + 1]);
        }
        lemma_add_last(p.drop_first(), x);
        assert(seq![x][0] == x);
        assert(seq![p[0]] + p.drop_first().push(x) =~= p.push(x));
    } else {
        assert(seq![x] =~= p.push(x));
    }
}

proof fn lemma_mul_rows_one(p: Poly, i: int)
    requires
        wf_poly(p),
        0 <= i <= p.len(),
    ensures
        mul_rows(p, poly_value(1), i) == p.subrange(0, i),
    decreases i,
{
    let one = poly_value(1);
    if i == 0 {
        assert(p.subrange(0, 0) =~= Seq::<(Seq<Rc<ProcExpr>>, u8)>::empty());
    } else {
        lemma_mul_rows_one(p, i - 1);
        let t = p[i - 1];
        assert(one[0].0 == Seq::<Rc<ProcExpr>>::empty());
        assert(merge_syms(t.0, one[0].0) == t.0);
        assert(vstd::wrapping::u8_specs::wrapping_mul(t.1, one[0].1) == t.1);
        assert(monomial(t.0, t.1) == seq![t]);
        assert(mul_row(t, one, 0, p.subrange(0, i - 1)) == p.subrange(0, i - 1));
        lemma_add_last(p.subrange(0, i - 1), t);
        assert(p.subrange(0, i - 1).push(t) =~= p.subrange(0, i));
    }
}

/// Multiplying by one: `e * 1` has the canonical form of `e`.
pub proof fn lemma_reduce_mul_one(e: ProcExpr)
    ensures
        reduced(ProcExpr::Mul(Rc::new(e), Rc::new(ProcExpr::Lit(1)))) == reduced(e),
{
    let p = poly_of(e);
    let l = ProcExpr::Lit(1);
    assert(poly_of(l) == poly_value(1));
    lemma_poly_of_wf(e);
    lemma_mul_rows_one(p, p.len() as int);
    assert(p.subrange(0, p.len() as int) =~= p);
    assert(poly_of(ProcExpr::Mul(Rc::new(e), Rc::new(l))) == poly_mul(poly_of(e), poly_of(l)));
}

} // verus!
