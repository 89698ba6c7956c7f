//! Polynomial normal form of byte expressions: a sum of terms, each a byte
//! coefficient times a product of symbols. Terms are kept in increasing
//! order with non-zero coefficients, so equal polynomials are stored alike.
use std::rc::Rc;
use vstd::prelude::*;

use crate::arith::{div_u8, quotient};
use crate::expr::ProcExpr;
use crate::order::{lemma_add_wf, lemma_mul_rows_wf, wf_poly};

verus! {

/// The position of a variant in the order of expressions.
pub open spec fn tag(e: ProcExpr) -> int {
    match e {
        ProcExpr::Lit(_) => 0,
        ProcExpr::Reg(_) => 1,
        ProcExpr::Add(_, _) => 2,
        ProcExpr::Mul(_, _) => 3,
        ProcExpr::Into(_, _) => 4,
    }
}

/// `-1`, `0` or `1` as `x` is below, equal to or above `y`.
pub open spec fn sign(x: int, y: int) -> int {
    if x < y {
        -1
    } else if x == y {
        0
    } else {
        1
    }
}

/// The total order of expressions: by variant, then by fields from left to
/// right.
pub open spec fn cmp_expr(a: ProcExpr, b: ProcExpr) -> int
    decreases a,
{
    if tag(a) != tag(b) {
        sign(tag(a), tag(b))
    } else {
        match (a, b) {
            (ProcExpr::Lit(x), ProcExpr::Lit(y)) => sign(x as int, y as int),
            (ProcExpr::Reg(x), ProcExpr::Reg(y)) => sign(x as int, y as int),
            (ProcExpr::Add(a1, a2), ProcExpr::Add(b1, b2)) => if cmp_expr(*a1, *b1) != 0 {
                cmp_expr(*a1, *b1)
            } else {
                cmp_expr(*a2, *b2)
            },
            (ProcExpr::Mul(a1, a2), ProcExpr::Mul(b1, b2)) => if cmp_expr(*a1, *b1) != 0 {
                cmp_expr(*a1, *b1)
            } else {
                cmp_expr(*a2, *b2)
            },
            (ProcExpr::Into(a1, a2), ProcExpr::Into(b1, b2)) => if cmp_expr(*a1, *b1) != 0 {
                cmp_expr(*a1, *b1)
            } else {
                cmp_expr(*a2, *b2)
            },
            _ => 0,
        }
    }
}

/// The lexicographic order of products, each an ordered list of symbols.
pub open spec fn cmp_term(s: Seq<Rc<ProcExpr>>, t: Seq<Rc<ProcExpr>>) -> int
    decreases s.len(),
{
    if s.len() == 0 || t.len() == 0 {
        sign(s.len() as int, t.len() as int)
    } else if cmp_expr(*s[0], *t[0]) != 0 {
        cmp_expr(*s[0], *t[0])
    } else {
        cmp_term(s.drop_first(), t.drop_first())
    }
}

/// The product of two ordered lists of symbols, as an ordered list.
pub open spec fn merge_syms(s: Seq<Rc<ProcExpr>>, t: Seq<Rc<ProcExpr>>) -> Seq<Rc<ProcExpr>>
    decreases s.len() + t.len(),
{
    if s.len() == 0 {
        t
    } else if t.len() == 0 {
        s
    } else if cmp_expr(*s[0], *t[0]) <= 0 {
        seq![s[0]] + merge_syms(s.drop_first(), t)
    } else {
        seq![t[0]] + merge_syms(s, t.drop_first())
    }
}

/// A polynomial: terms (a product of symbols and its coefficient) in
/// increasing order of product.
pub type Poly = Seq<(Seq<Rc<ProcExpr>>, u8)>;

/// The sum of two polynomials; terms whose coefficients cancel are dropped.
pub open spec fn poly_add(p: Poly, q: Poly) -> Poly
    decreases p.len() + q.len(),
{
    if p.len() == 0 {
        q
    } else if q.len() == 0 {
        p
    } else if cmp_term(p[0].0, q[0].0) < 0 {
        seq![p[0]] + poly_add(p.drop_first(), q)
    } else if cmp_term(p[0].0, q[0].0) > 0 {
        seq![q[0]] + poly_add(p, q.drop_first())
    } else {
        let c = vstd::wrapping::u8_specs::wrapping_add(p[0].1, q[0].1);
        if c == 0 {
            poly_add(p.drop_first(), q.drop_first())
        } else {
            seq![(p[0].0, c)] + poly_add(p.drop_first(), q.drop_first())
        }
    }
}

/// The polynomial of one term, or zero where the coefficient is zero.
pub open spec fn monomial(t: Seq<Rc<ProcExpr>>, c: u8) -> Poly {
    if c == 0 {
        Seq::empty()
    } else {
        seq![(t, c)]
    }
}

/// `acc` plus the term `t` times the first `j` terms of `q`, added one by one.
pub open spec fn mul_row(t: (Seq<Rc<ProcExpr>>, u8), q: Poly, j: int, acc: Poly) -> Poly
    decreases j,
{
    if j <= 0 {
        acc
    } else {
        let prev = mul_row(t, q, j - 1, acc);
        poly_add(prev, monomial(merge_syms(t.0, q[j - 1].0), vstd::wrapping::u8_specs::wrapping_mul(t.1, q[j - 1].1)))
    }
}

/// The first `i` terms of `p` times `q`.
pub open spec fn mul_rows(p: Poly, q: Poly, i: int) -> Poly
    decreases i,
{
    if i <= 0 {
        Seq::empty()
    } else {
        mul_row(p[i - 1], q, q.len() as int, mul_rows(p, q, i - 1))
    }
}

/// The product of two polynomials.
pub open spec fn poly_mul(p: Poly, q: Poly) -> Poly {
    mul_rows(p, q, p.len() as int)
}

/// `acc` times each symbol of `syms` in turn.
pub open spec fn mul_chain(syms: Seq<Rc<ProcExpr>>, acc: ProcExpr) -> ProcExpr
    decreases syms.len(),
{
    if syms.len() == 0 {
        acc
    } else {
        mul_chain(syms.drop_first(), ProcExpr::Mul(Rc::new(acc), syms[0]))
    }
}

/// A term as an expression: `coefficient * s1 * s2 * ...`, with a
/// coefficient of one left out.
pub open spec fn term_expr(t: (Seq<Rc<ProcExpr>>, u8)) -> ProcExpr {
    if t.1 == 1 && t.0.len() > 0 {
        mul_chain(t.0.drop_first(), *t.0[0])
    } else {
        mul_chain(t.0, ProcExpr::Lit(t.1))
    }
}

/// `acc` plus each term of `p` in turn.
pub open spec fn add_chain(p: Poly, acc: ProcExpr) -> ProcExpr
    decreases p.len(),
{
    if p.len() == 0 {
        acc
    } else {
        add_chain(p.drop_first(), ProcExpr::Add(Rc::new(acc), Rc::new(term_expr(p[0]))))
    }
}

/// A polynomial as a sum of products; zero is `Lit(0)`.
pub open spec fn poly_expr(p: Poly) -> ProcExpr {
    if p.len() == 0 {
        ProcExpr::Lit(0)
    } else {
        add_chain(p.drop_first(), term_expr(p[0]))
    }
}

/// The polynomial of a single symbol.
pub open spec fn poly_symbol(e: ProcExpr) -> Poly {
    seq![(seq![Rc::new(e)], 1u8)]
}

/// The polynomial of a constant.
pub open spec fn poly_value(v: u8) -> Poly {
    monomial(Seq::empty(), v)
}

/// The normal form of `e` as a polynomial. An `Into` is kept as a symbol,
/// with both sides normalised, unless its divisor normalises to one (then it
/// is its dividend), its dividend to zero (then it is zero), or both to
/// literals that divide (then it is the constant quotient).
pub open spec fn poly_of(e: ProcExpr) -> Poly
    decreases e,
{
    match e {
        ProcExpr::Lit(v) => poly_value(v),
        ProcExpr::Reg(_) => poly_symbol(e),
        ProcExpr::Add(a, b) => poly_add(poly_of(*a), poly_of(*b)),
        ProcExpr::Mul(a, b) => poly_mul(poly_of(*a), poly_of(*b)),
        ProcExpr::Into(a, b) => {
            let pb = poly_of(*b);
            let ea = poly_expr(poly_of(*a));
            let eb = poly_expr(pb);
            if eb == ProcExpr::Lit(0) {
                Seq::empty()
            } else if ea == ProcExpr::Lit(1) {
                pb
            } else {
                match (ea, eb) {
                    (ProcExpr::Lit(x), ProcExpr::Lit(y)) => match quotient(y, x) {
                        Some(c) => poly_value(c),
                        None => poly_symbol(ProcExpr::Into(Rc::new(ea), Rc::new(eb))),
                    },
                    _ => poly_symbol(ProcExpr::Into(Rc::new(ea), Rc::new(eb))),
                }
            }
        },
    }
}

/// The canonical form of `e`.
pub open spec fn reduced(e: ProcExpr) -> ProcExpr {
    poly_expr(poly_of(e))
}

/// Adding zero: `e + 0` has the canonical form of `e`.
pub proof fn lemma_reduce_add_zero(e: ProcExpr)
    ensures
        reduced(ProcExpr::Add(Rc::new(e), Rc::new(ProcExpr::Lit(0)))) == reduced(e),
{
    let p = poly_of(e);
    let z = ProcExpr::Lit(0);
    assert(poly_of(z) == poly_value(0));
    assert(poly_value(0) =~= Seq::<(Seq<Rc<ProcExpr>>, u8)>::empty());
    assert(poly_add(p, poly_value(0)) == p);
    assert(poly_of(ProcExpr::Add(Rc::new(e), Rc::new(z))) == poly_add(poly_of(e), poly_of(z)));
}

proof fn lemma_mul_rows_empty(p: Poly, i: int)
    ensures
        mul_rows(p, Seq::empty(), i) == Seq::<(Seq<Rc<ProcExpr>>, u8)>::empty(),
    decreases i,
{
    if i > 0 {
        lemma_mul_rows_empty(p, i - 1);
    }
}

/// Multiplying by zero: `e * 0` has the canonical form `Lit(0)`.
pub proof fn lemma_reduce_mul_zero(e: ProcExpr)
    ensures
        reduced(ProcExpr::Mul(Rc::new(e), Rc::new(ProcExpr::Lit(0)))) == ProcExpr::Lit(0),
{
    let p = poly_of(e);
    let z = ProcExpr::Lit(0);
    assert(poly_of(z) == poly_value(0));
    assert(poly_value(0) =~= Seq::<(Seq<Rc<ProcExpr>>, u8)>::empty());
    lemma_mul_rows_empty(p, p.len() as int);
    assert(poly_of(ProcExpr::Mul(Rc::new(e), Rc::new(z))) == poly_mul(poly_of(e), poly_of(z)));
}

/// Dividing by one: `Into(Lit(1), e)` has the canonical form of `e`.
pub proof fn lemma_reduce_into_one(e: ProcExpr)
    ensures
        reduced(ProcExpr::Into(Rc::new(ProcExpr::Lit(1)), Rc::new(e))) == reduced(e),
{
    let one = poly_value(1);
    let l = ProcExpr::Lit(1);
    assert(poly_of(l) == one);
    assert(one.drop_first() =~= Seq::<(Seq<Rc<ProcExpr>>, u8)>::empty());
    assert(one[0].0.len() == 0);
    assert(term_expr(one[0]) == ProcExpr::Lit(1));
    assert(poly_expr(one) == ProcExpr::Lit(1));
    let pb = poly_of(e);
    let i = ProcExpr::Into(Rc::new(l), Rc::new(e));
    if poly_expr(pb) == ProcExpr::Lit(0) {
        assert(poly_of(i) == Seq::<(Seq<Rc<ProcExpr>>, u8)>::empty());
    } else {
        assert(poly_of(i) == pb);
    }
}

/// Zero divided by zero has the canonical form `Lit(0)`.
pub proof fn lemma_reduce_into_zero_zero()
    ensures
        reduced(ProcExpr::Into(Rc::new(ProcExpr::Lit(0)), Rc::new(ProcExpr::Lit(0)))) == ProcExpr::Lit(0),
{
    let z = ProcExpr::Lit(0);
    assert(poly_of(z) == poly_value(0));
    assert(poly_value(0) =~= Seq::<(Seq<Rc<ProcExpr>>, u8)>::empty());
    assert(poly_expr(poly_of(z)) == z);
    assert(poly_of(ProcExpr::Into(Rc::new(z), Rc::new(z))) == Seq::<(Seq<Rc<ProcExpr>>, u8)>::empty());
}

/// A polynomial in normal form, as stored.
pub struct Multinomial {
    pub terms: Vec<(Vec<Rc<ProcExpr>>, u8)>,
}

/// Stored terms as a polynomial.
pub open spec fn terms_view(v: Seq<(Vec<Rc<ProcExpr>>, u8)>) -> Poly {
    Seq::new(v.len(), |i: int| (v[i].0@, v[i].1))
}

impl View for Multinomial {
    type V = Poly;

    open spec fn view(&self) -> Poly {
        terms_view(self.terms@)
    }
}

proof fn lemma_terms_push(v: Seq<(Vec<Rc<ProcExpr>>, u8)>, x: (Vec<Rc<ProcExpr>>, u8))
    ensures
        terms_view(v.push(x)) == terms_view(v).push((x.0@, x.1)),
{
    assert(terms_view(v.push(x)) =~= terms_view(v).push((x.0@, x.1)));
}

pub proof fn lemma_rest<A>(s: Seq<A>, i: int)
    requires
        0 <= i < s.len(),
    ensures
        s.subrange(i, s.len() as int).drop_first() == s.subrange(i + 1, s.len() as int),
        s.subrange(i, s.len() as int)[0] == s[i],
{
    assert(s.subrange(i, s.len() as int).drop_first() =~= s.subrange(i + 1, s.len() as int));
}

pub proof fn lemma_whole<A>(s: Seq<A>)
    ensures
        s.subrange(0, s.len() as int) == s,
{
    assert(s.subrange(0, s.len() as int) =~= s);
}

fn tag_of(e: &ProcExpr) -> (r: u8)
    ensures
        r as int == tag(*e),
{
    match e {
        ProcExpr::Lit(_) => 0,
        ProcExpr::Reg(_) => 1,
        ProcExpr::Add(_, _) => 2,
        ProcExpr::Mul(_, _) => 3,
        ProcExpr::Into(_, _) => 4,
    }
}

/// Compares two expressions in the order of `cmp_expr`.
pub fn compare(a: &ProcExpr, b: &ProcExpr) -> (r: i8)
    ensures
        r as int == cmp_expr(*a, *b),
    decreases a,
{
    let ta = tag_of(a);
    let tb = tag_of(b);
    if ta != tb {
        return if ta < tb {
            -1
        } else {
            1
        };
    }
    match (a, b) {
        (ProcExpr::Lit(x), ProcExpr::Lit(y)) => if *x < *y {
            -1
        } else if *x == *y {
            0
        } else {
            1
        },
        (ProcExpr::Reg(x), ProcExpr::Reg(y)) => if *x < *y {
            -1
        } else if *x == *y {
            0
        } else {
            1
        },
        (ProcExpr::Add(a1, a2), ProcExpr::Add(b1, b2)) => {
            let c = compare(a1, b1);
            if c != 0 {
                c
            } else {
                compare(a2, b2)
            }
        },
        (ProcExpr::Mul(a1, a2), ProcExpr::Mul(b1, b2)) => {
            let c = compare(a1, b1);
            if c != 0 {
                c
            } else {
                compare(a2, b2)
            }
        },
        (ProcExpr::Into(a1, a2), ProcExpr::Into(b1, b2)) => {
            let c = compare(a1, b1);
            if c != 0 {
                c
            } else {
                compare(a2, b2)
            }
        },
        _ => 0,
    }
}

/// Compares two products in the order of `cmp_term`.
fn compare_terms(s: &Vec<Rc<ProcExpr>>, t: &Vec<Rc<ProcExpr>>) -> (r: i8)
    ensures
        r as int == cmp_term(s@, t@),
{
    let mut i: usize = 0;
    proof {
        lemma_whole(s@);
        lemma_whole(t@);
    }
    while i < s.len() && i < t.len()
        invariant
            i <= s.len(),
            i <= t.len(),
            cmp_term(s@, t@) == cmp_term(s@.subrange(i as int, s@.len() as int), t@.subrange(i as int, t@.len() as int)),
        decreases s.len() - i,
    {
        proof {
            lemma_rest(s@, i as int);
            lemma_rest(t@, i as int);
        }
        let c = compare(&s[i], &t[i]);
        if c != 0 {
            return c;
        }
        i = i + 1;
    }
    if i < s.len() {
        1
    } else if i < t.len() {
        -1
    } else {
        0
    }
}

fn copy_syms(s: &Vec<Rc<ProcExpr>>) -> (r: Vec<Rc<ProcExpr>>)
    ensures
        r@ == s@,
{
    let mut r: Vec<Rc<ProcExpr>> = Vec::new();
    let mut i: usize = 0;
    while i < s.len()
        invariant
            i <= s.len(),
            r@ == s@.subrange(0, i as int),
        decreases s.len() - i,
    {
        r.push(s[i].clone());
        proof {
            assert(r@ =~= s@.subrange(0, i + 1));
        }
        i = i + 1;
    }
    proof {
        lemma_whole(s@);
    }
    r
}

/// The product of two ordered lists of symbols.
fn merge_symbols(s: &Vec<Rc<ProcExpr>>, t: &Vec<Rc<ProcExpr>>) -> (r: Vec<Rc<ProcExpr>>)
    ensures
        r@ == merge_syms(s@, t@),
{
    let mut r: Vec<Rc<ProcExpr>> = Vec::new();
    let mut i: usize = 0;
    let mut j: usize = 0;
    proof {
        lemma_whole(s@);
        lemma_whole(t@);
    }
    while i < s.len() || j < t.len()
        invariant
            i <= s.len(),
            j <= t.len(),
            merge_syms(s@, t@) == r@ + merge_syms(s@.subrange(i as int, s@.len() as int), t@.subrange(j as int, t@.len() as int)),
        decreases s.len() + t.len() - i - j,
    {
        let ghost rs = s@.subrange(i as int, s@.len() as int);
        let ghost rt = t@.subrange(j as int, t@.len() as int);
        if i < s.len() && (j == t.len() || compare(&s[i], &t[j]) <= 0) {
            proof {
                lemma_rest(s@, i as int);
                if j < t.len() {
                    lemma_rest(t@, j as int);
                }
                assert(r@.push(s@[i as int]) + merge_syms(rs.drop_first(), rt) == r@ + merge_syms(rs, rt)) by {
                    assert(seq![s@[i as int]] + merge_syms(rs.drop_first(), rt) == merge_syms(rs, rt));
                    assert(r@.push(s@[i as int]) + merge_syms(rs.drop_first(), rt) =~= r@ + (seq![s@[i as int]] + merge_syms(rs.drop_first(), rt)));
                }
            }
            r.push(s[i].clone());
            i = i + 1;
        } else {
            proof {
                lemma_rest(t@, j as int);
                if i < s.len() {
                    lemma_rest(s@, i as int);
                }
                assert(r@.push(t@[j as int]) + merge_syms(rs, rt.drop_first()) == r@ + merge_syms(rs, rt)) by {
                    assert(seq![t@[j as int]] + merge_syms(rs, rt.drop_first()) == merge_syms(rs, rt));
                    assert(r@.push(t@[j as int]) + merge_syms(rs, rt.drop_first()) =~= r@ + (seq![t@[j as int]] + merge_syms(rs, rt.drop_first())));
                }
            }
            r.push(t[j].clone());
            j = j + 1;
        }
    }
    proof {
        assert(r@ + merge_syms(Seq::empty(), Seq::empty()) =~= r@);
        assert(s@.subrange(i as int, s@.len() as int) =~= Seq::<Rc<ProcExpr>>::empty());
        assert(t@.subrange(j as int, t@.len() as int) =~= Seq::<Rc<ProcExpr>>::empty());
    }
    r
}

fn copy_term(t: &(Vec<Rc<ProcExpr>>, u8)) -> (r: (Vec<Rc<ProcExpr>>, u8))
    ensures
        r.0@ == t.0@,
        r.1 == t.1,
{
    (copy_syms(&t.0), t.1)
}

/// Expresses one term: `coefficient * s1 * s2 * ...`, with a coefficient of
/// one left out.
fn term_as_expr(t: &(Vec<Rc<ProcExpr>>, u8)) -> (r: Rc<ProcExpr>)
    ensures
        *r == term_expr((t.0@, t.1)),
{
    let syms = &t.0;
    let c = t.1;
    let mut k: usize;
    let mut acc: Rc<ProcExpr>;
    if c == 1 && syms.len() > 0 {
        acc = syms[0].clone();
        k = 1;
        proof {
            assert(syms@.drop_first() =~= syms@.subrange(1, syms@.len() as int));
        }
    } else {
        acc = Rc::new(ProcExpr::Lit(c));
        k = 0;
        proof {
            lemma_whole(syms@);
        }
    }
    while k < syms.len()
        invariant
            k <= syms.len(),
            term_expr((syms@, c)) == mul_chain(syms@.subrange(k as int, syms@.len() as int), *acc),
        decreases syms.len() - k,
    {
        proof {
            lemma_rest(syms@, k as int);
        }
        acc = Rc::new(ProcExpr::Mul(acc, syms[k].clone()));
        k = k + 1;
    }
    acc
}

impl Multinomial {
    /// The polynomial of a single symbol, to the power one.
    pub fn symbol(expr: Rc<ProcExpr>) -> (r: Multinomial)
        ensures
            r@ == poly_symbol(*expr),
            wf_poly(r@),
    {
        let mut syms: Vec<Rc<ProcExpr>> = Vec::new();
        syms.push(expr);
        let mut terms: Vec<(Vec<Rc<ProcExpr>>, u8)> = Vec::new();
        terms.push((syms, 1u8));
        let r = Multinomial { terms };
        proof {
            assert(syms@ =~= seq![expr]);
            assert(r@ =~= poly_symbol(*expr));
        }
        r
    }

    /// The polynomial of a constant: no terms for zero.
    pub fn value(x: u8) -> (r: Multinomial)
        ensures
            r@ == poly_value(x),
            wf_poly(r@),
    {
        let mut terms: Vec<(Vec<Rc<ProcExpr>>, u8)> = Vec::new();
        if x != 0 {
            terms.push((Vec::new(), x));
        }
        let r = Multinomial { terms };
        proof {
            assert(r@ =~= poly_value(x));
        }
        r
    }

    /// The sum: coefficients of equal products are added, and terms that
    /// cancel are dropped.
    pub fn add(&self, other: &Self) -> (r: Multinomial)
        ensures
            r@ == poly_add(self@, other@),
            wf_poly(self@) && wf_poly(other@) ==> wf_poly(r@),
    {
        proof {
            if wf_poly(self@) && wf_poly(other@) {
                lemma_add_wf(self@, other@);
            }
        }
        let p = &self.terms;
        let q = &other.terms;
        let ghost pp = self@;
        let ghost qq = other@;
        let mut out: Vec<(Vec<Rc<ProcExpr>>, u8)> = Vec::new();
        let mut i: usize = 0;
        let mut j: usize = 0;
        proof {
            lemma_whole(pp);
            lemma_whole(qq);
            assert(terms_view(out@) =~= Seq::empty());
        }
        while i < p.len() || j < q.len()
            invariant
                pp == self@,
                qq == other@,
                p == self.terms,
                q == other.terms,
                i <= p.len(),
                j <= q.len(),
                poly_add(pp, qq) == terms_view(out@) + poly_add(pp.subrange(i as int, pp.len() as int), qq.subrange(j as int, qq.len() as int)),
            decreases p.len() + q.len() - i - j,
        {
            let ghost rp = pp.subrange(i as int, pp.len() as int);
            let ghost rq = qq.subrange(j as int, qq.len() as int);
            let ghost before = terms_view(out@);
            if i < p.len() {
                proof {
                    lemma_rest(pp, i as int);
                }
            }
            if j < q.len() {
                proof {
                    lemma_rest(qq, j as int);
                }
            }
            let c: i8 = if i == p.len() {
                1
            } else if j == q.len() {
                -1
            } else {
                compare_terms(&p[i].0, &q[j].0)
            };
            if c < 0 {
                let t = copy_term(&p[i]);
                proof {
                    lemma_terms_push(out@, t);
                    assert(before.push(rp[0]) + poly_add(rp.drop_first(), rq) =~= before + (seq![rp[0]] + poly_add(rp.drop_first(), rq)));
                }
                out.push(t);
                i = i + 1;
            } else if c > 0 {
                let t = copy_term(&q[j]);
                proof {
                    lemma_terms_push(out@, t);
                    if rp.len() == 0 {
                        assert(rq =~= seq![rq[0]] + rq.drop_first());
                        assert(poly_add(rp, rq.drop_first()) == rq.drop_first());
                    }
                    assert(before.push(rq[0]) + poly_add(rp, rq.drop_first()) =~= before + (seq![rq[0]] + poly_add(rp, rq.drop_first())));
                }
                out.push(t);
                j = j + 1;
            } else {
                let sum = p[i].1.wrapping_add(q[j].1);
                if sum != 0 {
                    let t = (copy_syms(&p[i].0), sum);
                    proof {
                        lemma_terms_push(out@, t);
                        assert(before.push((rp[0].0, sum)) + poly_add(rp.drop_first(), rq.drop_first()) =~= before + (seq![(rp[0].0, sum)] + poly_add(rp.drop_first(), rq.drop_first())));
                    }
                    out.push(t);
                }
                i = i + 1;
                j = j + 1;
            }
        }
        let r = Multinomial { terms: out };
        proof {
            assert(pp.subrange(i as int, pp.len() as int) =~= Seq::<(Seq<Rc<ProcExpr>>, u8)>::empty());
            assert(qq.subrange(j as int, qq.len() as int) =~= Seq::<(Seq<Rc<ProcExpr>>, u8)>::empty());
            assert(terms_view(out@) + Seq::<(Seq<Rc<ProcExpr>>, u8)>::empty() =~= terms_view(out@));
        }
        r
    }

    /// The product: every pair of terms is multiplied and the results are
    /// added up one by one.
    pub fn mul(&self, other: &Self) -> (r: Multinomial)
        ensures
            r@ == poly_mul(self@, other@),
            wf_poly(r@),
    {
        proof {
            lemma_mul_rows_wf(self@, other@, self@.len() as int);
        }
        let p = &self.terms;
        let q = &other.terms;
        let mut acc = Multinomial { terms: Vec::new() };
        let mut i: usize = 0;
        proof {
            assert(acc@ =~= Seq::empty());
        }
        while i < p.len()
            invariant
                p == self.terms,
                q == other.terms,
                i <= p.len(),
                acc@ == mul_rows(self@, other@, i as int),
            decreases p.len() - i,
        {
            let ghost start = acc@;
            let mut j: usize = 0;
            while j < q.len()
                invariant
                    p == self.terms,
                    q == other.terms,
                    i < p.len(),
                    j <= q.len(),
                    start == mul_rows(self@, other@, i as int),
                    acc@ == mul_row(self@[i as int], other@, j as int, start),
                decreases q.len() - j,
            {
                let t = merge_symbols(&p[i].0, &q[j].0);
                let c = p[i].1.wrapping_mul(q[j].1);
                let mut single: Vec<(Vec<Rc<ProcExpr>>, u8)> = Vec::new();
                if c != 0 {
                    single.push((t, c));
                }
                let m = Multinomial { terms: single };
                proof {
                    assert(m@ =~= monomial(merge_syms(self@[i as int].0, other@[j as int].0), c));
                }
                acc = acc.add(&m);
                j = j + 1;
            }
            i = i + 1;
        }
        acc
    }

    /// The polynomial as an expression: a sum of products, or `Lit(0)`.
    pub fn as_val(&self) -> (r: Rc<ProcExpr>)
        ensures
            *r == poly_expr(self@),
    {
        let p = &self.terms;
        if p.len() == 0 {
            return Rc::new(ProcExpr::Lit(0));
        }
        let mut expr = term_as_expr(&p[0]);
        let mut i: usize = 1;
        proof {
            assert(self@.drop_first() =~= self@.subrange(1, self@.len() as int));
        }
        while i < p.len()
            invariant
                p == self.terms,
                1 <= i <= p.len(),
                poly_expr(self@) == add_chain(self@.subrange(i as int, self@.len() as int), *expr),
            decreases p.len() - i,
        {
            proof {
                lemma_rest(self@, i as int);
            }
            let t = term_as_expr(&p[i]);
            expr = Rc::new(ProcExpr::Add(expr, t));
            i = i + 1;
        }
        expr
    }
}

/// The polynomial of `e`, as `poly_of` defines it.
pub fn multinomial_of(e: &Rc<ProcExpr>) -> (r: Multinomial)
    ensures
        r@ == poly_of(**e),
        wf_poly(r@),
    decreases **e,
{
    let inner: &ProcExpr = e;
    match inner {
        ProcExpr::Lit(v) => Multinomial::value(*v),
        ProcExpr::Reg(_) => Multinomial::symbol(e.clone()),
        ProcExpr::Add(a, b) => multinomial_of(a).add(&multinomial_of(b)),
        ProcExpr::Mul(a, b) => multinomial_of(a).mul(&multinomial_of(b)),
        ProcExpr::Into(a, b) => {
            let pb = multinomial_of(b);
            let ea = multinomial_of(a).as_val();
            let eb = pb.as_val();
            if let ProcExpr::Lit(0) = &*eb {
                return Multinomial::value(0);
            }
            if let ProcExpr::Lit(1) = &*ea {
                return pb;
            }
            if let (ProcExpr::Lit(x), ProcExpr::Lit(y)) = (&*ea, &*eb) {
                if let Some(c) = div_u8(*y, *x) {
                    return Multinomial::value(c);
                }
            }
            Multinomial::symbol(Rc::new(ProcExpr::Into(ea, eb)))
        },
    }
}

/// Brings `expr` to its canonical form: the polynomial of `expr`, written
/// back as an expression.
pub fn reduce(expr: Rc<ProcExpr>) -> (r: Rc<ProcExpr>)
    ensures
        *r == reduced(*expr),
{
    multinomial_of(&expr).as_val()
}

} // verus!
