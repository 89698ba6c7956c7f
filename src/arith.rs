//! Division in the ring of bytes.
use vstd::prelude::*;

verus! {

/// `q` is a quotient of `x` by `y` modulo 256: `q * y == x (mod 256)`.
pub open spec fn solves(q: u8, y: u8, x: u8) -> bool {
    (q as int * y as int) % 256 == x as int
}

/// The smallest byte `q` with `q * y == x (mod 256)`, if there is one.
pub open spec fn quotient(x: u8, y: u8) -> Option<u8> {
    if exists|q: u8| #[trigger] solves(q, y, x) {
        Some(choose|q: u8| solves(q, y, x) && forall|p: u8| p < q ==> !#[trigger] solves(p, y, x))
    } else {
        None
    }
}

spec fn low(v: u8, k: u8) -> u16 {
    (v as u16) & (((1u16 << (k as u16)) - 1u16) as u16)
}

spec fn below(q: u8, t: u8, k: u8) -> bool {
    ((q as u16) << (t as u16)) < (1u16 << (k as u16))
}

proof fn lemma_trailing_step(y: u8, t: u8, t1: u8)
    by (bit_vector)
    requires
        y != 0,
        t < 8,
        t1 == t + 1,
        low(y, t) == 0,
        (y >> t) & 1 == 0,
    ensures
        t1 < 8,
        low(y, t1) == 0,
{
}

proof fn lemma_digit_same(x: u8, acc: u8, k: u8, k1: u8)
    by (bit_vector)
    requires
        k < 8,
        k1 == k + 1,
        low(acc, k) == low(x, k),
        (acc >> k) & 1 == (x >> k) & 1,
    ensures
        low(acc, k1) == low(x, k1),
{
}

proof fn lemma_digit_product(y: u8, acc: u8, q: u8, s: u8, ys: u8, acc2: u8, q2: u8)
    by (bit_vector)
    requires
        s < 8,
        (q >> s) & 1 == 0,
        acc == (q * y) as u8,
        ys == y << s,
        acc2 == (acc + ys) as u8,
        q2 == q | (1u8 << s),
    ensures
        acc2 == (q2 * y) as u8,
{
}

proof fn lemma_digit_low(x: u8, y: u8, t: u8, acc: u8, k: u8, k1: u8, s: u8, ys: u8, acc2: u8)
    by (bit_vector)
    requires
        k < 8,
        k1 == k + 1,
        s + t == k,
        low(y, t) == 0,
        (y >> t) & 1 == 1,
        low(acc, k) == low(x, k),
        (acc >> k) & 1 != (x >> k) & 1,
        ys == y << s,
        acc2 == (acc + ys) as u8,
    ensures
        low(acc2, k1) == low(x, k1),
{
}

proof fn lemma_digit_bound(q: u8, t: u8, k: u8, k1: u8, s: u8, q2: u8)
    by (bit_vector)
    requires
        k < 8,
        k1 == k + 1,
        s + t == k,
        below(q, t, k),
        q2 == q | (1u8 << s),
    ensures
        (q >> s) & 1 == 0,
        below(q2, t, k1),
{
}

proof fn lemma_digit_unreachable(x: u8, y: u8, t: u8, acc: u8, q: u8, k: u8, p: u8)
    by (bit_vector)
    requires
        k < t,
        t < 8,
        low(y, t) == 0,
        acc == (q * y) as u8,
        low(acc, k) == low(x, k),
        (acc >> k) & 1 != (x >> k) & 1,
    ensures
        (p * y) as u8 != x,
{
}

proof fn lemma_least(x: u8, y: u8, t: u8, q: u8, p: u8, k: u8)
    by (bit_vector)
    requires
        t < 8,
        k == 8,
        low(y, t) == 0,
        (y >> t) & 1 == 1,
        x == (q * y) as u8,
        below(q, t, k),
        p < q,
    ensures
        (p * y) as u8 != x,
{
}

proof fn lemma_low_full(v: u8, k: u8)
    by (bit_vector)
    requires
        k == 8,
    ensures
        low(v, k) == v as u16,
{
}

proof fn lemma_low_empty(v: u8, q: u8, t: u8, k: u8)
    by (bit_vector)
    requires
        k == 0,
        q == 0,
    ensures
        low(v, k) == 0,
        below(q, t, k) || t >= 16,
{
}

proof fn lemma_truncate_bits(q: u8, y: u8)
    by (bit_vector)
    ensures
        (q * y) as u8 == ((q * y) % 256) as u8,
{
}

proof fn lemma_truncate(q: u8, y: u8)
    ensures
        (q * y) as u8 as int == (q as int * y as int) % 256,
{
    lemma_truncate_bits(q, y);
}

proof fn lemma_below_grow(q: u8, t: u8, k: u8, k1: u8)
    by (bit_vector)
    requires
        k < 8,
        k1 == k + 1,
        below(q, t, k),
    ensures
        below(q, t, k1),
{
}

proof fn lemma_odd_bit(y: u8, t: u8)
    by (bit_vector)
    requires
        (y >> t) & 1 != 0,
    ensures
        (y >> t) & 1 == 1,
{
}

proof fn lemma_quotient_is(x: u8, y: u8, q: u8)
    requires
        solves(q, y, x),
        forall|p: u8| p < q ==> !#[trigger] solves(p, y, x),
    ensures
        quotient(x, y) == Some(q),
{
    let c = choose|c: u8| solves(c, y, x) && forall|p: u8| p < c ==> !#[trigger] solves(p, y, x);
    assert(solves(c, y, x));
    if c < q {
        assert(!solves(c, y, x));
    }
    if q < c {
        assert(!solves(q, y, x));
    }
}

proof fn lemma_odd_cancels(x: u8, y: u8, p: u8)
    by (bit_vector)
    requires
        y & 1 == 1,
        p != x,
    ensures
        (p * y) as u8 != (x * y) as u8,
{
}

/// Zero divided by anything is zero; nothing but zero can be divided by zero.
pub proof fn lemma_div_zero(x: u8, y: u8)
    ensures
        quotient(0, y) == Some(0u8),
        x != 0 ==> quotient(x, 0) is None,
{
    assert(solves(0, y, 0));
    lemma_quotient_is(0, y, 0);
    if x != 0 {
        assert forall|p: u8| !#[trigger] solves(p, 0, x) by {
            assert(p as int * 0 == 0);
        }
    }
}

/// Dividing an exact product: where `x * y` fits in a byte and `y` is not
/// zero, `x * y` divided by `y` is `x`.
pub proof fn lemma_div_exact(x: u8, y: u8)
    requires
        y != 0,
        x * y < 256,
    ensures
        quotient((x * y) as u8, y) == Some(x),
{
    let z = (x * y) as u8;
    assert(solves(x, y, z));
    assert forall|p: u8| p < x implies !#[trigger] solves(p, y, z) by {
        assert((p as int) * (y as int) < (x as int) * (y as int)) by (nonlinear_arith)
            requires
                p < x,
                y > 0,
        ;
        assert(p as int * y as int >= 0) by (nonlinear_arith);
    }
    lemma_quotient_is(z, y, x);
}

/// Multiplying by an odd byte, with wrap-around, is undone by dividing by it.
pub proof fn lemma_div_odd(x: u8, y: u8)
    requires
        y % 2 == 1,
    ensures
        quotient(((x as int * y as int) % 256) as u8, y) == Some(x),
{
    let z = ((x as int * y as int) % 256) as u8;
    lemma_truncate(x, y);
    assert(solves(x, y, z));
    assert(y & 1 == 1) by (bit_vector)
        requires
            y % 2 == 1,
    ;
    assert forall|p: u8| p < x implies !#[trigger] solves(p, y, z) by {
        lemma_odd_cancels(x, y, p);
        lemma_truncate(p, y);
    }
    lemma_quotient_is(z, y, x);
}

/// The smallest byte `q` with `q * y == x (mod 256)`, found digit by digit:
/// after digit `k` the running product agrees with `x` on its low `k + 1`
/// bits. `None` when no byte solves the congruence.
pub fn div_u8(x: u8, y: u8) -> (r: Option<u8>)
    ensures
        r == quotient(x, y),
        r is Some <==> exists|q: u8| #[trigger] solves(q, y, x),
        r matches Some(q) ==> solves(q, y, x) && forall|p: u8| p < q ==> !#[trigger] solves(p, y, x),
{
    if x == 0 {
        proof {
            assert(solves(0, y, x));
            lemma_quotient_is(x, y, 0);
        }
        return Some(0);
    }
    if y == 0 {
        proof {
            assert forall|p: u8| !#[trigger] solves(p, y, x) by {
                assert(p as int * y as int == 0);
            }
        }
        return None;
    }
    let mut t: u8 = 0;
    proof {
        lemma_low_empty(y, 0, t, 0);
    }
    while (y >> t) & 1 == 0
        invariant
            y != 0,
            t < 8,
            low(y, t) == 0,
        decreases 8 - t,
    {
        proof {
            lemma_trailing_step(y, t, (t + 1) as u8);
        }
        t = t + 1;
    }
    let mut q: u8 = 0;
    let mut acc: u8 = 0;
    let mut k: u8 = 0;
    proof {
        lemma_odd_bit(y, t);
        lemma_low_empty(acc, q, t, k);
        lemma_low_empty(x, q, t, k);
        assert(acc == (q * y) as u8);
    }
    while k < 8
        invariant
            y != 0,
            t < 8,
            k <= 8,
            low(y, t) == 0,
            (y >> t) & 1 == 1,
            acc == (q * y) as u8,
            low(acc, k) == low(x, k),
            below(q, t, k),
        decreases 8 - k,
    {
        if (acc >> k) & 1 != (x >> k) & 1 {
            if k < t {
                proof {
                    assert forall|p: u8| !#[trigger] solves(p, y, x) by {
                        lemma_digit_unreachable(x, y, t, acc, q, k, p);
                        lemma_truncate(p, y);
                    }
                }
                return None;
            }
            let s: u8 = k - t;
            let ys: u8 = y << s;
            let acc2: u8 = acc.wrapping_add(ys);
            let q2: u8 = q | (1u8 << s);
            proof {
                assert(acc2 == (acc + ys) as u8) by (bit_vector)
                    requires
                        acc2 == acc.wrapping_add(ys),
                ;
                lemma_digit_bound(q, t, k, (k + 1) as u8, s, q2);
                lemma_digit_product(y, acc, q, s, ys, acc2, q2);
                lemma_digit_low(x, y, t, acc, k, (k + 1) as u8, s, ys, acc2);
            }
            acc = acc2;
            q = q2;
        } else {
            proof {
                lemma_digit_same(x, acc, k, (k + 1) as u8);
                lemma_below_grow(q, t, k, (k + 1) as u8);
            }
        }
        k = k + 1;
    }
    proof {
        lemma_low_full(acc, k);
        lemma_low_full(x, k);
        lemma_truncate(q, y);
        assert(solves(q, y, x));
        assert forall|p: u8| p < q implies !#[trigger] solves(p, y, x) by {
            lemma_least(x, y, t, q, p, k);
            lemma_truncate(p, y);
        }
        lemma_quotient_is(x, y, q);
    }
    Some(q)
}

} // verus!
