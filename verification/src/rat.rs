//! Exact rational arithmetic.
//!
//! `Q` is the mathematical model: a signed numerator over a positive
//! denominator, with equality by cross-multiplication.  `Rat` is the
//! executable counterpart, kept in lowest terms over `i64` fields; every
//! operation returns `None` instead of overflowing, and its result is
//! related to the mathematical operation by `q_eq`.

use vstd::prelude::*;
use vstd::arithmetic::div_mod::{
    lemma_fundamental_div_mod, lemma_fundamental_div_mod_converse, lemma_mod_self_0,
};
use vstd::arithmetic::mul::{
    lemma_mul_equality_converse, lemma_mul_is_distributive_add_other_way, lemma_mul_nonzero,
    lemma_mul_strictly_positive, lemma_mul_unary_negation,
};

verus! {

/// A mathematical rational: `num / den`, well-formed when `den > 0`.
pub struct Q {
    pub num: int,
    pub den: int,
}

pub open spec fn q_wf(q: Q) -> bool {
    q.den > 0
}

/// Equality of rationals by cross-multiplication.
pub open spec fn q_eq(a: Q, b: Q) -> bool {
    a.num * b.den == b.num * a.den
}

pub open spec fn q_int(n: int) -> Q {
    Q { num: n, den: 1 }
}

pub open spec fn q_add(a: Q, b: Q) -> Q {
    Q { num: a.num * b.den + b.num * a.den, den: a.den * b.den }
}

pub open spec fn q_neg(a: Q) -> Q {
    Q { num: -a.num, den: a.den }
}

pub open spec fn q_sub(a: Q, b: Q) -> Q {
    q_add(a, q_neg(b))
}

pub open spec fn q_mul(a: Q, b: Q) -> Q {
    Q { num: a.num * b.num, den: a.den * b.den }
}

/// `a / b`, with the sign moved into the numerator so that a well-formed
/// result has a positive denominator whenever `b.num != 0`.
pub open spec fn q_div(a: Q, b: Q) -> Q {
    if b.num >= 0 {
        Q { num: a.num * b.den, den: a.den * b.num }
    } else {
        Q { num: -(a.num * b.den), den: -(a.den * b.num) }
    }
}

/// Sign predicates; meaningful for well-formed rationals.
pub open spec fn q_is_zero(a: Q) -> bool {
    a.num == 0
}

pub open spec fn q_is_neg(a: Q) -> bool {
    a.num < 0
}

pub open spec fn q_is_pos(a: Q) -> bool {
    a.num > 0
}

/// `a <= b`, meaningful for well-formed rationals.
pub open spec fn q_le(a: Q, b: Q) -> bool {
    a.num * b.den <= b.num * a.den
}

pub open spec fn nat_abs(x: int) -> nat {
    if x < 0 {
        (-x) as nat
    } else {
        x as nat
    }
}

/// Greatest common divisor by Euclid's recurrence.
pub open spec fn gcd(a: nat, b: nat) -> nat
    decreases b,
{
    if b == 0 {
        a
    } else {
        gcd(b, a % b)
    }
}

/// Whether the fraction `n / d` still fits the `i64` fields of `Rat`
/// once divided by the greatest common divisor.
pub open spec fn reduced_fits(n: int, d: int) -> bool
    recommends
        d >= 1,
{
    let g = gcd(nat_abs(n), d as nat) as int;
    nat_abs(n) / (g as nat) <= i64::MAX && d / g <= i64::MAX
}

/// Whether a fraction, reduced, fits the `i64` fields of `Rat`.
pub open spec fn q_fits(q: Q) -> bool
    recommends
        q.den >= 1,
{
    reduced_fits(q.num, q.den)
}

/// The canonical (lowest-terms) representative of a fraction with a
/// positive denominator: both components divided by their gcd, the sign
/// on the numerator.
pub open spec fn q_canon(q: Q) -> Q
    recommends
        q.den >= 1,
{
    let g = gcd(nat_abs(q.num), q.den as nat) as int;
    Q {
        num: if q.num < 0 {
            -((nat_abs(q.num) as int) / g)
        } else {
            q.num / g
        },
        den: q.den / g,
    }
}

/// A fraction whose parts already lie strictly inside the `i64` range is
/// reducible into range.
pub proof fn lemma_fits_within(n: int, d: int)
    requires
        1 <= d <= i64::MAX,
        -0x7fff_ffff_ffff_ffff <= n <= 0x7fff_ffff_ffff_ffff,
    ensures
        reduced_fits(n, d),
{
    let g = gcd(nat_abs(n), d as nat);
    lemma_gcd(nat_abs(n), d as nat);
    lemma_exact_div(nat_abs(n), g);
    lemma_exact_div(d as nat, g);
}

/// The gcd divides both arguments and is positive when `b` is.
pub proof fn lemma_gcd(a: nat, b: nat)
    ensures
        b > 0 ==> gcd(a, b) >= 1,
        b > 0 ==> a % gcd(a, b) == 0,
        b > 0 ==> b % gcd(a, b) == 0,
    decreases b,
{
    if b > 0 {
        let r = a % b;
        if r == 0 {
            assert(gcd(a, b) == gcd(b, 0) == b);
            lemma_mod_self_0(b as int);
            assert(a % b == 0);
        } else {
            lemma_gcd(b, r);
            let g = gcd(b, r);
            assert(gcd(a, b) == g);
            // a == b * (a / b) + r, b == g * (b / g), r == g * (r / g),
            // so a is a multiple of g.
            lemma_fundamental_div_mod(a as int, b as int);
            lemma_fundamental_div_mod(b as int, g as int);
            lemma_fundamental_div_mod(r as int, g as int);
            let q = a as int / b as int;
            let kb = b as int / g as int;
            let kr = r as int / g as int;
            assert(a as int == (g as int) * (kb * q + kr)) by (nonlinear_arith)
                requires
                    a as int == (b as int) * q + r,
                    b as int == (g as int) * kb,
                    r as int == (g as int) * kr,
            ;
            lemma_fundamental_div_mod_converse(a as int, g as int, kb * q + kr, 0);
        }
    }
}

/// Division of a positive number by a positive divisor that divides it
/// exactly yields a positive quotient, and multiplying back recovers it.
proof fn lemma_exact_div(x: nat, g: nat)
    requires
        g >= 1,
        x % g == 0,
    ensures
        (x / g) * g == x,
        x >= 1 ==> x / g >= 1,
        x / g <= x,
{
    lemma_fundamental_div_mod(x as int, g as int);
    assert((x / g) * g == x) by (nonlinear_arith)
        requires
            x as int == (g as int) * ((x as int) / (g as int)) + (x as int) % (g as int),
            (x as int) % (g as int) == 0,
            g >= 1,
    ;
    assert(x >= 1 ==> x / g >= 1) by (nonlinear_arith)
        requires
            (x / g) * g == x,
            g >= 1,
    ;
    assert(x / g <= x) by (nonlinear_arith)
        requires
            (x / g) * g == x,
            g >= 1,
    ;
}

/// Regrouping a product of four factors.
proof fn lemma_mul_swap_pairs(w: int, x: int, y: int, z: int)
    ensures
        (w * x) * (y * z) == (w * y) * (x * z),
        (w * x) * (y * z) == (w * z) * (x * y),
{
    assert((w * x) * (y * z) == (w * y) * (x * z)) by (nonlinear_arith);
    assert((w * x) * (y * z) == (w * z) * (x * y)) by (nonlinear_arith);
}

/// Cross-multiplied equality is transitive over well-formed rationals.
pub proof fn lemma_q_eq_trans(a: Q, b: Q, c: Q)
    requires
        q_wf(a),
        q_wf(b),
        q_wf(c),
        q_eq(a, b),
        q_eq(b, c),
    ensures
        q_eq(a, c),
{
    assert(b.den * (a.num * c.den) == b.den * (c.num * a.den)) by (nonlinear_arith)
        requires
            a.num * b.den == b.num * a.den,
            b.num * c.den == c.num * b.den,
    ;
    lemma_mul_equality_converse(b.den, a.num * c.den, c.num * a.den);
}

/// Addition is well-defined on equivalence classes.
pub proof fn lemma_q_add_congr(a: Q, a2: Q, b: Q, b2: Q)
    requires
        q_wf(a),
        q_wf(a2),
        q_wf(b),
        q_wf(b2),
        q_eq(a, a2),
        q_eq(b, b2),
    ensures
        q_eq(q_add(a, b), q_add(a2, b2)),
{
    lemma_mul_is_distributive_add_other_way(a2.den * b2.den, a.num * b.den, b.num * a.den);
    lemma_mul_swap_pairs(a.num, b.den, a2.den, b2.den);
    lemma_mul_swap_pairs(b.num, a.den, a2.den, b2.den);
    lemma_mul_is_distributive_add_other_way(a.den * b.den, a2.num * b2.den, b2.num * a2.den);
    lemma_mul_swap_pairs(a2.num, b2.den, a.den, b.den);
    lemma_mul_swap_pairs(b2.num, a2.den, a.den, b.den);
    assert((a.num * a2.den) * (b.den * b2.den) == (a2.num * a.den) * (b2.den * b.den));
    assert((b.num * b2.den) * (a.den * a2.den) == (b2.num * b.den) * (a2.den * a.den));
}

/// Multiplication is well-defined on equivalence classes.
pub proof fn lemma_q_mul_congr(a: Q, a2: Q, b: Q, b2: Q)
    requires
        q_wf(a),
        q_wf(a2),
        q_wf(b),
        q_wf(b2),
        q_eq(a, a2),
        q_eq(b, b2),
    ensures
        q_eq(q_mul(a, b), q_mul(a2, b2)),
{
    lemma_mul_swap_pairs(a.num, b.num, a2.den, b2.den);
    lemma_mul_swap_pairs(a2.num, b2.num, a.den, b.den);
    assert((a.num * a2.den) * (b.num * b2.den) == (a2.num * a.den) * (b2.num * b.den));
}

/// Subtraction is well-defined on equivalence classes.
pub proof fn lemma_q_sub_congr(a: Q, a2: Q, b: Q, b2: Q)
    requires
        q_wf(a),
        q_wf(a2),
        q_wf(b),
        q_wf(b2),
        q_eq(a, a2),
        q_eq(b, b2),
    ensures
        q_eq(q_sub(a, b), q_sub(a2, b2)),
{
    assert(q_eq(q_neg(b), q_neg(b2))) by {
        lemma_mul_unary_negation(b.num, b2.den);
        lemma_mul_unary_negation(b2.num, b.den);
    }
    lemma_q_add_congr(a, a2, q_neg(b), q_neg(b2));
}

/// Equal well-formed rationals are zero together.
pub proof fn lemma_q_eq_zero(a: Q, b: Q)
    requires
        q_wf(a),
        q_wf(b),
        q_eq(a, b),
    ensures
        q_is_zero(a) <==> q_is_zero(b),
{
    lemma_mul_nonzero(a.num, b.den);
    lemma_mul_nonzero(b.num, a.den);
}

/// A quotient by a nonzero rational is well-formed.
pub proof fn lemma_q_div_wf(a: Q, b: Q)
    requires
        q_wf(a),
        q_wf(b),
        !q_is_zero(b),
    ensures
        q_wf(q_div(a, b)),
{
    if b.num >= 0 {
        lemma_mul_strictly_positive(a.den, b.num);
    } else {
        lemma_mul_strictly_positive(a.den, -b.num);
        lemma_mul_unary_negation(a.den, b.num);
    }
}

/// A quotient of nonzero rationals is nonzero.
pub proof fn lemma_q_div_nonzero(a: Q, b: Q)
    requires
        q_wf(a),
        q_wf(b),
        !q_is_zero(a),
        !q_is_zero(b),
    ensures
        !q_is_zero(q_div(a, b)),
{
    lemma_mul_nonzero(a.num, b.den);
}

/// Division is well-defined on equivalence classes.
pub proof fn lemma_q_div_congr(a: Q, a2: Q, b: Q, b2: Q)
    requires
        q_wf(a),
        q_wf(a2),
        q_wf(b),
        q_wf(b2),
        q_eq(a, a2),
        q_eq(b, b2),
        !q_is_zero(b),
    ensures
        q_eq(q_div(a, b), q_div(a2, b2)),
{
    lemma_q_eq_zero(b, b2);
    assert(b.num > 0 <==> b2.num > 0) by (nonlinear_arith)
        requires
            b.num * b2.den == b2.num * b.den,
            b.den > 0,
            b2.den > 0,
            b.num != 0,
            b2.num != 0,
    ;
    lemma_mul_swap_pairs(a.num, b.den, a2.den, b2.num);
    lemma_mul_swap_pairs(a2.num, b2.den, a.den, b.num);
    assert((a.num * a2.den) * (b.den * b2.num) == (a2.num * a.den) * (b2.den * b.num))
        by (nonlinear_arith)
        requires
            a.num * a2.den == a2.num * a.den,
            b.num * b2.den == b2.num * b.den,
    ;
    assert((a.num * b.den) * (a2.den * b2.num) == (a2.num * b2.den) * (a.den * b.num));
    if b.num > 0 {
    } else {
        let p = a.num * b.den;
        let q = a2.den * b2.num;
        let p2 = a2.num * b2.den;
        let q2 = a.den * b.num;
        assert((-p) * (-q) == p * q) by (nonlinear_arith);
        assert((-p2) * (-q2) == p2 * q2) by (nonlinear_arith);
    }
}

/// Sums and products of well-formed rationals are well-formed.
pub proof fn lemma_q_add_wf(a: Q, b: Q)
    requires
        q_wf(a),
        q_wf(b),
    ensures
        q_wf(q_add(a, b)),
        q_wf(q_mul(a, b)),
{
    lemma_mul_strictly_positive(a.den, b.den);
}

/// Bound on the product of two `Rat` fields: both lie strictly inside the
/// `i64` range, so their product stays well inside the `i128` range.
proof fn lemma_i64_mul_fits(a: int, b: int)
    requires
        -0x7fff_ffff_ffff_ffff <= a <= 0x7fff_ffff_ffff_ffff,
        -0x7fff_ffff_ffff_ffff <= b <= 0x7fff_ffff_ffff_ffff,
    ensures
        -0x3fff_ffff_ffff_ffff_0000_0000_0000_0001 <= a * b
            <= 0x3fff_ffff_ffff_ffff_0000_0000_0000_0001,
{
    assert(-0x3fff_ffff_ffff_ffff_0000_0000_0000_0001 <= a * b
        <= 0x3fff_ffff_ffff_ffff_0000_0000_0000_0001) by (nonlinear_arith)
        requires
            -0x7fff_ffff_ffff_ffff <= a <= 0x7fff_ffff_ffff_ffff,
            -0x7fff_ffff_ffff_ffff <= b <= 0x7fff_ffff_ffff_ffff,
    ;
}

/// An executable rational, kept in lowest terms.  The denominator is
/// positive and the numerator stays strictly above `i64::MIN`, so negation
/// never overflows.
pub struct Rat {
    num: i64,
    den: i64,
}

impl View for Rat {
    type V = Q;

    closed spec fn view(&self) -> Q {
        Q {
            num: self.num as int,
            den: if self.den >= 1 {
                self.den as int
            } else {
                1
            },
        }
    }
}

impl Clone for Rat {
    fn clone(&self) -> (r: Rat)
        ensures
            r@ == self@,
    {
        proof {
            use_type_invariant(self);
        }
        Rat { num: self.num, den: self.den }
    }
}

/// The view of an executable rational is well-formed, whatever its
/// fields hold.
pub broadcast proof fn lemma_rat_view_wf(r: Rat)
    ensures
        q_wf(#[trigger] r@),
{
}

impl Rat {
    #[verifier::type_invariant]
    pub closed spec fn inv(self) -> bool {
        &&& self.den >= 1
        &&& self.num > i64::MIN
    }

    /// Exact gcd of two machine naturals, by Euclid's algorithm.
    fn gcd_u128(a0: u128, b0: u128) -> (g: u128)
        ensures
            g == gcd(a0 as nat, b0 as nat),
    {
        let mut a = a0;
        let mut b = b0;
        while b != 0
            invariant
                gcd(a as nat, b as nat) == gcd(a0 as nat, b0 as nat),
            decreases b,
        {
            let t = a % b;
            a = b;
            b = t;
        }
        a
    }

    /// Reduces `n / d` to lowest terms.  Returns `None` exactly when the
    /// reduced numerator or denominator does not fit an `i64`.
    fn reduce(n: i128, d: i128) -> (r: Option<Rat>)
        requires
            d >= 1,
            n > i128::MIN,
        ensures
            r is Some <==> reduced_fits(n as int, d as int),
            r is Some ==> r->0@ == q_canon(Q { num: n as int, den: d as int }),
            r is Some ==> q_eq(r->0@, Q { num: n as int, den: d as int }),
            r is Some ==> q_wf(r->0@),
    {
        let un: u128 = if n < 0 {
            (-n) as u128
        } else {
            n as u128
        };
        assert(un == nat_abs(n as int));
        let g = Self::gcd_u128(un, d as u128);
        proof {
            lemma_gcd(un as nat, d as nat);
        }
        let qn = un / g;
        let qd = (d as u128) / g;
        proof {
            lemma_exact_div(un as nat, g as nat);
            lemma_exact_div(d as nat, g as nat);
        }
        if qn > i64::MAX as u128 || qd > i64::MAX as u128 {
            None
        } else {
            let num: i64 = if n < 0 {
                -(qn as i64)
            } else {
                qn as i64
            };
            let den: i64 = qd as i64;
            let result = Rat { num, den };
            proof {
                // Cross-multiplied equality: num * d == n * den, since
                // num = sign * (un / g), den = d / g, and g divides both.
                let gq: int = ((un as nat) / (g as nat)) as int;
                let dq: int = ((d as nat) / (g as nat)) as int;
                assert(gq * (g as int) == un as int);
                assert(dq * (g as int) == d as int);
                assert(gq * (dq * (g as int)) == (gq * (g as int)) * dq) by (nonlinear_arith);
                assert(gq * (d as int) == (un as int) * dq);
                if n < 0 {
                    assert(num as int == -gq);
                    assert(n as int == -(un as int));
                    assert((-gq) * (d as int) == -(gq * (d as int))) by (nonlinear_arith);
                    assert((-(un as int)) * dq == -((un as int) * dq)) by (nonlinear_arith);
                } else {
                    assert(num as int == gq);
                    assert(n as int == un as int);
                }
                assert((num as int) * (d as int) == (n as int) * (den as int));
                assert(result@ == q_canon(Q { num: n as int, den: d as int }));
            }
            Some(result)
        }
    }

    /// The rational `num / den`; `None` when `den == 0` or the reduced
    /// fraction does not fit.
    pub fn new(num: i64, den: i64) -> (r: Option<Rat>)
        ensures
            r is Some <==> den != 0 && reduced_fits(num as int, nat_abs(den as int) as int),
            den > 0 && r is Some ==> r->0@ == q_canon(Q { num: num as int, den: den as int }),
            r is Some ==> q_eq(r->0@, Q { num: num as int, den: den as int }),
            r is Some ==> q_wf(r->0@),
    {
        if den == 0 {
            None
        } else if den < 0 {
            let r = Self::reduce(-(num as i128), -(den as i128));
            proof {
                if r is Some {
                    assert(q_eq(r->0@, Q { num: num as int, den: den as int }))
                        by (nonlinear_arith)
                        requires
                            q_eq(r->0@, Q { num: -(num as int), den: -(den as int) }),
                    ;
                }
            }
            r
        } else {
            Self::reduce(num as i128, den as i128)
        }
    }

    /// The integer `i` as a rational.
    pub fn from_int(i: i32) -> (r: Rat)
        ensures
            r@ == q_int(i as int),
    {
        Rat { num: i as i64, den: 1 }
    }

    pub fn zero() -> (r: Rat)
        ensures
            r@ == q_int(0),
    {
        Rat { num: 0, den: 1 }
    }

    pub fn one() -> (r: Rat)
        ensures
            r@ == q_int(1),
    {
        Rat { num: 1, den: 1 }
    }

    pub fn is_zero(&self) -> (r: bool)
        ensures
            r == q_is_zero(self@),
    {
        self.num == 0
    }

    pub fn is_neg(&self) -> (r: bool)
        ensures
            r == q_is_neg(self@),
    {
        self.num < 0
    }

    pub fn is_pos(&self) -> (r: bool)
        ensures
            r == q_is_pos(self@),
    {
        self.num > 0
    }

    /// The reduced numerator.
    pub fn num(&self) -> (r: i64)
        ensures
            r as int == self@.num,
    {
        self.num
    }

    /// The reduced denominator; always positive.
    pub fn den(&self) -> (r: i64)
        ensures
            r as int == self@.den,
            r >= 1,
    {
        proof {
            use_type_invariant(self);
        }
        self.den
    }

    /// Exact negation; never overflows thanks to the field invariant.
    pub fn neg(&self) -> (r: Rat)
        ensures
            r@ == q_neg(self@),
            q_wf(r@),
    {
        proof {
            use_type_invariant(self);
        }
        Rat { num: -self.num, den: self.den }
    }

    /// Exact sum; `None` when the reduced result does not fit.
    pub fn add(&self, other: &Rat) -> (r: Option<Rat>)
        ensures
            r is Some <==> reduced_fits(q_add(self@, other@).num, q_add(self@, other@).den),
            r is Some ==> r->0@ == q_canon(q_add(self@, other@)),
            r is Some ==> q_eq(r->0@, q_add(self@, other@)) && q_wf(r->0@),
    {
        proof {
            use_type_invariant(self);
            use_type_invariant(other);
            lemma_i64_mul_fits(self.num as int, other.den as int);
            lemma_i64_mul_fits(other.num as int, self.den as int);
            lemma_i64_mul_fits(self.den as int, other.den as int);
            lemma_mul_strictly_positive(self.den as int, other.den as int);
        }
        let n: i128 = (self.num as i128) * (other.den as i128) + (other.num as i128)
            * (self.den as i128);
        let d: i128 = (self.den as i128) * (other.den as i128);
        Self::reduce(n, d)
    }

    /// Exact difference; `None` when the reduced result does not fit.
    pub fn sub(&self, other: &Rat) -> (r: Option<Rat>)
        ensures
            r is Some <==> reduced_fits(q_sub(self@, other@).num, q_sub(self@, other@).den),
            r is Some ==> r->0@ == q_canon(q_sub(self@, other@)),
            r is Some ==> q_eq(r->0@, q_sub(self@, other@)) && q_wf(r->0@),
    {
        self.add(&other.neg())
    }

    /// Exact product; `None` when the reduced result does not fit.
    pub fn mul(&self, other: &Rat) -> (r: Option<Rat>)
        ensures
            r is Some <==> reduced_fits(q_mul(self@, other@).num, q_mul(self@, other@).den),
            r is Some ==> r->0@ == q_canon(q_mul(self@, other@)),
            r is Some ==> q_eq(r->0@, q_mul(self@, other@)) && q_wf(r->0@),
    {
        proof {
            use_type_invariant(self);
            use_type_invariant(other);
            lemma_i64_mul_fits(self.num as int, other.num as int);
            lemma_i64_mul_fits(self.den as int, other.den as int);
            lemma_mul_strictly_positive(self.den as int, other.den as int);
        }
        let n: i128 = (self.num as i128) * (other.num as i128);
        let d: i128 = (self.den as i128) * (other.den as i128);
        Self::reduce(n, d)
    }

    /// Exact quotient; `None` when the divisor is zero or the reduced
    /// result does not fit.
    pub fn div(&self, other: &Rat) -> (r: Option<Rat>)
        ensures
            r is Some <==> other@.num != 0 && reduced_fits(
                q_div(self@, other@).num,
                q_div(self@, other@).den,
            ),
            r is Some ==> r->0@ == q_canon(q_div(self@, other@)),
            r is Some ==> q_eq(r->0@, q_div(self@, other@)) && q_wf(r->0@),
    {
        proof {
            use_type_invariant(self);
            use_type_invariant(other);
            lemma_i64_mul_fits(self.num as int, other.den as int);
            lemma_i64_mul_fits(self.den as int, other.num as int);
        }
        if other.num == 0 {
            return None;
        }
        let n: i128 = (self.num as i128) * (other.den as i128);
        let d: i128 = (self.den as i128) * (other.num as i128);
        if other.num < 0 {
            proof {
                lemma_mul_strictly_positive(self.den as int, -(other.num as int));
                lemma_mul_unary_negation(self.den as int, other.num as int);
                lemma_mul_unary_negation(self.num as int, other.den as int);
            }
            Self::reduce(-n, -d)
        } else {
            proof {
                lemma_mul_strictly_positive(self.den as int, other.num as int);
            }
            Self::reduce(n, d)
        }
    }

    /// Exact equality test by cross-multiplication.
    pub fn eq_rat(&self, other: &Rat) -> (r: bool)
        ensures
            r == q_eq(self@, other@),
    {
        proof {
            use_type_invariant(self);
            use_type_invariant(other);
            lemma_i64_mul_fits(self.num as int, other.den as int);
            lemma_i64_mul_fits(other.num as int, self.den as int);
        }
        (self.num as i128) * (other.den as i128) == (other.num as i128) * (self.den as i128)
    }
}

} // verus!
