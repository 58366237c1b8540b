//! Exact rational numbers with a bounded representation.
//!
//! Every quantity of the timing core (tempo, beat coordinate, elapsed time)
//! is a rational number held as an `i64` numerator over a positive `i64`
//! denominator.  Arithmetic is exact: results are reduced by the greatest
//! common divisor and an operation reports `None` when the reduced result
//! does not fit the representation.  Specifications speak about the
//! unbounded value of a rational through the ghost pair [`Qv`].

use vstd::prelude::*;

verus! {

/// The mathematical value of a rational: an unbounded numerator over an
/// unbounded positive denominator.  Ghost only.
pub struct Qv {
    pub n: int,
    pub d: int,
}

/// Shorthand constructor for a ghost rational value.
pub open spec fn qv(n: int, d: int) -> Qv {
    Qv { n, d }
}

/// A ghost rational value is well formed when its denominator is positive.
pub open spec fn q_wf(a: Qv) -> bool {
    a.d > 0
}

/// Value equality of two ghost rationals, by cross multiplication.
pub open spec fn q_eq(a: Qv, b: Qv) -> bool {
    a.n * b.d == b.n * a.d
}

/// `a <= b` as rational values (denominators must be positive).
pub open spec fn q_le(a: Qv, b: Qv) -> bool {
    a.n * b.d <= b.n * a.d
}

/// `a < b` as rational values (denominators must be positive).
pub open spec fn q_lt(a: Qv, b: Qv) -> bool {
    a.n * b.d < b.n * a.d
}

pub open spec fn q_add(a: Qv, b: Qv) -> Qv {
    qv(a.n * b.d + b.n * a.d, a.d * b.d)
}

pub open spec fn q_sub(a: Qv, b: Qv) -> Qv {
    qv(a.n * b.d - b.n * a.d, a.d * b.d)
}

pub open spec fn q_mul(a: Qv, b: Qv) -> Qv {
    qv(a.n * b.n, a.d * b.d)
}

/// Division; defined so that the result keeps a positive denominator
/// whenever the divisor is not zero.
pub open spec fn q_div(a: Qv, b: Qv) -> Qv {
    if b.n >= 0 {
        qv(a.n * b.d, a.d * b.n)
    } else {
        qv(-(a.n * b.d), -(a.d * b.n))
    }
}

pub open spec fn q_int(i: int) -> Qv {
    qv(i, 1)
}

pub open spec fn q_zero() -> Qv {
    q_int(0)
}

pub open spec fn q_min(a: Qv, b: Qv) -> Qv {
    if q_le(a, b) {
        a
    } else {
        b
    }
}

pub open spec fn q_max(a: Qv, b: Qv) -> Qv {
    if q_le(a, b) {
        b
    } else {
        a
    }
}

/// The structurally chosen smaller operand (the left one when equal).
pub open spec fn rat_min(a: Rat, b: Rat) -> Rat {
    if q_le(a@, b@) {
        a
    } else {
        b
    }
}

/// The structurally chosen larger operand (the right one when equal).
pub open spec fn rat_max(a: Rat, b: Rat) -> Rat {
    if q_le(a@, b@) {
        b
    } else {
        a
    }
}

/// `|t - e|` as a ghost rational value.
pub open spec fn q_abs_diff(a: Qv, b: Qv) -> Qv {
    if q_le(a, b) {
        q_sub(b, a)
    } else {
        q_sub(a, b)
    }
}

/// Absolute value of an unbounded integer.
pub open spec fn int_abs(n: int) -> int {
    if n < 0 {
        -n
    } else {
        n
    }
}

/// Greatest common divisor by Euclid's algorithm.
pub open spec fn gcd_nat(a: nat, b: nat) -> nat
    decreases b,
{
    if b == 0 {
        a
    } else {
        gcd_nat(b, a % b)
    }
}

/// `gcd_nat(a, b)` is positive and divides both arguments, provided at
/// least one of them is positive.
pub proof fn lemma_gcd_divides(a: nat, b: nat)
    requires
        a > 0 || b > 0,
    ensures
        gcd_nat(a, b) > 0,
        a % gcd_nat(a, b) == 0,
        b % gcd_nat(a, b) == 0,
    decreases b,
{
    if b == 0 {
        assert(gcd_nat(a, b) == a);
        vstd::arithmetic::div_mod::lemma_mod_self_0(a as int);
        vstd::arithmetic::div_mod::lemma_small_mod(0, a);
    } else {
        let r = a % b;
        lemma_gcd_divides(b, r);
        let g = gcd_nat(b, r);
        assert(gcd_nat(a, b) == g);
        vstd::arithmetic::div_mod::lemma_fundamental_div_mod(a as int, b as int);
        vstd::arithmetic::div_mod::lemma_fundamental_div_mod(b as int, g as int);
        vstd::arithmetic::div_mod::lemma_fundamental_div_mod(r as int, g as int);
        let q = a as int / b as int;
        let kb = b as int / g as int;
        let kr = r as int / g as int;
        assert(a as int == g as int * (kb * q + kr)) by (nonlinear_arith)
            requires
                a as int == b as int * q + r,
                b as int == g as int * kb + (b as nat % g) as int,
                r as int == g as int * kr + (r as nat % g) as int,
                b as nat % g == 0,
                r as nat % g == 0,
        ;
        vstd::arithmetic::div_mod::lemma_mod_multiples_basic(kb * q + kr, g as int);
        assert((g as int * (kb * q + kr)) % (g as int) == ((kb * q + kr) * g as int) % (
        g as int)) by (nonlinear_arith);
    }
}

/// Whether the reduced form of `x` fits the bounded representation.
pub open spec fn q_fits(x: Qv) -> bool {
    let a = int_abs(x.n);
    let g = gcd_nat(a as nat, x.d as nat) as int;
    a / g <= i64::MAX && x.d / g <= i64::MAX
}

/// The bounded rational holding the reduced form of `x`, or `None` when it
/// does not fit.  Every checked operation on [`Rat`] returns exactly this.
pub open spec fn norm(x: Qv) -> Option<Rat> {
    let a = int_abs(x.n);
    let g = gcd_nat(a as nat, x.d as nat) as int;
    if a / g <= i64::MAX && x.d / g <= i64::MAX {
        Some(
            Rat {
                num: (if x.n < 0 {
                    -(a / g)
                } else {
                    a / g
                }) as i64,
                den: (x.d / g) as i64,
            },
        )
    } else {
        None
    }
}

/// Value equality is transitive.
pub proof fn lemma_q_eq_trans(a: Qv, b: Qv, c: Qv)
    requires
        q_wf(a),
        q_wf(b),
        q_wf(c),
        q_eq(a, b),
        q_eq(b, c),
    ensures
        q_eq(a, c),
{
    assert(a.n * c.d == c.n * a.d) by (nonlinear_arith)
        requires
            a.n * b.d == b.n * a.d,
            b.n * c.d == c.n * b.d,
            a.d > 0,
            b.d > 0,
            c.d > 0,
    ;
}

/// Ordering is invariant under replacing either side by an equal value.
pub proof fn lemma_q_le_compat(a: Qv, b: Qv, a2: Qv, b2: Qv)
    requires
        q_wf(a),
        q_wf(b),
        q_wf(a2),
        q_wf(b2),
        q_eq(a, a2),
        q_eq(b, b2),
    ensures
        q_le(a, b) <==> q_le(a2, b2),
        q_lt(a, b) <==> q_lt(a2, b2),
{
    assert((a.n * b.d <= b.n * a.d <==> a2.n * b2.d <= b2.n * a2.d) && (a.n * b.d < b.n * a.d
        <==> a2.n * b2.d < b2.n * a2.d)) by (nonlinear_arith)
        requires
            a.n * a2.d == a2.n * a.d,
            b.n * b2.d == b2.n * b.d,
            a.d > 0,
            b.d > 0,
            a2.d > 0,
            b2.d > 0,
    ;
}

/// Ordering is transitive.
pub proof fn lemma_q_le_trans(a: Qv, b: Qv, c: Qv)
    requires
        q_wf(a),
        q_wf(b),
        q_wf(c),
        q_le(a, b),
        q_le(b, c),
    ensures
        q_le(a, c),
        q_lt(a, b) || q_lt(b, c) ==> q_lt(a, c),
{
    assert(a.n * c.d <= c.n * a.d) by (nonlinear_arith)
        requires
            a.n * b.d <= b.n * a.d,
            b.n * c.d <= c.n * b.d,
            a.d > 0,
            b.d > 0,
            c.d > 0,
    ;
    if q_lt(a, b) {
        assert(a.n * c.d < c.n * a.d) by (nonlinear_arith)
            requires
                a.n * b.d < b.n * a.d,
                b.n * c.d <= c.n * b.d,
                a.d > 0,
                b.d > 0,
                c.d > 0,
        ;
    }
    if q_lt(b, c) {
        assert(a.n * c.d < c.n * a.d) by (nonlinear_arith)
            requires
                a.n * b.d <= b.n * a.d,
                b.n * c.d < c.n * b.d,
                a.d > 0,
                b.d > 0,
                c.d > 0,
        ;
    }
}

/// Replacing one summand by an equal value keeps the sum and the
/// difference equal.
pub proof fn lemma_q_add_congr_left(a: Qv, a2: Qv, b: Qv)
    requires
        q_wf(a),
        q_wf(a2),
        q_wf(b),
        q_eq(a, a2),
    ensures
        q_eq(q_add(a, b), q_add(a2, b)),
        q_eq(q_sub(a, b), q_sub(a2, b)),
        q_eq(q_sub(b, a), q_sub(b, a2)),
{
    vstd::arithmetic::mul::lemma_mul_is_commutative(a.d, a2.d);
    assert((a.n * b.d + b.n * a.d) * a2.d == (a.n * a2.d) * b.d + b.n * (a.d
        * a2.d)) by (nonlinear_arith);
    assert((a2.n * b.d + b.n * a2.d) * a.d == (a2.n * a.d) * b.d + b.n * (a2.d
        * a.d)) by (nonlinear_arith);
    assert((a.n * b.d + b.n * a.d) * a2.d == (a2.n * b.d + b.n * a2.d) * a.d);
    vstd::arithmetic::mul::lemma_mul_is_associative(a.n * b.d + b.n * a.d, a2.d, b.d);
    vstd::arithmetic::mul::lemma_mul_is_associative(a2.n * b.d + b.n * a2.d, a.d, b.d);
    assert((a.n * b.d - b.n * a.d) * a2.d == (a.n * a2.d) * b.d - b.n * (a.d
        * a2.d)) by (nonlinear_arith);
    assert((a2.n * b.d - b.n * a2.d) * a.d == (a2.n * a.d) * b.d - b.n * (a2.d
        * a.d)) by (nonlinear_arith);
    assert((a.n * b.d - b.n * a.d) * a2.d == (a2.n * b.d - b.n * a2.d) * a.d);
    vstd::arithmetic::mul::lemma_mul_is_associative(a.n * b.d - b.n * a.d, a2.d, b.d);
    vstd::arithmetic::mul::lemma_mul_is_associative(a2.n * b.d - b.n * a2.d, a.d, b.d);
    assert((b.n * a.d - a.n * b.d) * a2.d == b.n * (a.d * a2.d) - (a.n * a2.d)
        * b.d) by (nonlinear_arith);
    assert((b.n * a2.d - a2.n * b.d) * a.d == b.n * (a2.d * a.d) - (a2.n * a.d)
        * b.d) by (nonlinear_arith);
    assert((b.n * a.d - a.n * b.d) * a2.d == (b.n * a2.d - a2.n * b.d) * a.d);
    vstd::arithmetic::mul::lemma_mul_is_associative(b.n * a.d - a.n * b.d, a2.d, b.d);
    vstd::arithmetic::mul::lemma_mul_is_associative(b.n * a2.d - a2.n * b.d, a.d, b.d);
    vstd::arithmetic::mul::lemma_mul_is_commutative(a2.d, b.d);
    vstd::arithmetic::mul::lemma_mul_is_commutative(a.d, b.d);
}

/// Sums of equal values are equal.
pub proof fn lemma_q_add_compat(a: Qv, b: Qv, a2: Qv, b2: Qv)
    requires
        q_wf(a),
        q_wf(b),
        q_wf(a2),
        q_wf(b2),
        q_eq(a, a2),
        q_eq(b, b2),
    ensures
        q_eq(q_add(a, b), q_add(a2, b2)),
        q_eq(q_sub(a, b), q_sub(a2, b2)),
{
    lemma_q_ops_wf(a, b);
    lemma_q_ops_wf(a2, b);
    lemma_q_ops_wf(b, a2);
    lemma_q_ops_wf(b2, a2);
    lemma_q_ops_wf(a2, b2);
    lemma_q_add_congr_left(a, a2, b);
    lemma_q_add_sub(a2, b);
    lemma_q_add_congr_left(b, b2, a2);
    lemma_q_add_sub(b2, a2);
    lemma_q_eq_trans(q_add(a, b), q_add(a2, b), q_add(b, a2));
    lemma_q_eq_trans(q_add(a, b), q_add(b, a2), q_add(b2, a2));
    lemma_q_eq_trans(q_add(a, b), q_add(b2, a2), q_add(a2, b2));
    lemma_q_eq_trans(q_sub(a, b), q_sub(a2, b), q_sub(a2, b2));
}

/// The basic operations keep denominators positive.
pub proof fn lemma_q_ops_wf(a: Qv, b: Qv)
    requires
        q_wf(a),
        q_wf(b),
    ensures
        q_wf(q_add(a, b)),
        q_wf(q_sub(a, b)),
        q_wf(q_mul(a, b)),
        q_lt(q_zero(), b) ==> q_wf(q_div(a, b)),
        q_wf(q_min(a, b)),
        q_wf(q_max(a, b)),
{
    vstd::arithmetic::mul::lemma_mul_strictly_positive(a.d, b.d);
    if q_lt(q_zero(), b) {
        assert(b.n > 0) by (nonlinear_arith)
            requires
                0 * b.d < b.n * 1,
        ;
        vstd::arithmetic::mul::lemma_mul_strictly_positive(a.d, b.n);
    }
}

/// Products and quotients of equal values are equal.
pub proof fn lemma_q_mul_compat(a: Qv, b: Qv, a2: Qv, b2: Qv)
    requires
        q_wf(a),
        q_wf(b),
        q_wf(a2),
        q_wf(b2),
        q_eq(a, a2),
        q_eq(b, b2),
    ensures
        q_eq(q_mul(a, b), q_mul(a2, b2)),
        q_lt(q_zero(), b) && q_lt(q_zero(), b2) ==> q_eq(q_div(a, b), q_div(a2, b2)),
{
    assert((a.n * b.n) * (a2.d * b2.d) == (a2.n * b2.n) * (a.d * b.d)) by (nonlinear_arith)
        requires
            a.n * a2.d == a2.n * a.d,
            b.n * b2.d == b2.n * b.d,
            a.d > 0,
            b.d > 0,
            a2.d > 0,
            b2.d > 0,
    ;
    if q_lt(q_zero(), b) && q_lt(q_zero(), b2) {
        assert((a.n * b.d) * (a2.d * b2.n) == (a2.n * b2.d) * (a.d * b.n)) by (nonlinear_arith)
            requires
                a.n * a2.d == a2.n * a.d,
                b.n * b2.d == b2.n * b.d,
                a.d > 0,
                b.d > 0,
                a2.d > 0,
                b2.d > 0,
                b.n > 0,
                b2.n > 0,
        ;
    }
}

/// Adding and then subtracting the same value gives the value back, and
/// subtracting a value from itself gives zero.
pub proof fn lemma_q_add_sub(a: Qv, b: Qv)
    requires
        q_wf(a),
        q_wf(b),
    ensures
        q_eq(q_add(b, q_sub(a, b)), a),
        q_eq(q_sub(q_add(a, b), b), a),
        q_eq(q_sub(a, a), q_zero()),
        q_eq(q_add(a, q_zero()), a),
        q_eq(q_add(a, b), q_add(b, a)),
{
    assert((b.n * (a.d * b.d) + (a.n * b.d - b.n * a.d) * b.d) * a.d == a.n * (b.d * (a.d * b.d))
        && ((a.n * b.d + b.n * a.d) * b.d - b.n * (a.d * b.d)) * a.d == a.n * ((a.d * b.d) * b.d)
        && (a.n * b.d + b.n * a.d) * (b.d * a.d) == (b.n * a.d + a.n * b.d) * (a.d
        * b.d)) by (nonlinear_arith)
        requires
            a.d > 0,
            b.d > 0,
    ;
}

/// Associativity of addition, up to value equality.
pub proof fn lemma_q_add_assoc(a: Qv, b: Qv, c: Qv)
    requires
        q_wf(a),
        q_wf(b),
        q_wf(c),
    ensures
        q_eq(q_add(q_add(a, b), c), q_add(a, q_add(b, c))),
{
    assert(((a.n * b.d + b.n * a.d) * c.d + c.n * (a.d * b.d)) * (a.d * (b.d * c.d)) == (a.n * (b.d
        * c.d) + (b.n * c.d + c.n * b.d) * a.d) * ((a.d * b.d) * c.d)) by (nonlinear_arith)
        requires
            a.d > 0,
            b.d > 0,
            c.d > 0,
    ;
}

/// Multiplying and dividing by the same positive value cancel.
pub proof fn lemma_q_mul_div_cancel(a: Qv, v: Qv)
    requires
        q_wf(a),
        q_wf(v),
        q_lt(q_zero(), v),
    ensures
        q_eq(q_div(q_mul(a, v), v), a),
        q_eq(q_mul(q_div(a, v), v), a),
{
    assert(v.n > 0) by (nonlinear_arith)
        requires
            0 * v.d < v.n * 1,
    ;
    assert(((a.n * v.n) * v.d) * a.d == a.n * ((a.d * v.d) * v.n) && ((a.n * v.d) * v.n) * a.d
        == a.n * ((a.d * v.n) * v.d)) by (nonlinear_arith)
        requires
            v.n > 0,
            a.d > 0,
            v.d > 0,
    ;
}

/// Addition respects ordering.
pub proof fn lemma_q_le_add_mono(a: Qv, b: Qv, c: Qv, d: Qv)
    requires
        q_wf(a),
        q_wf(b),
        q_wf(c),
        q_wf(d),
        q_le(a, b),
        q_le(c, d),
    ensures
        q_le(q_add(a, c), q_add(b, d)),
        q_lt(a, b) && q_le(c, d) ==> q_lt(q_add(a, c), q_add(b, d)),
{
    lemma_q_ops_wf(a, c);
    lemma_q_ops_wf(b, c);
    lemma_q_ops_wf(c, b);
    lemma_q_ops_wf(d, b);
    lemma_q_ops_wf(b, d);
    lemma_q_le_add_mono_left(a, b, c);
    lemma_q_add_sub(b, c);
    lemma_q_le_add_mono_left(c, d, b);
    lemma_q_add_sub(b, d);
    lemma_q_le_compat(q_add(b, c), q_add(c, b), q_add(b, c), q_add(c, b));
    lemma_q_le_compat(q_add(a, c), q_add(b, c), q_add(a, c), q_add(c, b));
    lemma_q_le_compat(q_add(c, b), q_add(d, b), q_add(c, b), q_add(b, d));
    lemma_q_le_trans(q_add(a, c), q_add(c, b), q_add(b, d));
}

/// Adding the same value on the right respects ordering.
pub proof fn lemma_q_le_add_mono_left(a: Qv, b: Qv, c: Qv)
    requires
        q_wf(a),
        q_wf(b),
        q_wf(c),
        q_le(a, b),
    ensures
        q_le(q_add(a, c), q_add(b, c)),
        q_lt(a, b) ==> q_lt(q_add(a, c), q_add(b, c)),
{
    assert((a.n * c.d + c.n * a.d) * b.d == (a.n * b.d) * c.d + c.n * (a.d
        * b.d)) by (nonlinear_arith);
    assert((b.n * c.d + c.n * b.d) * a.d == (b.n * a.d) * c.d + c.n * (a.d
        * b.d)) by (nonlinear_arith);
    vstd::arithmetic::mul::lemma_mul_inequality(a.n * b.d, b.n * a.d, c.d);
    vstd::arithmetic::mul::lemma_mul_inequality(
        (a.n * c.d + c.n * a.d) * b.d,
        (b.n * c.d + c.n * b.d) * a.d,
        c.d,
    );
    vstd::arithmetic::mul::lemma_mul_is_associative(a.n * c.d + c.n * a.d, b.d, c.d);
    vstd::arithmetic::mul::lemma_mul_is_associative(b.n * c.d + c.n * b.d, a.d, c.d);
    if q_lt(a, b) {
        vstd::arithmetic::mul::lemma_mul_strict_inequality(a.n * b.d, b.n * a.d, c.d);
        vstd::arithmetic::mul::lemma_mul_strict_inequality(
            (a.n * c.d + c.n * a.d) * b.d,
            (b.n * c.d + c.n * b.d) * a.d,
            c.d,
        );
    }
}

/// Subtraction respects ordering: it is monotone in the left argument and
/// antitone in the right one.
pub proof fn lemma_q_le_sub_mono(a: Qv, b: Qv, c: Qv)
    requires
        q_wf(a),
        q_wf(b),
        q_wf(c),
    ensures
        q_le(a, b) ==> q_le(q_sub(a, c), q_sub(b, c)),
        q_le(a, b) ==> q_le(q_sub(c, b), q_sub(c, a)),
        q_lt(a, b) ==> q_lt(q_sub(a, c), q_sub(b, c)),
        q_le(a, c) <==> q_le(q_sub(a, c), q_zero()),
        q_le(c, a) <==> q_le(q_zero(), q_sub(a, c)),
        q_lt(c, a) <==> q_lt(q_zero(), q_sub(a, c)),
{
    assert((a.n * c.d - c.n * a.d) * b.d == (a.n * b.d) * c.d - c.n * (a.d
        * b.d)) by (nonlinear_arith);
    assert((b.n * c.d - c.n * b.d) * a.d == (b.n * a.d) * c.d - c.n * (a.d
        * b.d)) by (nonlinear_arith);
    assert((c.n * b.d - b.n * c.d) * a.d == c.n * (a.d * b.d) - (b.n * a.d)
        * c.d) by (nonlinear_arith);
    assert((c.n * a.d - a.n * c.d) * b.d == c.n * (a.d * b.d) - (a.n * b.d)
        * c.d) by (nonlinear_arith);
    vstd::arithmetic::mul::lemma_mul_is_associative(a.n * c.d - c.n * a.d, b.d, c.d);
    vstd::arithmetic::mul::lemma_mul_is_associative(b.n * c.d - c.n * b.d, a.d, c.d);
    vstd::arithmetic::mul::lemma_mul_is_associative(c.n * b.d - b.n * c.d, a.d, c.d);
    vstd::arithmetic::mul::lemma_mul_is_associative(c.n * a.d - a.n * c.d, b.d, c.d);
    vstd::arithmetic::mul::lemma_mul_is_commutative(a.d, c.d);
    vstd::arithmetic::mul::lemma_mul_is_commutative(b.d, c.d);
    if q_le(a, b) {
        vstd::arithmetic::mul::lemma_mul_inequality(a.n * b.d, b.n * a.d, c.d);
        vstd::arithmetic::mul::lemma_mul_inequality(
            (a.n * c.d - c.n * a.d) * b.d,
            (b.n * c.d - c.n * b.d) * a.d,
            c.d,
        );
        vstd::arithmetic::mul::lemma_mul_inequality(
            (c.n * b.d - b.n * c.d) * a.d,
            (c.n * a.d - a.n * c.d) * b.d,
            c.d,
        );
    }
    if q_lt(a, b) {
        vstd::arithmetic::mul::lemma_mul_strict_inequality(a.n * b.d, b.n * a.d, c.d);
        vstd::arithmetic::mul::lemma_mul_strict_inequality(
            (a.n * c.d - c.n * a.d) * b.d,
            (b.n * c.d - c.n * b.d) * a.d,
            c.d,
        );
    }
    assert((a.n * c.d - c.n * a.d) * 1 == a.n * c.d - c.n * a.d);
    assert(0 * (a.d * c.d) == 0) by (nonlinear_arith);
}

/// Multiplication and division by a positive value respect ordering.
pub proof fn lemma_q_le_mul_pos(a: Qv, b: Qv, v: Qv)
    requires
        q_wf(a),
        q_wf(b),
        q_wf(v),
        q_lt(q_zero(), v),
    ensures
        q_le(a, b) <==> q_le(q_mul(a, v), q_mul(b, v)),
        q_le(a, b) <==> q_le(q_div(a, v), q_div(b, v)),
        q_lt(a, b) <==> q_lt(q_mul(a, v), q_mul(b, v)),
        q_lt(a, b) <==> q_lt(q_div(a, v), q_div(b, v)),
        q_le(a, b) <==> q_le(q_mul(v, a), q_mul(v, b)),
        q_lt(a, b) <==> q_lt(q_mul(v, a), q_mul(v, b)),
{
    assert(((a.n * b.d <= b.n * a.d <==> (v.n * a.n) * (v.d * b.d) <= (v.n * b.n) * (v.d * a.d)) &&
        (a.n * b.d < b.n * a.d <==> (v.n * a.n) * (v.d * b.d) < (v.n * b.n) * (v.d
        * a.d)))) by (nonlinear_arith)
        requires
            0 * v.d < v.n * 1,
            a.d > 0,
            b.d > 0,
            v.d > 0,
    ;
    assert(v.n > 0) by (nonlinear_arith)
        requires
            0 * v.d < v.n * 1,
    ;
    assert(((a.n * b.d <= b.n * a.d <==> (a.n * v.n) * (b.d * v.d) <= (b.n * v.n) * (a.d * v.d)) &&
        (a.n * b.d <= b.n * a.d <==> (a.n * v.d) * (b.d * v.n) <= (b.n * v.d) * (a.d * v.n)) && (
    a.n * b.d < b.n * a.d <==> (a.n * v.n) * (b.d * v.d) < (b.n * v.n) * (a.d * v.d)) && (a.n * b.d
        < b.n * a.d <==> (a.n * v.d) * (b.d * v.n) < (b.n * v.d) * (a.d
        * v.n)))) by (nonlinear_arith)
        requires
            v.n > 0,
            a.d > 0,
            b.d > 0,
            v.d > 0,
    ;
}

/// Multiplication of values is commutative.
pub proof fn lemma_q_mul_comm(a: Qv, b: Qv)
    requires
        q_wf(a),
        q_wf(b),
    ensures
        q_eq(q_mul(a, b), q_mul(b, a)),
{
    assert((a.n * b.n) * (b.d * a.d) == (b.n * a.n) * (a.d * b.d)) by (nonlinear_arith);
}

/// A sum is at most its first summand exactly when the second summand is
/// at most zero, and similar one-sided comparisons.
pub proof fn lemma_q_add_le_iff(a: Qv, b: Qv)
    requires
        q_wf(a),
        q_wf(b),
    ensures
        q_le(q_add(a, b), a) <==> q_le(b, q_zero()),
        q_le(a, q_add(a, b)) <==> q_le(q_zero(), b),
        q_lt(a, q_add(a, b)) <==> q_lt(q_zero(), b),
{
    assert((a.n * b.d + b.n * a.d) * a.d == a.n * (a.d * b.d) + b.n * (a.d
        * a.d)) by (nonlinear_arith);
    assert((b.n * (a.d * a.d) <= 0 <==> b.n <= 0) && (0 <= b.n * (a.d * a.d) <==> 0 <= b.n) && (0
        < b.n * (a.d * a.d) <==> 0 < b.n)) by (nonlinear_arith)
        requires
            a.d > 0,
    ;
    assert((b.n * 1 <= 0 * b.d <==> b.n <= 0) && (0 * b.d <= b.n * 1 <==> 0 <= b.n) && (0 * b.d
        < b.n * 1 <==> 0 < b.n)) by (nonlinear_arith);
}

/// Regroupings of a single product, used to rebase composite numerators
/// onto a common denominator factor.
proof fn lemma_mono_regroup(x: int, h: int, m: int, a: int)
    ensures
        (x * (h * m)) * (h * a) == (x * h) * (m * (h * a)),
        (x * (m * a)) * (h * a) == (x * a) * (m * (h * a)),
        x * ((m * a) * (h * m)) == (x * m) * (m * (h * a)),
{
    vstd::arithmetic::mul::lemma_mul_is_associative(x, h * m, h * a);
    vstd::arithmetic::mul::lemma_mul_is_associative(h, m, h * a);
    vstd::arithmetic::mul::lemma_mul_is_associative(x, h, m * (h * a));
    vstd::arithmetic::mul::lemma_mul_is_associative(x, m * a, h * a);
    vstd::arithmetic::mul::lemma_mul_is_commutative(m, a);
    vstd::arithmetic::mul::lemma_mul_is_associative(a, m, h * a);
    vstd::arithmetic::mul::lemma_mul_is_associative(x, a, m * (h * a));
    vstd::arithmetic::mul::lemma_mul_is_associative(m, a, h * m);
    vstd::arithmetic::mul::lemma_mul_is_associative(a, h, m);
    vstd::arithmetic::mul::lemma_mul_is_commutative(a, h);
    vstd::arithmetic::mul::lemma_mul_is_commutative(h * a, m);
    vstd::arithmetic::mul::lemma_mul_is_associative(x, m, m * (h * a));
}

/// One more product regrouping, used to distribute a factor through a
/// sum of products.
proof fn lemma_mono_distrib(x: int, c: int, n: int, b: int, d: int)
    ensures
        ((x * c) * n) * ((b * d) * (c * d)) == ((x * n) * (c * d)) * ((b * c) * d),
{
    // pull the common factor (c * d) out of both sides
    vstd::arithmetic::mul::lemma_mul_is_associative((x * c) * n, b * d, c * d);
    vstd::arithmetic::mul::lemma_mul_is_associative(x * n, c * d, (b * c) * d);
    vstd::arithmetic::mul::lemma_mul_is_commutative(c * d, (b * c) * d);
    vstd::arithmetic::mul::lemma_mul_is_associative(x * n, (b * c) * d, c * d);
    // the remaining cores agree: ((x*c)*n)*(b*d) == (x*n)*((b*c)*d)
    vstd::arithmetic::mul::lemma_mul_is_associative(x, c, n);
    vstd::arithmetic::mul::lemma_mul_is_commutative(c, n);
    vstd::arithmetic::mul::lemma_mul_is_associative(x, n, c);
    vstd::arithmetic::mul::lemma_mul_is_associative(x * n, c, b * d);
    vstd::arithmetic::mul::lemma_mul_is_associative(c, b, d);
    vstd::arithmetic::mul::lemma_mul_is_commutative(c, b);
    vstd::arithmetic::mul::lemma_mul_is_associative(b, c, d);
    assert(((x * c) * n) * (b * d) == (x * n) * ((b * c) * d)) by {
        assert((x * c) * n == (x * n) * c);
        assert(((x * n) * c) * (b * d) == (x * n) * (c * (b * d)));
        assert(c * (b * d) == (b * c) * d);
    }
}

/// Splitting a difference at a midpoint: `h - a = (m - a) + (h - m)`.
pub proof fn lemma_q_sub_split(h: Qv, m: Qv, a: Qv)
    requires
        q_wf(h),
        q_wf(m),
        q_wf(a),
    ensures
        q_eq(q_sub(h, a), q_add(q_sub(m, a), q_sub(h, m))),
{
    let p = m.n * a.d - a.n * m.d;
    let q = h.n * m.d - m.n * h.d;
    let r = h.n * a.d - a.n * h.d;
    let w = m.d * (h.d * a.d);
    // the numerators satisfy p * h.d + q * a.d == r * m.d
    assert((m.n * a.d - a.n * m.d) * h.d == (m.n * h.d) * a.d - (a.n * h.d)
        * m.d) by (nonlinear_arith);
    assert((h.n * m.d - m.n * h.d) * a.d == (h.n * a.d) * m.d - (m.n * h.d)
        * a.d) by (nonlinear_arith);
    assert((h.n * a.d - a.n * h.d) * m.d == (h.n * a.d) * m.d - (a.n * h.d)
        * m.d) by (nonlinear_arith);
    assert(p * h.d + q * a.d == r * m.d);
    // rebase both sides of the claimed equality onto the factor w
    lemma_mono_regroup(p, h.d, m.d, a.d);
    lemma_mono_regroup(q, h.d, m.d, a.d);
    lemma_mono_regroup(r, h.d, m.d, a.d);
    vstd::arithmetic::mul::lemma_mul_is_distributive_add_other_way(
        h.d * a.d,
        p * (h.d * m.d),
        q * (m.d * a.d),
    );
    vstd::arithmetic::mul::lemma_mul_is_distributive_add_other_way(w, p * h.d, q * a.d);
    assert((p * (h.d * m.d) + q * (m.d * a.d)) * (h.d * a.d) == (p * h.d + q * a.d) * w);
    assert(r * ((m.d * a.d) * (h.d * m.d)) == (r * m.d) * w);
}

/// Multiplication distributes over addition, up to value equality.
pub proof fn lemma_q_mul_distrib(b: Qv, c: Qv, v: Qv)
    requires
        q_wf(b),
        q_wf(c),
        q_wf(v),
    ensures
        q_eq(q_mul(q_add(b, c), v), q_add(q_mul(b, v), q_mul(c, v))),
{
    let s1 = (b.n * c.d) * v.n;
    let s2 = (c.n * b.d) * v.n;
    let dd = (b.d * v.d) * (c.d * v.d);
    let t1 = (b.n * v.n) * (c.d * v.d);
    let t2 = (c.n * v.n) * (b.d * v.d);
    let ee = (b.d * c.d) * v.d;
    vstd::arithmetic::mul::lemma_mul_is_distributive_add_other_way(
        v.n,
        b.n * c.d,
        c.n * b.d,
    );
    vstd::arithmetic::mul::lemma_mul_is_distributive_add_other_way(dd, s1, s2);
    vstd::arithmetic::mul::lemma_mul_is_distributive_add_other_way(ee, t1, t2);
    lemma_mono_distrib(b.n, c.d, v.n, b.d, v.d);
    assert(s1 * dd == t1 * ee);
    lemma_mono_distrib(c.n, b.d, v.n, c.d, v.d);
    vstd::arithmetic::mul::lemma_mul_is_commutative(c.d * v.d, b.d * v.d);
    vstd::arithmetic::mul::lemma_mul_is_commutative(c.d, b.d);
    assert(((c.n * b.d) * v.n) * ((c.d * v.d) * (b.d * v.d)) == ((c.n * v.n) * (b.d * v.d)) * ((c.d
        * b.d) * v.d));
    assert(s2 * dd == t2 * ee);
    assert(((b.n * c.d + c.n * b.d) * v.n) * dd == (s1 + s2) * dd);
    assert((s1 + s2) * dd == s1 * dd + s2 * dd);
    assert((t1 + t2) * ee == t1 * ee + t2 * ee);
}

/// Splitting a weighted width at a midpoint:
/// `(h - a) * v = (m - a) * v + (h - m) * v`.
pub proof fn lemma_q_mul_sub_split(h: Qv, m: Qv, a: Qv, v: Qv)
    requires
        q_wf(h),
        q_wf(m),
        q_wf(a),
        q_wf(v),
    ensures
        q_eq(
            q_mul(q_sub(h, a), v),
            q_add(q_mul(q_sub(m, a), v), q_mul(q_sub(h, m), v)),
        ),
{
    lemma_q_sub_split(h, m, a);
    lemma_q_ops_wf(h, a);
    lemma_q_ops_wf(m, a);
    lemma_q_ops_wf(h, m);
    lemma_q_ops_wf(q_sub(m, a), q_sub(h, m));
    lemma_q_mul_compat(q_sub(h, a), v, q_add(q_sub(m, a), q_sub(h, m)), v);
    lemma_q_mul_distrib(q_sub(m, a), q_sub(h, m), v);
    lemma_q_ops_wf(q_sub(h, a), v);
    lemma_q_ops_wf(q_add(q_sub(m, a), q_sub(h, m)), v);
    lemma_q_ops_wf(q_sub(m, a), v);
    lemma_q_ops_wf(q_sub(h, m), v);
    lemma_q_ops_wf(q_mul(q_sub(m, a), v), q_mul(q_sub(h, m), v));
    lemma_q_eq_trans(
        q_mul(q_sub(h, a), v),
        q_mul(q_add(q_sub(m, a), q_sub(h, m)), v),
        q_add(q_mul(q_sub(m, a), v), q_mul(q_sub(h, m), v)),
    );
}

/// Zero is a left identity of addition, up to value equality.
pub proof fn lemma_q_add_zero_left(x: Qv)
    requires
        q_wf(x),
    ensures
        q_eq(q_add(q_zero(), x), x),
        q_eq(x, q_add(q_zero(), x)),
{
    lemma_q_add_sub(q_zero(), x);
    lemma_q_add_sub(x, q_zero());
    lemma_q_ops_wf(q_zero(), x);
    lemma_q_ops_wf(x, q_zero());
    lemma_q_eq_trans(q_add(q_zero(), x), q_add(x, q_zero()), x);
}

/// Two sums of two values each may be recombined crosswise.
pub proof fn lemma_q_add_exchange(x1: Qv, x2: Qv, y1: Qv, y2: Qv)
    requires
        q_wf(x1),
        q_wf(x2),
        q_wf(y1),
        q_wf(y2),
    ensures
        q_eq(q_add(q_add(x1, x2), q_add(y1, y2)), q_add(q_add(x1, y1), q_add(x2, y2))),
{
    lemma_q_ops_wf(x1, x2);
    lemma_q_ops_wf(y1, y2);
    lemma_q_ops_wf(x1, y1);
    lemma_q_ops_wf(x2, y2);
    lemma_q_ops_wf(x2, q_add(y1, y2));
    lemma_q_ops_wf(y1, x2);
    lemma_q_ops_wf(y1, q_add(x2, y2));
    lemma_q_ops_wf(x2, y2);
    // (x1+x2)+(y1+y2) ~ x1+(x2+(y1+y2))
    lemma_q_add_assoc(x1, x2, q_add(y1, y2));
    lemma_q_ops_wf(q_add(x1, x2), q_add(y1, y2));
    lemma_q_ops_wf(x1, q_add(x2, q_add(y1, y2)));
    // x2+(y1+y2) ~ (x2+y1)+y2 ~ (y1+x2)+y2 ~ y1+(x2+y2)
    lemma_q_add_assoc(x2, y1, y2);
    lemma_q_ops_wf(x2, y1);
    lemma_q_ops_wf(q_add(x2, y1), y2);
    lemma_q_add_sub(x2, y1);
    lemma_q_add_compat(q_add(x2, y1), y2, q_add(y1, x2), y2);
    lemma_q_ops_wf(q_add(y1, x2), y2);
    lemma_q_add_assoc(y1, x2, y2);
    lemma_q_eq_trans(
        q_add(x2, q_add(y1, y2)),
        q_add(q_add(x2, y1), y2),
        q_add(q_add(y1, x2), y2),
    );
    lemma_q_eq_trans(
        q_add(x2, q_add(y1, y2)),
        q_add(q_add(y1, x2), y2),
        q_add(y1, q_add(x2, y2)),
    );
    // x1+(x2+(y1+y2)) ~ x1+(y1+(x2+y2)) ~ (x1+y1)+(x2+y2)
    lemma_q_ops_wf(y1, q_add(x2, y2));
    lemma_q_add_compat(
        x1,
        q_add(x2, q_add(y1, y2)),
        x1,
        q_add(y1, q_add(x2, y2)),
    );
    lemma_q_ops_wf(x1, q_add(y1, q_add(x2, y2)));
    lemma_q_add_assoc(x1, y1, q_add(x2, y2));
    lemma_q_ops_wf(q_add(x1, y1), q_add(x2, y2));
    lemma_q_eq_trans(
        q_add(q_add(x1, x2), q_add(y1, y2)),
        q_add(x1, q_add(x2, q_add(y1, y2))),
        q_add(x1, q_add(y1, q_add(x2, y2))),
    );
    lemma_q_eq_trans(
        q_add(q_add(x1, x2), q_add(y1, y2)),
        q_add(x1, q_add(y1, q_add(x2, y2))),
        q_add(q_add(x1, y1), q_add(x2, y2)),
    );
}

/// Signs of products with a positive factor.
pub proof fn lemma_q_mul_sign(a: Qv, v: Qv)
    requires
        q_wf(a),
        q_wf(v),
        q_lt(q_zero(), v),
    ensures
        q_le(q_zero(), a) ==> q_le(q_zero(), q_mul(a, v)),
        q_lt(q_zero(), a) ==> q_lt(q_zero(), q_mul(a, v)),
        q_le(q_zero(), a) ==> q_le(q_zero(), q_div(a, v)),
        q_lt(q_zero(), a) ==> q_lt(q_zero(), q_div(a, v)),
{
    assert(v.n > 0) by (nonlinear_arith)
        requires
            0 * v.d < v.n * 1,
    ;
    assert(((0 * a.d <= a.n * 1 ==> 0 * (a.d * v.d) <= (a.n * v.n) * 1) && (0 * a.d < a.n * 1 ==> 0
        * (a.d * v.d) < (a.n * v.n) * 1) && (0 * a.d <= a.n * 1 ==> 0 * (a.d * v.n) <= (a.n * v.d)
        * 1) && (0 * a.d < a.n * 1 ==> 0 * (a.d * v.n) < (a.n * v.d) * 1))) by (nonlinear_arith)
        requires
            v.n > 0,
            a.d > 0,
            v.d > 0,
    ;
}

/// An exact rational number: `num / den` with `den` positive.
///
/// The numerator is kept above `i64::MIN` so that magnitudes are symmetric.
#[derive(Clone, Copy, Debug, PartialEq, Eq, Structural)]
pub struct Rat {
    pub num: i64,
    pub den: i64,
}

impl View for Rat {
    type V = Qv;

    open spec fn view(&self) -> Qv {
        qv(self.num as int, self.den as int)
    }
}

/// Bounds on the product of two values no larger than `i64::MAX` in
/// magnitude.
pub proof fn lemma_prod_bound(x: int, y: int)
    by (nonlinear_arith)
    requires
        -0x7fff_ffff_ffff_ffff <= x <= 0x7fff_ffff_ffff_ffff,
        -0x7fff_ffff_ffff_ffff <= y <= 0x7fff_ffff_ffff_ffff,
    ensures
        -(0x7fff_ffff_ffff_ffff * 0x7fff_ffff_ffff_ffff) <= x * y <= 0x7fff_ffff_ffff_ffff
            * 0x7fff_ffff_ffff_ffff,
        x >= 1 && y >= 1 ==> x * y >= 1,
{
}

/// A value equal (by cross multiplication) to a reduced one: the reduction
/// of `norm` does not change the rational value.
pub proof fn lemma_norm_some(x: Qv)
    requires
        q_wf(x),
    ensures
        norm(x) matches Some(v) ==> v.wf() && q_eq(v@, x),
        norm(x) is Some <==> q_fits(x),
{
    let a = int_abs(x.n);
    lemma_gcd_divides(a as nat, x.d as nat);
    let g = gcd_nat(a as nat, x.d as nat) as int;
    if norm(x) is Some {
        let v = norm(x)->Some_0;
        vstd::arithmetic::div_mod::lemma_fundamental_div_mod(a, g);
        vstd::arithmetic::div_mod::lemma_fundamental_div_mod(x.d, g);
        let ra = a / g;
        let rd = x.d / g;
        assert(a == g * ra && x.d == g * rd);
        assert(rd >= 1) by (nonlinear_arith)
            requires
                x.d == g * rd,
                x.d > 0,
                g > 0,
        ;
        assert(ra >= 0) by (nonlinear_arith)
            requires
                a == g * ra,
                a >= 0,
                g > 0,
        ;
        assert(ra * x.d == a * rd) by (nonlinear_arith)
            requires
                a == g * ra,
                x.d == g * rd,
        ;
        if x.n < 0 {
            assert(v.num as int == -ra && v.den as int == rd);
            assert((-ra) * x.d == x.n * rd) by (nonlinear_arith)
                requires
                    ra * x.d == a * rd,
                    a == -x.n,
            ;
        } else {
            assert(v.num as int == ra && v.den as int == rd);
        }
    }
}

impl Rat {
    /// Well-formed: positive denominator, numerator above `i64::MIN`.
    pub open spec fn wf(self) -> bool {
        self.den > 0 && self.num > i64::MIN
    }

    /// The rational with value `n`.
    pub fn from_int(n: i64) -> (r: Rat)
        requires
            n > i64::MIN,
        ensures
            r.wf(),
            r@ == q_int(n as int),
            r == (Rat { num: n, den: 1 }),
    {
        Rat { num: n, den: 1 }
    }

    /// The rational `num / den`; `None` unless `den` is positive and `num`
    /// is above `i64::MIN`.
    pub fn new(num: i64, den: i64) -> (r: Option<Rat>)
        ensures
            r matches Some(v) <==> den > 0 && num > i64::MIN,
            r matches Some(v) ==> v.wf() && v@ == qv(num as int, den as int),
    {
        if den > 0 && num > i64::MIN {
            Some(Rat { num, den })
        } else {
            None
        }
    }
}

impl Rat {
    /// Whether `self <= other` as rational values.
    pub fn le(&self, other: &Rat) -> (r: bool)
        requires
            self.wf(),
            other.wf(),
        ensures
            r == q_le(self@, other@),
    {
        proof {
            lemma_prod_bound(self.num as int, other.den as int);
            lemma_prod_bound(other.num as int, self.den as int);
        }
        (self.num as i128) * (other.den as i128) <= (other.num as i128) * (self.den as i128)
    }

    /// Whether `self < other` as rational values.
    pub fn lt(&self, other: &Rat) -> (r: bool)
        requires
            self.wf(),
            other.wf(),
        ensures
            r == q_lt(self@, other@),
    {
        proof {
            lemma_prod_bound(self.num as int, other.den as int);
            lemma_prod_bound(other.num as int, self.den as int);
        }
        (self.num as i128) * (other.den as i128) < (other.num as i128) * (self.den as i128)
    }

    /// Whether `self` and `other` denote the same rational value.
    pub fn eq_val(&self, other: &Rat) -> (r: bool)
        requires
            self.wf(),
            other.wf(),
        ensures
            r == q_eq(self@, other@),
    {
        proof {
            lemma_prod_bound(self.num as int, other.den as int);
            lemma_prod_bound(other.num as int, self.den as int);
        }
        (self.num as i128) * (other.den as i128) == (other.num as i128) * (self.den as i128)
    }

    /// Whether the value is zero.
    pub fn is_zero(&self) -> (r: bool)
        requires
            self.wf(),
        ensures
            r == q_eq(self@, q_zero()),
    {
        self.num == 0
    }

    /// Whether the value is strictly positive.
    pub fn is_pos(&self) -> (r: bool)
        requires
            self.wf(),
        ensures
            r == q_lt(q_zero(), self@),
    {
        self.num > 0
    }

    /// Exact sum, reduced; `None` when the reduced sum does not fit.
    pub fn add(&self, other: &Rat) -> (r: Option<Rat>)
        requires
            self.wf(),
            other.wf(),
        ensures
            r == norm(q_add(self@, other@)),
            r matches Some(v) ==> v.wf() && q_eq(v@, q_add(self@, other@)),
    {
        proof {
            lemma_prod_bound(self.num as int, other.den as int);
            lemma_prod_bound(other.num as int, self.den as int);
            lemma_prod_bound(self.den as int, other.den as int);
        }
        let n: i128 = (self.num as i128) * (other.den as i128) + (other.num as i128)
            * (self.den as i128);
        let d: i128 = (self.den as i128) * (other.den as i128);
        reduce(n, d)
    }

    /// Exact difference, reduced; `None` when it does not fit.
    pub fn sub(&self, other: &Rat) -> (r: Option<Rat>)
        requires
            self.wf(),
            other.wf(),
        ensures
            r == norm(q_sub(self@, other@)),
            r matches Some(v) ==> v.wf() && q_eq(v@, q_sub(self@, other@)),
    {
        proof {
            lemma_prod_bound(self.num as int, other.den as int);
            lemma_prod_bound(other.num as int, self.den as int);
            lemma_prod_bound(self.den as int, other.den as int);
        }
        let n: i128 = (self.num as i128) * (other.den as i128) - (other.num as i128)
            * (self.den as i128);
        let d: i128 = (self.den as i128) * (other.den as i128);
        reduce(n, d)
    }

    /// Exact product, reduced; `None` when it does not fit.
    pub fn mul(&self, other: &Rat) -> (r: Option<Rat>)
        requires
            self.wf(),
            other.wf(),
        ensures
            r == norm(q_mul(self@, other@)),
            r matches Some(v) ==> v.wf() && q_eq(v@, q_mul(self@, other@)),
    {
        proof {
            lemma_prod_bound(self.num as int, other.num as int);
            lemma_prod_bound(self.den as int, other.den as int);
        }
        let n: i128 = (self.num as i128) * (other.num as i128);
        let d: i128 = (self.den as i128) * (other.den as i128);
        reduce(n, d)
    }

    /// Exact quotient by a strictly positive divisor, reduced; `None` when
    /// it does not fit.
    pub fn div(&self, other: &Rat) -> (r: Option<Rat>)
        requires
            self.wf(),
            other.wf(),
            q_lt(q_zero(), other@),
        ensures
            r == norm(q_div(self@, other@)),
            r matches Some(v) ==> v.wf() && q_eq(v@, q_div(self@, other@)),
    {
        proof {
            lemma_prod_bound(self.num as int, other.den as int);
            lemma_prod_bound(self.den as int, other.num as int);
        }
        let n: i128 = (self.num as i128) * (other.den as i128);
        let d: i128 = (self.den as i128) * (other.num as i128);
        reduce(n, d)
    }

    /// The smaller of the two values (the left one when equal).
    pub fn min(&self, other: &Rat) -> (r: Rat)
        requires
            self.wf(),
            other.wf(),
        ensures
            r.wf(),
            r@ == q_min(self@, other@),
            r == rat_min(*self, *other),
    {
        if self.le(other) {
            *self
        } else {
            *other
        }
    }

    /// The larger of the two values (the right one when equal).
    pub fn max(&self, other: &Rat) -> (r: Rat)
        requires
            self.wf(),
            other.wf(),
        ensures
            r.wf(),
            r@ == q_max(self@, other@),
            r == rat_max(*self, *other),
    {
        if self.le(other) {
            *other
        } else {
            *self
        }
    }

    /// `|self - other|`, reduced; `None` when it does not fit.
    pub fn abs_diff(&self, other: &Rat) -> (r: Option<Rat>)
        requires
            self.wf(),
            other.wf(),
        ensures
            r == norm(q_abs_diff(self@, other@)),
            r matches Some(v) ==> v.wf() && q_eq(v@, q_abs_diff(self@, other@)),
    {
        if self.le(other) {
            other.sub(self)
        } else {
            self.sub(other)
        }
    }
}

/// Greatest common divisor of two machine words, matching [`gcd_nat`].
fn gcd_u128(a: u128, b: u128) -> (g: u128)
    ensures
        g as nat == gcd_nat(a as nat, b as nat),
    decreases b,
{
    let mut x: u128 = a;
    let mut y: u128 = b;
    while y != 0
        invariant
            gcd_nat(x as nat, y as nat) == gcd_nat(a as nat, b as nat),
        decreases y,
    {
        let t: u128 = x % y;
        x = y;
        y = t;
    }
    x
}

/// Reduce `n / d` by the greatest common divisor and box the result, or
/// report that it does not fit.
fn reduce(n: i128, d: i128) -> (r: Option<Rat>)
    requires
        d > 0,
        n > i128::MIN,
    ensures
        r == norm(qv(n as int, d as int)),
        r matches Some(v) ==> v.wf() && q_eq(v@, qv(n as int, d as int)),
{
    let neg: bool = n < 0;
    let a: u128 = if neg {
        (-n) as u128
    } else {
        n as u128
    };
    let du: u128 = d as u128;
    let g: u128 = gcd_u128(a, du);
    proof {
        lemma_gcd_divides(a as nat, du as nat);
        lemma_norm_some(qv(n as int, d as int));
    }
    let rn: u128 = a / g;
    let rd: u128 = du / g;
    if rn <= i64::MAX as u128 && rd <= i64::MAX as u128 {
        let num: i64 = if neg {
            -(rn as i64)
        } else {
            rn as i64
        };
        Some(Rat { num, den: rd as i64 })
    } else {
        None
    }
}

} // verus!
