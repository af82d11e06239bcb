//! Points on or inside the unit circle, in fixed point, and their product.
//!
//! A sine oscillator keeps its phase as such a point and advances it by
//! multiplying with the point that stands for one phase step. Products are
//! rounded toward zero, so a point never leaves the unit disc.
use vstd::prelude::*;
use crate::units::trunc_div;

verus! {

/// The fixed-point value of one: coordinates are held in units of `1 / ONE`.
pub const ONE: i128 = 0x4000_0000_0000_0000;

/// Whether the point `(re, im)` lies on or inside the unit circle.
pub open spec fn in_unit_disc(re: int, im: int) -> bool {
    re * re + im * im <= ONE * ONE
}

/// Product of the complex numbers `a` and `b`, each coordinate rounded
/// toward zero.
pub open spec fn rotor_product(a: (int, int), b: (int, int)) -> (int, int) {
    (trunc_div(a.0 * b.0 - a.1 * b.1, ONE as int), trunc_div(a.0 * b.1 + a.1 * b.0, ONE as int))
}

/// A coordinate of a point of the unit disc is at most one in magnitude.
pub proof fn lemma_unit_disc_bounds(re: int, im: int)
    requires
        in_unit_disc(re, im),
    ensures
        -ONE <= re <= ONE,
        -ONE <= im <= ONE,
{
    assert(-ONE <= re <= ONE && -ONE <= im <= ONE) by (nonlinear_arith)
        requires
            re * re + im * im <= ONE * ONE,
            ONE > 0,
    ;
}

/// Rounding toward zero does not lengthen: the square of the rounded
/// quotient, scaled back, is at most the square of the dividend.
proof fn lemma_trunc_div_square(x: int, d: int)
    requires
        d > 0,
    ensures
        (trunc_div(x, d) * d) * (trunc_div(x, d) * d) <= x * x,
{
    let q = trunc_div(x, d);
    if x >= 0 {
        assert(0 <= q * d <= x) by (nonlinear_arith)
            requires
                q == x / d,
                x >= 0,
                d > 0,
        ;
        assert((q * d) * (q * d) <= x * x) by (nonlinear_arith)
            requires
                0 <= q * d <= x,
        ;
    } else {
        let m = (-x) / d;
        assert(0 <= m * d <= -x) by (nonlinear_arith)
            requires
                m == (-x) / d,
                -x >= 0,
                d > 0,
        ;
        assert(q * d == -(m * d)) by (nonlinear_arith)
            requires
                q == -m,
        ;
        assert((q * d) * (q * d) <= x * x) by (nonlinear_arith)
            requires
                q * d == -(m * d),
                0 <= m * d <= -x,
        ;
    }
}

/// The squared length of a complex product is the product of the squared
/// lengths.
proof fn lemma_norm_multiplicative(a: int, b: int, c: int, d: int)
    ensures
        (a * c - b * d) * (a * c - b * d) + (a * d + b * c) * (a * d + b * c) == (a * a + b * b)
            * (c * c + d * d),
{
    let p = a * c;
    let q = b * d;
    let u = a * d;
    let v = b * c;
    assert((p - q) * (p - q) + (u + v) * (u + v) == p * p + q * q + u * u + v * v + 2 * (u * v)
        - 2 * (p * q)) by (nonlinear_arith);
    assert(p * q == u * v) by (nonlinear_arith)
        requires
            p == a * c,
            q == b * d,
            u == a * d,
            v == b * c,
    ;
    assert(p * p == (a * a) * (c * c)) by (nonlinear_arith)
        requires
            p == a * c,
    ;
    assert(q * q == (b * b) * (d * d)) by (nonlinear_arith)
        requires
            q == b * d,
    ;
    assert(u * u == (a * a) * (d * d)) by (nonlinear_arith)
        requires
            u == a * d,
    ;
    assert(v * v == (b * b) * (c * c)) by (nonlinear_arith)
        requires
            v == b * c,
    ;
    let a2 = a * a;
    let b2 = b * b;
    let c2 = c * c;
    let d2 = d * d;
    assert((a2 + b2) * (c2 + d2) == a2 * c2 + a2 * d2 + b2 * c2 + b2 * d2) by (nonlinear_arith);
}

/// The product of two points of the unit disc lies in the unit disc.
pub proof fn lemma_product_in_unit_disc(a: (int, int), b: (int, int))
    requires
        in_unit_disc(a.0, a.1),
        in_unit_disc(b.0, b.1),
    ensures
        in_unit_disc(rotor_product(a, b).0, rotor_product(a, b).1),
{
    let x = a.0 * b.0 - a.1 * b.1;
    let y = a.0 * b.1 + a.1 * b.0;
    let r = trunc_div(x, ONE as int);
    let s = trunc_div(y, ONE as int);
    let na = a.0 * a.0 + a.1 * a.1;
    let nb = b.0 * b.0 + b.1 * b.1;
    let one2 = ONE * ONE;
    lemma_norm_multiplicative(a.0, a.1, b.0, b.1);
    assert(0 <= na && 0 <= nb) by (nonlinear_arith)
        requires
            na == a.0 * a.0 + a.1 * a.1,
            nb == b.0 * b.0 + b.1 * b.1,
    ;
    assert(na * nb <= one2 * one2) by (nonlinear_arith)
        requires
            0 <= na <= one2,
            0 <= nb <= one2,
    ;
    lemma_trunc_div_square(x, ONE as int);
    lemma_trunc_div_square(y, ONE as int);
    assert((r * ONE) * (r * ONE) == (r * r) * one2) by (nonlinear_arith)
        requires
            one2 == ONE * ONE,
    ;
    assert((s * ONE) * (s * ONE) == (s * s) * one2) by (nonlinear_arith)
        requires
            one2 == ONE * ONE,
    ;
    assert(r * r + s * s <= one2) by (nonlinear_arith)
        requires
            (r * r) * one2 + (s * s) * one2 <= one2 * one2,
            one2 > 0,
    ;
}

/// A point on or inside the unit circle: the phase of a sine oscillator, or
/// the rotation that one sample advances it by.
#[derive(Clone, Copy, Debug)]
pub struct Rotor {
    re: i128,
    im: i128,
}

impl View for Rotor {
    type V = (int, int);

    closed spec fn view(&self) -> (int, int) {
        (self.re as int, self.im as int)
    }
}

impl Rotor {
    /// The invariant of the type: the point lies on or inside the unit
    /// circle.
    #[verifier::type_invariant]
    pub closed spec fn inside(self) -> bool {
        in_unit_disc(self.re as int, self.im as int)
    }

    /// What the invariant says of the view.
    pub proof fn lemma_inside(self)
        requires
            self.inside(),
        ensures
            in_unit_disc(self@.0, self@.1),
    {
    }

    /// The point `(re, im)`, if it lies on or inside the unit circle.
    pub fn new(re: i128, im: i128) -> (point: Option<Rotor>)
        ensures
            point is Some <==> in_unit_disc(re as int, im as int),
            point is Some ==> point->Some_0@ == (re as int, im as int),
    {
        if re < -ONE || re > ONE || im < -ONE || im > ONE {
            proof {
                if in_unit_disc(re as int, im as int) {
                    lemma_unit_disc_bounds(re as int, im as int);
                }
            }
            return None;
        }
        assert(0 <= re * re <= ONE * ONE && 0 <= im * im <= ONE * ONE) by (nonlinear_arith)
            requires
                -ONE <= re <= ONE,
                -ONE <= im <= ONE,
        ;
        if re * re + im * im <= ONE * ONE {
            Some(Rotor { re, im })
        } else {
            None
        }
    }

    /// The point at angle zero, `(ONE, 0)`.
    pub fn unit() -> (point: Rotor)
        ensures
            point@ == (ONE as int, 0int),
    {
        Rotor { re: ONE, im: 0 }
    }

    /// The real coordinate.
    pub fn re(&self) -> (re: i128)
        ensures
            re == self@.0,
            -ONE <= re <= ONE,
    {
        proof {
            use_type_invariant(self);
            lemma_unit_disc_bounds(self.re as int, self.im as int);
        }
        self.re
    }

    /// The imaginary coordinate.
    pub fn im(&self) -> (im: i128)
        ensures
            im == self@.1,
            -ONE <= im <= ONE,
    {
        proof {
            use_type_invariant(self);
            lemma_unit_disc_bounds(self.re as int, self.im as int);
        }
        self.im
    }

    /// The product of this point and `step`, each coordinate rounded toward
    /// zero.
    pub fn times(&self, step: &Rotor) -> (point: Rotor)
        ensures
            point@ == rotor_product(self@, step@),
    {
        proof {
            use_type_invariant(self);
            use_type_invariant(step);
            lemma_unit_disc_bounds(self.re as int, self.im as int);
            lemma_unit_disc_bounds(step.re as int, step.im as int);
            lemma_product_in_unit_disc(self@, step@);
        }
        let (a, b, c, d) = (self.re, self.im, step.re, step.im);
        assert(-(ONE * ONE) <= a * c <= ONE * ONE && -(ONE * ONE) <= b * d <= ONE * ONE && -(ONE
            * ONE) <= a * d <= ONE * ONE && -(ONE * ONE) <= b * c <= ONE * ONE)
            by (nonlinear_arith)
            requires
                -ONE <= a <= ONE,
                -ONE <= b <= ONE,
                -ONE <= c <= ONE,
                -ONE <= d <= ONE,
        ;
        let re: i128 = (a * c - b * d) / ONE;
        let im: i128 = (a * d + b * c) / ONE;
        Rotor { re, im }
    }
}

} // verus!
