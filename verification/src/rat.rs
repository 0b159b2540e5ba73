//! Exact rational scalars.
//!
//! A [`Rat`] holds a fraction as an `i64` numerator and a positive `i64`
//! denominator. Its mathematical value is the ghost fraction [`Q`] of
//! unbounded integers, and every operation is specified against exact
//! fraction arithmetic: an operation first forms the exact (unreduced)
//! result, divides out the greatest common divisor, and succeeds exactly
//! when the reduced fraction still fits the machine word. Intermediate
//! products are taken in `i128`, where a product of two `i64` values can
//! never overflow.

use vstd::arithmetic::div_mod::*;
use vstd::arithmetic::mul::*;
use vstd::prelude::*;

verus! {

/// The mathematical value of a scalar: a fraction `n / d` of unbounded
/// integers. A well-formed value keeps `d > 0`.
pub ghost struct Q {
    pub n: int,
    pub d: int,
}

/// Well-formed fraction: positive denominator.
pub open spec fn qwf(q: Q) -> bool {
    q.d > 0
}

/// The fractions denote the same rational number (cross multiplication).
pub open spec fn qeq(a: Q, b: Q) -> bool {
    a.n * b.d == b.n * a.d
}

/// `a <= b` as rational numbers; sound when both denominators are positive.
pub open spec fn qle(a: Q, b: Q) -> bool {
    a.n * b.d <= b.n * a.d
}

/// `a < b` as rational numbers; sound when both denominators are positive.
pub open spec fn qlt(a: Q, b: Q) -> bool {
    a.n * b.d < b.n * a.d
}

pub open spec fn qzero() -> Q {
    Q { n: 0, d: 1 }
}

pub open spec fn qint(n: int) -> Q {
    Q { n: n, d: 1 }
}

/// Exact (unreduced) sum.
pub open spec fn qadd(a: Q, b: Q) -> Q {
    Q { n: a.n * b.d + b.n * a.d, d: a.d * b.d }
}

pub open spec fn qneg(a: Q) -> Q {
    Q { n: -a.n, d: a.d }
}

pub open spec fn qsub(a: Q, b: Q) -> Q {
    qadd(a, qneg(b))
}

/// Exact (unreduced) product.
pub open spec fn qmul(a: Q, b: Q) -> Q {
    Q { n: a.n * b.n, d: a.d * b.d }
}

/// Reciprocal, with the sign moved into the numerator so that a
/// well-formed argument with nonzero numerator gives a well-formed result.
pub open spec fn qinv(a: Q) -> Q {
    if a.n >= 0 {
        Q { n: a.d, d: a.n }
    } else {
        Q { n: -a.d, d: -a.n }
    }
}

pub open spec fn qdiv(a: Q, b: Q) -> Q {
    qmul(a, qinv(b))
}

pub open spec fn int_abs(x: int) -> nat {
    if x >= 0 {
        x as nat
    } else {
        (-x) as nat
    }
}

/// Greatest common divisor by Euclid's recursion.
pub open spec fn gcd(a: nat, b: nat) -> nat
    decreases b,
{
    if b == 0 {
        a
    } else {
        gcd(b, a % b)
    }
}

/// The fraction `n / d` with the sign moved into the numerator.
pub open spec fn qsigned(n: int, d: int) -> Q {
    if d < 0 {
        Q { n: -n, d: -d }
    } else {
        Q { n: n, d: d }
    }
}

/// The fraction with the greatest common divisor of numerator and
/// denominator divided out.
pub open spec fn qreduce(q: Q) -> Q {
    let g = gcd(int_abs(q.n), int_abs(q.d)) as int;
    Q { n: q.n / g, d: q.d / g }
}

pub open spec fn i64_ok(x: int) -> bool {
    -(i64::MAX as int) <= x <= i64::MAX as int
}

/// The fraction can be stored in a `Rat`.
pub open spec fn qfits(q: Q) -> bool {
    i64_ok(q.n) && 0 < q.d <= i64::MAX as int
}

/// The exact result of a machine-level operation on exact input `q`:
/// the reduced fraction when it fits an `i64` pair, nothing otherwise.
pub open spec fn qchk(q: Q) -> Option<Q> {
    let r = qreduce(q);
    if qfits(r) {
        Option::Some(r)
    } else {
        Option::None
    }
}

/// An exact rational scalar. The denominator is always positive, and the
/// public constructors and arithmetic operations keep the fraction in
/// lowest terms.
#[derive(Clone, Copy, Debug)]
pub struct Rat {
    num: i64,
    den: i64,
}

impl View for Rat {
    type V = Q;

    closed spec fn view(&self) -> Q {
        Q { n: self.num as int, d: self.den as int }
    }
}

/// Equality of `Rat`s is equality of the rational numbers they denote.
impl PartialEq for Rat {
    fn eq(&self, other: &Rat) -> (r: bool) {
        proof {
            lemma_mul_i64_full(self@.n, other@.d);
            lemma_mul_i64_full(other@.n, self@.d);
        }
        (self.num as i128) * (other.den as i128) == (other.num as i128) * (self.den as i128)
    }
}

impl vstd::std_specs::cmp::PartialEqSpecImpl for Rat {
    open spec fn obeys_eq_spec() -> bool {
        true
    }

    open spec fn eq_spec(&self, other: &Rat) -> bool {
        qeq(self@, other@)
    }
}

impl Rat {
    /// The stored fraction is well formed and within the machine range.
    pub open spec fn wf(self) -> bool {
        qwf(self@) && qfits(self@)
    }

    pub fn num(&self) -> (r: i64)
        ensures
            r as int == self@.n,
    {
        self.num
    }

    pub fn den(&self) -> (r: i64)
        ensures
            r as int == self@.d,
    {
        self.den
    }

    /// The rational number `num / den`, stored in lowest terms: the
    /// result is exactly the reduced form of the sign-normalized input,
    /// so callers can compute with it fraction for fraction.
    pub fn new(num: i64, den: i64) -> (r: Rat)
        requires
            den != 0,
            num > i64::MIN,
            den > i64::MIN,
        ensures
            r.wf(),
            qeq(r@, Q { n: num as int, d: den as int }),
            r@ == qreduce(qsigned(num as int, den as int)),
    {
        let ghost target = Q { n: num as int, d: den as int };
        let (n128, d128): (i128, i128) = if den < 0 {
            (-(num as i128), -(den as i128))
        } else {
            (num as i128, den as i128)
        };
        let ghost q = Q { n: n128 as int, d: d128 as int };
        proof {
            assert(qeq(q, target)) by (nonlinear_arith)
                requires
                    (q.n == target.n && q.d == target.d) || (q.n == -target.n && q.d == -target.d),
            ;
            lemma_fits_after_reduce_small(q);
        }
        let r = reduce_i128(n128, d128);
        proof {
            lemma_qeq_trans_gen((r->Some_0)@, q, target);
            assert(q == qsigned(num as int, den as int));
        }
        r.unwrap()
    }

    /// The integer `n` as a rational.
    pub fn from_int(n: i64) -> (r: Rat)
        requires
            n > i64::MIN,
        ensures
            r.wf(),
            r@ == qint(n as int),
    {
        Rat { num: n, den: 1 }
    }

    /// A fraction taken as it stands, without reduction; for results whose
    /// parts are already known to be in range.
    pub(crate) fn raw_frac(num: i64, den: i64) -> (r: Rat)
        requires
            den > 0,
            num > i64::MIN,
        ensures
            r.wf(),
            r@ == (Q { n: num as int, d: den as int }),
    {
        Rat { num, den }
    }

    pub fn zero() -> (r: Rat)
        ensures
            r.wf(),
            r@ == qzero(),
    {
        Rat { num: 0, den: 1 }
    }

    pub fn neg(self) -> (r: Rat)
        requires
            self.wf(),
        ensures
            r.wf(),
            r@ == qneg(self@),
    {
        Rat { num: -self.num, den: self.den }
    }

    pub fn le(self, other: Rat) -> (r: bool)
        requires
            self.wf(),
            other.wf(),
        ensures
            r == qle(self@, other@),
    {
        proof {
            lemma_i64_prods_fit(self@, other@);
        }
        (self.num as i128) * (other.den as i128) <= (other.num as i128) * (self.den as i128)
    }

    pub fn lt(self, other: Rat) -> (r: bool)
        requires
            self.wf(),
            other.wf(),
        ensures
            r == qlt(self@, other@),
    {
        proof {
            lemma_i64_prods_fit(self@, other@);
        }
        (self.num as i128) * (other.den as i128) < (other.num as i128) * (self.den as i128)
    }

    /// Exact sum; `None` exactly when the reduced sum leaves the machine range.
    pub fn add(self, other: Rat) -> (r: Option<Rat>)
        requires
            self.wf(),
            other.wf(),
        ensures
            opt_q(r) == qchk(qadd(self@, other@)),
            r matches Some(s) ==> s.wf() && qeq(s@, qadd(self@, other@)),
    {
        proof {
            lemma_i64_prods_fit(self@, other@);
        }
        let n: i128 = (self.num as i128) * (other.den as i128) + (other.num as i128) * (
        self.den as i128);
        let d: i128 = (self.den as i128) * (other.den as i128);
        proof {
            assert(d > 0 && d < i128::MAX) by (nonlinear_arith)
                requires
                    0 < self@.d <= i64::MAX as int,
                    0 < other@.d <= i64::MAX as int,
                    d == self@.d * other@.d,
            ;
        }
        reduce_i128(n, d)
    }

    /// Exact difference; `None` exactly when the reduced difference leaves
    /// the machine range.
    pub fn sub(self, other: Rat) -> (r: Option<Rat>)
        requires
            self.wf(),
            other.wf(),
        ensures
            opt_q(r) == qchk(qsub(self@, other@)),
            r matches Some(s) ==> s.wf() && qeq(s@, qsub(self@, other@)),
    {
        self.add(other.neg())
    }

    /// Exact product; `None` exactly when the reduced product leaves the
    /// machine range.
    pub fn mul(self, other: Rat) -> (r: Option<Rat>)
        requires
            self.wf(),
            other.wf(),
        ensures
            opt_q(r) == qchk(qmul(self@, other@)),
            r matches Some(s) ==> s.wf() && qeq(s@, qmul(self@, other@)),
    {
        proof {
            lemma_i64_prods_fit(self@, other@);
        }
        let n: i128 = (self.num as i128) * (other.num as i128);
        let d: i128 = (self.den as i128) * (other.den as i128);
        proof {
            assert(d > 0 && d < i128::MAX) by (nonlinear_arith)
                requires
                    0 < self@.d <= i64::MAX as int,
                    0 < other@.d <= i64::MAX as int,
                    d == self@.d * other@.d,
            ;
        }
        reduce_i128(n, d)
    }

    /// Exact quotient; the divisor must denote a nonzero rational.
    /// `None` exactly when the reduced quotient leaves the machine range.
    pub fn div(self, other: Rat) -> (r: Option<Rat>)
        requires
            self.wf(),
            other.wf(),
            other@.n != 0,
        ensures
            opt_q(r) == qchk(qdiv(self@, other@)),
            r matches Some(s) ==> s.wf() && qeq(s@, qdiv(self@, other@)),
    {
        proof {
            lemma_i64_prods_fit(self@, qinv(other@));
        }
        let (on, od): (i64, i64) = if other.num >= 0 {
            (other.den, other.num)
        } else {
            (-other.den, -other.num)
        };
        let n: i128 = (self.num as i128) * (on as i128);
        let d: i128 = (self.den as i128) * (od as i128);
        proof {
            assert(d > 0 && d < i128::MAX) by (nonlinear_arith)
                requires
                    0 < self@.d <= i64::MAX as int,
                    0 < od as int <= i64::MAX as int,
                    d == self@.d * (od as int),
            ;
        }
        reduce_i128(n, d)
    }

    /// `true` exactly when the two scalars denote the same rational.
    pub fn eq_val(self, other: Rat) -> (r: bool)
        requires
            self.wf(),
            other.wf(),
        ensures
            r == qeq(self@, other@),
    {
        proof {
            lemma_i64_prods_fit(self@, other@);
        }
        (self.num as i128) * (other.den as i128) == (other.num as i128) * (self.den as i128)
    }
}

/// The mathematical values behind an optional scalar.
pub open spec fn opt_q(r: Option<Rat>) -> Option<Q> {
    match r {
        Option::Some(s) => Option::Some(s@),
        Option::None => Option::None,
    }
}

/// Products of two values in the `i64` range stay strictly inside the
/// `i128` range.
proof fn lemma_i64_prods_fit(a: Q, b: Q)
    requires
        i64_ok(a.n),
        i64_ok(b.n),
        -(i64::MAX as int) <= a.d <= i64::MAX as int,
        -(i64::MAX as int) <= b.d <= i64::MAX as int,
    ensures
        i128::MIN < a.n * b.d < i128::MAX,
        i128::MIN < b.n * a.d < i128::MAX,
        i128::MIN < a.n * b.n < i128::MAX,
        i128::MIN < a.d * b.d < i128::MAX,
        i128::MIN < a.n * b.d + b.n * a.d < i128::MAX,
{
    lemma_mul_i64_range(a.n, b.d);
    lemma_mul_i64_range(b.n, a.d);
    lemma_mul_i64_range(a.n, b.n);
    lemma_mul_i64_range(a.d, b.d);
}

/// A product of two arbitrary `i64` values stays inside the `i128` range.
proof fn lemma_mul_i64_full(x: int, y: int)
    by (nonlinear_arith)
    requires
        i64::MIN as int <= x <= i64::MAX as int,
        i64::MIN as int <= y <= i64::MAX as int,
    ensures
        -0x40000000000000000000000000000000 <= x * y <= 0x40000000000000000000000000000000,
{
}

/// A product of two values in the `i64` range is at most the square of
/// `i64::MAX` in magnitude.
proof fn lemma_mul_i64_range(x: int, y: int)
    by (nonlinear_arith)
    requires
        -(i64::MAX as int) <= x <= i64::MAX as int,
        -(i64::MAX as int) <= y <= i64::MAX as int,
    ensures
        -0x3fffffffffffffff0000000000000001 <= x * y <= 0x3fffffffffffffff0000000000000001,
{
}

/// Replacing both operands of an exact sum by equal fractions keeps the
/// sum equal.
pub proof fn lemma_qadd_congruence(a: Q, b: Q, a2: Q, b2: Q)
    requires
        a.d != 0,
        b.d != 0,
        a2.d != 0,
        b2.d != 0,
        qeq(a, a2),
        qeq(b, b2),
    ensures
        qeq(qadd(a, b), qadd(a2, b2)),
{
    assert((a.n * b.d + b.n * a.d) * (a2.d * b2.d) == (a.n * b.d) * (a2.d * b2.d) + (b.n * a.d) * (
    a2.d * b2.d)) by (nonlinear_arith);
    assert((a2.n * b2.d + b2.n * a2.d) * (a.d * b.d) == (a2.n * b2.d) * (a.d * b.d) + (b2.n * a2.d)
        * (a.d * b.d)) by (nonlinear_arith);
    assert((a.n * b.d) * (a2.d * b2.d) == (a.n * a2.d) * (b.d * b2.d)) by (nonlinear_arith);
    assert((b.n * a.d) * (a2.d * b2.d) == (b.n * b2.d) * (a.d * a2.d)) by (nonlinear_arith);
    assert((a2.n * b2.d) * (a.d * b.d) == (a2.n * a.d) * (b.d * b2.d)) by (nonlinear_arith);
    assert((b2.n * a2.d) * (a.d * b.d) == (b2.n * b.d) * (a.d * a2.d)) by (nonlinear_arith);
    assert((a.n * a2.d) * (b.d * b2.d) == (a2.n * a.d) * (b.d * b2.d));
    assert((b.n * b2.d) * (a.d * a2.d) == (b2.n * b.d) * (a.d * a2.d));
}

/// Replacing both operands of an exact product by equal fractions keeps
/// the product equal.
pub proof fn lemma_qmul_congruence(a: Q, b: Q, a2: Q, b2: Q)
    requires
        a.d != 0,
        b.d != 0,
        a2.d != 0,
        b2.d != 0,
        qeq(a, a2),
        qeq(b, b2),
    ensures
        qeq(qmul(a, b), qmul(a2, b2)),
{
    assert((a.n * a2.d) * (b.n * b2.d) == (a2.n * a.d) * (b2.n * b.d));
    assert((a.n * a2.d) * (b.n * b2.d) == (a.n * b.n) * (a2.d * b2.d)) by (nonlinear_arith);
    assert((a2.n * a.d) * (b2.n * b.d) == (a2.n * b2.n) * (a.d * b.d)) by (nonlinear_arith);
}

/// Negating equal fractions keeps them equal.
pub proof fn lemma_qneg_congruence(a: Q, a2: Q)
    requires
        qeq(a, a2),
    ensures
        qeq(qneg(a), qneg(a2)),
{
    assert((-a.n) * a2.d == -(a.n * a2.d) && (-a2.n) * a.d == -(a2.n * a.d)) by (nonlinear_arith);
}

/// Taking reciprocals of equal nonzero fractions keeps them equal, and
/// the reciprocal of a nonzero fraction is well formed.
pub proof fn lemma_qinv_congruence(b: Q, b2: Q)
    requires
        b.d > 0,
        b2.d > 0,
        qeq(b, b2),
        b.n != 0,
    ensures
        b2.n != 0,
        qinv(b).d > 0,
        qinv(b2).d > 0,
        qeq(qinv(b), qinv(b2)),
{
    lemma_qeq_sign(b, b2);
    if b.n >= 0 {
        assert(b.d * b2.n == b2.d * b.n) by (nonlinear_arith)
            requires
                b.n * b2.d == b2.n * b.d,
        ;
    } else {
        assert((-b.d) * (-b2.n) == (-b2.d) * (-b.n)) by (nonlinear_arith)
            requires
                b.n * b2.d == b2.n * b.d,
        ;
    }
}

/// Replacing dividend and divisor by equal fractions keeps the quotient
/// equal; the divisor must be nonzero.
pub proof fn lemma_qdiv_congruence(a: Q, b: Q, a2: Q, b2: Q)
    requires
        a.d > 0,
        b.d > 0,
        a2.d > 0,
        b2.d > 0,
        qeq(a, a2),
        qeq(b, b2),
        b.n != 0,
    ensures
        qeq(qdiv(a, b), qdiv(a2, b2)),
        qdiv(a, b).d != 0,
        qdiv(a2, b2).d != 0,
{
    lemma_qinv_congruence(b, b2);
    lemma_qmul_congruence(a, qinv(b), a2, qinv(b2));
    assert(qdiv(a, b).d != 0 && qdiv(a2, b2).d != 0) by (nonlinear_arith)
        requires
            a.d > 0,
            a2.d > 0,
            qinv(b).d != 0,
            qinv(b2).d != 0,
            qdiv(a, b).d == a.d * qinv(b).d,
            qdiv(a2, b2).d == a2.d * qinv(b2).d,
    ;
}

/// Order between fractions only depends on the rationals they denote.
pub proof fn lemma_qle_congruence(a: Q, b: Q, a2: Q, b2: Q)
    by (nonlinear_arith)
    requires
        a.d > 0,
        b.d > 0,
        a2.d > 0,
        b2.d > 0,
        qeq(a, a2),
        qeq(b, b2),
    ensures
        qle(a, b) == qle(a2, b2),
        qlt(a, b) == qlt(a2, b2),
{
}

/// For nonnegative rationals, comparing values is the same as comparing
/// their squares; this is what lets a contact test work on squared
/// distances instead of the distance itself.
pub proof fn lemma_le_iff_square_le(a: Q, b: Q)
    by (nonlinear_arith)
    requires
        qwf(a),
        qwf(b),
        qle(qzero(), a),
        qle(qzero(), b),
    ensures
        qle(a, b) == qle(qmul(a, a), qmul(b, b)),
{
}

/// Multiplication of fractions is associative, fraction for fraction.
pub proof fn lemma_qmul_assoc(a: Q, b: Q, c: Q)
    ensures
        qmul(a, qmul(b, c)) == qmul(qmul(a, b), c),
{
    assert(a.n * (b.n * c.n) == (a.n * b.n) * c.n && a.d * (b.d * c.d) == (a.d * b.d) * c.d)
        by (nonlinear_arith);
}

/// Negation moves through a product.
pub proof fn lemma_qmul_neg_right(a: Q, b: Q)
    ensures
        qmul(a, qneg(b)) == qneg(qmul(a, b)),
{
    assert(a.n * (-b.n) == -(a.n * b.n)) by (nonlinear_arith);
}

/// Two negations in a product cancel, fraction for fraction.
pub proof fn lemma_qmul_neg_neg(a: Q, b: Q)
    ensures
        qmul(qneg(a), qneg(b)) == qmul(a, b),
{
    assert((-a.n) * (-b.n) == a.n * b.n) by (nonlinear_arith);
}

/// Multiplication distributes over the exact sum.
pub proof fn lemma_qdistrib(a: Q, b: Q, c: Q)
    requires
        a.d != 0,
    ensures
        qeq(qmul(a, qadd(b, c)), qadd(qmul(a, b), qmul(a, c))),
{
    let l = qmul(a, qadd(b, c));
    let r = qadd(qmul(a, b), qmul(a, c));
    let u = b.n * c.d;
    let w = c.n * b.d;
    let k = (a.d * b.d) * (a.d * c.d);
    let p1 = (a.n * b.n) * (a.d * c.d);
    let p2 = (a.n * c.n) * (a.d * b.d);
    let m = a.d * (b.d * c.d);
    assert((a.n * (u + w)) * k == (a.n * u) * k + (a.n * w) * k) by (nonlinear_arith);
    assert((p1 + p2) * m == p1 * m + p2 * m) by (nonlinear_arith);
    assert((a.n * (b.n * c.d)) * ((a.d * b.d) * (a.d * c.d)) == ((a.n * b.n) * (a.d * c.d)) * (a.d
        * (b.d * c.d))) by (nonlinear_arith);
    assert((a.n * (c.n * b.d)) * ((a.d * b.d) * (a.d * c.d)) == ((a.n * c.n) * (a.d * b.d)) * (a.d
        * (b.d * c.d))) by (nonlinear_arith);
    assert(l.n * r.d == r.n * l.d);
}

/// Handing the same amount from one side of a weighted sum to the other
/// leaves the sum unchanged.
pub proof fn lemma_qadd_cancel_pair(p: Q, q: Q, t: Q, t2: Q)
    requires
        p.d > 0,
        q.d > 0,
        t.d > 0,
        t2.d > 0,
        qeq(t2, t),
    ensures
        qeq(qadd(qadd(p, qneg(t)), qadd(q, t2)), qadd(p, q)),
{
    lemma_qadd_congruence(q, t2, q, t);
    let a = qadd(p, qneg(t));
    let b = qadd(q, t);
    assert(a.d > 0 && b.d > 0 && qadd(q, t2).d > 0) by (nonlinear_arith)
        requires
            a.d == p.d * t.d,
            b.d == q.d * t.d,
            qadd(q, t2).d == q.d * t2.d,
            p.d > 0,
            q.d > 0,
            t.d > 0,
            t2.d > 0,
    ;
    lemma_qadd_congruence(a, qadd(q, t2), a, b);
    let l = qadd(a, b);
    let r = qadd(p, q);
    assert((a.n * b.d + b.n * a.d) * (p.d * q.d) == a.n * (b.d * (p.d * q.d)) + b.n * (a.d * (p.d
        * q.d))) by (nonlinear_arith);
    assert((p.n * t.d + (-t.n) * p.d) * (b.d * (p.d * q.d)) == (p.n * t.d) * (b.d * (p.d * q.d))
        + ((-t.n) * p.d) * (b.d * (p.d * q.d))) by (nonlinear_arith);
    assert((q.n * t.d + t.n * q.d) * (a.d * (p.d * q.d)) == (q.n * t.d) * (a.d * (p.d * q.d)) + (
    t.n * q.d) * (a.d * (p.d * q.d))) by (nonlinear_arith);
    assert(((-t.n) * p.d) * ((q.d * t.d) * (p.d * q.d)) + (t.n * q.d) * ((p.d * t.d) * (p.d * q.d))
        == 0) by (nonlinear_arith);
    assert((p.n * t.d) * ((q.d * t.d) * (p.d * q.d)) == (p.n * q.d) * ((p.d * t.d) * (q.d * t.d)))
        by (nonlinear_arith);
    assert((q.n * t.d) * ((p.d * t.d) * (p.d * q.d)) == (q.n * p.d) * ((p.d * t.d) * (q.d * t.d)))
        by (nonlinear_arith);
    assert((p.n * q.d + q.n * p.d) * ((p.d * t.d) * (q.d * t.d)) == (p.n * q.d) * ((p.d * t.d) * (
    q.d * t.d)) + (q.n * p.d) * ((p.d * t.d) * (q.d * t.d))) by (nonlinear_arith);
    assert(l.n * r.d == r.n * l.d);
    assert(l.d > 0) by (nonlinear_arith)
        requires
            l.d == a.d * b.d,
            a.d > 0,
            b.d > 0,
    ;
    lemma_qeq_trans_gen(qadd(a, qadd(q, t2)), l, r);
}

/// A machine-level result, when there is one, denotes exactly the
/// rational it was computed from.
pub proof fn lemma_qchk_keeps_value(q: Q)
    requires
        qwf(q),
    ensures
        qchk(q) matches Some(s) ==> qwf(s) && qfits(s) && qeq(s, q),
{
    lemma_reduce_shape(q);
}

/// Subtracting an addend from an exact sum gives back the other addend.
pub proof fn lemma_sub_of_sum_cancels(a: Q, b: Q, s: Q, t: Q)
    requires
        a.d > 0,
        b.d > 0,
        s.d > 0,
        t.d > 0,
        qeq(s, qadd(a, b)),
        qeq(t, qsub(s, b)),
    ensures
        qeq(t, a),
{
    let u = qadd(a, b);
    let w = qsub(u, b);
    assert(qeq(w, a)) by (nonlinear_arith)
        requires
            u.n == a.n * b.d + b.n * a.d,
            u.d == a.d * b.d,
            w.n == u.n * b.d + (-b.n) * u.d,
            w.d == u.d * b.d,
            a.d > 0,
            b.d > 0,
    ;
    assert(qsub(s, b).d > 0 && w.d > 0 && u.d > 0) by (nonlinear_arith)
        requires
            qsub(s, b).d == s.d * b.d,
            w.d == u.d * b.d,
            u.d == a.d * b.d,
            s.d > 0,
            a.d > 0,
            b.d > 0,
    ;
    lemma_qadd_congruence(s, qneg(b), u, qneg(b));
    lemma_qeq_trans_gen(t, qsub(s, b), w);
    lemma_qeq_trans_gen(t, w, a);
}

/// Order chains through a middle fraction with positive denominator.
pub proof fn lemma_qlt_qle_trans(a: Q, b: Q, c: Q)
    by (nonlinear_arith)
    requires
        a.d > 0,
        b.d > 0,
        c.d > 0,
        qlt(a, b),
        qle(b, c),
    ensures
        qlt(a, c),
{
}

/// Linear interpolation `lo + u * (hi - lo)` with a weight in `[0, 1]`
/// stays between `lo` and `hi`.
pub proof fn lemma_lerp_value_bounds(lo: Q, hi: Q, u: Q)
    requires
        qwf(lo),
        qwf(hi),
        qwf(u),
        qle(lo, hi),
        qle(qzero(), u),
        qle(u, qint(1)),
    ensures
        qwf(qadd(lo, qmul(u, qsub(hi, lo)))),
        qle(lo, qadd(lo, qmul(u, qsub(hi, lo)))),
        qle(qadd(lo, qmul(u, qsub(hi, lo))), hi),
{
    let d = qsub(hi, lo);
    let p = qmul(u, d);
    let r = qadd(lo, p);
    assert(d.d > 0 && p.d > 0 && r.d > 0 && d.n >= 0 && p.n >= 0) by (nonlinear_arith)
        requires
            d.n == hi.n * lo.d + (-lo.n) * hi.d,
            d.d == hi.d * lo.d,
            p.n == u.n * d.n,
            p.d == u.d * d.d,
            r.d == lo.d * p.d,
            lo.d > 0,
            hi.d > 0,
            u.d > 0,
            lo.n * hi.d <= hi.n * lo.d,
            0 * u.d <= u.n * 1,
    ;
    assert(qle(lo, r)) by (nonlinear_arith)
        requires
            r.n == lo.n * p.d + p.n * lo.d,
            r.d == lo.d * p.d,
            p.n >= 0,
            lo.d > 0,
            p.d > 0,
    ;
    assert((lo.n * p.d + p.n * lo.d) * hi.d == lo.n * p.d * hi.d + p.n * lo.d * hi.d)
        by (nonlinear_arith);
    assert(hi.n * (lo.d * p.d) - lo.n * p.d * hi.d == d.n * p.d) by (nonlinear_arith)
        requires
            d.n == hi.n * lo.d + (-lo.n) * hi.d,
    ;
    assert(p.n * lo.d * hi.d == u.n * d.n * (lo.d * hi.d)) by (nonlinear_arith)
        requires
            p.n == u.n * d.n,
    ;
    assert(d.n * p.d == u.d * d.n * (hi.d * lo.d)) by (nonlinear_arith)
        requires
            p.d == u.d * d.d,
            d.d == hi.d * lo.d,
    ;
    assert(u.n * d.n * (lo.d * hi.d) <= u.d * d.n * (hi.d * lo.d)) by (nonlinear_arith)
        requires
            u.n <= u.d,
            d.n >= 0,
            lo.d > 0,
            hi.d > 0,
    ;
    assert(r.n * hi.d <= hi.n * r.d);
}

/// The midpoint `(a + b) / 2` of an ordered pair lies between the two.
pub proof fn lemma_midpoint_bounds(a: Q, b: Q)
    by (nonlinear_arith)
    requires
        qwf(a),
        qwf(b),
        qle(a, b),
    ensures
        qwf(qdiv(qadd(a, b), qint(2))),
        qle(a, qdiv(qadd(a, b), qint(2))),
        qle(qdiv(qadd(a, b), qint(2)), b),
{
}

/// Equal fractions with positive denominators have numerators of the same
/// sign.
pub proof fn lemma_qeq_sign(a: Q, b: Q)
    by (nonlinear_arith)
    requires
        a.d > 0,
        b.d > 0,
        qeq(a, b),
    ensures
        (a.n > 0) == (b.n > 0),
        (a.n == 0) == (b.n == 0),
        (a.n < 0) == (b.n < 0),
{
}

/// Transitivity of `qeq` through a fraction with nonzero denominator.
pub proof fn lemma_qeq_trans_gen(a: Q, b: Q, c: Q)
    by (nonlinear_arith)
    requires
        b.d != 0,
        qeq(a, b),
        qeq(b, c),
    ensures
        qeq(a, c),
{
}

/// Euclid's recursion returns a positive number once either argument is
/// positive.
proof fn lemma_gcd_pos(a: nat, b: nat)
    requires
        a > 0 || b > 0,
    ensures
        gcd(a, b) > 0,
    decreases b,
{
    if b > 0 {
        lemma_gcd_pos(b, a % b);
    }
}

/// Euclid's recursion returns a common divisor of its arguments.
proof fn lemma_gcd_divides(a: nat, b: nat)
    ensures
        gcd(a, b) > 0 ==> a % gcd(a, b) == 0 && b % gcd(a, b) == 0,
    decreases b,
{
    let g = gcd(a, b);
    if b == 0 {
        if g > 0 {
            lemma_mod_self_0(g as int);
            assert(b % g == 0);
        }
    } else {
        lemma_gcd_divides(b, a % b);
        if g > 0 {
            // a == (a / b) * b + a % b, and g divides both b and a % b.
            lemma_fundamental_div_mod(a as int, b as int);
            let q = a as int / b as int;
            lemma_mul_mod_noop_right(q, b as int, g as int);
            assert((q * (b as int)) % (g as int) == (q * ((b as int) % (g as int))) % (g as int));
            assert(q * ((b as int) % (g as int)) == 0) by (nonlinear_arith)
                requires
                    (b as int) % (g as int) == 0,
            ;
            lemma_mod_self_0(g as int);
            lemma_small_mod(0, g);
            lemma_add_mod_noop(q * (b as int), (a % b) as int, g as int);
            assert(a as int == q * (b as int) + (a % b) as int);
        }
    }
}

/// Dividing numerator and denominator by a common divisor keeps the value.
proof fn lemma_exact_div_keeps_value(q: Q, g: int, rn: int, rd: int)
    by (nonlinear_arith)
    requires
        g > 0,
        q.n == rn * g,
        q.d == rd * g,
    ensures
        qeq(Q { n: rn, d: rd }, q),
        q.d > 0 ==> rd > 0,
{
}

/// A numerator or denominator already in range reduces to one in range, so
/// storing a small fraction never fails.
pub proof fn lemma_fits_after_reduce_small(q: Q)
    requires
        qwf(q),
        qfits(q) || (i64_ok(q.n) && 0 < q.d && i64_ok(q.d)),
    ensures
        qchk(q) is Some,
{
    let na = int_abs(q.n);
    let da = int_abs(q.d);
    let g = gcd(na, da);
    lemma_gcd_pos(na, da);
    lemma_gcd_divides(na, da);
    lemma_fundamental_div_mod(na as int, g as int);
    lemma_fundamental_div_mod(da as int, g as int);
    let rn = na as int / g as int;
    let rd = da as int / g as int;
    assert(0 <= rn <= na as int && 0 < rd <= da as int) by (nonlinear_arith)
        requires
            g >= 1,
            na as int == g as int * rn + 0,
            da as int == g as int * rd + 0,
            da > 0,
            rn >= 0,
            rd >= 0,
    ;
    lemma_reduce_shape(q);
}

/// The shape of the reduced fraction: magnitudes divided by the gcd, the
/// numerator's sign kept, the value unchanged.
proof fn lemma_reduce_shape(q: Q)
    requires
        qwf(q),
    ensures
        qwf(qreduce(q)),
        qeq(qreduce(q), q),
        qreduce(q).n == if q.n >= 0 {
            int_abs(q.n) as int / gcd(int_abs(q.n), int_abs(q.d)) as int
        } else {
            -(int_abs(q.n) as int / gcd(int_abs(q.n), int_abs(q.d)) as int)
        },
        qreduce(q).d == int_abs(q.d) as int / gcd(int_abs(q.n), int_abs(q.d)) as int,
        int_abs(q.n) as int == (int_abs(q.n) as int / gcd(int_abs(q.n), int_abs(q.d)) as int) * gcd(
            int_abs(q.n),
            int_abs(q.d),
        ) as int,
        int_abs(q.d) as int == (int_abs(q.d) as int / gcd(int_abs(q.n), int_abs(q.d)) as int) * gcd(
            int_abs(q.n),
            int_abs(q.d),
        ) as int,
{
    let na = int_abs(q.n);
    let da = int_abs(q.d);
    let g = gcd(na, da);
    lemma_gcd_pos(na, da);
    lemma_gcd_divides(na, da);
    lemma_fundamental_div_mod(na as int, g as int);
    lemma_fundamental_div_mod(da as int, g as int);
    let rn = na as int / g as int;
    let rd = da as int / g as int;
    assert(na as int == rn * g as int && da as int == rd * g as int) by (nonlinear_arith)
        requires
            na as int == g as int * rn + 0,
            da as int == g as int * rd + 0,
    ;
    if q.n >= 0 {
        lemma_exact_div_keeps_value(q, g as int, rn, rd);
        assert(q.n / g as int == rn && q.d / g as int == rd) by {
            lemma_div_multiples_vanish(rn, g as int);
            lemma_div_multiples_vanish(rd, g as int);
            assert(g as int * rn == rn * g as int && g as int * rd == rd * g as int)
                by (nonlinear_arith);
        }
    } else {
        assert(q.n == (-rn) * g as int) by (nonlinear_arith)
            requires
                q.n == -(na as int),
                na as int == rn * g as int,
        ;
        lemma_exact_div_keeps_value(q, g as int, -rn, rd);
        assert(q.n / g as int == -rn && q.d / g as int == rd) by {
            lemma_div_multiples_vanish(-rn, g as int);
            lemma_div_multiples_vanish(rd, g as int);
            assert(g as int * (-rn) == (-rn) * g as int && g as int * rd == rd * g as int)
                by (nonlinear_arith);
        }
    }
}

/// Euclid's algorithm.
fn gcd_u128(a: u128, b: u128) -> (g: u128)
    requires
        b > 0,
    ensures
        g as nat == gcd(a as nat, b as nat),
        g >= 1,
        a as nat % (g as nat) == 0,
        b as nat % (g as nat) == 0,
{
    let mut x: u128 = a;
    let mut y: u128 = b;
    while y != 0
        invariant
            gcd(x as nat, y as nat) == gcd(a as nat, b as nat),
        decreases y,
    {
        let t: u128 = x % y;
        x = y;
        y = t;
    }
    proof {
        lemma_gcd_pos(a as nat, b as nat);
        lemma_gcd_divides(a as nat, b as nat);
    }
    x
}

/// Reduces the exact fraction `n / d` and stores it when it fits.
fn reduce_i128(n: i128, d: i128) -> (r: Option<Rat>)
    requires
        d > 0,
        n > i128::MIN,
        d < i128::MAX,
    ensures
        opt_q(r) == qchk(Q { n: n as int, d: d as int }),
        r matches Some(s) ==> s.wf() && qeq(s@, Q { n: n as int, d: d as int }),
{
    let ghost q = Q { n: n as int, d: d as int };
    let neg: bool = n < 0;
    let na: u128 = if neg {
        (-n) as u128
    } else {
        n as u128
    };
    let da: u128 = d as u128;
    proof {
        assert(na as nat == int_abs(q.n));
        assert(da as nat == int_abs(q.d));
    }
    let g: u128 = gcd_u128(na, da);
    proof {
        lemma_fundamental_div_mod(na as int, g as int);
        lemma_fundamental_div_mod(da as int, g as int);
    }
    let rn: u128 = na / g;
    let rd: u128 = da / g;
    proof {
        lemma_reduce_shape(q);
        assert(na as int / g as int == rn as int && da as int / g as int == rd as int);
        assert(rd >= 1) by (nonlinear_arith)
            requires
                da as int == g as int * (rd as int) + 0,
                da >= 1,
                rd >= 0,
                g >= 1,
        ;
    }
    if rn <= i64::MAX as u128 && rd <= i64::MAX as u128 {
        let num: i64 = if neg {
            -(rn as i64)
        } else {
            rn as i64
        };
        let s = Rat { num, den: rd as i64 };
        proof {
            assert(s@ == qreduce(q));
            assert(qfits(qreduce(q)));
        }
        Some(s)
    } else {
        proof {
            assert(!qfits(qreduce(q)));
        }
        None
    }
}

} // verus!
