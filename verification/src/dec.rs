//! Exact fractional arithmetic for indicator accumulation.
//!
//! Indicator streams must never accumulate rounding drift, so every value is
//! an exact fraction of two 64-bit integers with a positive denominator.
//! Every operation computes the exact wide result, divides out the greatest
//! common divisor, and reports overflow explicitly instead of rounding.

use vstd::prelude::*;

verus! {

use vstd::arithmetic::div_mod::{
    lemma_fundamental_div_mod,
    lemma_mod_self_0,
    lemma_small_mod,
    lemma_mod_multiples_basic,
};

/// Mathematical value of a fraction: numerator over a positive denominator.
pub ghost struct Rat {
    pub n: int,
    pub d: int,
}

/// A well-formed mathematical fraction has a positive denominator.
pub open spec fn rat_wf(r: Rat) -> bool {
    r.d > 0
}

/// The fraction with integer value `v`.
pub open spec fn rat_i(v: int) -> Rat {
    Rat { n: v, d: 1 }
}

/// `a` and `b` denote the same rational number (cross multiplication).
pub open spec fn ratio_eq(a: Rat, b: Rat) -> bool {
    a.n * b.d == b.n * a.d
}

/// `a <= b` as rational numbers (valid when both denominators are positive).
pub open spec fn ratio_le(a: Rat, b: Rat) -> bool {
    a.n * b.d <= b.n * a.d
}

/// `a < b` as rational numbers (valid when both denominators are positive).
pub open spec fn ratio_lt(a: Rat, b: Rat) -> bool {
    a.n * b.d < b.n * a.d
}

/// Exact sum of two fractions.
pub open spec fn add_r(a: Rat, b: Rat) -> Rat {
    Rat { n: a.n * b.d + b.n * a.d, d: a.d * b.d }
}

/// Exact difference of two fractions.
pub open spec fn sub_r(a: Rat, b: Rat) -> Rat {
    Rat { n: a.n * b.d - b.n * a.d, d: a.d * b.d }
}

/// Exact product of two fractions.
pub open spec fn mul_r(a: Rat, b: Rat) -> Rat {
    Rat { n: a.n * b.n, d: a.d * b.d }
}

/// Exact quotient of two fractions (denominator sign is kept positive).
pub open spec fn div_r(a: Rat, b: Rat) -> Rat {
    if b.n >= 0 {
        Rat { n: a.n * b.d, d: a.d * b.n }
    } else {
        Rat { n: -(a.n * b.d), d: -(a.d * b.n) }
    }
}

pub open spec fn abs_i(x: int) -> int {
    if x < 0 {
        -x
    } else {
        x
    }
}

/// Euclid's greatest common divisor on non-negative integers.
pub open spec fn gcd(a: int, b: int) -> int
    decreases b,
    when 0 <= b
{
    if b == 0 {
        a
    } else {
        gcd(b, a % b)
    }
}

/// The fraction in lowest terms denoting the same value as `r`.
pub open spec fn norm_r(r: Rat) -> Rat {
    let g = gcd(abs_i(r.n), r.d);
    Rat {
        n: if r.n < 0 {
            -(abs_i(r.n) / g)
        } else {
            abs_i(r.n) / g
        },
        d: r.d / g,
    }
}

/// Whether `r`, once in lowest terms, fits the 64-bit representation.
pub open spec fn fits_dec(r: Rat) -> bool {
    &&& -(i64::MAX as int) <= norm_r(r).n <= i64::MAX as int
    &&& norm_r(r).d <= i64::MAX as int
}

/// Overflow of the 64-bit fraction representation.
#[derive(Clone, Copy, Debug, PartialEq, Eq, Structural)]
pub enum NumError {
    Overflow,
}

/// What a checked sum produces: the reduced exact sum, or nothing when it
/// leaves the 64-bit range.
pub open spec fn add_rep(a: Rat, b: Rat) -> Option<Rat> {
    if fits_dec(add_r(a, b)) {
        Some(norm_r(add_r(a, b)))
    } else {
        None
    }
}

/// What a checked difference produces.
pub open spec fn sub_rep(a: Rat, b: Rat) -> Option<Rat> {
    if fits_dec(sub_r(a, b)) {
        Some(norm_r(sub_r(a, b)))
    } else {
        None
    }
}

/// What a checked product produces.
pub open spec fn mul_rep(a: Rat, b: Rat) -> Option<Rat> {
    if fits_dec(mul_r(a, b)) {
        Some(norm_r(mul_r(a, b)))
    } else {
        None
    }
}

/// What a checked quotient produces.
pub open spec fn div_rep(a: Rat, b: Rat) -> Option<Rat> {
    if fits_dec(div_r(a, b)) {
        Some(norm_r(div_r(a, b)))
    } else {
        None
    }
}

/// The greatest common divisor is positive, divides both arguments, and is
/// bounded by each positive argument.
pub proof fn lemma_gcd_props(a: int, b: int)
    requires
        0 <= a,
        0 <= b,
        a > 0 || b > 0,
    ensures
        ({
            let g = gcd(a, b);
            &&& 0 < g
            &&& a % g == 0
            &&& b % g == 0
            &&& a > 0 ==> g <= a
            &&& b > 0 ==> g <= b
        }),
    decreases b,
{
    if b == 0 {
        lemma_mod_self_0(a);
        lemma_small_mod(0nat, a as nat);
    } else {
        let g = gcd(b, a % b);
        lemma_gcd_props(b, a % b);
        lemma_fundamental_div_mod(a, b);
        lemma_fundamental_div_mod(b, g);
        lemma_fundamental_div_mod(a % b, g);
        let qb = b / g;
        let qr = (a % b) / g;
        let q = qb * (a / b) + qr;
        assert(a == q * g) by (nonlinear_arith)
            requires
                a == b * (a / b) + a % b,
                b == g * qb + 0,
                a % b == g * qr + 0,
                q == qb * (a / b) + qr,
        ;
        lemma_mod_multiples_basic(q, g);
        if a > 0 {
            assert(g <= a) by (nonlinear_arith)
                requires
                    a == q * g,
                    a > 0,
                    g > 0,
            ;
        }
    }
}

/// Euclid's algorithm.
fn gcd_u128(a0: u128, b0: u128) -> (g: u128)
    ensures
        g as int == gcd(a0 as int, b0 as int),
{
    let mut a: u128 = a0;
    let mut b: u128 = b0;
    while b != 0
        invariant
            gcd(a as int, b as int) == gcd(a0 as int, b0 as int),
        decreases b,
    {
        let r: u128 = a % b;
        a = b;
        b = r;
    }
    a
}

/// Reducing a fraction with a positive denominator keeps the denominator
/// positive and denotes the same value.
pub proof fn lemma_norm_ratio(r: Rat)
    requires
        rat_wf(r),
    ensures
        rat_wf(norm_r(r)),
        ratio_eq(norm_r(r), r),
        ratio_eq(r, norm_r(r)),
{
    let m = abs_i(r.n);
    lemma_gcd_props(m, r.d);
    let g = gcd(m, r.d);
    lemma_fundamental_div_mod(m, g);
    lemma_fundamental_div_mod(r.d, g);
    let qm = m / g;
    let qd = r.d / g;
    assert(1 <= qd) by (nonlinear_arith)
        requires
            r.d == g * qd + 0,
            r.d >= 1,
            g >= 1,
            qd >= 0,
    ;
    assert(qm * (g * qd) == (g * qm) * qd) by (nonlinear_arith);
    assert(qm * r.d == m * qd);
    if r.n < 0 {
        assert((-qm) * r.d == r.n * qd) by (nonlinear_arith)
            requires
                qm * r.d == m * qd,
                r.n == -m,
        ;
    }
}

/// Denoting the same value is transitive (with positive denominators).
pub proof fn lemma_ratio_trans(a: Rat, b: Rat, c: Rat)
    by (nonlinear_arith)
    requires
        rat_wf(a),
        rat_wf(b),
        rat_wf(c),
        ratio_eq(a, b),
        ratio_eq(b, c),
    ensures
        ratio_eq(a, c),
{
}

/// Sums of equal values are equal.
pub proof fn lemma_add_congr(a: Rat, a2: Rat, b: Rat, b2: Rat)
    requires
        rat_wf(a),
        rat_wf(a2),
        rat_wf(b),
        rat_wf(b2),
        ratio_eq(a, a2),
        ratio_eq(b, b2),
    ensures
        ratio_eq(add_r(a, b), add_r(a2, b2)),
{
    vstd::arithmetic::mul::lemma_mul_is_distributive_add_other_way(
        a2.d * b2.d,
        a.n * b.d,
        b.n * a.d,
    );
    vstd::arithmetic::mul::lemma_mul_is_distributive_add_other_way(
        a.d * b.d,
        a2.n * b2.d,
        b2.n * a2.d,
    );
    assert((a.n * b.d) * (a2.d * b2.d) == (a.n * a2.d) * (b.d * b2.d)) by (nonlinear_arith);
    assert((b.n * a.d) * (a2.d * b2.d) == (b.n * b2.d) * (a.d * a2.d)) by (nonlinear_arith);
    assert((a2.n * b2.d) * (a.d * b.d) == (a2.n * a.d) * (b.d * b2.d)) by (nonlinear_arith);
    assert((b2.n * a2.d) * (a.d * b.d) == (b2.n * b.d) * (a.d * a2.d)) by (nonlinear_arith);
    assert((a.n * a2.d) * (b.d * b2.d) == (a2.n * a.d) * (b.d * b2.d));
    assert((b.n * b2.d) * (a.d * a2.d) == (b2.n * b.d) * (a.d * a2.d));
}

/// Differences of equal values are equal.
pub proof fn lemma_sub_congr(a: Rat, a2: Rat, b: Rat, b2: Rat)
    requires
        rat_wf(a),
        rat_wf(a2),
        rat_wf(b),
        rat_wf(b2),
        ratio_eq(a, a2),
        ratio_eq(b, b2),
    ensures
        ratio_eq(sub_r(a, b), sub_r(a2, b2)),
{
    vstd::arithmetic::mul::lemma_mul_is_distributive_sub_other_way(
        a2.d * b2.d,
        a.n * b.d,
        b.n * a.d,
    );
    vstd::arithmetic::mul::lemma_mul_is_distributive_sub_other_way(
        a.d * b.d,
        a2.n * b2.d,
        b2.n * a2.d,
    );
    assert((a.n * b.d) * (a2.d * b2.d) == (a.n * a2.d) * (b.d * b2.d)) by (nonlinear_arith);
    assert((b.n * a.d) * (a2.d * b2.d) == (b.n * b2.d) * (a.d * a2.d)) by (nonlinear_arith);
    assert((a2.n * b2.d) * (a.d * b.d) == (a2.n * a.d) * (b.d * b2.d)) by (nonlinear_arith);
    assert((b2.n * a2.d) * (a.d * b.d) == (b2.n * b.d) * (a.d * a2.d)) by (nonlinear_arith);
    assert((a.n * a2.d) * (b.d * b2.d) == (a2.n * a.d) * (b.d * b2.d));
    assert((b.n * b2.d) * (a.d * a2.d) == (b2.n * b.d) * (a.d * a2.d));
}

/// Products of equal values are equal.
pub proof fn lemma_mul_congr(a: Rat, a2: Rat, b: Rat, b2: Rat)
    by (nonlinear_arith)
    requires
        rat_wf(a),
        rat_wf(a2),
        rat_wf(b),
        rat_wf(b2),
        ratio_eq(a, a2),
        ratio_eq(b, b2),
    ensures
        ratio_eq(mul_r(a, b), mul_r(a2, b2)),
{
}

/// Equal values have numerators of the same sign.
pub proof fn lemma_ratio_eq_sign(a: Rat, b: Rat)
    by (nonlinear_arith)
    requires
        rat_wf(a),
        rat_wf(b),
        ratio_eq(a, b),
    ensures
        (0 < a.n) <==> (0 < b.n),
        (a.n < 0) <==> (b.n < 0),
{
}

/// Quotients of equal values are equal.
pub proof fn lemma_div_congr(a: Rat, a2: Rat, b: Rat, b2: Rat)
    requires
        rat_wf(a),
        rat_wf(a2),
        rat_wf(b),
        rat_wf(b2),
        ratio_eq(a, a2),
        ratio_eq(b, b2),
        b.n != 0,
    ensures
        ratio_eq(div_r(a, b), div_r(a2, b2)),
{
    lemma_ratio_eq_sign(b, b2);
    assert((a.n * b.d) * (a2.d * b2.n) == (a.n * a2.d) * (b2.n * b.d)) by (nonlinear_arith);
    assert((a.n * a2.d) * (b2.n * b.d) == (a2.n * a.d) * (b2.n * b.d));
    assert((a2.n * a.d) * (b2.n * b.d) == (a2.n * a.d) * (b.n * b2.d));
    assert((a2.n * a.d) * (b.n * b2.d) == (a2.n * b2.d) * (a.d * b.n)) by (nonlinear_arith);
    assert((a.n * b.d) * (a2.d * b2.n) == (a2.n * b2.d) * (a.d * b.n));
    if b.n >= 0 {
        assert(ratio_eq(div_r(a, b), div_r(a2, b2)));
    } else {
        assert((-(a.n * b.d)) * (-(a2.d * b2.n)) == (a.n * b.d) * (a2.d * b2.n)) by (nonlinear_arith);
        assert((-(a2.n * b2.d)) * (-(a.d * b.n)) == (a2.n * b2.d) * (a.d * b.n)) by (nonlinear_arith);
        assert(ratio_eq(div_r(a, b), div_r(a2, b2)));
    }
}

/// Order between values is kept when both are replaced by equal values.
pub proof fn lemma_le_congr(a: Rat, a2: Rat, b: Rat, b2: Rat)
    by (nonlinear_arith)
    requires
        rat_wf(a),
        rat_wf(a2),
        rat_wf(b),
        rat_wf(b2),
        ratio_eq(a, a2),
        ratio_eq(b, b2),
        ratio_le(a, b),
    ensures
        ratio_le(a2, b2),
{
}

/// Exact operations on well-formed fractions are well formed.
pub proof fn lemma_ops_wf(a: Rat, b: Rat)
    by (nonlinear_arith)
    requires
        rat_wf(a),
        rat_wf(b),
    ensures
        rat_wf(add_r(a, b)),
        rat_wf(sub_r(a, b)),
        rat_wf(mul_r(a, b)),
        b.n != 0 ==> rat_wf(div_r(a, b)),
{
}

/// The product of non-negative values is non-negative.
pub proof fn lemma_mul_nonneg_r(a: Rat, b: Rat)
    by (nonlinear_arith)
    requires
        rat_wf(a),
        rat_wf(b),
        0 <= a.n,
        0 <= b.n,
    ensures
        rat_wf(mul_r(a, b)),
        0 <= mul_r(a, b).n,
{
}

/// The sum of a positive and a non-negative value is positive.
pub proof fn lemma_add_pos(a: Rat, b: Rat)
    by (nonlinear_arith)
    requires
        rat_wf(a),
        rat_wf(b),
        0 < a.n,
        0 <= b.n,
    ensures
        rat_wf(add_r(a, b)),
        0 < add_r(a, b).n,
{
}

/// The product of positive values is positive.
pub proof fn lemma_mul_pos_r(a: Rat, b: Rat)
    by (nonlinear_arith)
    requires
        rat_wf(a),
        rat_wf(b),
        0 < a.n,
        0 < b.n,
    ensures
        rat_wf(mul_r(a, b)),
        0 < mul_r(a, b).n,
{
}

/// The quotient of positive values is positive.
pub proof fn lemma_div_pos_r(a: Rat, b: Rat)
    by (nonlinear_arith)
    requires
        rat_wf(a),
        rat_wf(b),
        0 < a.n,
        0 < b.n,
    ensures
        rat_wf(div_r(a, b)),
        0 < div_r(a, b).n,
{
}

/// Exact fraction held in 64-bit parts; the denominator is positive.
#[derive(Clone, Copy, Debug, PartialEq, Eq, Structural)]
pub struct Dec {
    pub n: i64,
    pub d: i64,
}

impl View for Dec {
    type V = Rat;

    open spec fn view(&self) -> Rat {
        Rat { n: self.n as int, d: self.d as int }
    }
}

/// Bound on the magnitude of a product, from bounds on the factors.
proof fn lemma_prod_bound(x: int, y: int, xb: int, yb: int)
    by (nonlinear_arith)
    requires
        -xb <= x <= xb,
        -yb <= y <= yb,
        0 <= xb,
        0 <= yb,
    ensures
        -(xb * yb) <= x * y <= xb * yb,
{
}

/// A product of two positive factors is positive.
proof fn lemma_prod_pos(x: int, y: int)
    by (nonlinear_arith)
    requires
        0 < x,
        0 < y,
    ensures
        0 < x * y,
{
}

/// Reduce the exact wide fraction `n / d` to lowest terms, reporting whether
/// it fits the 64-bit representation.
fn reduce_i128(n: i128, d: i128) -> (r: Option<Dec>)
    requires
        -(i128::MAX as int) <= n,
        1 <= d,
    ensures
        r is Some <==> fits_dec(Rat { n: n as int, d: d as int }),
        r matches Some(q) ==> q.wf() && q@ == norm_r(Rat { n: n as int, d: d as int }),
{
    let neg: bool = n < 0;
    let m: u128 = if neg {
        (-n) as u128
    } else {
        n as u128
    };
    let du: u128 = d as u128;
    proof {
        lemma_gcd_props(m as int, du as int);
    }
    let g: u128 = gcd_u128(m, du);
    let rn: u128 = m / g;
    let rd: u128 = du / g;
    proof {
        lemma_fundamental_div_mod(du as int, g as int);
        lemma_fundamental_div_mod(m as int, g as int);
        assert(1 <= rd) by (nonlinear_arith)
            requires
                du as int == (g as int) * (rd as int) + 0,
                du as int >= 1,
                g as int >= 1,
                rd as int >= 0,
        ;
        assert(norm_r(Rat { n: n as int, d: d as int }).n == if neg {
            -(rn as int)
        } else {
            rn as int
        });
        assert(norm_r(Rat { n: n as int, d: d as int }).d == rd as int);
    }
    if rn <= i64::MAX as u128 && rd <= i64::MAX as u128 {
        let nn: i64 = if neg {
            -(rn as i64)
        } else {
            rn as i64
        };
        Some(Dec { n: nn, d: rd as i64 })
    } else {
        None
    }
}

impl Dec {
    /// A representation is well formed when its denominator is positive.
    pub open spec fn wf(self) -> bool {
        1 <= self.d
    }

    /// The fraction with integer value `v`.
    pub fn from_i64(v: i64) -> (r: Dec)
        ensures
            r.wf(),
            r@ == rat_i(v as int),
    {
        Dec { n: v, d: 1 }
    }

    /// Exact sum; `None` when the reduced result leaves the 64-bit range.
    pub fn checked_add(self, o: Dec) -> (r: Option<Dec>)
        requires
            self.wf(),
            o.wf(),
        ensures
            r is Some <==> fits_dec(add_r(self@, o@)),
            r matches Some(q) ==> q.wf() && q@ == norm_r(add_r(self@, o@)),
    {
        proof {
            let m: int = i64::MAX as int;
            lemma_prod_bound(self.n as int, o.d as int, m + 1, m);
            lemma_prod_bound(o.n as int, self.d as int, m + 1, m);
            lemma_prod_bound(self.d as int, o.d as int, m, m);
            lemma_prod_pos(self.d as int, o.d as int);
        }
        let n: i128 = (self.n as i128) * (o.d as i128) + (o.n as i128) * (self.d as i128);
        let d: i128 = (self.d as i128) * (o.d as i128);
        reduce_i128(n, d)
    }

    /// Exact difference; `None` when the reduced result leaves the 64-bit range.
    pub fn checked_sub(self, o: Dec) -> (r: Option<Dec>)
        requires
            self.wf(),
            o.wf(),
        ensures
            r is Some <==> fits_dec(sub_r(self@, o@)),
            r matches Some(q) ==> q.wf() && q@ == norm_r(sub_r(self@, o@)),
    {
        proof {
            let m: int = i64::MAX as int;
            lemma_prod_bound(self.n as int, o.d as int, m + 1, m);
            lemma_prod_bound(o.n as int, self.d as int, m + 1, m);
            lemma_prod_bound(self.d as int, o.d as int, m, m);
            lemma_prod_pos(self.d as int, o.d as int);
        }
        let n: i128 = (self.n as i128) * (o.d as i128) - (o.n as i128) * (self.d as i128);
        let d: i128 = (self.d as i128) * (o.d as i128);
        reduce_i128(n, d)
    }

    /// Exact product; `None` when the reduced result leaves the 64-bit range.
    pub fn checked_mul(self, o: Dec) -> (r: Option<Dec>)
        requires
            self.wf(),
            o.wf(),
        ensures
            r is Some <==> fits_dec(mul_r(self@, o@)),
            r matches Some(q) ==> q.wf() && q@ == norm_r(mul_r(self@, o@)),
    {
        proof {
            let m: int = i64::MAX as int;
            lemma_prod_bound(self.n as int, o.n as int, m + 1, m + 1);
            lemma_prod_bound(self.d as int, o.d as int, m, m);
            lemma_prod_pos(self.d as int, o.d as int);
        }
        let n: i128 = (self.n as i128) * (o.n as i128);
        let d: i128 = (self.d as i128) * (o.d as i128);
        reduce_i128(n, d)
    }

    /// Exact quotient; `None` when the reduced result leaves the 64-bit range.
    /// The divisor must be non-zero.
    pub fn checked_div(self, o: Dec) -> (r: Option<Dec>)
        requires
            self.wf(),
            o.wf(),
            o@.n != 0,
        ensures
            r is Some <==> fits_dec(div_r(self@, o@)),
            r matches Some(q) ==> q.wf() && q@ == norm_r(div_r(self@, o@)),
    {
        proof {
            let m: int = i64::MAX as int;
            lemma_prod_bound(self.n as int, o.d as int, m + 1, m);
            lemma_prod_bound(self.d as int, o.n as int, m, m + 1);
        }
        let n0: i128 = (self.n as i128) * (o.d as i128);
        let d0: i128 = (self.d as i128) * (o.n as i128);
        if o.n < 0 {
            proof {
                assert(d0 <= -1) by (nonlinear_arith)
                    requires
                        d0 as int == (self.d as int) * (o.n as int),
                        self.d as int >= 1,
                        o.n as int <= -1,
                ;
            }
            reduce_i128(-n0, -d0)
        } else {
            proof {
                lemma_prod_pos(self.d as int, o.n as int);
            }
            reduce_i128(n0, d0)
        }
    }

    /// Strict order on denoted values.
    pub fn lt(self, o: Dec) -> (r: bool)
        requires
            self.wf(),
            o.wf(),
        ensures
            r == ratio_lt(self@, o@),
    {
        proof {
            let m: int = i64::MAX as int;
            lemma_prod_bound(self.n as int, o.d as int, m + 1, m);
            lemma_prod_bound(o.n as int, self.d as int, m + 1, m);
        }
        (self.n as i128) * (o.d as i128) < (o.n as i128) * (self.d as i128)
    }

    /// Non-strict order on denoted values.
    pub fn le(self, o: Dec) -> (r: bool)
        requires
            self.wf(),
            o.wf(),
        ensures
            r == ratio_le(self@, o@),
    {
        proof {
            let m: int = i64::MAX as int;
            lemma_prod_bound(self.n as int, o.d as int, m + 1, m);
            lemma_prod_bound(o.n as int, self.d as int, m + 1, m);
        }
        (self.n as i128) * (o.d as i128) <= (o.n as i128) * (self.d as i128)
    }

    /// Equality of denoted values (two representations may denote one value).
    pub fn eq_frac(self, o: Dec) -> (r: bool)
        requires
            self.wf(),
            o.wf(),
        ensures
            r == ratio_eq(self@, o@),
    {
        proof {
            let m: int = i64::MAX as int;
            lemma_prod_bound(self.n as int, o.d as int, m + 1, m);
            lemma_prod_bound(o.n as int, self.d as int, m + 1, m);
        }
        (self.n as i128) * (o.d as i128) == (o.n as i128) * (self.d as i128)
    }

    /// Whether the denoted value is strictly positive.
    pub fn is_pos(self) -> (r: bool)
        requires
            self.wf(),
        ensures
            r == (0 < self@.n),
    {
        0 < self.n
    }

    /// Whether the denoted value is strictly negative.
    pub fn is_neg(self) -> (r: bool)
        requires
            self.wf(),
        ensures
            r == (self@.n < 0),
    {
        self.n < 0
    }
}

} // verus!
