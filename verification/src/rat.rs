//! Exact non-negative rational arithmetic on `u64` numerator/denominator
//! pairs. Every operation reduces its result by the greatest common divisor
//! and reports overflow (a reduced component that does not fit in `u64`) as
//! `None`, so all executable arithmetic is exact.
//!
//! Specifications speak about the mathematical value `Rat` (a pair of
//! unbounded integers); `rat_eq`, `rat_le` and `rat_lt` compare values by
//! cross-multiplication, so they are insensitive to the representation.

use vstd::prelude::*;
use vstd::arithmetic::div_mod::lemma_fundamental_div_mod;
use vstd::arithmetic::div_mod::lemma_div_multiples_vanish;

verus! {

/// Mathematical value of a ratio `n / d`. Specification-only.
pub struct Rat {
    pub n: int,
    pub d: int,
}

/// Builds the specification-level ratio `n / d`.
pub open spec fn rat_of(n: int, d: int) -> Rat {
    Rat { n: n, d: d }
}

/// A well-formed value has a positive denominator.
pub open spec fn rat_wf(x: Rat) -> bool {
    x.d > 0
}

/// Value equality by cross-multiplication: `x.n/x.d == y.n/y.d`.
pub open spec fn rat_eq(x: Rat, y: Rat) -> bool {
    x.n * y.d == y.n * x.d
}

pub open spec fn rat_le(x: Rat, y: Rat) -> bool {
    x.n * y.d <= y.n * x.d
}

pub open spec fn rat_lt(x: Rat, y: Rat) -> bool {
    x.n * y.d < y.n * x.d
}

/// Strictly positive value (assuming a well-formed denominator).
pub open spec fn rat_pos(x: Rat) -> bool {
    x.n > 0
}

pub open spec fn rat_add(x: Rat, y: Rat) -> Rat {
    Rat { n: x.n * y.d + y.n * x.d, d: x.d * y.d }
}

pub open spec fn rat_sub(x: Rat, y: Rat) -> Rat {
    Rat { n: x.n * y.d - y.n * x.d, d: x.d * y.d }
}

pub open spec fn rat_mul(x: Rat, y: Rat) -> Rat {
    Rat { n: x.n * y.n, d: x.d * y.d }
}

pub open spec fn rat_div(x: Rat, y: Rat) -> Rat {
    Rat { n: x.n * y.d, d: x.d * y.n }
}

pub open spec fn rat_half(x: Rat) -> Rat {
    Rat { n: x.n, d: 2 * x.d }
}

/// Euclid's greatest common divisor, on non-negative arguments.
pub open spec fn gcd(a: int, b: int) -> int
    decreases b when b >= 0
{
    if b <= 0 {
        a
    } else {
        gcd(b, a % b)
    }
}

/// `g` divides `a` exactly.
pub open spec fn divides(g: int, a: int) -> bool {
    exists|k: int| a == #[trigger] (g * k)
}

/// The gcd of non-negative numbers is non-negative, positive unless both
/// arguments are zero, and divides both arguments.
pub proof fn lemma_gcd_divides(a: int, b: int)
    requires
        a >= 0,
        b >= 0,
    ensures
        gcd(a, b) >= 0,
        a > 0 || b > 0 ==> gcd(a, b) > 0,
        divides(gcd(a, b), a),
        divides(gcd(a, b), b),
    decreases b,
{
    if b <= 0 {
        assert(a == a * 1);
        assert(0 == a * 0);
        assert(divides(a, a));
        assert(divides(a, 0));
    } else {
        lemma_fundamental_div_mod(a, b);
        lemma_gcd_divides(b, a % b);
        let g = gcd(b, a % b);
        let k1 = choose|k: int| b == #[trigger] (g * k);
        let k2 = choose|k: int| (a % b) == #[trigger] (g * k);
        let q = a / b;
        assert(a == g * (k1 * q + k2)) by (nonlinear_arith)
            requires
                b == g * k1,
                (a % b) == g * k2,
                a == q * b + (a % b),
        ;
        assert(divides(g, a));
    }
}

/// The fully reduced representation of `n / d`.
pub open spec fn norm(n: int, d: int) -> Rat {
    Rat { n: n / gcd(n, d), d: d / gcd(n, d) }
}

/// Both components of a (reduced) representation fit in `u64`.
pub open spec fn fits_u64(x: Rat) -> bool {
    x.n <= u64::MAX && x.d <= u64::MAX
}

/// Executable exact rational: the value `num / den`, with `den > 0`.
#[derive(Clone, Copy, PartialEq, Eq, Structural, Debug)]
pub struct Ratio {
    pub num: u64,
    pub den: u64,
}

impl View for Ratio {
    type V = Rat;

    open spec fn view(&self) -> Rat {
        Rat { n: self.num as int, d: self.den as int }
    }
}

/// Overflow-free widening multiplication of two `u64` values.
fn mul_wide(a: u64, b: u64) -> (r: u128)
    ensures
        r == a as int * b as int,
        a > 0 && b > 0 ==> r > 0,
{
    proof {
        assert((a as int) * (b as int) <= u128::MAX && (a > 0 && b > 0 ==> (a as int) * (b as int)
            > 0)) by (nonlinear_arith)
            requires
                a <= u64::MAX,
                b <= u64::MAX,
        ;
    }
    (a as u128) * (b as u128)
}

fn gcd_u128(a: u128, b: u128) -> (g: u128)
    ensures
        g as int == gcd(a as int, b as int),
    decreases b,
{
    if b == 0 {
        a
    } else {
        gcd_u128(b, a % b)
    }
}

impl Ratio {
    /// Well-formedness: the denominator is positive, so the value is a
    /// genuine non-negative rational.
    pub open spec fn wf(self) -> bool {
        self.den >= 1
    }

    /// Builds `num / den`; `None` exactly when the denominator is zero.
    pub fn new(num: u64, den: u64) -> (r: Option<Ratio>)
        ensures
            r is Some <==> den > 0,
            r matches Some(q) ==> (q.wf() && q@ == rat_of(num as int, den as int)),
    {
        if den > 0 {
            Some(Ratio { num: num, den: den })
        } else {
            None
        }
    }

    /// Reduces `n / d` by the gcd and returns it if both reduced components
    /// fit in `u64`.
    #[verifier::rlimit(60)]
    fn from_parts(n: u128, d: u128) -> (r: Option<Ratio>)
        requires
            d > 0,
        ensures
            r is Some <==> fits_u64(norm(n as int, d as int)),
            r matches Some(q) ==> (q.wf() && q@ == norm(n as int, d as int) && rat_eq(
                q@,
                rat_of(n as int, d as int),
            ) && (rat_pos(q@) <==> n > 0)),
    {
        let g = gcd_u128(n, d);
        proof {
            lemma_gcd_divides(n as int, d as int);
        }
        let ghost gi = gcd(n as int, d as int);
        let ghost kn = choose|k: int| n as int == #[trigger] (gi * k);
        let ghost kd = choose|k: int| d as int == #[trigger] (gi * k);
        proof {
            lemma_div_multiples_vanish(kn, gi);
            lemma_div_multiples_vanish(kd, gi);
            assert(kd > 0 && (kn > 0 <==> n as int > 0) && kn * (d as int) == (n as int) * kd)
                by (nonlinear_arith)
                requires
                    n as int == gi * kn,
                    d as int == gi * kd,
                    gi > 0,
                    d as int > 0,
                    n as int >= 0,
            ;
        }
        let rn = n / g;
        let rd = d / g;
        if rn <= u64::MAX as u128 && rd <= u64::MAX as u128 {
            Some(Ratio { num: rn as u64, den: rd as u64 })
        } else {
            None
        }
    }

    /// Numerator of the sum before reduction.
    pub open spec fn sum_n(x: Rat, y: Rat) -> int {
        x.n * y.d + y.n * x.d
    }

    /// Numerator of the difference before reduction.
    pub open spec fn diff_n(x: Rat, y: Rat) -> int {
        x.n * y.d - y.n * x.d
    }

    /// Common denominator before reduction.
    pub open spec fn prod_d(x: Rat, y: Rat) -> int {
        x.d * y.d
    }

    pub open spec fn add_fits(x: Rat, y: Rat) -> bool {
        Self::sum_n(x, y) <= u128::MAX && fits_u64(norm(Self::sum_n(x, y), Self::prod_d(x, y)))
    }

    /// The exact representation `add` returns when it succeeds.
    pub open spec fn add_rep(x: Rat, y: Rat) -> Rat {
        norm(Self::sum_n(x, y), Self::prod_d(x, y))
    }

    /// Exact checked addition; `None` exactly on overflow of the reduced
    /// result.
    pub fn add(self, o: Ratio) -> (r: Option<Ratio>)
        requires
            self.wf(),
            o.wf(),
        ensures
            r is Some <==> Self::add_fits(self@, o@),
            r matches Some(q) ==> (q.wf() && q@ == Self::add_rep(self@, o@) && rat_eq(
                q@,
                rat_add(self@, o@),
            ) && (rat_pos(q@) <==> (rat_pos(self@) || rat_pos(o@)))),
    {
        let p1 = mul_wide(self.num, o.den);
        let p2 = mul_wide(o.num, self.den);
        let d = mul_wide(self.den, o.den);
        if p1 <= u128::MAX - p2 {
            let r = Self::from_parts(p1 + p2, d);
            proof {
                assert((p1 + p2) as int > 0 <==> (rat_pos(self@) || rat_pos(o@)))
                    by (nonlinear_arith)
                    requires
                        p1 == self@.n * o@.d,
                        p2 == o@.n * self@.d,
                        self@.d > 0,
                        o@.d > 0,
                        self@.n >= 0,
                        o@.n >= 0,
                ;
            }
            r
        } else {
            None
        }
    }

    pub open spec fn sub_fits(x: Rat, y: Rat) -> bool {
        fits_u64(norm(Self::diff_n(x, y), Self::prod_d(x, y)))
    }

    pub open spec fn sub_rep(x: Rat, y: Rat) -> Rat {
        norm(Self::diff_n(x, y), Self::prod_d(x, y))
    }

    /// Exact checked subtraction of a value no larger than `self`.
    pub fn sub(self, o: Ratio) -> (r: Option<Ratio>)
        requires
            self.wf(),
            o.wf(),
            rat_le(o@, self@),
        ensures
            r is Some <==> Self::sub_fits(self@, o@),
            r matches Some(q) ==> (q.wf() && q@ == Self::sub_rep(self@, o@) && rat_eq(
                q@,
                rat_sub(self@, o@),
            ) && (rat_pos(q@) <==> rat_lt(o@, self@))),
    {
        let p1 = mul_wide(self.num, o.den);
        let p2 = mul_wide(o.num, self.den);
        let d = mul_wide(self.den, o.den);
        Self::from_parts(p1 - p2, d)
    }

    pub open spec fn mul_fits(x: Rat, y: Rat) -> bool {
        fits_u64(norm(x.n * y.n, Self::prod_d(x, y)))
    }

    pub open spec fn mul_rep(x: Rat, y: Rat) -> Rat {
        norm(x.n * y.n, Self::prod_d(x, y))
    }

    /// Exact checked multiplication.
    pub fn mul(self, o: Ratio) -> (r: Option<Ratio>)
        requires
            self.wf(),
            o.wf(),
        ensures
            r is Some <==> Self::mul_fits(self@, o@),
            r matches Some(q) ==> (q.wf() && q@ == Self::mul_rep(self@, o@) && rat_eq(
                q@,
                rat_mul(self@, o@),
            ) && (rat_pos(q@) <==> (rat_pos(self@) && rat_pos(o@)))),
    {
        let n = mul_wide(self.num, o.num);
        let d = mul_wide(self.den, o.den);
        let r = Self::from_parts(n, d);
        proof {
            assert(n as int > 0 <==> (rat_pos(self@) && rat_pos(o@))) by (nonlinear_arith)
                requires
                    n == self@.n * o@.n,
                    self@.n >= 0,
                    o@.n >= 0,
            ;
        }
        r
    }

    pub open spec fn div_fits(x: Rat, y: Rat) -> bool {
        fits_u64(norm(x.n * y.d, x.d * y.n))
    }

    pub open spec fn div_rep(x: Rat, y: Rat) -> Rat {
        norm(x.n * y.d, x.d * y.n)
    }

    /// Exact checked division by a strictly positive value.
    pub fn div(self, o: Ratio) -> (r: Option<Ratio>)
        requires
            self.wf(),
            o.wf(),
            rat_pos(o@),
        ensures
            r is Some <==> Self::div_fits(self@, o@),
            r matches Some(q) ==> (q.wf() && q@ == Self::div_rep(self@, o@) && rat_eq(
                q@,
                rat_div(self@, o@),
            ) && (rat_pos(q@) <==> rat_pos(self@))),
    {
        let n = mul_wide(self.num, o.den);
        let d = mul_wide(self.den, o.num);
        proof {
            assert(d as int > 0 && (n as int > 0 <==> rat_pos(self@))) by (nonlinear_arith)
                requires
                    n == self@.n * o@.d,
                    d == self@.d * o@.n,
                    self@.d > 0,
                    o@.d > 0,
                    o@.n > 0,
                    self@.n >= 0,
            ;
        }
        Self::from_parts(n, d)
    }

    pub open spec fn half_fits(x: Rat) -> bool {
        fits_u64(norm(x.n, 2 * x.d))
    }

    pub open spec fn half_rep(x: Rat) -> Rat {
        norm(x.n, 2 * x.d)
    }

    /// Exact checked halving.
    pub fn half(self) -> (r: Option<Ratio>)
        requires
            self.wf(),
        ensures
            r is Some <==> Self::half_fits(self@),
            r matches Some(q) ==> (q.wf() && q@ == Self::half_rep(self@) && rat_eq(
                q@,
                rat_half(self@),
            ) && (rat_pos(q@) <==> rat_pos(self@))),
    {
        Self::from_parts(self.num as u128, 2 * (self.den as u128))
    }

    /// Exact value comparison `self < o`; total, never fails.
    pub fn lt(self, o: Ratio) -> (r: bool)
        requires
            self.wf(),
            o.wf(),
        ensures
            r == rat_lt(self@, o@),
    {
        mul_wide(self.num, o.den) < mul_wide(o.num, self.den)
    }

    /// Exact value comparison `self <= o`.
    pub fn le(self, o: Ratio) -> (r: bool)
        requires
            self.wf(),
            o.wf(),
        ensures
            r == rat_le(self@, o@),
    {
        mul_wide(self.num, o.den) <= mul_wide(o.num, self.den)
    }

    /// Exact value equality (insensitive to the representation).
    pub fn val_eq(self, o: Ratio) -> (r: bool)
        requires
            self.wf(),
            o.wf(),
        ensures
            r == rat_eq(self@, o@),
    {
        mul_wide(self.num, o.den) == mul_wide(o.num, self.den)
    }

    /// Whether the value is strictly positive.
    pub fn is_pos(self) -> (r: bool)
        ensures
            r == rat_pos(self@),
    {
        self.num > 0
    }
}

/// Scaling numerator and denominator by the same factor keeps the value.
pub proof fn lemma_scale_eq(a: int, b: int, c: int)
    by (nonlinear_arith)
    ensures
        rat_eq(rat_of(c * a, c * b), rat_of(a, b)),
{
}

/// Well-formedness of the composite operations.
pub proof fn lemma_ops_wf(x: Rat, y: Rat)
    by (nonlinear_arith)
    requires
        rat_wf(x),
        rat_wf(y),
    ensures
        rat_wf(rat_add(x, y)),
        rat_wf(rat_sub(x, y)),
        rat_wf(rat_mul(x, y)),
        rat_wf(rat_half(x)),
        rat_pos(y) ==> rat_wf(rat_div(x, y)),
{
}

/// Value equality is transitive.
pub proof fn lemma_eq_trans(x: Rat, y: Rat, z: Rat)
    by (nonlinear_arith)
    requires
        rat_wf(x),
        rat_wf(y),
        rat_wf(z),
        rat_eq(x, y),
        rat_eq(y, z),
    ensures
        rat_eq(x, z),
{
}

/// Order and strict order respect value equality.
pub proof fn lemma_cmp_congr(x: Rat, x2: Rat, y: Rat, y2: Rat)
    by (nonlinear_arith)
    requires
        rat_wf(x),
        rat_wf(x2),
        rat_wf(y),
        rat_wf(y2),
        rat_eq(x, x2),
        rat_eq(y, y2),
    ensures
        rat_le(x, y) <==> rat_le(x2, y2),
        rat_lt(x, y) <==> rat_lt(x2, y2),
{
}

/// Positivity respects value equality.
pub proof fn lemma_pos_congr(x: Rat, y: Rat)
    by (nonlinear_arith)
    requires
        rat_wf(x),
        rat_wf(y),
        rat_eq(x, y),
    ensures
        rat_pos(x) <==> rat_pos(y),
{
}

/// Transitivity of the order, in all strictness combinations.
pub proof fn lemma_le_trans(x: Rat, y: Rat, z: Rat)
    by (nonlinear_arith)
    requires
        rat_wf(x),
        rat_wf(y),
        rat_wf(z),
    ensures
        rat_le(x, y) && rat_le(y, z) ==> rat_le(x, z),
        rat_lt(x, y) && rat_le(y, z) ==> rat_lt(x, z),
        rat_le(x, y) && rat_lt(y, z) ==> rat_lt(x, z),
        rat_lt(x, y) && rat_lt(y, z) ==> rat_lt(x, z),
{
}

/// Addition respects value equality.
pub proof fn lemma_add_congr(x: Rat, x2: Rat, y: Rat, y2: Rat)
    requires
        rat_eq(x, x2),
        rat_eq(y, y2),
    ensures
        rat_eq(rat_add(x, y), rat_add(x2, y2)),
{
    let ny = Rat { n: -y.n, d: y.d };
    let ny2 = Rat { n: -y2.n, d: y2.d };
    assert((-y.n) * y2.d == -(y.n * y2.d) && (-y2.n) * y.d == -(y2.n * y.d) && (-y.n) * x.d == -(
    y.n * x.d) && (-y2.n) * x2.d == -(y2.n * x2.d)) by (nonlinear_arith);
    lemma_sub_congr(x, x2, ny, ny2);
    assert(rat_sub(x, ny) == rat_add(x, y));
    assert(rat_sub(x2, ny2) == rat_add(x2, y2));
}

/// Subtraction respects value equality.
pub proof fn lemma_sub_congr(x: Rat, x2: Rat, y: Rat, y2: Rat)
    requires
        rat_eq(x, x2),
        rat_eq(y, y2),
    ensures
        rat_eq(rat_sub(x, y), rat_sub(x2, y2)),
{
    broadcast use vstd::arithmetic::mul::group_mul_properties;

    assert((x.n * y.d - y.n * x.d) * (x2.d * y2.d) == (x.n * x2.d) * (y.d * y2.d) - (y.n * y2.d)
        * (x.d * x2.d));
    assert((x2.n * y2.d - y2.n * x2.d) * (x.d * y.d) == (x2.n * x.d) * (y.d * y2.d) - (y2.n * y.d)
        * (x.d * x2.d));
}

/// Multiplication respects value equality.
pub proof fn lemma_mul_congr(x: Rat, x2: Rat, y: Rat, y2: Rat)
    by (nonlinear_arith)
    requires
        rat_eq(x, x2),
        rat_eq(y, y2),
    ensures
        rat_eq(rat_mul(x, y), rat_mul(x2, y2)),
{
}

/// Division by equal positive values respects value equality.
pub proof fn lemma_div_congr(x: Rat, x2: Rat, y: Rat, y2: Rat)
    requires
        rat_eq(x, x2),
        rat_eq(y, y2),
    ensures
        rat_eq(rat_div(x, y), rat_div(x2, y2)),
{
    broadcast use vstd::arithmetic::mul::group_mul_properties;

    assert((x.n * y.d) * (x2.d * y2.n) == (x.n * x2.d) * (y.d * y2.n));
    assert((x2.n * y2.d) * (x.d * y.n) == (x2.n * x.d) * (y2.d * y.n));
    assert((x2.n * x.d) * (y.d * y2.n) == (x2.n * x.d) * (y2.d * y.n));
}

/// Associativity and commutativity of multiplication, up to value equality.
pub proof fn lemma_mul_assoc_comm(x: Rat, y: Rat, z: Rat)
    by (nonlinear_arith)
    ensures
        rat_eq(rat_mul(x, y), rat_mul(y, x)),
        rat_eq(rat_mul(rat_mul(x, y), z), rat_mul(x, rat_mul(y, z))),
{
}

/// Multiplication distributes over addition and subtraction.
pub proof fn lemma_mul_distrib(x: Rat, y: Rat, z: Rat)
    ensures
        rat_eq(rat_mul(x, rat_add(y, z)), rat_add(rat_mul(x, y), rat_mul(x, z))),
        rat_eq(rat_mul(x, rat_sub(y, z)), rat_sub(rat_mul(x, y), rat_mul(x, z))),
{
    let ma = Rat { n: x.n * (y.n * z.d + z.n * y.d), d: x.d * (y.d * z.d) };
    let ra = rat_add(rat_mul(x, y), rat_mul(x, z));
    assert((x.n * y.n) * (x.d * z.d) + (x.n * z.n) * (x.d * y.d) == x.d * (x.n * (y.n * z.d + z.n
        * y.d)) && (x.d * y.d) * (x.d * z.d) == x.d * (x.d * (y.d * z.d))) by {
        broadcast use vstd::arithmetic::mul::group_mul_properties;
    }
    assert(ra.n == x.d * ma.n && ra.d == x.d * ma.d);
    lemma_scale_eq(ma.n, ma.d, x.d);
    assert(rat_eq(rat_mul(x, rat_add(y, z)), ra));
    let ms = Rat { n: x.n * (y.n * z.d - z.n * y.d), d: x.d * (y.d * z.d) };
    let rs = rat_sub(rat_mul(x, y), rat_mul(x, z));
    assert((x.n * y.n) * (x.d * z.d) - (x.n * z.n) * (x.d * y.d) == x.d * (x.n * (y.n * z.d - z.n
        * y.d))) by {
        broadcast use vstd::arithmetic::mul::group_mul_properties;
    }
    assert(rs.n == x.d * ms.n && rs.d == x.d * ms.d);
    lemma_scale_eq(ms.n, ms.d, x.d);
    assert(rat_eq(rat_mul(x, rat_sub(y, z)), rs));
}

/// Adding a difference is subtracting after adding.
pub proof fn lemma_add_sub_assoc(p: Rat, r: Rat, s: Rat)
    ensures
        rat_eq(rat_add(p, rat_sub(r, s)), rat_sub(rat_add(p, r), s)),
{
    let lhs = rat_add(p, rat_sub(r, s));
    let rhs = rat_sub(rat_add(p, r), s);
    assert(p.n * (r.d * s.d) + (r.n * s.d - s.n * r.d) * p.d == (p.n * r.d + r.n * p.d) * s.d
        - s.n * (p.d * r.d)) by (nonlinear_arith);
    assert((p.d * r.d) * s.d == p.d * (r.d * s.d)) by (nonlinear_arith);
    assert(lhs.n == rhs.n && lhs.d == rhs.d);
}

/// Adding the same value on the right preserves the (strict) order.
pub proof fn lemma_add_mono(x: Rat, y: Rat, z: Rat)
    by (nonlinear_arith)
    requires
        rat_wf(x),
        rat_wf(y),
        rat_wf(z),
    ensures
        rat_lt(x, y) ==> rat_lt(rat_add(x, z), rat_add(y, z)),
        rat_le(x, y) ==> rat_le(rat_add(x, z), rat_add(y, z)),
        rat_eq(x, y) ==> rat_eq(rat_add(x, z), rat_add(y, z)),
{
}

/// Multiplying by the same positive value preserves the (strict) order.
pub proof fn lemma_mul_mono(x: Rat, y: Rat, z: Rat)
    by (nonlinear_arith)
    requires
        rat_wf(x),
        rat_wf(y),
        rat_wf(z),
        rat_pos(z),
    ensures
        rat_lt(x, y) ==> rat_lt(rat_mul(x, z), rat_mul(y, z)),
        rat_le(x, y) ==> rat_le(rat_mul(x, z), rat_mul(y, z)),
{
}

/// Comparing with a quotient is comparing with the scaled numerator:
/// `c < a/b` exactly when `b*c < a`.
pub proof fn lemma_div_cmp(c: Rat, a: Rat, b: Rat)
    by (nonlinear_arith)
    requires
        rat_wf(c),
        rat_wf(a),
        rat_wf(b),
        rat_pos(b),
    ensures
        rat_lt(c, rat_div(a, b)) <==> rat_lt(rat_mul(b, c), a),
        rat_le(rat_div(a, b), c) <==> rat_le(a, rat_mul(b, c)),
        rat_le(c, rat_div(a, b)) <==> rat_le(rat_mul(b, c), a),
        rat_lt(rat_div(a, b), c) <==> rat_lt(a, rat_mul(b, c)),
{
}

/// Commutativity of addition, up to value equality.
pub proof fn lemma_add_comm(x: Rat, y: Rat)
    ensures
        rat_eq(rat_add(x, y), rat_add(y, x)),
{
    assert(x.d * y.d == y.d * x.d) by (nonlinear_arith);
    assert(rat_add(x, y).n == rat_add(y, x).n);
}

/// Associativity of addition, up to value equality.
pub proof fn lemma_add_assoc(x: Rat, y: Rat, z: Rat)
    ensures
        rat_eq(rat_add(rat_add(x, y), z), rat_add(x, rat_add(y, z))),
{
    let nz = Rat { n: -z.n, d: z.d };
    assert((-z.n) * (x.d * y.d) == -(z.n * (x.d * y.d)) && (-z.n) * y.d == -(z.n * y.d))
        by (nonlinear_arith);
    lemma_add_sub_assoc(x, y, nz);
    assert(rat_sub(y, nz) == rat_add(y, z));
    assert(rat_add(x, rat_sub(y, nz)) == rat_add(x, rat_add(y, z)));
    assert(rat_sub(rat_add(x, y), nz) == rat_add(rat_add(x, y), z));
}

/// Multiplying a quotient by its positive divisor gives back the dividend.
pub proof fn lemma_mul_div_cancel(b: Rat, c: Rat)
    by (nonlinear_arith)
    requires
        rat_wf(b),
        rat_wf(c),
        rat_pos(c),
    ensures
        rat_eq(rat_mul(c, rat_div(b, c)), b),
{
}

/// The midpoint of two values lies strictly between them.
pub proof fn lemma_mid_between(x: Rat, y: Rat)
    by (nonlinear_arith)
    requires
        rat_wf(x),
        rat_wf(y),
        rat_lt(x, y),
    ensures
        rat_lt(x, rat_half(rat_add(x, y))),
        rat_lt(rat_half(rat_add(x, y)), y),
        rat_lt(x, rat_half(rat_add(y, x))),
        rat_lt(rat_half(rat_add(y, x)), y),
{
}

/// Adding back a subtracted value restores the original.
pub proof fn lemma_sub_add_cancel(x: Rat, z: Rat)
    by (nonlinear_arith)
    ensures
        rat_eq(rat_add(x, rat_sub(z, x)), z),
{
}

/// Halving respects value equality.
pub proof fn lemma_half_congr(x: Rat, y: Rat)
    by (nonlinear_arith)
    requires
        rat_eq(x, y),
    ensures
        rat_eq(rat_half(x), rat_half(y)),
{
}


/// The last two summands of a three-term sum can be exchanged.
pub proof fn lemma_add_swap(t: Rat, x: Rat, y: Rat)
    requires
        rat_wf(t),
        rat_wf(x),
        rat_wf(y),
    ensures
        rat_eq(rat_add(rat_add(t, x), y), rat_add(rat_add(t, y), x)),
{
    lemma_ops_wf(t, x);
    lemma_ops_wf(t, y);
    lemma_ops_wf(x, y);
    lemma_ops_wf(y, x);
    lemma_ops_wf(rat_add(t, x), y);
    lemma_ops_wf(rat_add(t, y), x);
    lemma_ops_wf(t, rat_add(x, y));
    lemma_ops_wf(t, rat_add(y, x));
    lemma_add_assoc(t, x, y);
    lemma_add_comm(x, y);
    lemma_add_congr(t, t, rat_add(x, y), rat_add(y, x));
    lemma_add_assoc(t, y, x);
    lemma_eq_trans(rat_add(rat_add(t, x), y), rat_add(t, rat_add(x, y)), rat_add(t, rat_add(y, x)));
    lemma_eq_trans(rat_add(rat_add(t, x), y), rat_add(t, rat_add(y, x)), rat_add(rat_add(t, y), x));
}

/// Cancellation: equal sums with the same second summand have equal first
/// summands.
pub proof fn lemma_add_cancel(x: Rat, y: Rat, z: Rat)
    requires
        rat_wf(x),
        rat_wf(y),
        rat_wf(z),
        rat_eq(rat_add(x, z), rat_add(y, z)),
    ensures
        rat_eq(x, y),
{
    assert((x.n * z.d + z.n * x.d) * (y.d * z.d) == (x.n * y.d) * (z.d * z.d) + ((z.n * x.d) * y.d)
        * z.d) by {
        broadcast use vstd::arithmetic::mul::group_mul_properties;
    }
    assert((y.n * z.d + z.n * y.d) * (x.d * z.d) == (y.n * x.d) * (z.d * z.d) + ((z.n * x.d) * y.d)
        * z.d) by {
        broadcast use vstd::arithmetic::mul::group_mul_properties;
    }
    assert(x.n * y.d == y.n * x.d) by (nonlinear_arith)
        requires
            (x.n * y.d) * (z.d * z.d) == (y.n * x.d) * (z.d * z.d),
            z.d >= 1,
    ;
}

/// Subtracting what was just added restores the original.
pub proof fn lemma_add_then_sub_cancel(z: Rat, x: Rat)
    by (nonlinear_arith)
    requires
        rat_wf(z),
        rat_wf(x),
    ensures
        rat_eq(rat_sub(rat_add(z, x), x), z),
{
}

} // verus!
