use vstd::prelude::*;

verus! {

/// Mathematical value of a scalar: a fraction of unbounded integers.
/// A well-formed fraction keeps its denominator strictly positive.
pub ghost struct Q {
    pub n: int,
    pub d: int,
}

pub open spec fn q_wf(q: Q) -> bool {
    q.d > 0
}

pub open spec fn q_zero() -> Q {
    Q { n: 0, d: 1 }
}

pub open spec fn q_one() -> Q {
    Q { n: 1, d: 1 }
}

pub open spec fn q_neg_one() -> Q {
    Q { n: -1, d: 1 }
}

pub open spec fn q_int(n: int) -> Q {
    Q { n: n, d: 1 }
}

/// Whether two fractions stand for the same rational number.
pub open spec fn q_eq(a: Q, b: Q) -> bool {
    a.n * b.d == b.n * a.d
}

/// A well-formed fraction denotes zero exactly when its numerator is zero.
pub open spec fn q_is_zero(a: Q) -> bool {
    a.n == 0
}

pub open spec fn q_add(a: Q, b: Q) -> Q {
    Q { n: a.n * b.d + b.n * a.d, d: a.d * b.d }
}

pub open spec fn q_sub(a: Q, b: Q) -> Q {
    Q { n: a.n * b.d - b.n * a.d, d: a.d * b.d }
}

pub open spec fn q_mul(a: Q, b: Q) -> Q {
    Q { n: a.n * b.n, d: a.d * b.d }
}

/// Division keeps the denominator positive by moving the divisor's sign
/// into the numerator. Meaningful only for a non-zero divisor.
pub open spec fn q_div(a: Q, b: Q) -> Q {
    if b.n < 0 {
        Q { n: -(a.n * b.d), d: -(a.d * b.n) }
    } else {
        Q { n: a.n * b.d, d: a.d * b.n }
    }
}

pub open spec fn int_abs(x: int) -> int {
    if x < 0 {
        -x
    } else {
        x
    }
}

/// Whether `a` is strictly larger in magnitude than `b`, by cross
/// multiplication of the absolute numerators with the denominators.
pub open spec fn q_abs_gt(a: Q, b: Q) -> bool {
    int_abs(a.n) * b.d > int_abs(b.n) * a.d
}

pub open spec fn fits_i64(x: int) -> bool {
    i64::MIN <= x <= i64::MAX
}

pub open spec fn q_fits(q: Q) -> bool {
    fits_i64(q.n) && fits_i64(q.d)
}

/// The greatest common divisor of two non-negative integers, by Euclid's
/// algorithm.
pub open spec fn gcd_i(a: int, b: int) -> int
    decreases b,
{
    if b <= 0 {
        a
    } else {
        gcd_i(b, a % b)
    }
}

/// For a positive second argument the greatest common divisor lies between
/// one and that argument.
pub proof fn lemma_gcd_bounds(a: int, b: int)
    requires
        a >= 0,
        b >= 1,
    ensures
        1 <= gcd_i(a, b),
        gcd_i(a, b) <= b,
    decreases b,
{
    let r = a % b;
    if r == 0 {
        assert(gcd_i(a, b) == gcd_i(b, 0));
    } else {
        lemma_gcd_bounds(b, r);
    }
}

/// The greatest common divisor divides both of its arguments.
pub proof fn lemma_gcd_divides(a: int, b: int)
    requires
        a >= 0,
        b >= 0,
    ensures
        gcd_i(a, b) >= 1 ==> a % gcd_i(a, b) == 0 && b % gcd_i(a, b) == 0,
    decreases b,
{
    let g = gcd_i(a, b);
    if b == 0 {
        if g >= 1 {
            assert(g == a);
            assert(a % a == 0) by (nonlinear_arith)
                requires
                    a >= 1,
            ;
            assert(0int % a == 0) by (nonlinear_arith)
                requires
                    a >= 1,
            ;
        }
    } else {
        let r = a % b;
        lemma_gcd_divides(b, r);
        if g >= 1 {
            vstd::arithmetic::div_mod::lemma_fundamental_div_mod(a, b);
            vstd::arithmetic::div_mod::lemma_add_mod_noop(b * (a / b), r, g);
            vstd::arithmetic::div_mod::lemma_mul_mod_noop_left(b, a / b, g);
            assert((0int * (a / b)) % g == 0) by (nonlinear_arith)
                requires
                    g >= 1,
            ;
            assert((0int + r % g) % g == r % g) by (nonlinear_arith)
                requires
                    g >= 1,
                    r % g == 0,
            ;
        }
    }
}

/// Bringing a well-formed fraction to canonical form keeps it well-formed
/// and keeps the rational number it denotes.
pub proof fn lemma_norm_eq(q: Q)
    requires
        q_wf(q),
    ensures
        q_wf(q_norm(q)),
        q_eq(q_norm(q), q),
{
    let a = int_abs(q.n);
    let g = gcd_i(a, q.d);
    lemma_gcd_bounds(a, q.d);
    if g > 1 {
        lemma_gcd_divides(a, q.d);
        vstd::arithmetic::div_mod::lemma_fundamental_div_mod(a, g);
        vstd::arithmetic::div_mod::lemma_fundamental_div_mod(q.d, g);
        let a2 = a / g;
        let d2 = q.d / g;
        assert(d2 >= 1) by (nonlinear_arith)
            requires
                q.d >= g >= 1,
                d2 == q.d / g,
        ;
        if q.n < 0 {
            assert((-a2) * q.d == q.n * d2) by (nonlinear_arith)
                requires
                    a == g * a2,
                    q.d == g * d2,
                    q.n == -a,
            ;
        } else {
            assert(a2 * q.d == q.n * d2) by (nonlinear_arith)
                requires
                    a == g * a2,
                    q.d == g * d2,
                    q.n == a,
            ;
        }
    }
}

/// Denoting the same rational number is transitive among well-formed
/// fractions.
pub proof fn lemma_q_eq_trans(a: Q, b: Q, c: Q)
    requires
        q_wf(a),
        q_wf(b),
        q_wf(c),
        q_eq(a, b),
        q_eq(b, c),
    ensures
        q_eq(a, c),
{
    assert(a.n * c.d == c.n * a.d) by (nonlinear_arith)
        requires
            a.n * b.d == b.n * a.d,
            b.n * c.d == c.n * b.d,
            b.d >= 1,
    ;
}

/// Sums, differences and products of well-formed fractions are well-formed.
pub proof fn lemma_q_ops_wf(a: Q, b: Q)
    requires
        q_wf(a),
        q_wf(b),
    ensures
        q_wf(q_add(a, b)),
        q_wf(q_sub(a, b)),
        q_wf(q_mul(a, b)),
{
    assert(a.d * b.d > 0) by (nonlinear_arith)
        requires
            a.d >= 1,
            b.d >= 1,
    ;
}

/// A quotient by a non-zero fraction is well-formed.
pub proof fn lemma_q_div_wf(a: Q, b: Q)
    requires
        q_wf(a),
        q_wf(b),
        !q_is_zero(b),
    ensures
        q_wf(q_div(a, b)),
{
    if b.n < 0 {
        assert(-(a.d * b.n) > 0) by (nonlinear_arith)
            requires
                a.d >= 1,
                b.n < 0,
        ;
    } else {
        assert(a.d * b.n > 0) by (nonlinear_arith)
            requires
                a.d >= 1,
                b.n > 0,
        ;
    }
}

/// Replacing both operands of a sum by equal-valued fractions gives an
/// equal-valued sum.
pub proof fn lemma_q_eq_add_congr(a: Q, b: Q, a2: Q, b2: Q)
    requires
        q_wf(a),
        q_wf(b),
        q_wf(a2),
        q_wf(b2),
        q_eq(a, a2),
        q_eq(b, b2),
    ensures
        q_eq(q_add(a, b), q_add(a2, b2)),
{
    assert((a.n * b.d) * (a2.d * b2.d) == (a2.n * b2.d) * (a.d * b.d)) by (nonlinear_arith)
        requires
            a.n * a2.d == a2.n * a.d,
    ;
    assert((b.n * a.d) * (a2.d * b2.d) == (b2.n * a2.d) * (a.d * b.d)) by (nonlinear_arith)
        requires
            b.n * b2.d == b2.n * b.d,
    ;
    assert((a.n * b.d + b.n * a.d) * (a2.d * b2.d) == (a.n * b.d) * (a2.d * b2.d) + (b.n * a.d) * (
    a2.d * b2.d)) by (nonlinear_arith);
    assert((a2.n * b2.d + b2.n * a2.d) * (a.d * b.d) == (a2.n * b2.d) * (a.d * b.d) + (b2.n * a2.d)
        * (a.d * b.d)) by (nonlinear_arith);
}

/// Replacing both operands of a product by equal-valued fractions gives an
/// equal-valued product.
pub proof fn lemma_q_eq_mul_congr(a: Q, b: Q, a2: Q, b2: Q)
    requires
        q_wf(a),
        q_wf(b),
        q_wf(a2),
        q_wf(b2),
        q_eq(a, a2),
        q_eq(b, b2),
    ensures
        q_eq(q_mul(a, b), q_mul(a2, b2)),
{
    assert((a.n * b.n) * (a2.d * b2.d) == (a2.n * b2.n) * (a.d * b.d)) by (nonlinear_arith)
        requires
            a.n * a2.d == a2.n * a.d,
            b.n * b2.d == b2.n * b.d,
    ;
}

/// A non-zero fraction times the quotient of one by it denotes one.
pub proof fn lemma_q_div_recip(b: Q)
    requires
        q_wf(b),
        !q_is_zero(b),
    ensures
        q_wf(q_div(q_one(), b)),
        q_eq(q_mul(b, q_div(q_one(), b)), q_one()),
{
    lemma_q_div_wf(q_one(), b);
    if b.n < 0 {
        assert((b.n * -(1int * b.d)) * 1 == 1 * (b.d * -(1int * b.n))) by (nonlinear_arith);
    } else {
        assert((b.n * (1int * b.d)) * 1 == 1 * (b.d * (1int * b.n))) by (nonlinear_arith);
    }
}

/// The canonical form of a fraction: both parts divided by their greatest
/// common divisor, the sign staying on the numerator.
pub open spec fn q_norm(q: Q) -> Q {
    let g = gcd_i(int_abs(q.n), q.d);
    if g <= 1 {
        q
    } else {
        Q {
            n: if q.n < 0 {
                -(int_abs(q.n) / g)
            } else {
                int_abs(q.n) / g
            },
            d: q.d / g,
        }
    }
}

pub open spec fn q_chk(q: Q) -> Option<Q> {
    if q_fits(q) {
        Some(q)
    } else {
        None
    }
}

pub open spec fn q_add_chk(a: Q, b: Q) -> Option<Q> {
    q_chk(q_norm(q_add(a, b)))
}

pub open spec fn q_sub_chk(a: Q, b: Q) -> Option<Q> {
    q_chk(q_norm(q_sub(a, b)))
}

pub open spec fn q_mul_chk(a: Q, b: Q) -> Option<Q> {
    q_chk(q_norm(q_mul(a, b)))
}

pub open spec fn q_div_chk(a: Q, b: Q) -> Option<Q> {
    q_chk(q_norm(q_div(a, b)))
}

/// Integer power as `k` repeated multiplications, left to right.
pub open spec fn q_pow(a: Q, k: nat) -> Q
    decreases k,
{
    if k == 0 {
        q_one()
    } else {
        q_mul(q_pow(a, (k - 1) as nat), a)
    }
}

/// Integer power where every intermediate product must fit the machine
/// representation; the first product that does not fit loses everything.
pub open spec fn q_pow_chk(a: Q, k: nat) -> Option<Q>
    decreases k,
{
    if k == 0 {
        Some(q_one())
    } else {
        match q_pow_chk(a, (k - 1) as nat) {
            None => None,
            Some(p) => q_mul_chk(p, a),
        }
    }
}

/// Truncating division of a fraction towards zero.
pub open spec fn q_trunc(a: Q) -> int {
    if a.n >= 0 {
        a.n / a.d
    } else {
        -((-a.n) / a.d)
    }
}

/// A fraction denotes an integer exactly when the denominator divides the
/// numerator.
pub open spec fn q_is_int(a: Q) -> bool {
    int_abs(a.n) % a.d == 0
}

/// A product of two values in signed 64-bit range stays within the wide
/// working range used by the executable arithmetic.
pub proof fn lemma_mul_bound_any(a: int, b: int)
    requires
        -0x8000_0000_0000_0000 <= a <= 0x7fff_ffff_ffff_ffff,
        -0x8000_0000_0000_0000 <= b <= 0x7fff_ffff_ffff_ffff,
    ensures
        -0x4000_0000_0000_0000_0000_0000_0000_0000 <= a * b
            <= 0x4000_0000_0000_0000_0000_0000_0000_0000,
        a * b == b * a,
{
    assert((-0x4000_0000_0000_0000_0000_0000_0000_0000 <= a * b
        <= 0x4000_0000_0000_0000_0000_0000_0000_0000) && a * b == b * a) by (nonlinear_arith)
        requires
            -0x8000_0000_0000_0000 <= a <= 0x7fff_ffff_ffff_ffff,
            -0x8000_0000_0000_0000 <= b <= 0x7fff_ffff_ffff_ffff,
    ;
}

/// Tighter bounds for a product by a strictly positive factor, and the sign
/// facts the checked operations need.
pub proof fn lemma_mul_bound_pos(a: int, b: int)
    requires
        -0x8000_0000_0000_0000 <= a <= 0x8000_0000_0000_0000,
        1 <= b <= 0x7fff_ffff_ffff_ffff,
    ensures
        -0x3fff_ffff_ffff_ffff_8000_0000_0000_0000 <= a * b
            <= 0x3fff_ffff_ffff_ffff_8000_0000_0000_0000,
        a >= 1 ==> a * b >= 1,
        a >= 0 ==> a * b >= 0,
        a < 0 ==> a * b < 0,
        a > 0 ==> a * b > 0,
        a * b == b * a,
{
    assert((-0x3fff_ffff_ffff_ffff_8000_0000_0000_0000 <= a * b
        <= 0x3fff_ffff_ffff_ffff_8000_0000_0000_0000) && (a >= 1 ==> a * b >= 1) && (a >= 0 ==> a
        * b >= 0) && (a < 0 ==> a * b < 0) && (a > 0 ==> a * b > 0) && a * b == b
        * a) by (nonlinear_arith)
        requires
            -0x8000_0000_0000_0000 <= a <= 0x8000_0000_0000_0000,
            1 <= b <= 0x7fff_ffff_ffff_ffff,
    ;
}

/// Once an intermediate power fails to fit, every higher power fails too.
pub proof fn lemma_pow_chk_none_mono(a: Q, j: nat, k: nat)
    requires
        j <= k,
        q_pow_chk(a, j) is None,
    ensures
        q_pow_chk(a, k) is None,
    decreases k,
{
    if k > j {
        lemma_pow_chk_none_mono(a, j, (k - 1) as nat);
    }
}

/// An exact scalar: a fraction of two machine integers whose denominator
/// stays strictly positive.
#[derive(Clone, Copy, Debug)]
pub struct Rat {
    pub num: i64,
    pub den: i64,
}

fn gcd_u128(a0: u128, b0: u128) -> (r: u128)
    ensures
        r as int == gcd_i(a0 as int, b0 as int),
{
    let mut a = a0;
    let mut b = b0;
    while b != 0
        invariant
            gcd_i(a as int, b as int) == gcd_i(a0 as int, b0 as int),
        decreases b,
    {
        let t = a % b;
        a = b;
        b = t;
    }
    a
}

/// Brings a wide exact fraction to canonical form, then narrows it; `None`
/// when even the canonical form does not fit.
fn reduce_wide(n: i128, d: i128) -> (r: Option<Rat>)
    requires
        -0x7fff_ffff_ffff_ffff_0000_0000_0000_0000 <= n
            <= 0x7fff_ffff_ffff_ffff_0000_0000_0000_0000,
        1 <= d <= 0x3fff_ffff_ffff_ffff_8000_0000_0000_0000,
    ensures
        match r {
            Some(c) => c.wf() && q_chk(q_norm(Q { n: n as int, d: d as int })) == Some(c@),
            None => q_chk(q_norm(Q { n: n as int, d: d as int })) is None,
        },
{
    let na: u128 = if n < 0 {
        (-n) as u128
    } else {
        n as u128
    };
    let g: u128 = gcd_u128(na, d as u128);
    proof {
        lemma_gcd_bounds(na as int, d as int);
    }
    let n2: i128;
    let d2: i128;
    if g <= 1 {
        n2 = n;
        d2 = d;
    } else {
        proof {
            assert(na as int / (g as int) <= na as int) by (nonlinear_arith)
                requires
                    na as int >= 0,
                    g as int >= 1,
            ;
            assert((d as int) / (g as int) >= 1) by (nonlinear_arith)
                requires
                    d as int >= g as int,
                    g as int >= 1,
            ;
            assert((d as int) / (g as int) <= d as int) by (nonlinear_arith)
                requires
                    d as int >= 0,
                    g as int >= 1,
            ;
        }
        let nn: u128 = na / g;
        let dd: u128 = (d as u128) / g;
        n2 = if n < 0 {
            -(nn as i128)
        } else {
            nn as i128
        };
        d2 = dd as i128;
    }
    if (i64::MIN as i128) <= n2 && n2 <= (i64::MAX as i128) && d2 <= (i64::MAX as i128) {
        Some(Rat { num: n2 as i64, den: d2 as i64 })
    } else {
        None
    }
}

impl View for Rat {
    type V = Q;

    open spec fn view(&self) -> Q {
        Q { n: self.num as int, d: self.den as int }
    }
}

impl DeepView for Rat {
    type V = Q;

    open spec fn deep_view(&self) -> Q {
        self.view()
    }
}

impl Rat {
    pub open spec fn wf(self) -> bool {
        self.den > 0
    }

    /// Builds the fraction `num / den`.
    pub fn new(num: i64, den: i64) -> (r: Rat)
        requires
            den > 0,
        ensures
            r.wf(),
            r@ == (Q { n: num as int, d: den as int }),
    {
        Rat { num, den }
    }

    pub fn from_int(n: i64) -> (r: Rat)
        ensures
            r.wf(),
            r@ == q_int(n as int),
    {
        Rat { num: n, den: 1 }
    }

    pub fn zero() -> (r: Rat)
        ensures
            r.wf(),
            r@ == q_zero(),
    {
        Rat { num: 0, den: 1 }
    }

    pub fn one() -> (r: Rat)
        ensures
            r.wf(),
            r@ == q_one(),
    {
        Rat { num: 1, den: 1 }
    }

    pub fn is_zero(&self) -> (r: bool)
        ensures
            r == q_is_zero(self@),
    {
        self.num == 0
    }

    /// Whether the two scalars denote the same rational number.
    pub fn eq_val(&self, other: &Rat) -> (r: bool)
        requires
            self.wf(),
            other.wf(),
        ensures
            r == q_eq(self@, other@),
    {
        proof {
            lemma_mul_bound_pos(self.num as int, other.den as int);
            lemma_mul_bound_pos(other.num as int, self.den as int);
        }
        (self.num as i128) * (other.den as i128) == (other.num as i128) * (self.den as i128)
    }

    /// Whether `self` is strictly larger in magnitude than `other`.
    pub fn abs_gt(&self, other: &Rat) -> (r: bool)
        requires
            self.wf(),
            other.wf(),
        ensures
            r == q_abs_gt(self@, other@),
    {
        let a: i128 = if self.num < 0 {
            -(self.num as i128)
        } else {
            self.num as i128
        };
        let b: i128 = if other.num < 0 {
            -(other.num as i128)
        } else {
            other.num as i128
        };
        proof {
            lemma_mul_bound_pos(a as int, other.den as int);
            lemma_mul_bound_pos(b as int, self.den as int);
        }
        a * (other.den as i128) > b * (self.den as i128)
    }

    /// Exact sum, or `None` when the result does not fit.
    pub fn checked_add(&self, other: &Rat) -> (r: Option<Rat>)
        requires
            self.wf(),
            other.wf(),
        ensures
            match r {
                Some(c) => c.wf() && q_add_chk(self@, other@) == Some(c@),
                None => q_add_chk(self@, other@) is None,
            },
    {
        proof {
            lemma_mul_bound_pos(self.num as int, other.den as int);
            lemma_mul_bound_pos(other.num as int, self.den as int);
            lemma_mul_bound_pos(self.den as int, other.den as int);
        }
        let n1: i128 = (self.num as i128) * (other.den as i128);
        let n2: i128 = (other.num as i128) * (self.den as i128);
        let n: i128 = n1 + n2;
        let d: i128 = (self.den as i128) * (other.den as i128);
        reduce_wide(n, d)
    }

    /// Exact difference, or `None` when the result does not fit.
    pub fn checked_sub(&self, other: &Rat) -> (r: Option<Rat>)
        requires
            self.wf(),
            other.wf(),
        ensures
            match r {
                Some(c) => c.wf() && q_sub_chk(self@, other@) == Some(c@),
                None => q_sub_chk(self@, other@) is None,
            },
    {
        proof {
            lemma_mul_bound_pos(self.num as int, other.den as int);
            lemma_mul_bound_pos(other.num as int, self.den as int);
            lemma_mul_bound_pos(self.den as int, other.den as int);
        }
        let n1: i128 = (self.num as i128) * (other.den as i128);
        let n2: i128 = (other.num as i128) * (self.den as i128);
        let n: i128 = n1 - n2;
        let d: i128 = (self.den as i128) * (other.den as i128);
        reduce_wide(n, d)
    }

    /// Exact product, or `None` when the result does not fit.
    pub fn checked_mul(&self, other: &Rat) -> (r: Option<Rat>)
        requires
            self.wf(),
            other.wf(),
        ensures
            match r {
                Some(c) => c.wf() && q_mul_chk(self@, other@) == Some(c@),
                None => q_mul_chk(self@, other@) is None,
            },
    {
        proof {
            lemma_mul_bound_any(self.num as int, other.num as int);
            lemma_mul_bound_pos(self.den as int, other.den as int);
        }
        let n: i128 = (self.num as i128) * (other.num as i128);
        let d: i128 = (self.den as i128) * (other.den as i128);
        reduce_wide(n, d)
    }

    /// Exact quotient by a non-zero scalar, or `None` when the result does
    /// not fit.
    pub fn checked_div(&self, other: &Rat) -> (r: Option<Rat>)
        requires
            self.wf(),
            other.wf(),
            !q_is_zero(other@),
        ensures
            match r {
                Some(c) => c.wf() && q_div_chk(self@, other@) == Some(c@),
                None => q_div_chk(self@, other@) is None,
            },
    {
        proof {
            lemma_mul_bound_pos(self.num as int, other.den as int);
            lemma_mul_bound_any(self.den as int, other.num as int);
        }
        let n0: i128 = (self.num as i128) * (other.den as i128);
        let d0: i128 = (self.den as i128) * (other.num as i128);
        let n: i128 = if other.num < 0 {
            -n0
        } else {
            n0
        };
        let d: i128 = if other.num < 0 {
            -d0
        } else {
            d0
        };
        proof {
            assert(d >= 1) by (nonlinear_arith)
                requires
                    d == (if (other.num as int) < 0 {
                        -((self.den as int) * (other.num as int))
                    } else {
                        (self.den as int) * (other.num as int)
                    }),
                    other.num as int != 0,
                    self.den as int >= 1,
            ;
            lemma_mul_bound_pos(other.num as int, self.den as int);
        }
        reduce_wide(n, d)
    }

    /// Exact non-negative integer power, or `None` when an intermediate
    /// product does not fit.
    pub fn checked_pow(&self, k: u64) -> (r: Option<Rat>)
        requires
            self.wf(),
        ensures
            match r {
                Some(c) => c.wf() && q_pow_chk(self@, k as nat) == Some(c@),
                None => q_pow_chk(self@, k as nat) is None,
            },
    {
        let mut res = Rat { num: 1, den: 1 };
        let mut i: u64 = 0;
        loop
            invariant
                self.wf(),
                res.wf(),
                i <= k,
                q_pow_chk(self@, i as nat) == Some(res@),
            decreases k - i,
        {
            if i == k {
                return Some(res);
            }
            match res.checked_mul(self) {
                Some(next) => {
                    res = next;
                },
                None => {
                    proof {
                        assert(q_pow_chk(self@, (i + 1) as nat) is None);
                        lemma_pow_chk_none_mono(self@, (i + 1) as nat, k as nat);
                    }
                    return None;
                },
            }
            i = i + 1;
        }
    }

    /// The integer part of the scalar, truncated towards zero.
    pub fn trunc(&self) -> (r: i64)
        requires
            self.wf(),
        ensures
            r as int == q_trunc(self@),
    {
        if self.num >= 0 {
            let a: u64 = self.num as u64;
            let q: u64 = a / (self.den as u64);
            proof {
                assert(a as int / (self.den as int) <= a as int) by (nonlinear_arith)
                    requires
                        a as int >= 0,
                        self.den as int >= 1,
                ;
            }
            q as i64
        } else {
            let a: u64 = if self.num == i64::MIN {
                0x8000_0000_0000_0000u64
            } else {
                (-self.num) as u64
            };
            let q: u64 = a / (self.den as u64);
            proof {
                assert(a as int / (self.den as int) <= a as int) by (nonlinear_arith)
                    requires
                        a as int >= 0,
                        self.den as int >= 1,
                ;
            }
            if q >= 0x8000_0000_0000_0000u64 {
                i64::MIN
            } else {
                -(q as i64)
            }
        }
    }

    /// Whether the scalar denotes an integer.
    pub fn is_int(&self) -> (r: bool)
        requires
            self.wf(),
        ensures
            r == q_is_int(self@),
    {
        let a: u64 = if self.num == i64::MIN {
            0x8000_0000_0000_0000u64
        } else if self.num < 0 {
            (-self.num) as u64
        } else {
            self.num as u64
        };
        a % (self.den as u64) == 0
    }
}

} // verus!
