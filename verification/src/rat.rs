//! Exact rational scalars over `i64`, with a mathematical model over `int`.

use crate::error::ExprError;
use vstd::prelude::*;

verus! {

/// Mathematical model of a rational number: an integer numerator over a
/// positive integer denominator (not necessarily in lowest terms).
pub struct RatV {
    pub n: int,
    pub d: int,
}

/// Absolute value of an integer, as a natural number.
pub open spec fn int_abs(n: int) -> nat {
    if n >= 0 {
        n as nat
    } else {
        (-n) as nat
    }
}

/// Euclid's greatest common divisor.
pub open spec fn gcd_s(a: nat, b: nat) -> nat
    decreases b,
{
    if b == 0 {
        a
    } else {
        gcd_s(b, a % b)
    }
}

/// A positive second argument bounds the gcd: `1 <= gcd_s(a, b) <= b`.
pub proof fn lemma_gcd_pos(a: nat, b: nat)
    requires
        b >= 1,
    ensures
        1 <= gcd_s(a, b) <= b,
    decreases b,
{
    if a % b == 0 {
        assert(gcd_s(a, b) == gcd_s(b, 0));
    } else {
        lemma_gcd_pos(b, a % b);
    }
}

/// A positive first argument bounds the gcd from above as well.
pub proof fn lemma_gcd_le_first(a: nat, b: nat)
    requires
        a >= 1,
    ensures
        gcd_s(a, b) <= a,
    decreases b,
{
    if b != 0 {
        if a % b == 0 {
            assert(gcd_s(b, (a % b)) == gcd_s(b, 0));
            if b > a {
                vstd::arithmetic::div_mod::lemma_small_mod(a, b);
                assert(a % b == a);
                assert(false);
            }
        } else {
            lemma_gcd_pos(b, a % b);
            if a >= b {
                vstd::arithmetic::div_mod::lemma_mod_bound(a as int, b as int);
                assert(a % b < b);
            } else {
                vstd::arithmetic::div_mod::lemma_small_mod(a, b);
                assert(a % b == a);
            }
        }
    }
}

/// The gcd divides both of its arguments.
pub proof fn lemma_gcd_divides(a: nat, b: nat)
    requires
        b >= 1,
    ensures
        (a as int) % (gcd_s(a, b) as int) == 0,
        (b as int) % (gcd_s(a, b) as int) == 0,
    decreases b,
{
    lemma_gcd_pos(a, b);
    let g = gcd_s(a, b) as int;
    if a % b == 0 {
        assert(gcd_s(a, b) == gcd_s(b, 0));
        vstd::arithmetic::div_mod::lemma_mod_self_0(b as int);
    } else {
        lemma_gcd_divides(b, a % b);
        assert((b as int) % g == 0);
        assert(((a % b) as int) % g == 0);
        vstd::arithmetic::div_mod::lemma_fundamental_div_mod(a as int, b as int);
        assert(a as int == (b as int) * ((a as int) / (b as int)) + ((a as int) % (b as int)));
        let q = (a as int) / (b as int);
        vstd::arithmetic::div_mod::lemma_fundamental_div_mod(b as int, g);
        let bq = (b as int) / g;
        assert(b as int == g * bq);
        assert((b as int) * q == (bq * q) * g) by (nonlinear_arith)
            requires
                b as int == g * bq,
        ;
        vstd::arithmetic::div_mod::lemma_mod_multiples_basic(bq * q, g);
        assert(((b as int) * q) % g == 0);
        vstd::arithmetic::div_mod::lemma_add_mod_noop((b as int) * q, (a as int) % (b as int), g);
        vstd::arithmetic::div_mod::lemma_small_mod(0, g as nat);
        assert((((b as int) * q) % g + ((a as int) % (b as int)) % g) % g == ((b as int) * q + (
        a as int) % (b as int)) % g);
        assert((a as int) % g == 0);
    }
}

/// Dividing numerator and denominator by their gcd keeps the value: the
/// reduced form and the input denote the same rational.
pub proof fn lemma_reduce_eqv(n: int, d: int)
    requires
        d >= 1,
    ensures
        eqv(reduce_v(n, d), RatV { n: n, d: d }),
        reduce_v(n, d).d >= 1,
{
    let a = int_abs(n);
    let g = gcd_s(a, d as nat);
    lemma_gcd_pos(a, d as nat);
    lemma_gcd_divides(a, d as nat);
    let gi = g as int;
    vstd::arithmetic::div_mod::lemma_fundamental_div_mod(a as int, gi);
    vstd::arithmetic::div_mod::lemma_fundamental_div_mod(d, gi);
    let u = (a as int) / gi;
    let v = d / gi;
    assert(a as int == gi * u);
    assert(d == gi * v);
    assert(u >= 0) by (nonlinear_arith)
        requires
            a as int == gi * u,
            gi >= 1,
            a as int >= 0,
    ;
    assert(v >= 1) by (nonlinear_arith)
        requires
            d == gi * v,
            gi >= 1,
            d >= 1,
    ;
    if n >= 0 {
        assert(reduce_v(n, d) == RatV { n: u, d: v });
        assert(u * d == n * v) by (nonlinear_arith)
            requires
                a as int == gi * u,
                d == gi * v,
                n == a as int,
        ;
    } else {
        assert(reduce_v(n, d) == RatV { n: -u, d: v });
        assert((-u) * d == n * v) by (nonlinear_arith)
            requires
                a as int == gi * u,
                d == gi * v,
                n == -(a as int),
        ;
    }
}

/// Exact addition law: the reduced sum denotes the cross-multiplied sum of
/// the values.
pub proof fn lemma_add_v_exact(a: RatV, b: RatV)
    requires
        a.d >= 1,
        b.d >= 1,
    ensures
        eqv(add_v(a, b), RatV { n: a.n * b.d + b.n * a.d, d: a.d * b.d }),
        add_v(a, b).d >= 1,
{
    assert(a.d * b.d >= 1) by (nonlinear_arith)
        requires
            a.d >= 1,
            b.d >= 1,
    ;
    lemma_reduce_eqv(a.n * b.d + b.n * a.d, a.d * b.d);
}

/// Exact multiplication law: the reduced product denotes the product of
/// numerators over the product of denominators.
pub proof fn lemma_mul_v_exact(a: RatV, b: RatV)
    requires
        a.d >= 1,
        b.d >= 1,
    ensures
        eqv(mul_v(a, b), RatV { n: a.n * b.n, d: a.d * b.d }),
        mul_v(a, b).d >= 1,
{
    assert(a.d * b.d >= 1) by (nonlinear_arith)
        requires
            a.d >= 1,
            b.d >= 1,
    ;
    lemma_reduce_eqv(a.n * b.n, a.d * b.d);
}

/// Reduction keeps a numerator zero exactly when the input is zero.
pub proof fn lemma_reduce_zero(n: int, d: int)
    requires
        d >= 1,
    ensures
        reduce_v(n, d).n == 0 <==> n == 0,
{
    let a = int_abs(n);
    let g = gcd_s(a, d as nat);
    lemma_gcd_pos(a, d as nat);
    if n != 0 {
        lemma_gcd_le_first(a, d as nat);
        assert(a >= 1 && 1 <= g <= a);
        vstd::arithmetic::div_mod::lemma_fundamental_div_mod(a as int, g as int);
        if a / g == 0 {
            assert(a as int == (g as int) * ((a as int) / (g as int)) + (a as int) % (g as int));
            assert((a as int) % (g as int) < g as int);
            assert(false);
        }
    }
}

/// Divide out the gcd of numerator magnitude and denominator.
pub open spec fn reduce_v(n: int, d: int) -> RatV
    recommends
        d >= 1,
{
    let a = int_abs(n);
    let g = gcd_s(a, d as nat);
    if g == 0 {
        RatV { n: 0, d: 0 }
    } else {
        RatV {
            n: if n >= 0 {
                (a / g) as int
            } else {
                -((a / g) as int)
            },
            d: ((d as nat) / g) as int,
        }
    }
}

/// Whether a model value is representable by the executable `Rat`.
pub open spec fn fits_rat(v: RatV) -> bool {
    &&& -0x7fff_ffff_ffff_ffff <= v.n <= 0x7fff_ffff_ffff_ffff
    &&& 1 <= v.d <= 0x7fff_ffff_ffff_ffff
}

/// Two model rationals denote the same value (cross multiplication).
pub open spec fn eqv(a: RatV, b: RatV) -> bool {
    a.n * b.d == b.n * a.d
}

/// Model addition: cross-multiplied sum, in reduced form.
pub open spec fn add_v(a: RatV, b: RatV) -> RatV {
    reduce_v(a.n * b.d + b.n * a.d, a.d * b.d)
}

/// Model multiplication, in reduced form.
pub open spec fn mul_v(a: RatV, b: RatV) -> RatV {
    reduce_v(a.n * b.n, a.d * b.d)
}

/// Model negation (keeps the representation, flips the sign).
pub open spec fn neg_v(a: RatV) -> RatV {
    RatV { n: -a.n, d: a.d }
}

/// Model reciprocal of a nonzero rational.
pub open spec fn inv_v(a: RatV) -> RatV
    recommends
        a.n != 0,
{
    if a.n > 0 {
        RatV { n: a.d, d: a.n }
    } else {
        RatV { n: -a.d, d: -a.n }
    }
}

/// Model integer power for a nonnegative exponent: a left fold of `mul_v`.
pub open spec fn pow_v(a: RatV, k: nat) -> RatV
    decreases k,
{
    if k == 0 {
        RatV { n: 1, d: 1 }
    } else {
        mul_v(pow_v(a, (k - 1) as nat), a)
    }
}

/// An exact rational number. Arithmetic results are always the reduced form
/// of the mathematical result, so equal values compare equal structurally.
#[derive(Clone, Copy, Debug, PartialEq, Eq, Structural)]
pub struct Rat {
    pub num: i64,
    pub den: i64,
}

impl View for Rat {
    type V = RatV;

    open spec fn view(&self) -> RatV {
        RatV { n: self.num as int, d: self.den as int }
    }
}

impl Rat {
    /// Well-formed: positive denominator, and the numerator avoids the one
    /// `i64` value whose negation overflows.
    pub open spec fn wf(self) -> bool {
        &&& self.den >= 1
        &&& self.num > i64::MIN
    }

    /// The numerator, as stored.
    pub fn numerator(self) -> (r: i64)
        ensures
            r as int == self@.n,
    {
        self.num
    }

    /// The denominator, as stored.
    pub fn denominator(self) -> (r: i64)
        ensures
            r as int == self@.d,
    {
        self.den
    }

    /// The rational zero.
    pub fn zero() -> (r: Rat)
        ensures
            r.wf(),
            r@ == (RatV { n: 0, d: 1 }),
    {
        Rat { num: 0, den: 1 }
    }

    /// The rational one.
    pub fn one() -> (r: Rat)
        ensures
            r.wf(),
            r@ == (RatV { n: 1, d: 1 }),
    {
        Rat { num: 1, den: 1 }
    }

    /// The whole number `n`.
    pub fn from_int(n: i64) -> (r: Rat)
        requires
            n > i64::MIN,
        ensures
            r.wf(),
            r@ == (RatV { n: n as int, d: 1 }),
    {
        Rat { num: n, den: 1 }
    }

    /// A rational in lowest terms with the value `num / den`.
    pub fn new(num: i64, den: i64) -> (r: Result<Rat, ExprError>)
        ensures
            den == 0 ==> (r matches Err(e) && e is DivisionByZero),
            den != 0 ==> {
                let v = if den > 0 {
                    reduce_v(num as int, den as int)
                } else {
                    reduce_v(-(num as int), -(den as int))
                };
                match r {
                    Ok(q) => q.wf() && q@ == v && fits_rat(v),
                    Err(e) => e is Overflow && !fits_rat(v),
                }
            },
    {
        if den == 0 {
            Err(ExprError::DivisionByZero)
        } else if den > 0 {
            rat_from_i128(num as i128, den as i128)
        } else {
            rat_from_i128(-(num as i128), -(den as i128))
        }
    }

    /// Whether the value is zero.
    pub fn is_zero(self) -> (r: bool)
        ensures
            r <==> self@.n == 0,
    {
        self.num == 0
    }

    /// Whether the value is one.
    pub fn is_one(self) -> (r: bool)
        requires
            self.wf(),
        ensures
            r <==> self@.n == self@.d,
    {
        self.num == self.den
    }

    /// The sign of the value: -1, 0 or 1.
    pub fn signum(self) -> (r: i64)
        requires
            self.wf(),
        ensures
            r == 1 <==> self@.n > 0,
            r == 0 <==> self@.n == 0,
            r == -1 <==> self@.n < 0,
    {
        if self.num > 0 {
            1
        } else if self.num == 0 {
            0
        } else {
            -1
        }
    }

    /// Exact negation.
    pub fn neg(self) -> (r: Rat)
        requires
            self.wf(),
        ensures
            r.wf(),
            r@ == neg_v(self@),
    {
        Rat { num: -self.num, den: self.den }
    }

    /// Exact addition, reduced; fails only when the reduced result does not
    /// fit in an `i64` fraction.
    pub fn add(self, other: Rat) -> (r: Result<Rat, ExprError>)
        requires
            self.wf(),
            other.wf(),
        ensures
            match r {
                Ok(q) => q.wf() && q@ == add_v(self@, other@) && fits_rat(add_v(self@, other@)),
                Err(e) => e is Overflow && !fits_rat(add_v(self@, other@)),
            },
    {
        proof {
            lemma_i64_products_fit(self@.n, self@.d, other@.n, other@.d);
        }
        let n: i128 = (self.num as i128) * (other.den as i128) + (other.num as i128) * (
        self.den as i128);
        let d: i128 = (self.den as i128) * (other.den as i128);
        rat_from_i128(n, d)
    }

    /// Exact multiplication, reduced; fails only when the reduced result
    /// does not fit in an `i64` fraction.
    pub fn mul(self, other: Rat) -> (r: Result<Rat, ExprError>)
        requires
            self.wf(),
            other.wf(),
        ensures
            match r {
                Ok(q) => q.wf() && q@ == mul_v(self@, other@) && fits_rat(mul_v(self@, other@)),
                Err(e) => e is Overflow && !fits_rat(mul_v(self@, other@)),
            },
    {
        proof {
            lemma_i64_products_fit(self@.n, self@.d, other@.n, other@.d);
        }
        let n: i128 = (self.num as i128) * (other.num as i128);
        let d: i128 = (self.den as i128) * (other.den as i128);
        rat_from_i128(n, d)
    }
}

/// Every partial power of `a` from `1` up to `k` is representable.
pub open spec fn pow_all_fit(a: RatV, k: nat) -> bool {
    forall|i: nat| 1 <= i <= k ==> fits_rat(#[trigger] pow_v(a, i))
}

/// Model integer power with a signed exponent (negative powers invert).
pub open spec fn powi_v(a: RatV, k: int) -> RatV
    recommends
        k < 0 ==> a.n != 0,
{
    if k >= 0 {
        pow_v(a, k as nat)
    } else {
        pow_v(inv_v(a), (-k) as nat)
    }
}

/// Whether the executable power succeeds: the base must be invertible for a
/// negative exponent, and every partial product must stay representable.
pub open spec fn powi_ok(a: RatV, k: int) -> bool {
    if k >= 0 {
        pow_all_fit(a, k as nat)
    } else {
        a.n != 0 && pow_all_fit(inv_v(a), (-k) as nat)
    }
}

/// Whether an integer is a perfect square.
pub open spec fn is_square(x: int) -> bool {
    exists|k: int| 0 <= k && #[trigger] (k * k) == x
}

impl Rat {
    /// Exact reciprocal of a nonzero rational.
    pub fn inv(self) -> (r: Rat)
        requires
            self.wf(),
            self@.n != 0,
        ensures
            r.wf(),
            r@ == inv_v(self@),
    {
        if self.num > 0 {
            Rat { num: self.den, den: self.num }
        } else {
            Rat { num: -self.den, den: -self.num }
        }
    }

    /// Exact integer power. A negative exponent inverts a nonzero base; the
    /// call fails exactly when the base is zero with a negative exponent, or
    /// when some partial product leaves the representable range.
    pub fn pow_int(self, k: i64) -> (r: Result<Rat, ExprError>)
        requires
            self.wf(),
            k > i64::MIN,
        ensures
            match r {
                Ok(q) => q.wf() && powi_ok(self@, k as int) && q@ == powi_v(self@, k as int),
                Err(e) => !powi_ok(self@, k as int) && (if k < 0 && self@.n == 0 {
                    e is DivisionByZero
                } else {
                    e is Overflow
                }),
            },
    {
        let (base, kk): (Rat, i64) = if k >= 0 {
            (self, k)
        } else {
            if self.num == 0 {
                return Err(ExprError::DivisionByZero);
            }
            (self.inv(), -k)
        };
        let ghost bv = base@;
        let mut acc = Rat::one();
        let mut i: i64 = 0;
        while i < kk
            invariant
                0 <= i <= kk,
                base.wf(),
                acc.wf(),
                acc@ == pow_v(bv, i as nat),
                bv == base@,
                pow_all_fit(bv, i as nat),
                kk as int == (if k >= 0 {
                    k as int
                } else {
                    -(k as int)
                }),
                bv == (if k >= 0 {
                    self@
                } else {
                    inv_v(self@)
                }),
                k < 0 ==> self@.n != 0,
            decreases kk - i,
        {
            match acc.mul(base) {
                Ok(next) => {
                    proof {
                        assert(next@ == pow_v(bv, (i + 1) as nat));
                        assert forall|j: nat| 1 <= j <= i + 1 implies fits_rat(
                            #[trigger] pow_v(bv, j),
                        ) by {
                            if j == i + 1 {
                                assert(pow_v(bv, j) == next@);
                            }
                        }
                    }
                    acc = next;
                },
                Err(_) => {
                    proof {
                        assert(!fits_rat(pow_v(bv, (i + 1) as nat)));
                        assert(!pow_all_fit(bv, kk as nat));
                    }
                    return Err(ExprError::Overflow);
                },
            }
            i = i + 1;
        }
        Ok(acc)
    }

    /// The exact nonnegative square root, when numerator and denominator are
    /// both perfect squares; `None` exactly otherwise.
    pub fn sqrt_exact(self) -> (r: Option<Rat>)
        requires
            self.wf(),
            self@.n >= 0,
        ensures
            match r {
                Some(q) => q.wf() && q@.n >= 0 && q@.n * q@.n == self@.n && q@.d * q@.d
                    == self@.d,
                None => !(is_square(self@.n) && is_square(self@.d)),
            },
    {
        let sn = isqrt_u64(self.num as u64);
        let sd = isqrt_u64(self.den as u64);
        proof {
            assert((sn as int) * (sn as int) <= 0xffff_ffff * 0xffff_ffff && (sd as int) * (
            sd as int) <= 0xffff_ffff * 0xffff_ffff) by (nonlinear_arith)
                requires
                    0 <= sn as int <= 0xffff_ffff,
                    0 <= sd as int <= 0xffff_ffff,
            ;
        }
        if (sn as u128) * (sn as u128) == self.num as u128 && (sd as u128) * (sd as u128)
            == self.den as u128 {
            proof {
                lemma_isqrt_bounds_give_root(self@.n, sn as int);
                lemma_isqrt_bounds_give_root(self@.d, sd as int);
            }
            Some(Rat { num: sn as i64, den: sd as i64 })
        } else {
            proof {
                if is_square(self@.n) && is_square(self@.d) {
                    let kn = choose|k: int| 0 <= k && #[trigger] (k * k) == self@.n;
                    let kd = choose|k: int| 0 <= k && #[trigger] (k * k) == self@.d;
                    lemma_square_root_unique(self@.n, kn, sn as int);
                    lemma_square_root_unique(self@.d, kd, sd as int);
                }
            }
            None
        }
    }
}

/// A root found by `isqrt` bounds and an exact square check is wf-positive.
proof fn lemma_isqrt_bounds_give_root(x: int, r: int)
    requires
        x >= 0,
        r >= 0,
        r * r == x,
    ensures
        x >= 1 ==> r >= 1,
        is_square(x),
{
    assert(0 <= r && r * r == x);
}

/// Nonnegative square roots are unique, so the `isqrt` candidate is the only
/// possible witness.
proof fn lemma_square_root_unique(x: int, k: int, r: int)
    requires
        k >= 0,
        k * k == x,
        r >= 0,
        r * r <= x,
        (r + 1) * (r + 1) > x,
    ensures
        k == r,
{
    assert(k == r) by (nonlinear_arith)
        requires
            k >= 0,
            k * k == x,
            r >= 0,
            r * r <= x,
            (r + 1) * (r + 1) > x,
    ;
}

/// Integer square root: the greatest `r` with `r * r <= x`.
fn isqrt_u64(x: u64) -> (r: u64)
    ensures
        (r as int) * (r as int) <= x as int,
        ((r + 1) as int) * ((r + 1) as int) > x as int,
        r <= x,
        r <= 0xffff_ffff,
{
    let mut lo: u64 = 0;
    let mut hi: u64 = if x < 0xffff_ffff {
        x
    } else {
        0xffff_ffff
    };
    proof {
        assert(((hi + 1) as int) * (((hi) + 1) as int) > x as int) by (nonlinear_arith)
            requires
                hi == if x < 0xffff_ffff {
                    x as int
                } else {
                    0xffff_ffff
                },
                x <= u64::MAX,
        ;
    }
    while lo < hi
        invariant
            0 <= lo <= hi <= 0xffff_ffff,
            (lo as int) * (lo as int) <= x as int,
            ((hi + 1) as int) * ((hi + 1) as int) > x as int,
            hi <= x || x >= 0xffff_ffff,
            lo <= x,
        decreases hi - lo,
    {
        let mid = lo + (hi - lo + 1) / 2;
        proof {
            assert((mid as int) * (mid as int) <= 0xffff_ffff * 0xffff_ffff) by (nonlinear_arith)
                requires
                    0 <= mid as int <= 0xffff_ffff,
            ;
        }
        if (mid as u128) * (mid as u128) <= x as u128 {
            lo = mid;
        } else {
            proof {
                assert((((mid - 1) + 1) as int) * ((((mid) - 1) + 1) as int) > x as int);
            }
            hi = mid - 1;
        }
    }
    lo
}

/// Cross products of `i64`-ranged factors stay far inside `i128`.
proof fn lemma_i64_products_fit(an: int, ad: int, bn: int, bd: int)
    requires
        -0x7fff_ffff_ffff_ffff <= an <= 0x7fff_ffff_ffff_ffff,
        1 <= ad <= 0x7fff_ffff_ffff_ffff,
        -0x7fff_ffff_ffff_ffff <= bn <= 0x7fff_ffff_ffff_ffff,
        1 <= bd <= 0x7fff_ffff_ffff_ffff,
    ensures
        -0x4000_0000_0000_0000_0000_0000_0000_0000 < an * bd
            < 0x4000_0000_0000_0000_0000_0000_0000_0000,
        -0x4000_0000_0000_0000_0000_0000_0000_0000 < bn * ad
            < 0x4000_0000_0000_0000_0000_0000_0000_0000,
        i128::MIN < an * bd + bn * ad < i128::MAX,
        i128::MIN < an * bn <= i128::MAX,
        1 <= ad * bd < i128::MAX,
{
    assert(-0x4000_0000_0000_0000_0000_0000_0000_0000 < an * bd
        < 0x4000_0000_0000_0000_0000_0000_0000_0000
        && -0x4000_0000_0000_0000_0000_0000_0000_0000 < bn * ad
        < 0x4000_0000_0000_0000_0000_0000_0000_0000 && i128::MIN < an * bd + bn * ad < i128::MAX
        && i128::MIN < an * bn <= i128::MAX && 1 <= ad * bd < i128::MAX) by (nonlinear_arith)
        requires
            -0x7fff_ffff_ffff_ffff <= an <= 0x7fff_ffff_ffff_ffff,
            1 <= ad <= 0x7fff_ffff_ffff_ffff,
            -0x7fff_ffff_ffff_ffff <= bn <= 0x7fff_ffff_ffff_ffff,
            1 <= bd <= 0x7fff_ffff_ffff_ffff,
    ;
}

/// Euclid's algorithm, matching `gcd_s` exactly.
fn gcd_u128(a0: u128, b0: u128) -> (g: u128)
    ensures
        g as nat == gcd_s(a0 as nat, b0 as nat),
    decreases b0,
{
    if b0 == 0 {
        a0
    } else {
        gcd_u128(b0, a0 % b0)
    }
}

/// Build the reduced rational `n / d` when it fits in `i64` terms.
fn rat_from_i128(n: i128, d: i128) -> (r: Result<Rat, ExprError>)
    requires
        1 <= d < i128::MAX,
        i128::MIN < n,
    ensures
        match r {
            Ok(q) => q.wf() && q@ == reduce_v(n as int, d as int) && fits_rat(
                reduce_v(n as int, d as int),
            ),
            Err(e) => e is Overflow && !fits_rat(reduce_v(n as int, d as int)),
        },
{
    let a: u128 = if n >= 0 {
        n as u128
    } else {
        (-n) as u128
    };
    let du: u128 = d as u128;
    assert(a as nat == int_abs(n as int));
    let g = gcd_u128(a, du);
    proof {
        lemma_gcd_pos(a as nat, du as nat);
    }
    let an: u128 = a / g;
    let dn: u128 = du / g;
    assert(dn >= 1) by {
        assert(du as nat / g as nat >= 1) by (nonlinear_arith)
            requires
                1 <= g as nat <= du as nat,
        ;
    }
    if an > 0x7fff_ffff_ffff_ffff || dn > 0x7fff_ffff_ffff_ffff {
        Err(ExprError::Overflow)
    } else {
        let num: i64 = if n >= 0 {
            an as i64
        } else {
            -(an as i64)
        };
        Ok(Rat { num, den: dn as i64 })
    }
}

} // verus!

