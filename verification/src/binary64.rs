//! Double precision arithmetic on integers.
//!
//! A [`Double`] is a signed significand of at most 53 bits and a power of two.
//! Every operation returns the exact result rounded to 53 significant bits,
//! ties to the even significand, which is what IEEE 754 binary64 prescribes
//! for results inside its exponent range. All quantities of this crate stay
//! far inside that range, so exponents are not limited further here.
use vstd::arithmetic::power2::*;
use vstd::prelude::*;

verus! {

/// The value `m * 2^e`.
pub struct Dyadic {
    pub m: int,
    pub e: int,
}

/// Magnitude of `i`.
pub open spec fn magnitude(i: int) -> nat {
    if i < 0 {
        (-i) as nat
    } else {
        i as nat
    }
}

/// The integer nearest to `n / d`; of two equally near the even one.
pub open spec fn nearest_even(n: nat, d: nat) -> nat {
    let q = n / d;
    let r = n % d;
    if 2 * r < d || (2 * r == d && q % 2 == 0) {
        q
    } else {
        q + 1
    }
}

/// `n / d * 2^e` rounded to 53 significant bits. A quotient below `2^53` is
/// rounded to an integer, so quotients from `2^52` on keep all 53 bits.
pub open spec fn round_ratio(n: nat, d: nat, e: int) -> Dyadic
    decreases
            (if n < 0x20_0000_0000_0000 * d {
                0
            } else {
                n - 0x20_0000_0000_0000 * d + 1
            }) as nat,
{
    if d == 0 {
        Dyadic { m: 0, e }
    } else if n < 0x20_0000_0000_0000 * d {
        let q = nearest_even(n, d);
        if q == 0x20_0000_0000_0000 {
            Dyadic { m: 0x10_0000_0000_0000, e: e + 1 }
        } else {
            Dyadic { m: q as int, e }
        }
    } else {
        round_ratio(n, 2 * d, e + 1)
    }
}

/// Whether `q` is the integer nearest to half the square root of `n`.
pub open spec fn is_half_root(n: nat, q: nat) -> bool {
    (2 * q - 1) * (2 * q - 1) <= n < (2 * q + 1) * (2 * q + 1)
}

/// The integer nearest to half the square root of `n`.
pub open spec fn nearest_half_root(n: nat) -> nat {
    choose|q: nat| q > 0 && #[trigger] is_half_root(n, q)
}

impl Dyadic {
    /// The significand has at most 53 bits.
    pub open spec fn wf(self) -> bool {
        -0x20_0000_0000_0000 < self.m < 0x20_0000_0000_0000
    }

    /// The integer `n` times `2^e`, rounded.
    pub open spec fn rounded(n: int, e: int) -> Dyadic {
        let r = round_ratio(magnitude(n), 1, e);
        if n < 0 {
            Dyadic { m: -r.m, e: r.e }
        } else {
            r
        }
    }

    /// The integer `i`.
    pub open spec fn integer(i: int) -> Dyadic {
        Dyadic { m: i, e: 0 }
    }

    /// The significand of this value at the exponent `e`, which is not above
    /// its own.
    pub open spec fn scaled(self, e: int) -> int {
        self.m * pow2((self.e - e) as nat)
    }

    /// Correctly rounded sum.
    pub open spec fn plus(self, other: Dyadic) -> Dyadic {
        let e = if self.e <= other.e {
            self.e
        } else {
            other.e
        };
        Dyadic::rounded(self.scaled(e) + other.scaled(e), e)
    }

    pub open spec fn negated(self) -> Dyadic {
        Dyadic { m: -self.m, e: self.e }
    }

    /// Correctly rounded difference.
    pub open spec fn minus(self, other: Dyadic) -> Dyadic {
        self.plus(other.negated())
    }

    /// Correctly rounded product.
    pub open spec fn times(self, other: Dyadic) -> Dyadic {
        Dyadic::rounded(self.m * other.m, self.e + other.e)
    }

    /// The same value with a significand of exactly 53 bits, where it is not
    /// zero.
    pub open spec fn normalized(self) -> Dyadic
        decreases 0x20_0000_0000_0000 - magnitude(self.m),
    {
        if self.m == 0 || magnitude(self.m) >= 0x10_0000_0000_0000 {
            self
        } else {
            Dyadic { m: 2 * self.m, e: self.e - 1 }.normalized()
        }
    }

    /// Correctly rounded quotient of a value that is not negative and one that
    /// is positive.
    pub open spec fn over(self, other: Dyadic) -> Dyadic {
        if self.m == 0 {
            Dyadic { m: 0, e: 0 }
        } else {
            let a = self.normalized();
            let b = other.normalized();
            round_ratio((a.m * pow2(54)) as nat, b.m as nat, a.e - b.e - 54)
        }
    }

    /// Correctly rounded square root of a value that is not negative.
    pub open spec fn root(self) -> Dyadic {
        if self.m == 0 {
            Dyadic { m: 0, e: 0 }
        } else {
            let a = self.normalized();
            let s: int = if a.e % 2 == 0 {
                54
            } else {
                55
            };
            let q = nearest_half_root((a.m * pow2(s as nat)) as nat);
            let e = (a.e - s) / 2 + 1;
            if q == 0x20_0000_0000_0000 {
                Dyadic { m: 0x10_0000_0000_0000, e: e + 1 }
            } else {
                Dyadic { m: q as int, e }
            }
        }
    }

    /// A value that is not negative, rounded to the nearest integer; of two
    /// equally near the larger one.
    pub open spec fn to_nearest(self) -> int {
        if self.e >= 0 {
            self.m * pow2(self.e as nat)
        } else {
            (2 * self.m + pow2((-self.e) as nat)) / (2 * pow2((-self.e) as nat) as int)
        }
    }

    /// Whether this value is smaller than `other`.
    pub open spec fn less(self, other: Dyadic) -> bool {
        let e = if self.e <= other.e {
            self.e
        } else {
            other.e
        };
        self.scaled(e) < other.scaled(e)
    }
}

/// A double precision number.
#[derive(Clone, Copy, Debug)]
pub struct Double {
    significand: i64,
    exponent: i32,
}

impl View for Double {
    type V = Dyadic;

    closed spec fn view(&self) -> Dyadic {
        Dyadic { m: self.significand as int, e: self.exponent as int }
    }
}

/// Rounding to a quotient within its half-open binade only depends on the
/// denominator of that binade.
proof fn lemma_round_skip(n: nat, d: nat, e: int, j: nat)
    requires
        d > 0,
        j > 0 ==> n >= 0x20_0000_0000_0000 * (d * pow2((j - 1) as nat)),
    ensures
        round_ratio(n, d, e) == round_ratio(n, d * pow2(j), e + j),
    decreases j,
{
    if j == 0 {
        lemma2_to64();
        assert(d * pow2(0) == d);
    } else {
        lemma_pow2_pos((j - 1) as nat);
        assert(d * pow2((j - 1) as nat) >= d) by (nonlinear_arith)
            requires
                pow2((j - 1) as nat) >= 1,
                d > 0,
        ;
        assert(round_ratio(n, d, e) == round_ratio(n, 2 * d, e + 1));
        if j > 1 {
            lemma_pow2_unfold((j - 1) as nat);
            assert((2 * d) * pow2((j - 2) as nat) == d * pow2((j - 1) as nat)) by (nonlinear_arith)
                requires
                    pow2((j - 1) as nat) == 2 * pow2((j - 2) as nat),
            ;
        }
        lemma_round_skip(n, 2 * d, e + 1, (j - 1) as nat);
        lemma_pow2_unfold(j);
        assert((2 * d) * pow2((j - 1) as nat) == d * pow2(j)) by (nonlinear_arith)
            requires
                pow2(j) == 2 * pow2((j - 1) as nat),
        ;
    }
}

/// A quotient that stays half a unit below `2^53` at the exponent `e + j` is
/// rounded to an exponent of at most `e + j`.
proof fn lemma_round_upper(n: nat, d: nat, e: int, j: nat)
    requires
        d > 0,
        2 * n < 0x3f_ffff_ffff_ffff * (d * pow2(j)),
    ensures
        e <= round_ratio(n, d, e).e <= e + j,
        0 <= round_ratio(n, d, e).m < 0x20_0000_0000_0000,
    decreases j,
{
    if n < 0x20_0000_0000_0000 * d {
        lemma_nearest_even(n, d);
        if j == 0 {
            lemma2_to64();
            assert(d * pow2(0) == d);
            let q = nearest_even(n, d);
            if q >= 0x20_0000_0000_0000 {
                assert(q * d >= 0x20_0000_0000_0000 * d) by (nonlinear_arith)
                    requires
                        q >= 0x20_0000_0000_0000,
                ;
            }
        } else {
            lemma_nearest_even_below(n, d, 0x20_0000_0000_0000);
        }
    } else {
        if j == 0 {
            lemma2_to64();
            assert(d * pow2(0) == d);
            assert(false);
        }
        lemma_pow2_unfold(j);
        assert((2 * d) * pow2((j - 1) as nat) == d * pow2(j)) by (nonlinear_arith)
            requires
                pow2(j) == 2 * pow2((j - 1) as nat),
        ;
        lemma_round_upper(n, 2 * d, e + 1, (j - 1) as nat);
    }
}

/// The rounded quotient is within half a unit of the exact one.
pub proof fn lemma_nearest_even(n: nat, d: nat)
    requires
        d > 0,
    ensures
        2 * (nearest_even(n, d) * d) <= 2 * n + d,
        2 * n <= 2 * (nearest_even(n, d) * d) + d,
{
    let q = n / d;
    let r = n % d;
    vstd::arithmetic::div_mod::lemma_fundamental_div_mod(n as int, d as int);
    assert(d * q == q * d) by (nonlinear_arith);
    assert((q + 1) * d == q * d + d) by (nonlinear_arith);
}

/// Rounding a quotient below `bound` gives at most `bound`.
proof fn lemma_nearest_even_below(n: nat, d: nat, bound: nat)
    requires
        d > 0,
        n < bound * d,
    ensures
        nearest_even(n, d) <= bound,
{
    assert(n / d < bound) by {
        vstd::arithmetic::mul::lemma_mul_is_commutative(d as int, bound as int);
        vstd::arithmetic::div_mod::lemma_multiply_divide_lt(n as int, d as int, bound as int);
    }
}

/// Adding a value below a quarter of the last place of a normalized number
/// leaves the number as it is.
proof fn lemma_absorb(m: int, k: nat, b: int, e: int)
    requires
        0x10_0000_0000_0000 <= magnitude(m) < 0x20_0000_0000_0000,
        magnitude(b) < 0x20_0000_0000_0000,
        k >= 55,
    ensures
        Dyadic::rounded(m * pow2(k) + b, e) == (Dyadic { m, e: e + k }),
{
    let u = pow2(k);
    let a = magnitude(m);
    let c = if m < 0 {
        -b
    } else {
        b
    };
    lemma_pow2_unfold(k);
    lemma_pow2_unfold((k - 1) as nat);
    lemma2_to64_rest();
    assert(0x20_0000_0000_0000 <= pow2((k - 2) as nat)) by {
        if k > 55 {
            lemma_pow2_strictly_increases(53, (k - 2) as nat);
        }
    }
    assert(magnitude(m * u + b) == a * u + c && (m * u + b < 0 <==> m < 0)) by (nonlinear_arith)
        requires
            m < 0 ==> a == -m && c == -b,
            m >= 0 ==> a == m && c == b,
            a >= 1,
            u >= 0x20_0000_0000_0000,
            magnitude(b) < 0x20_0000_0000_0000,
            magnitude(m * u + b) == (if m * u + b < 0 { -(m * u + b) } else { m * u + b }),
            magnitude(b) == (if b < 0 { -b } else { b }),
    ;
    let n = (a * u + c) as nat;
    if c >= 0 || a > 0x10_0000_0000_0000 {
        assert(n >= 0x20_0000_0000_0000 * (1 * pow2((k - 1) as nat))) by (nonlinear_arith)
            requires
                n == a * u + c,
                u == 2 * pow2((k - 1) as nat),
                c >= 0 || a > 0x10_0000_0000_0000,
                a >= 0x10_0000_0000_0000,
                -c < u,
        ;
        lemma_round_skip(n, 1, e, k);
        assert(n < 0x20_0000_0000_0000 * u) by (nonlinear_arith)
            requires
                n == a * u + c,
                a < 0x20_0000_0000_0000,
                c < u,
        ;
        if c >= 0 {
            vstd::arithmetic::div_mod::lemma_fundamental_div_mod_converse(
                n as int,
                u as int,
                a as int,
                c,
            );
        } else {
            assert(n == (a - 1) * u + (u + c)) by (nonlinear_arith)
                requires
                    n == a * u + c,
            ;
            vstd::arithmetic::div_mod::lemma_fundamental_div_mod_converse(
                n as int,
                u as int,
                a - 1,
                u + c,
            );
        }
        assert(nearest_even(n, u) == a);
        assert(1 * pow2(k) == u);
    } else {
        let v = pow2((k - 1) as nat);
        assert(n == 0x1f_ffff_ffff_ffff * v + (v + c)) by (nonlinear_arith)
            requires
                n == a * u + c,
                a == 0x10_0000_0000_0000,
                u == 2 * v,
        ;
        assert(n >= 0x20_0000_0000_0000 * (1 * pow2((k - 2) as nat)));
        lemma_round_skip(n, 1, e, (k - 1) as nat);
        vstd::arithmetic::div_mod::lemma_fundamental_div_mod_converse(
            n as int,
            v as int,
            0x1f_ffff_ffff_ffff,
            v + c,
        );
        assert(nearest_even(n, v) == 0x20_0000_0000_0000);
        assert(1 * v == v);
    }
}

impl Double {
    /// The significand has at most 53 bits.
    #[verifier::type_invariant]
    pub open spec fn valid(&self) -> bool {
        self@.wf()
    }

    /// The exponent is within `limit` of zero.
    pub open spec fn within(&self, limit: int) -> bool {
        -limit <= self@.e <= limit
    }

    /// The integer `i`.
    pub fn from_int(i: i64) -> (r: Double)
        requires
            -0x20_0000_0000_0000 < i < 0x20_0000_0000_0000,
        ensures
            r@ == Dyadic::integer(i as int),
    {
        Double { significand: i, exponent: 0 }
    }

    /// The number `significand * 2^exponent`.
    pub fn new(significand: i64, exponent: i32) -> (r: Double)
        requires
            -0x20_0000_0000_0000 < significand < 0x20_0000_0000_0000,
        ensures
            r@ == (Dyadic { m: significand as int, e: exponent as int }),
    {
        Double { significand, exponent }
    }

    /// Significand and exponent.
    pub fn parts(self) -> (r: (i64, i32))
        ensures
            r.0 == self@.m,
            r.1 == self@.e,
    {
        (self.significand, self.exponent)
    }

    /// The magnitude.
    pub fn abs(self) -> (r: Double)
        ensures
            r@ == (Dyadic { m: magnitude(self@.m) as int, e: self@.e }),
    {
        proof {
            use_type_invariant(&self);
        }
        Double {
            significand: if self.significand < 0 {
                -self.significand
            } else {
                self.significand
            },
            exponent: self.exponent,
        }
    }

    /// Half of the number.
    pub fn half(self) -> (r: Double)
        requires
            self.within(1000),
        ensures
            r@ == (Dyadic { m: self@.m, e: self@.e - 1 }),
    {
        proof {
            use_type_invariant(&self);
        }
        Double { significand: self.significand, exponent: self.exponent - 1 }
    }

    /// `n / d * 2^e`, rounded.
    fn round_quotient(n: u128, d: u128, e: i32) -> (r: Double)
        requires
            0 < d < 0x40_0000_0000_0000_0000_0000,
            n < 0x4000_0000_0000_0000_0000_0000_0000_0000,
            -4000 <= e <= 4000,
        ensures
            r@ == round_ratio(n as nat, d as nat, e as int),
            r@.m >= 0,
            e <= r@.e <= e + 128,
    {
        proof {
            lemma2_to64();
        }
        let mut den: u128 = d;
        let mut exp: i32 = e;
        while n / 0x20_0000_0000_0000 >= den
            invariant
                0 < den < 0x80_0000_0000_0000_0000_0000,
                n < 0x4000_0000_0000_0000_0000_0000_0000_0000,
                -4000 <= e <= 4000,
                e <= exp,
                den >= pow2((exp - e) as nat),
                round_ratio(n as nat, d as nat, e as int) == round_ratio(
                    n as nat,
                    den as nat,
                    exp as int,
                ),
            decreases n - den,
        {
            proof {
                lemma_pow2_unfold((exp - e + 1) as nat);
                lemma_small_exponent((exp - e) as nat, den as nat);
            }
            den = den * 2;
            exp = exp + 1;
        }
        proof {
            lemma_small_exponent((exp - e) as nat, den as nat);
            lemma_nearest_even_below(n as nat, den as nat, 0x20_0000_0000_0000);
        }
        let q: u128 = n / den;
        let rem: u128 = n % den;
        let rounded: u128 = if 2 * rem < den || (2 * rem == den && q % 2 == 0) {
            q
        } else {
            q + 1
        };
        if rounded == 0x20_0000_0000_0000 {
            Double { significand: 0x10_0000_0000_0000, exponent: exp + 1 }
        } else {
            Double { significand: rounded as i64, exponent: exp }
        }
    }

    /// The integer `n` times `2^e`, rounded.
    fn round_integer(n: i128, e: i32) -> (r: Double)
        requires
            -0x4000_0000_0000_0000_0000_0000_0000_0000 < n,
            n < 0x4000_0000_0000_0000_0000_0000_0000_0000,
            -4000 <= e <= 4000,
        ensures
            r@ == Dyadic::rounded(n as int, e as int),
            e <= r@.e <= e + 128,
    {
        if n < 0 {
            let r = Double::round_quotient((-n) as u128, 1, e);
            proof {
                use_type_invariant(&r);
            }
            Double { significand: -r.significand, exponent: r.exponent }
        } else {
            Double::round_quotient(n as u128, 1, e)
        }
    }

    /// The same value with a significand of exactly 53 bits, where it is not
    /// zero.
    fn normalize(self) -> (r: Double)
        requires
            self.within(2000),
        ensures
            r@ == self@.normalized(),
            r@.m != 0 ==> magnitude(r@.m) >= 0x10_0000_0000_0000,
            self@.e - 53 <= r@.e <= self@.e,
            r@.m == self@.m * pow2((self@.e - r@.e) as nat),
            (r@.m < 0) == (self@.m < 0),
            (r@.m == 0) == (self@.m == 0),
    {
        proof {
            use_type_invariant(&self);
            lemma2_to64();
        }
        let mut m: i64 = self.significand;
        let mut e: i32 = self.exponent;
        while m != 0 && -0x10_0000_0000_0000 < m && m < 0x10_0000_0000_0000
            invariant
                self.within(2000),
                -0x20_0000_0000_0000 < m < 0x20_0000_0000_0000,
                e <= self@.e,
                m != 0 ==> pow2((self@.e - e) as nat) <= magnitude(m as int),
                m == 0 ==> e == self@.e,
                m == self@.m * pow2((self@.e - e) as nat),
                (m < 0) == (self@.m < 0),
                (m == 0) == (self@.m == 0),
                self@.normalized() == (Dyadic { m: m as int, e: e as int }).normalized(),
                self@.e - 53 <= e,
            decreases 0x20_0000_0000_0000 - magnitude(m as int),
        {
            proof {
                lemma_pow2_unfold((self@.e - e + 1) as nat);
                assert(self@.m * pow2((self@.e - e + 1) as nat) == 2 * m) by (nonlinear_arith)
                    requires
                        m == self@.m * pow2((self@.e - e) as nat),
                        pow2((self@.e - e + 1) as nat) == 2 * pow2((self@.e - e) as nat),
                ;
                if self@.e - e >= 53 {
                    lemma2_to64_rest();
                    assert(false);
                }
            }
            m = m * 2;
            e = e - 1;
        }
        Double { significand: m, exponent: e }
    }

    /// The sum.
    pub fn add(self, other: Double) -> (r: Double)
        requires
            self.within(1000),
            other.within(1000),
        ensures
            r@ == self@.plus(other@),
            self@.e <= r@.e || other@.e <= r@.e,
            r@.e <= self@.e + 1 || r@.e <= other@.e + 1,
            self@.m >= 0 && other@.m >= 0 ==> r@.m >= 0,
    {
        proof {
            use_type_invariant(&self);
            use_type_invariant(&other);
            if self@.e >= other@.e {
                lemma_plus(self@, other@);
            } else {
                lemma_plus(other@, self@);
            }
        }
        if self.exponent >= other.exponent {
            Double::add_ordered(self, other)
        } else {
            assert(self@.plus(other@) == other@.plus(self@));
            Double::add_ordered(other, self)
        }
    }

    fn add_ordered(high: Double, low: Double) -> (r: Double)
        requires
            high@.e >= low@.e,
            high.within(1000),
            low.within(1000),
        ensures
            r@ == high@.plus(low@),
    {
        proof {
            use_type_invariant(&high);
            use_type_invariant(&low);
            lemma_scaled_self(low@);
        }
        if high.exponent - low.exponent <= 70 {
            return Double::add_near(high, low);
        }
        let top = high.normalize();
        proof {
            let j = (high@.e - top@.e) as nat;
            if top@.e >= low@.e {
                lemma_pow2_adds((top@.e - low@.e) as nat, j);
                assert(top@.m * pow2((top@.e - low@.e) as nat) == high@.m * pow2(
                    (high@.e - low@.e) as nat,
                )) by (nonlinear_arith)
                    requires
                        top@.m == high@.m * pow2(j),
                        pow2((top@.e - low@.e) as nat) * pow2(j) == pow2(
                            (high@.e - low@.e) as nat,
                        ),
                ;
            }
        }
        if top.significand == 0 {
            proof {
                assert(high@.scaled(low@.e) == 0) by (nonlinear_arith)
                    requires
                        high@.m == 0,
                        high@.scaled(low@.e) == high@.m * pow2((high@.e - low@.e) as nat),
                ;
            }
            Double::round_integer(low.significand as i128, low.exponent)
        } else if top.exponent - low.exponent <= 70 {
            Double::add_near(top, low)
        } else {
            proof {
                use_type_invariant(&top);
                lemma_absorb(top@.m, (top@.e - low@.e) as nat, low@.m, low@.e);
            }
            top
        }
    }

    fn add_near(high: Double, low: Double) -> (r: Double)
        requires
            0 <= high@.e - low@.e <= 70,
            high.within(1100),
            low.within(1100),
        ensures
            r@ == high@.plus(low@),
    {
        let shift: i32 = high.exponent - low.exponent;
        proof {
            use_type_invariant(&high);
            use_type_invariant(&low);
            lemma_scaled_self(low@);
        }
        let unit: i128 = power_of_two(shift as u32);
        proof {
            assert(-0x20_0000_0000_0000 * 0x40_0000_0000_0000_0000 < high@.m * unit
                < 0x20_0000_0000_0000 * 0x40_0000_0000_0000_0000) by (nonlinear_arith)
                requires
                    -0x20_0000_0000_0000 < high@.m < 0x20_0000_0000_0000,
                    0 < unit <= 0x40_0000_0000_0000_0000,
            ;
        }
        let sum: i128 = high.significand as i128 * unit + low.significand as i128;
        Double::round_integer(sum, low.exponent)
    }

    /// The number with the sign reversed.
    pub fn neg(self) -> (r: Double)
        ensures
            r@ == self@.negated(),
    {
        proof {
            use_type_invariant(&self);
        }
        Double { significand: -self.significand, exponent: self.exponent }
    }

    /// The difference.
    pub fn sub(self, other: Double) -> (r: Double)
        requires
            self.within(1000),
            other.within(1000),
        ensures
            r@ == self@.minus(other@),
            self@.e <= r@.e || other@.e <= r@.e,
            r@.e <= self@.e + 1 || r@.e <= other@.e + 1,
    {
        self.add(other.neg())
    }

    /// The product.
    pub fn mul(self, other: Double) -> (r: Double)
        requires
            self.within(1000),
            other.within(1000),
        ensures
            r@ == self@.times(other@),
            self@.e + other@.e <= r@.e <= self@.e + other@.e + 53,
            self@.m * other@.m >= 0 ==> r@.m >= 0,
    {
        proof {
            use_type_invariant(&self);
            use_type_invariant(&other);
            lemma_times(self@, other@);
            assert(-0x20_0000_0000_0000 * 0x20_0000_0000_0000 < self@.m * other@.m
                < 0x20_0000_0000_0000 * 0x20_0000_0000_0000) by (nonlinear_arith)
                requires
                    -0x20_0000_0000_0000 < self@.m < 0x20_0000_0000_0000,
                    -0x20_0000_0000_0000 < other@.m < 0x20_0000_0000_0000,
            ;
        }
        let product: i128 = self.significand as i128 * other.significand as i128;
        Double::round_integer(product, self.exponent + other.exponent)
    }

    /// The quotient.
    pub fn div(self, other: Double) -> (r: Double)
        requires
            self.within(1000),
            other.within(1000),
            self@.m >= 0,
            other@.m > 0,
        ensures
            r@ == self@.over(other@),
            r@.m >= 0,
            self@.m == 0 ==> r@.e == 0,
            self@.m != 0 ==> self@.e - other@.e - 107 <= r@.e <= self@.e - other@.e + 127,
    {
        if self.significand == 0 {
            return Double { significand: 0, exponent: 0 };
        }
        let a = self.normalize();
        let b = other.normalize();
        proof {
            use_type_invariant(&a);
            use_type_invariant(&b);
            lemma2_to64_rest();
        }
        Double::round_quotient(
            a.significand as u128 * 0x40_0000_0000_0000,
            b.significand as u128,
            a.exponent - b.exponent - 54,
        )
    }
}

impl Double {
    /// The square root.
    pub fn sqrt(self) -> (r: Double)
        requires
            self.within(1000),
            self@.m >= 0,
        ensures
            r@ == self@.root(),
            r@.m >= 0,
            self@.m == 0 ==> r@.e == 0,
            self@.m != 0 ==> self@.e - 112 <= 2 * r@.e <= self@.e + 4,
    {
        if self.significand == 0 {
            return Double { significand: 0, exponent: 0 };
        }
        let a = self.normalize();
        proof {
            use_type_invariant(&a);
            lemma2_to64_rest();
        }
        let even: bool = a.exponent % 2 == 0;
        let s: i32 = if even {
            54
        } else {
            55
        };
        let factor: u128 = if even {
            0x40_0000_0000_0000
        } else {
            0x80_0000_0000_0000
        };
        let n: u128 = a.significand as u128 * factor;
        let q: u128 = half_root(n);
        proof {
            lemma_half_root_unique(n as nat, q as nat, nearest_half_root(n as nat));
        }
        let e: i32 = (a.exponent - s) / 2 + 1;
        if q == 0x20_0000_0000_0000 {
            Double { significand: 0x10_0000_0000_0000, exponent: e + 1 }
        } else {
            Double { significand: q as i64, exponent: e }
        }
    }

    /// Whether this number is smaller than `other`.
    pub fn lt(self, other: Double) -> (r: bool)
        requires
            self.within(1000),
            other.within(1000),
        ensures
            r == self@.less(other@),
    {
        proof {
            use_type_invariant(&self);
            use_type_invariant(&other);
            lemma_scaled_self(self@);
            lemma_scaled_self(other@);
        }
        if self.exponent >= other.exponent {
            let k: i32 = self.exponent - other.exponent;
            if k <= 70 {
                let unit: i128 = power_of_two(k as u32);
                proof {
                    lemma_product_range(self@.m, unit as int);
                }
                self.significand as i128 * unit < other.significand as i128
            } else {
                proof {
                    lemma_far(self@.m, k as nat);
                }
                if self.significand == 0 {
                    0 < other.significand
                } else {
                    self.significand < 0
                }
            }
        } else {
            let k: i32 = other.exponent - self.exponent;
            if k <= 70 {
                let unit: i128 = power_of_two(k as u32);
                proof {
                    lemma_product_range(other@.m, unit as int);
                }
                (self.significand as i128) < other.significand as i128 * unit
            } else {
                proof {
                    lemma_far(other@.m, k as nat);
                }
                if other.significand == 0 {
                    self.significand < 0
                } else {
                    other.significand > 0
                }
            }
        }
    }

    /// The nearest integer, halves rounded up.
    pub fn round(self) -> (r: u128)
        requires
            -100 <= self@.e < 0,
            self@.m >= 0,
        ensures
            r == self@.to_nearest(),
    {
        proof {
            use_type_invariant(&self);
        }
        let unit: u128 = power_of_two((-self.exponent) as u32) as u128;
        proof {
            lemma_pow2_pos((-self@.e) as nat);
        }
        (2 * self.significand as u128 + unit) / (2 * unit)
    }
}

proof fn lemma_product_range(m: int, unit: int)
    requires
        -0x20_0000_0000_0000 < m < 0x20_0000_0000_0000,
        0 < unit <= 0x40_0000_0000_0000_0000,
    ensures
        -0x20_0000_0000_0000 * 0x40_0000_0000_0000_0000 < m * unit,
        m * unit < 0x20_0000_0000_0000 * 0x40_0000_0000_0000_0000,
{
    assert(-0x20_0000_0000_0000 * 0x40_0000_0000_0000_0000 < m * unit
        < 0x20_0000_0000_0000 * 0x40_0000_0000_0000_0000) by (nonlinear_arith)
        requires
            -0x20_0000_0000_0000 < m < 0x20_0000_0000_0000,
            0 < unit <= 0x40_0000_0000_0000_0000,
    ;
}

/// A number that is not zero outweighs any significand far below it.
proof fn lemma_far(m: int, k: nat)
    requires
        k > 70,
    ensures
        m == 0 ==> m * pow2(k) == 0,
        m > 0 ==> m * pow2(k) >= 0x20_0000_0000_0000,
        m < 0 ==> m * pow2(k) <= -0x20_0000_0000_0000,
{
    lemma2_to64_rest();
    lemma_pow2_strictly_increases(53, k);
    let u = pow2(k) as int;
    assert(m > 0 ==> m * u >= u) by (nonlinear_arith)
        requires
            u > 0,
    ;
    assert(m < 0 ==> m * u <= -u) by (nonlinear_arith)
        requires
            u > 0,
    ;
}

/// The integer nearest to half the square root of `n`.
fn half_root(n: u128) -> (q: u128)
    requires
        0x4_0000_0000_0000_0000_0000_0000_00 <= n < 0x10_0000_0000_0000_0000_0000_0000_00,
    ensures
        is_half_root(n as nat, q as nat),
        0x10_0000_0000_0000 <= q <= 0x20_0000_0000_0000,
{
    let mut root: u128 = 0x20_0000_0000_0000;
    let mut above: u128 = 0x40_0000_0000_0000;
    assert(0x20_0000_0000_0000 * 0x20_0000_0000_0000
        == 0x4_0000_0000_0000_0000_0000_0000_00);
    assert(0x40_0000_0000_0000 * 0x40_0000_0000_0000
        == 0x10_0000_0000_0000_0000_0000_0000_00);
    while above - root > 1
        invariant
            0x20_0000_0000_0000 <= root < above <= 0x40_0000_0000_0000,
            root * root <= n < above * above,
        decreases above - root,
    {
        let middle: u128 = (root + above) / 2;
        assert(middle * middle <= 0x10_0000_0000_0000_0000_0000_0000_00) by (nonlinear_arith)
            requires
                0 <= middle <= 0x40_0000_0000_0000,
        ;
        if middle * middle <= n {
            root = middle;
        } else {
            above = middle;
        }
    }
    proof {
        let q = ((root + 1) / 2) as int;
        assert((2 * q - 1) * (2 * q - 1) <= root * root) by (nonlinear_arith)
            requires
                0 <= 2 * q - 1 <= root,
        ;
        assert(above * above <= (2 * q + 1) * (2 * q + 1)) by (nonlinear_arith)
            requires
                0 <= above <= 2 * q + 1,
        ;
    }
    (root + 1) / 2
}

/// What rounding a quotient to 53 bits leaves of it.
pub proof fn lemma_round_ratio(n: nat, d: nat, e: int)
    requires
        d > 0,
    ensures
        ({
            let r = round_ratio(n, d, e);
            let u = d * pow2((r.e - e) as nat);
            &&& r.e >= e
            &&& 0 <= r.m < 0x20_0000_0000_0000
            &&& r.e > e ==> r.m >= 0x10_0000_0000_0000
            &&& 2 * (r.m * u) <= 2 * n + u
            &&& 2 * n <= 2 * (r.m * u) + u
        }),
    decreases
            (if n < 0x20_0000_0000_0000 * d {
                0
            } else {
                n - 0x20_0000_0000_0000 * d + 1
            }) as nat,
{
    let r = round_ratio(n, d, e);
    lemma2_to64();
    assert(d * 1 == d);
    if n < 0x20_0000_0000_0000 * d {
        lemma_nearest_even(n, d);
        lemma_nearest_even_below(n, d, 0x20_0000_0000_0000);
        assert(0x10_0000_0000_0000 * (d * 2) == 0x20_0000_0000_0000 * d);
    } else {
        lemma_round_ratio(n, 2 * d, e + 1);
        let t = (r.e - e) as nat;
        lemma_pow2_unfold(t);
        assert((2 * d) * pow2((t - 1) as nat) == d * pow2(t)) by (nonlinear_arith)
            requires
                pow2(t) == 2 * pow2((t - 1) as nat),
        ;
        if r.e == e + 1 {
            if r.m < 0x10_0000_0000_0000 {
                assert(n < 0x20_0000_0000_0000 * (2 * d)) by {
                    if n >= 0x20_0000_0000_0000 * (2 * d) {
                        lemma_round_ratio(n, 4 * d, e + 2);
                        assert(round_ratio(n, 2 * d, e + 1) == round_ratio(n, 4 * d, e + 2));
                    }
                }
                vstd::arithmetic::div_mod::lemma_fundamental_div_mod(n as int, (2 * d) as int);
                let q = n / (2 * d);
                assert(q >= 0x10_0000_0000_0000) by (nonlinear_arith)
                    requires
                        n >= 0x20_0000_0000_0000 * d,
                        n == (2 * d) * q + n % (2 * d),
                        n % (2 * d) < 2 * d,
                        d > 0,
                ;
                assert(false);
            }
        }
    }
}

/// The integer nearest to half a square root is unique.
proof fn lemma_half_root_unique(n: nat, p: nat, q: nat)
    requires
        p > 0,
        q > 0,
        is_half_root(n, p),
        is_half_root(n, q),
    ensures
        p == q,
{
    if p < q {
        assert((2 * p + 1) * (2 * p + 1) <= (2 * q - 1) * (2 * q - 1)) by (nonlinear_arith)
            requires
                0 < p < q,
        ;
    } else if q < p {
        assert((2 * q + 1) * (2 * q + 1) <= (2 * p - 1) * (2 * p - 1)) by (nonlinear_arith)
            requires
                0 < q < p,
        ;
    }
}

/// Bounds on the exponent of a sum. An addend that is 55 binary places above
/// the other one keeps its exponent.
pub proof fn lemma_plus(a: Dyadic, b: Dyadic)
    requires
        a.wf(),
        b.wf(),
        a.e >= b.e,
    ensures
        a.plus(b) == b.plus(a),
        a.plus(b).wf(),
        b.e <= a.plus(b).e <= a.e + 1,
        a.m >= 0 && b.m >= 0 ==> a.plus(b).m >= 0,
        a.e >= b.e + 55 ==> a.plus(b).e <= a.e,
{
    let k = (a.e - b.e) as nat;
    let u = pow2(k);
    lemma_scaled_self(b);
    lemma_scaled_self(a);
    lemma_pow2_pos(k);
    let s = a.m * u + b.m;
    let n = magnitude(s);
    assert(n <= 0x1f_ffff_ffff_ffff * u + 0x1f_ffff_ffff_ffff) by (nonlinear_arith)
        requires
            -0x20_0000_0000_0000 < a.m < 0x20_0000_0000_0000,
            -0x20_0000_0000_0000 < b.m < 0x20_0000_0000_0000,
            u > 0,
            n == s || n == -s,
            s == a.m * u + b.m,
    ;
    assert(a.m >= 0 ==> a.m * u >= 0) by (nonlinear_arith)
        requires
            u > 0,
    ;
    lemma_pow2_unfold(k + 1);
    lemma_round_upper(n, 1, b.e, k + 1);
    if k >= 55 {
        lemma2_to64_rest();
        if k > 55 {
            lemma_pow2_strictly_increases(55, k);
        }
        lemma_round_upper(n, 1, b.e, k);
    }
}

/// Bounds on the exponent of a product.
pub proof fn lemma_times(a: Dyadic, b: Dyadic)
    requires
        a.wf(),
        b.wf(),
    ensures
        a.times(b).wf(),
        a.e + b.e <= a.times(b).e <= a.e + b.e + 53,
        a.m * b.m >= 0 ==> a.times(b).m >= 0,
        magnitude(a.m * b.m) < 0x4000_0000_0000_0000 ==> a.times(b).e <= a.e + b.e + 10,
{
    let p = a.m * b.m;
    let n = magnitude(p);
    assert(n <= 0x1f_ffff_ffff_ffff * 0x1f_ffff_ffff_ffff) by (nonlinear_arith)
        requires
            -0x20_0000_0000_0000 < a.m < 0x20_0000_0000_0000,
            -0x20_0000_0000_0000 < b.m < 0x20_0000_0000_0000,
            p == a.m * b.m,
            n == p || n == -p,
    ;
    lemma2_to64();
    lemma2_to64_rest();
    lemma_round_upper(n, 1, a.e + b.e, 53);
    if n < 0x4000_0000_0000_0000 {
        lemma_round_upper(n, 1, a.e + b.e, 10);
    }
}

/// Normalizing keeps the value and gives a significand of 53 bits.
pub proof fn lemma_normalized(d: Dyadic)
    requires
        0 < d.m < 0x20_0000_0000_0000,
    ensures
        ({
            let r = d.normalized();
            &&& 0x10_0000_0000_0000 <= r.m < 0x20_0000_0000_0000
            &&& d.e - 52 <= r.e <= d.e
            &&& r.m == d.m * pow2((d.e - r.e) as nat)
        }),
    decreases 0x20_0000_0000_0000 - d.m,
{
    lemma2_to64();
    assert(d.m * 1 == d.m);
    if d.m < 0x10_0000_0000_0000 {
        let twice = Dyadic { m: 2 * d.m, e: d.e - 1 };
        lemma_normalized(twice);
        let r = d.normalized();
        let k = (d.e - r.e) as nat;
        lemma_pow2_unfold(k);
        assert(r.m == d.m * pow2(k)) by (nonlinear_arith)
            requires
                r.m == (2 * d.m) * pow2((k - 1) as nat),
                pow2(k) == 2 * pow2((k - 1) as nat),
        ;
        if k > 52 {
            lemma2_to64_rest();
            if k > 53 {
                lemma_pow2_strictly_increases(53, k);
            }
            assert(d.m * pow2(k) >= pow2(k)) by (nonlinear_arith)
                requires
                    d.m >= 1,
                    pow2(k) >= 0,
            ;
        }
    }
}

/// A 32-bit integer is shifted by at least 21 places.
pub proof fn lemma_normalized_integer(i: int)
    requires
        0 < i < 0x1_0000_0000,
    ensures
        -52 <= Dyadic::integer(i).normalized().e <= -21,
{
    let r = Dyadic::integer(i).normalized();
    lemma_normalized(Dyadic::integer(i));
    let k = (-r.e) as nat;
    if k < 21 {
        lemma2_to64();
        lemma_pow2_pos(k);
        if k < 20 {
            lemma_pow2_strictly_increases(k, 20);
        }
        assert(i * pow2(k) < 0x1_0000_0000 * pow2(20)) by (nonlinear_arith)
            requires
                0 < i < 0x1_0000_0000,
                0 < pow2(k) <= pow2(20),
        ;
    }
}

proof fn lemma_scaled_self(d: Dyadic)
    ensures
        d.scaled(d.e) == d.m,
{
    lemma2_to64();
    assert(d.m * 1 == d.m);
}

/// `2^k` for small `k`.
fn power_of_two(k: u32) -> (r: i128)
    requires
        k <= 100,
    ensures
        r == pow2(k as nat),
        k <= 70 ==> 0 < r <= 0x40_0000_0000_0000_0000,
{
    let mut r: i128 = 1;
    let mut i: u32 = 0;
    proof {
        lemma2_to64();
        lemma_pow2_adds(64, 6);
        lemma_pow2_adds(64, 36);
        lemma2_to64_rest();
        assert(pow2(100) == 0x10_0000_0000_0000_0000_0000_0000);
    }
    while i < k
        invariant
            i <= k <= 100,
            r == pow2(i as nat),
            pow2(100) == 0x10_0000_0000_0000_0000_0000_0000,
        decreases k - i,
    {
        proof {
            lemma_pow2_unfold((i + 1) as nat);
            if i + 1 < 100 {
                lemma_pow2_strictly_increases((i + 1) as nat, 100);
            }
        }
        r = r * 2;
        i = i + 1;
    }
    proof {
        if k < 70 {
            lemma_pow2_strictly_increases(k as nat, 70);
        }
        lemma_pow2_pos(k as nat);
    }
    r
}

proof fn lemma_small_exponent(j: nat, bound: nat)
    requires
        pow2(j) <= bound < 0x80_0000_0000_0000_0000_0000,
    ensures
        j < 127,
{
    if j >= 127 {
        lemma2_to64();
        lemma_pow2_adds(64, 63);
        lemma2_to64_rest();
        if j > 127 {
            lemma_pow2_strictly_increases(127, j);
        }
        assert(0x1_0000_0000_0000_0000 * 0x8000_0000_0000_0000
            > 0x80_0000_0000_0000_0000_0000);
    }
}

/// Values compare alike at every exponent that is not above theirs.
proof fn lemma_less_at(a: Dyadic, b: Dyadic, e: int)
    requires
        e <= a.e,
        e <= b.e,
    ensures
        a.less(b) <==> a.scaled(e) < b.scaled(e),
{
    let f = if a.e <= b.e {
        a.e
    } else {
        b.e
    };
    let u = pow2((f - e) as nat);
    lemma_pow2_pos((f - e) as nat);
    lemma_pow2_adds((a.e - f) as nat, (f - e) as nat);
    lemma_pow2_adds((b.e - f) as nat, (f - e) as nat);
    let (s, t) = (a.scaled(f), b.scaled(f));
    vstd::arithmetic::mul::lemma_mul_is_associative(a.m, pow2((a.e - f) as nat) as int, u as int);
    vstd::arithmetic::mul::lemma_mul_is_associative(b.m, pow2((b.e - f) as nat) as int, u as int);
    assert(s < t <==> s * u < t * u) by (nonlinear_arith)
        requires
            u > 0,
    ;
}

/// A value that is not below a second one is not below a third one that is
/// below the second.
pub proof fn lemma_less_trans(a: Dyadic, b: Dyadic, c: Dyadic)
    requires
        !a.less(b),
        c.less(b),
    ensures
        !a.less(c),
{
    let e = if a.e <= b.e && a.e <= c.e {
        a.e
    } else if b.e <= c.e {
        b.e
    } else {
        c.e
    };
    lemma_less_at(a, b, e);
    lemma_less_at(c, b, e);
    lemma_less_at(a, c, e);
}

/// A value below a second one is below a third one that is not below the
/// second.
pub proof fn lemma_less_strict(a: Dyadic, b: Dyadic, c: Dyadic)
    requires
        a.less(b),
        !c.less(b),
    ensures
        a.less(c),
{
    let e = if a.e <= b.e && a.e <= c.e {
        a.e
    } else if b.e <= c.e {
        b.e
    } else {
        c.e
    };
    lemma_less_at(a, b, e);
    lemma_less_at(c, b, e);
    lemma_less_at(a, c, e);
}

/// A root in whole numbers exists.
proof fn lemma_whole_root(n: nat, r: nat) -> (root: nat)
    requires
        r * r <= n,
    ensures
        root >= r,
        root * root <= n < (root + 1) * (root + 1),
    decreases n + 1 - r,
{
    if n < (r + 1) * (r + 1) {
        r
    } else {
        assert(r + 1 <= n) by (nonlinear_arith)
            requires
                (r + 1) * (r + 1) <= n,
                r >= 0,
        ;
        lemma_whole_root(n, r + 1)
    }
}

/// The integer nearest to half a root exists.
proof fn lemma_half_root_exists(n: nat)
    requires
        n > 0,
    ensures
        nearest_half_root(n) > 0,
        is_half_root(n, nearest_half_root(n)),
{
    let root = lemma_whole_root(n, 1);
    let q = ((root + 1) / 2) as nat;
    assert((2 * q - 1) * (2 * q - 1) <= root * root) by (nonlinear_arith)
        requires
            0 <= 2 * q - 1 <= root,
    ;
    assert((root + 1) * (root + 1) <= (2 * q + 1) * (2 * q + 1)) by (nonlinear_arith)
        requires
            0 <= root + 1 <= 2 * q + 1,
    ;
    assert(q > 0 && is_half_root(n, q));
}

/// The quotient of a number of quarters and a count: not below `k` where the
/// exact quotient is not, and well below `k` where the exact quotient is below.
proof fn lemma_mean(quarters: int, count: int, k: int)
    requires
        0 < quarters < 0x20_0000_0000_0000,
        0 < count <= 0x8_0000_0000,
        0 < k <= 0x100,
    ensures
        ({
            let q = Dyadic { m: quarters, e: -2 }.over(Dyadic::integer(count));
            &&& 0x10_0000_0000_0000 <= q.m < 0x20_0000_0000_0000
            &&& -200 <= q.e <= 0
            &&& quarters >= 4 * (k * count) ==> q.m >= k * pow2((-q.e) as nat)
            &&& quarters < 4 * (k * count) ==> q.e <= -44 && q.m + pow2((-38 - q.e) as nat) <= k
                * pow2((-q.e) as nat)
        }),
{
    let x = Dyadic { m: quarters, e: -2 };
    let c = Dyadic::integer(count);
    let (a, b) = (x.normalized(), c.normalized());
    lemma_normalized(x);
    lemma_normalized(c);
    let i = (-2 - a.e) as nat;
    let j = (-b.e) as nat;
    lemma2_to64();
    lemma2_to64_rest();
    let n = (a.m * pow2(54)) as nat;
    let d = b.m as nat;
    let e = a.e - b.e - 54;
    let q = round_ratio(n, d, e);
    lemma_round_ratio(n, d, e);
    let t = (q.e - e) as nat;
    let u = d * pow2(t);
    lemma_pow2_pos(t);
    vstd::arithmetic::mul::lemma_mul_strictly_positive(d as int, pow2(t) as int);
    assert(t >= 1) by {
        if t == 0 {
            assert(u == d) by (nonlinear_arith)
                requires
                    u == d * pow2(t),
                    pow2(t) == 1,
            ;
            assert(2 * (q.m * u) + u < 2 * n) by (nonlinear_arith)
                requires
                    u == d,
                    q.m <= 0x1f_ffff_ffff_ffff,
                    n >= 0x20_0000_0000_0000 * d,
                    d > 0,
            ;
        }
    }
    // The quotient of the significands lies below 2^55.
    assert(t <= 3) by {
        if t >= 4 {
            lemma_pow2_adds((t - 4) as nat, 4);
            lemma_pow2_pos((t - 4) as nat);
            assert(2 * n < 2 * (q.m * u) - u) by (nonlinear_arith)
                requires
                    u == d * pow2(t),
                    pow2(t) == pow2((t - 4) as nat) * 16,
                    pow2((t - 4) as nat) >= 1,
                    q.m >= 0x10_0000_0000_0000,
                    n < 0x20_0000_0000_0000 * 0x40_0000_0000_0000,
                    d >= 0x10_0000_0000_0000,
            ;
        }
    }
    assert(e == -2 - i + j - 54);
    let f = (-q.e) as nat;
    let unit = pow2(f);
    lemma_pow2_pos(f);
    // n / u is the quotient times the unit.
    lemma_pow2_adds(f, t);
    lemma_pow2_adds((f + t) as nat, j);
    lemma_pow2_adds(i, 54);
    lemma_pow2_adds((i + 54) as nat, 2);
    assert(f + t + j == i + 54 + 2);
    let p = pow2((i + 54) as nat);
    lemma_pow2_pos((i + 54) as nat);
    assert(n == quarters * p) by (nonlinear_arith)
        requires
            n == (quarters * pow2(i)) * pow2(54),
            p == pow2(i) * pow2(54),
    ;
    assert(unit * u == 4 * (count * p)) by (nonlinear_arith)
        requires
            u == (count * pow2(j)) * pow2(t),
            unit * pow2(t) == pow2((f + t) as nat),
            pow2((f + t) as nat) * pow2(j) == pow2((f + t + j) as nat),
            pow2((f + t + j) as nat) == p * 4,
    ;
    if quarters >= 4 * (k * count) {
        assert(n >= k * (unit * u)) by (nonlinear_arith)
            requires
                n == quarters * p,
                unit * u == 4 * (count * p),
                quarters >= 4 * (k * count),
                p > 0,
        ;
        assert(q.m >= k * unit) by (nonlinear_arith)
            requires
                n >= k * (unit * u),
                2 * n <= 2 * (q.m * u) + u,
                u > 0,
        ;
    } else {
        assert(n + p <= k * (unit * u)) by (nonlinear_arith)
            requires
                n == quarters * p,
                unit * u == 4 * (count * p),
                quarters + 1 <= 4 * (k * count),
                p > 0,
        ;
        assert(q.m <= k * unit) by (nonlinear_arith)
            requires
                n < k * (unit * u),
                2 * (q.m * u) <= 2 * n + u,
                u > 0,
        ;
        assert(f >= 44) by {
            if f < 44 {
                lemma_pow2_strictly_increases(f, 44);
                assert(k * unit < 0x100 * pow2(44)) by (nonlinear_arith)
                    requires
                        0 < k <= 0x100,
                        unit < pow2(44),
                        unit > 0,
                ;
            }
        }
        let gap = pow2((f - 38) as nat);
        lemma_pow2_adds((f - 38) as nat, 38);
        lemma_pow2_pos((f - 38) as nat);
        if f > 44 {
            lemma_pow2_strictly_increases(6, (f - 38) as nat);
        }
        // The gap is a small part of the distance to k, and outweighs rounding.
        assert(2 * (gap * u) + u <= 2 * p) by {
            assert(gap * u * 0x40_0000_0000 == 4 * (count * p)) by (nonlinear_arith)
                requires
                    unit * u == 4 * (count * p),
                    unit == gap * 0x40_0000_0000,
            ;
            assert(gap * u * 2 <= p) by (nonlinear_arith)
                requires
                    gap * u * 0x40_0000_0000 == 4 * (count * p),
                    count <= 0x8_0000_0000,
                    p > 0,
            ;
            assert(u <= gap * u) by (nonlinear_arith)
                requires
                    gap >= 1,
                    u > 0,
            ;
        }
        assert(q.m + gap <= k * unit) by (nonlinear_arith)
            requires
                n + p <= k * (unit * u),
                2 * (q.m * u) <= 2 * n + u,
                2 * (gap * u) + u <= 2 * p,
                u > 0,
        ;
    }
}

/// The root of a mean is below a small integer exactly where the mean is below
/// its square.
proof fn lemma_root_of_mean(q: Dyadic, t: int, below: bool)
    requires
        0x10_0000_0000_0000 <= q.m < 0x20_0000_0000_0000,
        -200 <= q.e <= 0,
        0 < t <= 16,
        !below ==> q.m >= (t * t) * pow2((-q.e) as nat),
        below ==> q.e <= -44 && q.m + pow2((-38 - q.e) as nat) <= (t * t) * pow2((-q.e) as nat),
    ensures
        q.root().less(Dyadic::integer(t)) == below,
{
    let s: int = if q.e % 2 == 0 {
        54
    } else {
        55
    };
    assert(q.normalized() == q);
    let n = (q.m * pow2(s as nat)) as nat;
    lemma2_to64();
    lemma2_to64_rest();
    lemma_pow2_pos(s as nat);
    assert(q.m * pow2(s as nat) > 0) by (nonlinear_arith)
        requires
            q.m > 0,
            pow2(s as nat) > 0,
    ;
    lemma_half_root_exists(n);
    let r = nearest_half_root(n);
    let h = ((s - q.e) / 2) as nat;
    assert(s - q.e == 2 * h);
    let e = (q.e - s) / 2 + 1;
    assert(-e == h - 1);
    let half = pow2((h - 1) as nat);
    lemma_pow2_pos((h - 1) as nat);
    lemma_pow2_adds((h - 1) as nat, (h - 1) as nat);
    lemma_pow2_adds((2 * h - 2) as nat, 2);
    lemma_pow2_adds((-q.e) as nat, s as nat);
    let bound = t * half;
    let f = pow2((-q.e) as nat);
    let g = pow2(s as nat);
    assert((t * t) * (f * g) == 4 * (bound * bound)) by (nonlinear_arith)
        requires
            f * g == (half * half) * 4,
            bound == t * half,
    ;
    if !below {
        assert(n >= 4 * (bound * bound)) by (nonlinear_arith)
            requires
                n == q.m * g,
                q.m >= (t * t) * f,
                (t * t) * (f * g) == 4 * (bound * bound),
                g > 0,
        ;
        assert(r >= bound) by (nonlinear_arith)
            requires
                n >= 4 * (bound * bound),
                n < (2 * r + 1) * (2 * r + 1),
                bound > 0,
                r > 0,
        ;
    } else {
        let gap = pow2((-38 - q.e) as nat);
        lemma_pow2_adds((-38 - q.e) as nat, s as nat);
        lemma_pow2_adds((h - 1) as nat, (2 * h - 38 - (h - 1)) as nat);
        assert(gap * g == half * pow2((h - 37) as nat));
        assert(pow2((h - 37) as nat) >= 64) by {
            if h > 43 {
                lemma_pow2_strictly_increases(6, (h - 37) as nat);
            }
        }
        assert(gap * g >= 4 * bound) by (nonlinear_arith)
            requires
                gap * g == half * pow2((h - 37) as nat),
                pow2((h - 37) as nat) >= 64,
                bound == t * half,
                t <= 16,
                half > 0,
        ;
        assert(n + 4 * bound <= 4 * (bound * bound)) by (nonlinear_arith)
            requires
                n == q.m * g,
                q.m + gap <= (t * t) * f,
                (t * t) * (f * g) == 4 * (bound * bound),
                gap * g >= 4 * bound,
                g > 0,
        ;
        assert(r < bound) by (nonlinear_arith)
            requires
                n + 4 * bound <= 4 * (bound * bound),
                (2 * r - 1) * (2 * r - 1) <= n,
                bound > 0,
                r > 0,
        ;
    }
    let root = q.root();
    if r == 0x20_0000_0000_0000 {
        lemma_pow2_unfold((h - 1) as nat);
        lemma_scaled_self(root);
        assert(t * half == 2 * (t * pow2((h - 2) as nat))) by (nonlinear_arith)
            requires
                half == 2 * pow2((h - 2) as nat),
        ;
    } else {
        lemma_scaled_self(root);
    }
}

/// The root of a mean of quarters is below a small integer exactly where the
/// exact mean is below its square: rounding does not change the verdict.
pub proof fn lemma_mean_root_below(quarters: int, count: int, t: int)
    requires
        0 <= quarters < 0x20_0000_0000_0000,
        0 < count <= 0x8_0000_0000,
        0 < t <= 16,
    ensures
        (Dyadic { m: quarters, e: -2 }).over(Dyadic::integer(count)).root().less(
            Dyadic::integer(t),
        ) <==> quarters < 4 * ((t * t) * count),
{
    assert(0 < t * t <= 0x100) by (nonlinear_arith)
        requires
            0 < t <= 16,
    ;
    if quarters == 0 {
        lemma2_to64();
        assert(t * 1 == t && 0 * 1 == 0);
        assert((t * t) * count > 0) by (nonlinear_arith)
            requires
                t * t > 0,
                count > 0,
        ;
    } else {
        lemma_mean(quarters, count, t * t);
        let q = Dyadic { m: quarters, e: -2 }.over(Dyadic::integer(count));
        lemma_root_of_mean(q, t, quarters < 4 * ((t * t) * count));
    }
}

/// Whether a number lies between `lo` and `hi` parts of 256.
pub open spec fn between(d: Dyadic, lo: int, hi: int) -> bool {
    &&& d.wf()
    &&& d.e <= 0
    &&& lo * pow2((-d.e) as nat) <= 256 * d.m <= hi * pow2((-d.e) as nat)
}

/// Rounding keeps a number on its side of a bound that needs no rounding.
proof fn lemma_round_between(n: nat, d: nat, e: int, lo: int, hi: int)
    requires
        d > 0,
        e <= 0,
        0 <= hi <= 0x100_0000_0000,
        lo * (d * pow2((-e) as nat)) <= 256 * n <= hi * (d * pow2((-e) as nat)),
        d == 1 || n >= 0x20_0000_0000_0000 * d,
    ensures
        between(round_ratio(n, d, e), lo, hi),
{
    let r = round_ratio(n, d, e);
    lemma_round_ratio(n, d, e);
    lemma2_to64();
    lemma2_to64_rest();
    let t = (r.e - e) as nat;
    let u = d * pow2(t);
    lemma_pow2_pos(t);
    vstd::arithmetic::mul::lemma_mul_strictly_positive(d as int, pow2(t) as int);
    if t == 0 {
        assert(u == d) by (nonlinear_arith)
            requires
                u == d * pow2(t),
                pow2(t) == 1,
        ;
        if d == 1 {
            assert(r.m * 1 == r.m);
            assert(d * pow2((-e) as nat) == pow2((-e) as nat));
        } else {
            assert(2 * (r.m * u) + u < 2 * n) by (nonlinear_arith)
                requires
                    u == d,
                    r.m <= 0x1f_ffff_ffff_ffff,
                    n >= 0x20_0000_0000_0000 * d,
                    d > 0,
            ;
        }
    } else {
        let whole = d * pow2((-e) as nat);
        lemma_pow2_pos((-e) as nat);
        vstd::arithmetic::mul::lemma_mul_strictly_positive(d as int, pow2((-e) as nat) as int);
        assert(r.e <= -8) by {
            if r.e > -8 {
                // The rounded number would be far above the upper bound.
                lemma_pow2_adds((-e) as nat, (t + e + 7) as nat);
                lemma_pow2_adds(t, 7);
                assert(t + 7 == -e + (t + e + 7));
                lemma_pow2_pos((t + e + 7) as nat);
                assert(u * 128 >= whole) by (nonlinear_arith)
                    requires
                        u == d * pow2(t),
                        whole == d * pow2((-e) as nat),
                        pow2((t + 7) as nat) == pow2(t) * 128,
                        pow2((t + 7) as nat) == pow2((-e) as nat) * pow2((t + e + 7) as nat),
                        pow2((t + e + 7) as nat) >= 1,
                        d > 0,
                ;
                assert(2 * (r.m * u) > 2 * n + u) by (nonlinear_arith)
                    requires
                        r.m >= 0x10_0000_0000_0000,
                        u * 128 >= whole,
                        256 * n <= hi * whole,
                        hi <= 0x100_0000_0000,
                        whole > 0,
                        u > 0,
                ;
            }
        }
        let f = (-r.e) as nat;
        let part = pow2((f - 8) as nat);
        lemma_pow2_adds((f - 8) as nat, 8);
        lemma_pow2_adds(f, t);
        assert(whole == 256 * (part * u)) by (nonlinear_arith)
            requires
                whole == d * pow2((-e) as nat),
                pow2((-e) as nat) == pow2(f) * pow2(t),
                pow2(f) == part * 256,
                u == d * pow2(t),
        ;
        assert(r.m <= hi * part) by (nonlinear_arith)
            requires
                256 * n <= hi * whole,
                whole == 256 * (part * u),
                2 * (r.m * u) <= 2 * n + u,
                u > 0,
        ;
        assert(r.m >= lo * part) by (nonlinear_arith)
            requires
                256 * n >= lo * whole,
                whole == 256 * (part * u),
                2 * n <= 2 * (r.m * u) + u,
                u > 0,
        ;
        assert(lo * pow2(f) == 256 * (lo * part) && hi * pow2(f) == 256 * (hi * part))
            by (nonlinear_arith)
            requires
                pow2(f) == part * 256,
        ;
    }
}

/// Rounding an integer keeps it on its side of a bound.
proof fn lemma_rounded_between(n: int, e: int, lo: int, hi: int)
    requires
        e <= 0,
        -0x100_0000_0000 <= lo,
        hi <= 0x100_0000_0000,
        lo * pow2((-e) as nat) <= 256 * n <= hi * pow2((-e) as nat),
    ensures
        between(Dyadic::rounded(n, e), lo, hi),
{
    let p = pow2((-e) as nat);
    lemma_pow2_pos((-e) as nat);
    assert(1 * p == p);
    if n < 0 {
        assert((-hi) * p <= 256 * (-n) <= (-lo) * p) by (nonlinear_arith)
            requires
                lo * p <= 256 * n <= hi * p,
        ;
        assert(lo < 0) by (nonlinear_arith)
            requires
                lo * p <= 256 * n,
                n < 0,
                p > 0,
        ;
        lemma_round_between((-n) as nat, 1, e, -hi, -lo);
        let r = round_ratio((-n) as nat, 1, e);
        let q = pow2((-r.e) as nat);
        assert(lo * q <= 256 * (-r.m) <= hi * q) by (nonlinear_arith)
            requires
                (-hi) * q <= 256 * r.m <= (-lo) * q,
        ;
    } else {
        assert(hi >= 0) by (nonlinear_arith)
            requires
                hi * p >= 256 * n,
                n >= 0,
                p > 0,
        ;
        lemma_round_between(n as nat, 1, e, lo, hi);
    }
}

/// A sum lies between the sums of the bounds.
pub proof fn lemma_plus_between(a: Dyadic, b: Dyadic, al: int, ah: int, bl: int, bh: int)
    requires
        between(a, al, ah),
        between(b, bl, bh),
        -0x100_0000_0000 <= al + bl,
        ah + bh <= 0x100_0000_0000,
    ensures
        between(a.plus(b), al + bl, ah + bh),
{
    let e = if a.e <= b.e {
        a.e
    } else {
        b.e
    };
    lemma_scaled_between(a, e, al, ah);
    lemma_scaled_between(b, e, bl, bh);
    let p = pow2((-e) as nat);
    let n = a.scaled(e) + b.scaled(e);
    assert((al + bl) * p <= 256 * n <= (ah + bh) * p) by (nonlinear_arith)
        requires
            al * p <= 256 * a.scaled(e) <= ah * p,
            bl * p <= 256 * b.scaled(e) <= bh * p,
            n == a.scaled(e) + b.scaled(e),
    ;
    lemma_rounded_between(n, e, al + bl, ah + bh);
}

proof fn lemma_scaled_between(d: Dyadic, e: int, lo: int, hi: int)
    requires
        between(d, lo, hi),
        e <= d.e,
    ensures
        lo * pow2((-e) as nat) <= 256 * d.scaled(e) <= hi * pow2((-e) as nat),
{
    let g = pow2((d.e - e) as nat);
    let f = pow2((-d.e) as nat);
    lemma_pow2_adds((-d.e) as nat, (d.e - e) as nat);
    lemma_pow2_pos((d.e - e) as nat);
    assert(lo * (f * g) <= 256 * (d.m * g) <= hi * (f * g)) by (nonlinear_arith)
        requires
            lo * f <= 256 * d.m <= hi * f,
            g > 0,
    ;
}

/// A difference lies between the differences of the bounds.
pub proof fn lemma_minus_between(a: Dyadic, b: Dyadic, al: int, ah: int, bl: int, bh: int)
    requires
        between(a, al, ah),
        between(b, bl, bh),
        -0x100_0000_0000 <= al - bh,
        ah - bl <= 0x100_0000_0000,
    ensures
        between(a.minus(b), al - bh, ah - bl),
{
    let f = pow2((-b.e) as nat);
    assert((-bh) * f <= 256 * (-b.m) <= (-bl) * f) by (nonlinear_arith)
        requires
            bl * f <= 256 * b.m <= bh * f,
    ;
    lemma_plus_between(a, b.negated(), al, ah, -bh, -bl);
}

/// A square lies between the squares of bounds on the magnitude.
pub proof fn lemma_square_between(d: Dyadic, near: int, far: int, lo: int, hi: int)
    requires
        between(d, -far, far),
        between(d, near, far) || between(d, -far, -near),
        0 <= near <= far,
        256 * lo <= near * near,
        far * far <= 256 * hi,
        -0x100_0000_0000 <= lo,
        hi <= 0x100_0000_0000,
    ensures
        between(d.times(d), lo, hi),
        d.times(d).m >= 0,
{
    let f = pow2((-d.e) as nat);
    lemma_pow2_pos((-d.e) as nat);
    lemma_pow2_adds((-d.e) as nat, (-d.e) as nat);
    let n = d.m * d.m;
    assert(n >= 0) by (nonlinear_arith)
        requires
            n == d.m * d.m,
    ;
    assert((near * near) * (f * f) <= 65536 * n) by (nonlinear_arith)
        requires
            near * f <= 256 * d.m || 256 * d.m <= (-near) * f,
            near >= 0,
            f > 0,
            n == d.m * d.m,
    ;
    assert(65536 * n <= (far * far) * (f * f)) by (nonlinear_arith)
        requires
            (-far) * f <= 256 * d.m <= far * f,
            far >= 0,
            f > 0,
            n == d.m * d.m,
    ;
    assert(lo * (f * f) <= 256 * n <= hi * (f * f)) by (nonlinear_arith)
        requires
            (near * near) * (f * f) <= 65536 * n <= (far * far) * (f * f),
            256 * lo <= near * near,
            far * far <= 256 * hi,
            f > 0,
    ;
    lemma_rounded_between(n, d.e + d.e, lo, hi);
    lemma_round_ratio(n as nat, 1, d.e + d.e);
}

/// A quotient lies between the quotients of the bounds.
pub proof fn lemma_over_between(d: Dyadic, divisor: int, lo: int, hi: int, l: int, h: int)
    requires
        between(d, lo, hi),
        d.m >= 0,
        0 < divisor < 0x20_0000_0000_0000,
        divisor * l <= lo,
        hi <= divisor * h,
        0 <= h <= 0x100_0000_0000,
    ensures
        between(d.over(Dyadic::integer(divisor)), l, h),
        d.over(Dyadic::integer(divisor)).m >= 0,
{
    lemma2_to64();
    lemma2_to64_rest();
    let by = Dyadic::integer(divisor);
    lemma_pow2_pos((-d.e) as nat);
    if d.m == 0 {
        assert(lo <= 0) by (nonlinear_arith)
            requires
                lo * pow2((-d.e) as nat) <= 0,
                pow2((-d.e) as nat) > 0,
        ;
        assert(l <= 0) by (nonlinear_arith)
            requires
                divisor * l <= lo,
                lo <= 0,
                divisor > 0,
        ;
        assert(l * 1 == l && h * 1 == h);
    } else {
        lemma_normalized(d);
        lemma_normalized(by);
        let (a, b) = (d.normalized(), by.normalized());
        let i = (d.e - a.e) as nat;
        let j = (-b.e) as nat;
        lemma_scaled_between(d, a.e, lo, hi);
        let n = (a.m * pow2(54)) as nat;
        let c = b.m as nat;
        let e = a.e - b.e - 54;
        assert(n >= 0x20_0000_0000_0000 * c);
        let p = pow2((-a.e) as nat);
        // The divisor at this exponent is that many times the unit.
        lemma_pow2_adds((-e) as nat, j);
        lemma_pow2_adds((-a.e) as nat, 54);
        assert(-e + j == -a.e + 54);
        let q = pow2(54);
        lemma_pow2_pos((-a.e) as nat);
        assert(c * pow2((-e) as nat) == divisor * (p * q)) by (nonlinear_arith)
            requires
                c == divisor * pow2(j),
                pow2((-e) as nat) * pow2(j) == p * q,
        ;
        assert(a.m == d.scaled(a.e));
        assert(l * (divisor * (p * q)) <= 256 * n) by (nonlinear_arith)
            requires
                lo * p <= 256 * a.m,
                divisor * l <= lo,
                n == a.m * q,
                p > 0,
                q > 0,
        ;
        assert(256 * n <= h * (divisor * (p * q))) by (nonlinear_arith)
            requires
                256 * a.m <= hi * p,
                hi <= divisor * h,
                n == a.m * q,
                p > 0,
                q > 0,
        ;
        lemma_round_between(n, c, e, l, h);
        lemma_round_ratio(n, c, e);
    }
}

/// A root lies between the roots of the bounds.
pub proof fn lemma_root_between(d: Dyadic, lo: int, hi: int, l: int, h: int)
    requires
        between(d, lo, hi),
        d.m >= 0,
        hi <= 0x100_0000_0000,
        0 <= l,
        l * l <= 256 * lo || l == 0,
        256 * hi <= h * h,
        0 <= h,
    ensures
        between(d.root(), l, h),
{
    lemma2_to64();
    lemma2_to64_rest();
    lemma_pow2_pos((-d.e) as nat);
    if d.m == 0 {
        assert(lo <= 0) by (nonlinear_arith)
            requires
                lo * pow2((-d.e) as nat) <= 0,
                pow2((-d.e) as nat) > 0,
        ;
        assert(l == 0) by (nonlinear_arith)
            requires
                l * l <= 256 * lo || l == 0,
                lo <= 0,
                l >= 0,
        ;
        assert(l * 1 == l && h * 1 == h);
    } else {
        lemma_normalized(d);
        let a = d.normalized();
        lemma_scaled_between(d, a.e, lo, hi);
        let f = pow2((-a.e) as nat);
        lemma_pow2_pos((-a.e) as nat);
        assert(a.e <= -12) by {
            if a.e > -12 {
                if a.e < -11 {
                } else if -a.e < 11 {
                    lemma_pow2_strictly_increases((-a.e) as nat, 11);
                }
                assert(hi * f <= 0x100_0000_0000 * 2048) by (nonlinear_arith)
                    requires
                        hi <= 0x100_0000_0000,
                        0 < f <= 2048,
                ;
            }
        }
        let s: int = if a.e % 2 == 0 {
            54
        } else {
            55
        };
        let g = pow2(s as nat);
        lemma_pow2_pos(s as nat);
        let n = (a.m * g) as nat;
        assert(a.m * g > 0) by (nonlinear_arith)
            requires
                a.m > 0,
                g > 0,
        ;
        lemma_half_root_exists(n);
        let q = nearest_half_root(n);
        let k = ((s - a.e) / 2) as nat;
        assert(s - a.e == 2 * k);
        let e = (a.e - s) / 2 + 1;
        assert(-e == k - 1);
        let half = pow2((k - 1) as nat);
        let part = pow2((k - 9) as nat);
        lemma_pow2_pos((k - 9) as nat);
        lemma_pow2_adds((k - 9) as nat, 8);
        lemma_pow2_adds((k - 1) as nat, (k - 1) as nat);
        lemma_pow2_adds((2 * k - 2) as nat, 2);
        lemma_pow2_adds((-a.e) as nat, s as nat);
        assert(f * g == 4 * (half * half));
        let (x, y) = (l * part, h * part);
        assert(65536 * (x * x) == (l * l) * (half * half) && 65536 * (y * y) == (h * h) * (half
            * half)) by (nonlinear_arith)
            requires
                half == part * 256,
                x == l * part,
                y == h * part,
        ;
        let z = half * half;
        assert(z > 0) by (nonlinear_arith)
            requires
                z == half * half,
                half == part * 256,
                part > 0,
        ;
        assert(4 * (lo * z) <= 256 * n <= 4 * (hi * z)) by (nonlinear_arith)
            requires
                lo * f <= 256 * a.m <= hi * f,
                n == a.m * g,
                f * g == 4 * z,
                g > 0,
        ;
        assert(n <= 4 * (y * y)) by (nonlinear_arith)
            requires
                256 * n <= 4 * (hi * z),
                256 * hi <= h * h,
                65536 * (y * y) == (h * h) * z,
                z > 0,
        ;
        assert(q <= y) by (nonlinear_arith)
            requires
                n <= 4 * (y * y),
                (2 * q - 1) * (2 * q - 1) <= n,
                q > 0,
                y >= 0,
                y == h * part,
        ;
        if l > 0 {
            assert(n >= 4 * (x * x)) by (nonlinear_arith)
                requires
                    256 * n >= 4 * (lo * z),
                    256 * lo >= l * l,
                    65536 * (x * x) == (l * l) * z,
                    z > 0,
            ;
            assert(q >= x) by (nonlinear_arith)
                requires
                    n >= 4 * (x * x),
                    n < (2 * q + 1) * (2 * q + 1),
                    q > 0,
                    x >= 0,
            ;
        } else {
            assert(x == 0) by (nonlinear_arith)
                requires
                    x == l * part,
                    l == 0,
            ;
        }
        assert(l * half == 256 * x && h * half == 256 * y) by (nonlinear_arith)
            requires
                half == part * 256,
                x == l * part,
                y == h * part,
        ;
        assert(n < 0x20_0000_0000_0000 * 0x80_0000_0000_0000) by (nonlinear_arith)
            requires
                n == a.m * g,
                0 <= a.m < 0x20_0000_0000_0000,
                0 < g <= 0x80_0000_0000_0000,
        ;
        assert(q <= 0x20_0000_0000_0000) by (nonlinear_arith)
            requires
                (2 * q - 1) * (2 * q - 1) <= n,
                n < 0x20_0000_0000_0000 * 0x80_0000_0000_0000,
                q > 0,
        ;
        if q == 0x20_0000_0000_0000 {
            lemma_pow2_unfold((k - 1) as nat);
            let quarter = pow2((k - 2) as nat);
            assert(l * half == 2 * (l * quarter) && h * half == 2 * (h * quarter))
                by (nonlinear_arith)
                requires
                    half == 2 * quarter,
            ;
        }
    }
}

/// The nearest integer is at most half away, and above where it is half away.
pub proof fn law_nearest_integer(d: Dyadic)
    requires
        d.e < 0,
    ensures
        ({
            let unit = pow2((-d.e) as nat);
            let n = d.to_nearest();
            (2 * n - 1) * unit <= 2 * d.m < (2 * n + 1) * unit
        }),
{
    let unit = pow2((-d.e) as nat) as int;
    lemma_pow2_pos((-d.e) as nat);
    let z = 2 * d.m + unit;
    let w = 2 * unit;
    let n = d.to_nearest();
    vstd::arithmetic::div_mod::lemma_fundamental_div_mod(z, w);
    vstd::arithmetic::div_mod::lemma_mod_bound(z, w);
    assert((2 * n - 1) * unit <= 2 * d.m < (2 * n + 1) * unit) by (nonlinear_arith)
        requires
            z == w * n + z % w,
            0 <= z % w < w,
            w == 2 * unit,
            z == 2 * d.m + unit,
    ;
}

} // verus!
