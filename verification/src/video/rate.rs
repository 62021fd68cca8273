//! The target send rate: a multiple of the bitrate, computed as in double-precision arithmetic.
use vstd::arithmetic::div_mod::{
    lemma_div_denominator, lemma_div_is_ordered, lemma_div_multiples_vanish,
    lemma_fundamental_div_mod, lemma_fundamental_div_mod_converse, lemma_mod_bound,
};
use vstd::arithmetic::power2::{
    lemma2_to64, lemma2_to64_rest, lemma_pow2_adds, lemma_pow2_pos, lemma_pow2_strictly_increases,
    lemma_pow2_unfold, pow2,
};
use vstd::prelude::*;

verus! {

/// Double precision holds the integers below this one exactly: it has 53
/// significant bits.
pub const SIGNIFICAND_LIMIT: u64 = 0x20_0000_0000_0000;

/// How many bits `n` has beyond the 53 that double precision keeps.
pub open spec fn excess_bits(n: nat) -> nat
    decreases n,
{
    if n < SIGNIFICAND_LIMIT {
        0
    } else {
        1 + excess_bits(n / 2)
    }
}

/// The multiple of `unit` nearest to `n`, the even one of two that are equally
/// near.
pub open spec fn nearest_multiple(n: nat, unit: nat) -> nat {
    if 2 * (n % unit) < unit || (2 * (n % unit) == unit && (n / unit) % 2 == 0) {
        n / unit * unit
    } else {
        (n / unit + 1) * unit
    }
}

/// `n` rounded to double precision.
pub open spec fn rounded(n: nat) -> nat {
    nearest_multiple(n, pow2(excess_bits(n)))
}

/// Bits of the single-precision number one.
pub const ONE_BITS: u32 = 0x3f80_0000;

/// Bits of single-precision infinity; above it, up to the sign bit, stand the
/// NaNs.
pub const INFINITY_BITS: u32 = 0x7f80_0000;

/// Bits of the single-precision number eight.
pub const EIGHT_BITS: u32 = 0x4100_0000;

/// A pacing rate factor: an IEEE 754 single-precision number, kept as its bits.
#[derive(Clone, Copy, Debug, PartialEq, Eq, Structural)]
pub struct RateFactor {
    pub bits: u32,
}

impl RateFactor {
    /// Whether the factor is above zero: neither zero, negative nor NaN.
    pub open spec fn is_positive(self) -> bool {
        0 < self.bits <= INFINITY_BITS
    }

    /// Whether the factor is above zero and below infinity.
    pub open spec fn is_positive_finite(self) -> bool {
        0 < self.bits < INFINITY_BITS
    }

    /// The value of a positive finite factor, counted in units of 2^-149, the
    /// smallest step of single precision: the fraction bits, under an implicit
    /// leading one unless the exponent bits are zero, scaled by the exponent.
    pub open spec fn units(self) -> nat {
        let exponent = self.bits as nat / 0x80_0000;
        let fraction = self.bits as nat % 0x80_0000;
        if exponent == 0 {
            fraction
        } else {
            (0x80_0000 + fraction) * pow2((exponent - 1) as nat)
        }
    }

    /// The factor, or one where it is smaller.
    pub open spec fn clamped(self) -> RateFactor {
        RateFactor {
            bits: if self.bits < ONE_BITS {
                ONE_BITS
            } else {
                self.bits
            },
        }
    }

    /// The rate in bytes per second at which a stream of `bitrate` bits per
    /// second is sent, zero where it is not paced: an eighth of the bitrate
    /// times the clamped factor. Bitrate and product are rounded to double
    /// precision, the result is cut to an integer and saturates.
    pub open spec fn paced_rate(self, bitrate: nat) -> nat {
        if !self.is_positive() || bitrate == 0 {
            0
        } else if self.bits == INFINITY_BITS {
            u64::MAX as nat
        } else {
            let rate = rounded(rounded(bitrate) * self.clamped().units()) / pow2(149 + 3);
            if rate < u64::MAX {
                rate
            } else {
                u64::MAX as nat
            }
        }
    }

    /// The factor to pace a stream of this bitrate with, or `None` where it is
    /// not paced.
    ///
    /// A factor of zero, or no bitrate, disables pacing; otherwise the factor is
    /// clamped to at least one, so a frame never takes longer than its own
    /// interval to drain.
    pub fn clamped_for(self, bitrate: usize) -> (res: Option<RateFactor>)
        ensures
            res == if self.is_positive() && bitrate > 0 {
                Some(self.clamped())
            } else {
                None
            },
    {
        if self.bits == 0 || self.bits > INFINITY_BITS || bitrate == 0 {
            None
        } else if self.bits < ONE_BITS {
            Some(RateFactor { bits: ONE_BITS })
        } else {
            Some(self)
        }
    }

    /// The target send rate in bytes per second of a stream of `bitrate` bits
    /// per second; zero where it is not paced.
    pub fn pacing_rate(self, bitrate: usize) -> (rate: u64)
        ensures
            rate == self.paced_rate(bitrate as nat),
    {
        match self.clamped_for(bitrate) {
            None => 0,
            Some(factor) => {
                if factor.bits == INFINITY_BITS {
                    return u64::MAX;
                }
                let exponent: u32 = factor.bits / 0x80_0000;
                let significand: u128 = (0x80_0000 + factor.bits % 0x80_0000) as u128;
                let whole: u128 = round(bitrate as u128);
                proof {
                    lemma_rounded_bounds(bitrate as nat);
                    assert(whole * significand <= 0x2_0000_0000_0000_0000 * 0x100_0000)
                        by (nonlinear_arith)
                        requires
                            whole <= 0x2_0000_0000_0000_0000,
                            significand <= 0x100_0000,
                    ;
                    assert(0 < whole * significand) by (nonlinear_arith)
                        requires
                            0 < whole,
                            0 < significand,
                    ;
                    lemma_rounded_bounds((whole * significand) as nat);
                }
                let product: u128 = round(whole * significand);
                proof {
                    lemma_rescale(
                        whole as nat,
                        significand as nat,
                        exponent as nat,
                        factor.units(),
                    );
                }
                if exponent < 153 {
                    let rate: u128 = product / power_of_two(153 - exponent);
                    if rate < (u64::MAX as u128) {
                        rate as u64
                    } else {
                        u64::MAX
                    }
                } else if exponent - 153 < 64 {
                    scale_up(product, exponent - 153)
                } else {
                    proof {
                        lemma_scale_saturates(product as nat, (exponent - 153) as nat);
                    }
                    u64::MAX
                }
            },
        }
    }
}

/// Two to the power of `k`.
fn power_of_two(k: u32) -> (power: u128)
    requires
        k < 128,
    ensures
        power == pow2(k as nat),
        power > 0,
{
    let mut power: u128 = 1;
    let mut i: u32 = 0;
    proof {
        lemma2_to64();
    }
    while i < k
        invariant
            i <= k < 128,
            power == pow2(i as nat),
            power > 0,
        decreases k - i,
    {
        proof {
            lemma_pow2_unfold((i + 1) as nat);
            lemma_pow2_at_most(i as nat, 126);
            lemma_two_to_126();
        }
        power = power * 2;
        i = i + 1;
    }
    power
}

/// Rounds `n` to double precision.
fn round(n: u128) -> (res: u128)
    requires
        n <= 0x2_0000_0000_0000_0000 * 0x100_0000,
    ensures
        res == rounded(n as nat),
{
    let mut unit: u128 = 1;
    let ghost mut bits: nat = 0;
    proof {
        lemma2_to64();
    }
    while n / unit >= (SIGNIFICAND_LIMIT as u128)
        invariant
            n <= 0x2_0000_0000_0000_0000 * 0x100_0000,
            unit == pow2(bits),
            unit >= 1,
            bits + excess_bits((n / unit) as nat) == excess_bits(n as nat),
        decreases n / unit,
    {
        proof {
            lemma_div_denominator(n as int, unit as int, 2);
            lemma_pow2_unfold(bits + 1);
            lemma_fundamental_div_mod(n as int, unit as int);
            lemma_mod_bound(n as int, unit as int);
            let q = (n / unit) as int;
            assert(unit <= n) by (nonlinear_arith)
                requires
                    n == unit * q + n % unit,
                    n % unit >= 0,
                    q >= 1,
                    unit >= 1,
            ;
            bits = bits + 1;
        }
        unit = unit * 2;
    }
    let quotient: u128 = n / unit;
    let remainder: u128 = n % unit;
    proof {
        lemma_fundamental_div_mod(n as int, unit as int);
        lemma_mod_bound(n as int, unit as int);
        lemma_unit_fits(n as nat, unit as nat);
        assert(unit * quotient == quotient * unit) by (nonlinear_arith);
        assert((quotient + 1) * unit == quotient * unit + unit) by (nonlinear_arith);
    }
    if 2 * remainder < unit || (2 * remainder == unit && quotient % 2 == 0) {
        quotient * unit
    } else {
        (quotient + 1) * unit
    }
}

/// `n` times two to the power of `k`, saturating.
fn scale_up(n: u128, k: u32) -> (res: u64)
    requires
        k < 64,
    ensures
        res == if n * pow2(k as nat) < u64::MAX {
            n * pow2(k as nat)
        } else {
            u64::MAX as int
        },
{
    let power: u128 = power_of_two(k);
    proof {
        lemma_pow2_pos(k as nat);
        lemma_fundamental_div_mod(u64::MAX as int, power as int);
        lemma_mod_bound(u64::MAX as int, power as int);
        let q = (u64::MAX as u128 / power) as int;
        if n <= q {
            assert(n * power <= power * q) by (nonlinear_arith)
                requires
                    n <= q,
                    power > 0,
            ;
        } else {
            assert(n * power >= power * q + power) by (nonlinear_arith)
                requires
                    n >= q + 1,
                    power > 0,
            ;
        }
    }
    if n <= (u64::MAX as u128) / power {
        (n * power) as u64
    } else {
        u64::MAX
    }
}

proof fn lemma_pow2_at_most(a: nat, b: nat)
    requires
        a <= b,
    ensures
        pow2(a) <= pow2(b),
{
    if a < b {
        lemma_pow2_strictly_increases(a, b);
    }
}

proof fn lemma_two_to_126()
    ensures
        pow2(126) == 0x4000_0000_0000_0000_0000_0000_0000_0000,
{
    lemma2_to64();
    lemma2_to64_rest();
    lemma_pow2_adds(63, 63);
}

/// Below the limit the rounding unit is one; from there on `n` holds at least half
/// the limit of units, and always fewer than the limit.
proof fn lemma_unit(n: nat)
    ensures
        pow2(excess_bits(n)) > 0,
        n < SIGNIFICAND_LIMIT ==> pow2(excess_bits(n)) == 1,
        n >= SIGNIFICAND_LIMIT ==> {
            &&& SIGNIFICAND_LIMIT / 2 <= n / pow2(excess_bits(n))
            &&& (SIGNIFICAND_LIMIT as nat / 2) * pow2(excess_bits(n)) <= n
        },
        n / pow2(excess_bits(n)) < SIGNIFICAND_LIMIT,
    decreases n,
{
    lemma2_to64();
    let unit = pow2(excess_bits(n));
    lemma_pow2_pos(excess_bits(n));
    if n >= SIGNIFICAND_LIMIT {
        let half = n / 2;
        lemma_unit(half);
        lemma_pow2_unfold(excess_bits(n));
        let half_unit = pow2(excess_bits(half));
        assert(unit == 2 * half_unit);
        lemma_div_denominator(n as int, 2, half_unit as int);
        lemma_fundamental_div_mod(n as int, unit as int);
        lemma_mod_bound(n as int, unit as int);
        let q = n / unit;
        assert((SIGNIFICAND_LIMIT as nat / 2) * unit <= n) by (nonlinear_arith)
            requires
                n == unit * q + n % unit,
                n % unit >= 0,
                q >= SIGNIFICAND_LIMIT as nat / 2,
        ;
    }
}

proof fn lemma_unit_fits(n: nat, unit: nat)
    requires
        unit == pow2(excess_bits(n)),
        n <= 0x2_0000_0000_0000_0000 * 0x100_0000,
    ensures
        unit <= 0x2_0000_0000_0000_0000 * 0x100_0000,
{
    lemma_unit(n);
    if n >= SIGNIFICAND_LIMIT {
        assert(unit <= n) by (nonlinear_arith)
            requires
                (SIGNIFICAND_LIMIT as nat / 2) * unit <= n,
                SIGNIFICAND_LIMIT as nat / 2 >= 1,
        ;
    }
}

/// Rounding gives a number of at most 53 significant bits, at most twice what it
/// was given, and zero only for zero. Below the limit it changes nothing.
proof fn lemma_rounded_bounds(n: nat)
    ensures
        rounded(n) <= 2 * n,
        n > 0 ==> rounded(n) > 0,
        n < SIGNIFICAND_LIMIT ==> rounded(n) == n,
        n / pow2(excess_bits(n)) * pow2(excess_bits(n)) <= rounded(n),
        exists|q: nat, k: nat|
            #![trigger q * pow2(k)]
            rounded(n) == q * pow2(k) && q <= SIGNIFICAND_LIMIT,
{
    let k = excess_bits(n);
    let unit = pow2(k);
    lemma_unit(n);
    lemma_fundamental_div_mod(n as int, unit as int);
    lemma_mod_bound(n as int, unit as int);
    let q = n / unit;
    assert(unit * q == q * unit) by (nonlinear_arith);
    assert((q + 1) * unit == q * unit + unit) by (nonlinear_arith);
    if n >= SIGNIFICAND_LIMIT {
        assert(unit <= n && q * unit > 0) by (nonlinear_arith)
            requires
                (SIGNIFICAND_LIMIT as nat / 2) * unit <= n,
                SIGNIFICAND_LIMIT as nat / 2 >= 1,
                q >= SIGNIFICAND_LIMIT as nat / 2,
                unit > 0,
        ;
    }
    assert(rounded(n) == q * pow2(k) || rounded(n) == (q + 1) * pow2(k));
}

/// Doubling commutes with rounding.
proof fn lemma_rounded_double(n: nat)
    ensures
        rounded(2 * n) == 2 * rounded(n),
{
    lemma_unit(n);
    lemma_unit(2 * n);
    lemma_rounded_bounds(n);
    lemma_rounded_bounds(2 * n);
    if 2 * n >= SIGNIFICAND_LIMIT {
        let unit = pow2(excess_bits(n));
        assert((2 * n) / 2 == n);
        lemma_pow2_unfold(excess_bits(2 * n));
        assert(pow2(excess_bits(2 * n)) == 2 * unit);
        lemma_fundamental_div_mod(n as int, unit as int);
        lemma_mod_bound(n as int, unit as int);
        let q = n / unit;
        let r = n % unit;
        assert(2 * n == q * (2 * unit) + 2 * r) by (nonlinear_arith)
            requires
                n == unit * q + r,
        ;
        lemma_fundamental_div_mod_converse(
            (2 * n) as int,
            (2 * unit) as int,
            q as int,
            (2 * r) as int,
        );
        assert(q * (2 * unit) == 2 * (q * unit)) by (nonlinear_arith);
        assert((q + 1) * (2 * unit) == 2 * ((q + 1) * unit)) by (nonlinear_arith);
    }
}

/// Scaling by a power of two commutes with rounding.
proof fn lemma_rounded_scale(n: nat, k: nat)
    ensures
        rounded(n * pow2(k)) == rounded(n) * pow2(k),
    decreases k,
{
    lemma2_to64();
    if k == 0 {
        assert(n * 1 == n);
    } else {
        let j = (k - 1) as nat;
        lemma_rounded_scale(n, j);
        lemma_pow2_unfold(k);
        assert(n * (2 * pow2(j)) == 2 * (n * pow2(j))) by (nonlinear_arith);
        assert(rounded(n) * (2 * pow2(j)) == 2 * (rounded(n) * pow2(j))) by (nonlinear_arith);
        lemma_rounded_double(n * pow2(j));
    }
}

/// The rate, with the factor taken apart into significand and exponent.
proof fn lemma_rescale(whole: nat, significand: nat, exponent: nat, units: nat)
    requires
        exponent >= 1,
        units == significand * pow2((exponent - 1) as nat),
    ensures
        ({
            let product = rounded(whole * significand);
            let rate = rounded(whole * units) / pow2(152);
            &&& exponent < 153 ==> rate == product / pow2((153 - exponent) as nat)
            &&& exponent >= 153 ==> rate == product * pow2((exponent - 153) as nat)
        }),
{
    let e = (exponent - 1) as nat;
    let product = rounded(whole * significand);
    assert(whole * units == (whole * significand) * pow2(e)) by (nonlinear_arith)
        requires
            units == significand * pow2(e),
    ;
    lemma_rounded_scale(whole * significand, e);
    lemma_pow2_pos(152);
    lemma_pow2_pos(e);
    if exponent < 153 {
        let d = (152 - e) as nat;
        lemma_pow2_pos(d);
        lemma_pow2_adds(e, d);
        let x = (product * pow2(e)) as int;
        lemma_div_denominator(x, pow2(e) as int, pow2(d) as int);
        assert(pow2(e) * product == x) by (nonlinear_arith)
            requires
                x == product * pow2(e),
        ;
        lemma_div_multiples_vanish(product as int, pow2(e) as int);
    } else {
        let d = (e - 152) as nat;
        lemma_pow2_adds(152, d);
        let y = (product * pow2(d)) as int;
        assert(product * pow2(e) == pow2(152) * y) by (nonlinear_arith)
            requires
                y == product * pow2(d),
                pow2(e) == pow2(152) * pow2(d),
        ;
        lemma_div_multiples_vanish(y, pow2(152) as int);
    }
}

proof fn lemma_scale_saturates(n: nat, k: nat)
    requires
        n > 0,
        k >= 64,
    ensures
        n * pow2(k) > u64::MAX,
{
    lemma2_to64();
    lemma_pow2_at_most(64, k);
    assert(n * pow2(k) >= pow2(k)) by (nonlinear_arith)
        requires
            n >= 1,
            pow2(k) >= 0,
    ;
}

/// Positive factors have positive values, and the bits of one are below those
/// of another exactly where its value is: comparing bits compares factors.
pub proof fn bits_order_factors(a: RateFactor, b: RateFactor)
    requires
        a.is_positive_finite(),
        b.is_positive_finite(),
    ensures
        a.units() > 0,
        a.bits < b.bits <==> a.units() < b.units(),
        a.bits == b.bits <==> a.units() == b.units(),
{
    lemma_units_positive(a);
    if a.bits < b.bits {
        lemma_units_increase(a, b);
    } else if b.bits < a.bits {
        lemma_units_increase(b, a);
    }
}

proof fn lemma_units_positive(a: RateFactor)
    requires
        a.bits > 0,
    ensures
        a.units() > 0,
{
    let e = a.bits as nat / 0x80_0000;
    let f = a.bits as nat % 0x80_0000;
    if e > 0 {
        lemma_pow2_pos((e - 1) as nat);
        let p = pow2((e - 1) as nat);
        assert((0x80_0000 + f) * p > 0) by (nonlinear_arith)
            requires
                p > 0,
                f >= 0,
        ;
    }
}

proof fn lemma_units_increase(a: RateFactor, b: RateFactor)
    requires
        a.bits < b.bits,
    ensures
        a.units() < b.units(),
{
    let ea = a.bits as nat / 0x80_0000;
    let eb = b.bits as nat / 0x80_0000;
    let fa = a.bits as nat % 0x80_0000;
    let fb = b.bits as nat % 0x80_0000;
    assert(ea <= eb);
    if eb > 0 {
        let pb = pow2((eb - 1) as nat);
        lemma_pow2_pos((eb - 1) as nat);
        assert((0x80_0000 + fb) * pb >= 0x80_0000 * pb) by (nonlinear_arith)
            requires
                fb >= 0,
                pb > 0,
        ;
        if ea == 0 {
            assert(0x80_0000 * pb >= 0x80_0000) by (nonlinear_arith)
                requires
                    pb > 0,
            ;
        } else {
            let pa = pow2((ea - 1) as nat);
            lemma_pow2_pos((ea - 1) as nat);
            if ea == eb {
                assert((0x80_0000 + fa) * pa < (0x80_0000 + fb) * pa) by (nonlinear_arith)
                    requires
                        fa < fb,
                        pa > 0,
                ;
            } else {
                lemma_pow2_unfold(ea);
                if ea < eb - 1 {
                    lemma_pow2_strictly_increases(ea, (eb - 1) as nat);
                }
                assert((0x80_0000 + fa) * pa < 0x80_0000 * (2 * pa)) by (nonlinear_arith)
                    requires
                        fa < 0x80_0000,
                        pa > 0,
                ;
                assert(0x80_0000 * (2 * pa) <= 0x80_0000 * pb) by (nonlinear_arith)
                    requires
                        2 * pa <= pb,
                ;
            }
        }
    }
}

/// Clamping keeps a factor of at least one and lifts a smaller one to exactly
/// one, which is 2^149 units.
pub proof fn clamping_lifts_to_one(factor: RateFactor)
    requires
        factor.is_positive_finite(),
    ensures
        factor.clamped().is_positive_finite(),
        factor.clamped().units() == if factor.units() < pow2(149) {
            pow2(149)
        } else {
            factor.units()
        },
{
    let one = RateFactor { bits: ONE_BITS };
    assert(one.units() == pow2(149)) by {
        assert(ONE_BITS as nat / 0x80_0000 == 127);
        assert(ONE_BITS as nat % 0x80_0000 == 0);
        lemma2_to64();
        lemma_pow2_adds(23, 126);
    }
    bits_order_factors(factor, one);
}

/// Below the limit a bitrate is held exactly.
pub proof fn small_bitrates_are_exact(bitrate: nat)
    requires
        bitrate < SIGNIFICAND_LIMIT,
    ensures
        rounded(bitrate) == bitrate,
{
    lemma_rounded_bounds(bitrate);
}

/// Rounding does not go below a number of 53 significant bits that was not above
/// what is rounded.
proof fn lemma_rounded_at_least(n: nat, q: nat, k: nat)
    requires
        q <= SIGNIFICAND_LIMIT,
        q * pow2(k) <= n,
    ensures
        q * pow2(k) <= rounded(n),
{
    let bits = excess_bits(n);
    let unit = pow2(bits);
    lemma_unit(n);
    lemma_rounded_bounds(n);
    lemma_pow2_pos(k);
    let whole = n / unit;
    if bits <= k {
        let d = (k - bits) as nat;
        lemma_pow2_adds(bits, d);
        let m = (q * pow2(d)) as int;
        assert(q * pow2(k) == unit * m) by (nonlinear_arith)
            requires
                m == q * pow2(d),
                pow2(k) == unit * pow2(d),
        ;
        lemma_div_multiples_vanish(m, unit as int);
        lemma_div_is_ordered((q * pow2(k)) as int, n as int, unit as int);
        assert(unit * m <= whole * unit) by (nonlinear_arith)
            requires
                m <= whole,
                unit > 0,
        ;
    } else {
        lemma_pow2_unfold(k + 1);
        lemma_pow2_at_most(k + 1, bits);
        assert(n >= SIGNIFICAND_LIMIT) by {
            lemma2_to64();
        }
        assert(q * pow2(k) <= whole * unit) by (nonlinear_arith)
            requires
                q <= SIGNIFICAND_LIMIT,
                whole >= SIGNIFICAND_LIMIT as nat / 2,
                SIGNIFICAND_LIMIT as nat == 2 * (SIGNIFICAND_LIMIT as nat / 2),
                unit >= 2 * pow2(k),
                pow2(k) > 0,
        ;
    }
}

/// A stream that is paced is sent at no less than its bitrate, as double
/// precision holds it: clamping keeps a frame from taking longer than its own
/// interval to drain.
pub proof fn paced_rate_covers_the_bitrate(factor: RateFactor, bitrate: nat)
    requires
        factor.is_positive(),
        0 < bitrate <= usize::MAX,
    ensures
        factor.paced_rate(bitrate) >= rounded(bitrate) / 8,
        bitrate < SIGNIFICAND_LIMIT ==> factor.paced_rate(bitrate) >= bitrate / 8,
{
    lemma_rounded_bounds(bitrate);
    if factor.bits != INFINITY_BITS {
        clamping_lifts_to_one(factor);
        let units = factor.clamped().units();
        let whole = rounded(bitrate);
        let (q, k) = choose|q: nat, k: nat|
            #![trigger q * pow2(k)]
            whole == q * pow2(k) && q <= SIGNIFICAND_LIMIT;
        lemma_pow2_adds(k, 149);
        let low = whole * pow2(149);
        assert(low == q * pow2(k + 149)) by (nonlinear_arith)
            requires
                low == whole * pow2(149),
                whole == q * pow2(k),
                pow2(k + 149) == pow2(k) * pow2(149),
        ;
        assert(low <= whole * units) by (nonlinear_arith)
            requires
                low == whole * pow2(149),
                pow2(149) <= units,
        ;
        lemma_rounded_at_least(whole * units, q, k + 149);
        lemma_pow2_pos(152);
        lemma_div_is_ordered(low as int, rounded(whole * units) as int, pow2(152) as int);
        assert(low / pow2(152) == whole / 8) by {
            lemma2_to64();
            lemma_pow2_adds(149, 3);
            lemma_pow2_pos(149);
            lemma_div_denominator(low as int, pow2(149) as int, 8);
            assert(pow2(149) * whole == low) by (nonlinear_arith)
                requires
                    low == whole * pow2(149),
            ;
            lemma_div_multiples_vanish(whole as int, pow2(149) as int);
        }
    }
}

/// What a factor's bits say of it: it is above zero up to and with infinity, whose bits
/// stand between the numbers and the NaNs, and clamping takes the larger of it and one.
pub proof fn bits_say_what_a_factor_is(factor: RateFactor)
    ensures
        factor.is_positive() <==> 0 < factor.bits <= 0x7f80_0000,
        factor.is_positive_finite() <==> 0 < factor.bits < 0x7f80_0000,
        factor.clamped().bits >= factor.bits,
        factor.clamped().bits >= 0x3f80_0000,
        factor.clamped().bits == factor.bits || factor.clamped().bits == 0x3f80_0000,
{
}

/// The values of factors, counted in the smallest step, go up one by one through the
/// first two runs of 2^23; from there on each factor is worth twice the one that stands
/// one run before it.
pub proof fn values_double_with_each_run(factor: RateFactor)
    requires
        0 < factor.bits < 0x7f80_0000,
    ensures
        factor.bits < 0x100_0000 ==> factor.units() == factor.bits,
        factor.bits >= 0x100_0000 ==> factor.units() == 2 * (RateFactor {
            bits: (factor.bits - 0x80_0000) as u32,
        }).units(),
{
    lemma2_to64();
    let e = factor.bits as nat / 0x80_0000;
    let f = factor.bits as nat % 0x80_0000;
    if factor.bits >= 0x100_0000 {
        let before = RateFactor { bits: (factor.bits - 0x80_0000) as u32 };
        assert(before.bits as nat / 0x80_0000 == e - 1);
        assert(before.bits as nat % 0x80_0000 == f);
        lemma_pow2_unfold((e - 1) as nat);
        let p = pow2((e - 2) as nat);
        assert((0x80_0000 + f) * (2 * p) == 2 * ((0x80_0000 + f) * p)) by (nonlinear_arith);
    } else if factor.bits >= 0x80_0000 {
        let p = pow2((e - 1) as nat);
        assert(p == 1);
        assert((0x80_0000 + f) * p == 0x80_0000 + f) by (nonlinear_arith)
            requires
                p == 1,
        ;
    }
}

/// The rate that a stream is paced with is the bitrate times the factor, or times one
/// where that is larger, over eight: bitrate and product each rounded once, the result
/// cut to an integer and to 64 bits. An infinite factor gives the largest rate, and
/// none is paced by a factor that is not above zero, or without a bitrate.
pub proof fn rate_in_full(factor: RateFactor, bitrate: nat)
    ensures
        factor.bits == 0 || factor.bits > 0x7f80_0000 || bitrate == 0 ==> factor.paced_rate(bitrate)
            == 0,
        factor.bits == 0x7f80_0000 && bitrate > 0 ==> factor.paced_rate(bitrate) == u64::MAX,
        0 < factor.bits < 0x7f80_0000 && bitrate > 0 ==> {
            let larger = RateFactor {
                bits: if factor.bits > 0x3f80_0000 {
                    factor.bits
                } else {
                    0x3f80_0000
                },
            };
            let product = rounded(rounded(bitrate) * larger.units()) as int;
            let rate = factor.paced_rate(bitrate) as int;
            &&& rate <= u64::MAX
            &&& rate * pow2(152) <= product
            &&& rate < u64::MAX ==> product < (rate + 1) * pow2(152)
        },
{
    if 0 < factor.bits < INFINITY_BITS && bitrate > 0 {
        let product = rounded(rounded(bitrate) * factor.clamped().units()) as int;
        let eighth = pow2(152) as int;
        let whole = product / eighth;
        let rate = factor.paced_rate(bitrate) as int;
        lemma_pow2_pos(152);
        lemma_fundamental_div_mod(product, eighth);
        lemma_mod_bound(product, eighth);
        assert(eighth * whole == whole * eighth) by (nonlinear_arith);
        assert((whole + 1) * eighth == whole * eighth + eighth) by (nonlinear_arith);
        assert(rate * eighth <= whole * eighth) by (nonlinear_arith)
            requires
                rate <= whole,
                eighth > 0,
        ;
    }
}

/// How far two numbers are apart.
pub open spec fn distance(a: nat, b: nat) -> nat {
    if a < b {
        (b - a) as nat
    } else {
        (a - b) as nat
    }
}

/// No number of 53 significant bits is strictly between the multiples of the rounding
/// unit around `n`.
proof fn lemma_no_candidate_between(n: nat, q: nat, k: nat)
    requires
        q <= SIGNIFICAND_LIMIT,
    ensures
        ({
            let unit = pow2(excess_bits(n));
            let low = n / unit * unit;
            &&& q * pow2(k) <= n ==> q * pow2(k) <= low
            &&& q * pow2(k) > n ==> q * pow2(k) >= low + unit
        }),
{
    let bits = excess_bits(n);
    let unit = pow2(bits);
    lemma_unit(n);
    lemma_pow2_pos(k);
    lemma_fundamental_div_mod(n as int, unit as int);
    lemma_mod_bound(n as int, unit as int);
    let whole = n / unit;
    assert(unit * whole == whole * unit) by (nonlinear_arith);
    if bits <= k {
        let d = (k - bits) as nat;
        lemma_pow2_adds(bits, d);
        let m = (q * pow2(d)) as int;
        assert(q * pow2(k) == m * unit) by (nonlinear_arith)
            requires
                m == q * pow2(d),
                pow2(k) == unit * pow2(d),
        ;
        let r = (n % unit) as int;
        assert(m * unit <= n ==> m * unit <= whole * unit) by (nonlinear_arith)
            requires
                n == unit * whole + r,
                0 <= r < unit,
        ;
        assert(m * unit > n ==> m * unit >= whole * unit + unit) by (nonlinear_arith)
            requires
                n == unit * whole + r,
                0 <= r < unit,
        ;
    } else {
        lemma_pow2_unfold(k + 1);
        lemma_pow2_at_most(k + 1, bits);
        assert(n >= SIGNIFICAND_LIMIT) by {
            lemma2_to64();
        }
        assert(q * pow2(k) <= whole * unit) by (nonlinear_arith)
            requires
                q <= SIGNIFICAND_LIMIT,
                whole >= SIGNIFICAND_LIMIT as nat / 2,
                SIGNIFICAND_LIMIT as nat == 2 * (SIGNIFICAND_LIMIT as nat / 2),
                unit >= 2 * pow2(k),
                pow2(k) > 0,
        ;
    }
}

/// Rounding gives a number of 53 significant bits, and no such number is nearer. Where
/// another is equally near, rounding gives the even one of the two, a multiple of twice
/// their distance.
pub proof fn rounding_is_to_the_nearest(n: nat, q: nat, k: nat)
    requires
        q <= 0x20_0000_0000_0000,
    ensures
        exists|p: nat, j: nat|
            #![trigger p * pow2(j)]
            rounded(n) == p * pow2(j) && p <= 0x20_0000_0000_0000,
        distance(rounded(n), n) <= distance(q * pow2(k), n),
        q * pow2(k) != rounded(n) && distance(q * pow2(k), n) == distance(rounded(n), n)
            ==> rounded(n) % (2 * distance(q * pow2(k), rounded(n))) == 0,
{
    let unit = pow2(excess_bits(n));
    let near = rounded(n);
    let other = q * pow2(k);
    lemma_unit(n);
    lemma_rounded_bounds(n);
    lemma_no_candidate_between(n, q, k);
    lemma_fundamental_div_mod(n as int, unit as int);
    lemma_mod_bound(n as int, unit as int);
    let whole = n / unit;
    let low = whole * unit;
    assert(unit * whole == whole * unit) by (nonlinear_arith);
    assert((whole + 1) * unit == whole * unit + unit) by (nonlinear_arith);
    if other != near && distance(other, n) == distance(near, n) {
        assert(distance(other, near) == unit);
        let m = if near == low {
            whole
        } else {
            whole + 1
        };
        assert(m % 2 == 0);
        let half = (m / 2) as int;
        assert(near == half * (2 * unit)) by (nonlinear_arith)
            requires
                near == m * unit,
                m == 2 * half,
        ;
        lemma_fundamental_div_mod_converse(near as int, (2 * unit) as int, half, 0);
    }
}

/// Rounding to double precision is off by at most one part in 2^53.
pub proof fn rounding_is_off_by_little(n: nat)
    ensures
        n * (SIGNIFICAND_LIMIT - 1) <= rounded(n) * SIGNIFICAND_LIMIT <= n * (SIGNIFICAND_LIMIT
            + 1),
{
    let unit = pow2(excess_bits(n)) as int;
    let limit = SIGNIFICAND_LIMIT as int;
    lemma_unit(n);
    lemma_rounded_bounds(n);
    lemma_fundamental_div_mod(n as int, unit);
    lemma_mod_bound(n as int, unit);
    let q = n as int / unit;
    let r = n as int % unit;
    let near = rounded(n) as int;
    assert(unit * q == q * unit) by (nonlinear_arith);
    assert((q + 1) * unit == q * unit + unit) by (nonlinear_arith);
    assert(-unit <= 2 * (near - n) <= unit);
    if n >= SIGNIFICAND_LIMIT {
        assert(limit / 2 * unit <= n);
        assert(n * (limit - 1) <= near * limit <= n * (limit + 1)) by (nonlinear_arith)
            requires
                -unit <= 2 * (near - n) <= unit,
                limit / 2 * unit <= n,
                limit == 2 * (limit / 2),
                limit > 0,
        {
            let off = near - n;
            assert(limit * unit <= 2 * n);
            assert(-(limit * unit) <= 2 * (off * limit) <= limit * unit);
            assert(near * limit == n * limit + off * limit);
            assert(n * (limit - 1) == n * limit - n);
            assert(n * (limit + 1) == n * limit + n);
        }
    } else {
        assert(n * (limit - 1) <= near * limit <= n * (limit + 1)) by (nonlinear_arith)
            requires
                near == n,
                n >= 0,
        ;
    }
}

/// A larger number has no fewer bits.
proof fn lemma_excess_bits_grow(a: nat, b: nat)
    requires
        a <= b,
    ensures
        excess_bits(a) <= excess_bits(b),
    decreases b,
{
    if a >= SIGNIFICAND_LIMIT {
        lemma_excess_bits_grow(a / 2, b / 2);
    }
}

/// Rounding keeps the order of numbers.
pub proof fn rounding_keeps_order(a: nat, b: nat)
    requires
        a <= b,
    ensures
        rounded(a) <= rounded(b),
{
    let ka = excess_bits(a);
    let kb = excess_bits(b);
    let ua = pow2(ka) as int;
    let ub = pow2(kb) as int;
    lemma_unit(a);
    lemma_unit(b);
    lemma_rounded_bounds(a);
    lemma_rounded_bounds(b);
    lemma_excess_bits_grow(a, b);
    let qa = a as int / ua;
    let qb = b as int / ub;
    assert(rounded(a) <= (qa + 1) * ua) by {
        assert((qa + 1) * ua == qa * ua + ua) by (nonlinear_arith);
    }
    if ka < kb {
        lemma_pow2_unfold(ka + 1);
        lemma_pow2_at_most(ka + 1, kb);
        assert(b >= SIGNIFICAND_LIMIT) by {
            lemma2_to64();
        }
        assert((qa + 1) * ua <= qb * ub) by (nonlinear_arith)
            requires
                qa + 1 <= SIGNIFICAND_LIMIT,
                qb >= SIGNIFICAND_LIMIT as int / 2,
                SIGNIFICAND_LIMIT as int == 2 * (SIGNIFICAND_LIMIT as int / 2),
                ub >= 2 * ua,
                ua > 0,
        ;
    } else {
        lemma_div_is_ordered(a as int, b as int, ua);
        if qa < qb {
            assert((qa + 1) * ua <= qb * ua) by (nonlinear_arith)
                requires
                    qa + 1 <= qb,
                    ua > 0,
            ;
        } else {
            lemma_fundamental_div_mod(a as int, ua);
            lemma_fundamental_div_mod(b as int, ua);
        }
    }
}

/// The rate grows with the factor and with the bitrate: a stream of a higher
/// bitrate, or paced by a higher factor, is never sent more slowly.
pub proof fn rate_grows_with_factor_and_bitrate(
    lower: RateFactor,
    higher: RateFactor,
    less: nat,
    more: nat,
)
    requires
        lower.is_positive(),
        higher.is_positive(),
        lower.bits <= higher.bits,
        less <= more,
    ensures
        lower.paced_rate(less) <= higher.paced_rate(more),
{
    if less > 0 && higher.bits != INFINITY_BITS {
        clamping_lifts_to_one(lower);
        clamping_lifts_to_one(higher);
        bits_order_factors(lower.clamped(), higher.clamped());
        rounding_keeps_order(less, more);
        let a = rounded(less);
        let b = rounded(more);
        let ua = lower.clamped().units();
        let ub = higher.clamped().units();
        assert(a * ua <= b * ub) by (nonlinear_arith)
            requires
                a <= b,
                ua <= ub,
        ;
        rounding_keeps_order(a * ua, b * ub);
        lemma_pow2_pos(152);
        lemma_div_is_ordered(
            rounded(a * ua) as int,
            rounded(b * ub) as int,
            pow2(152) as int,
        );
    }
}

/// Below saturation the rate is the bitrate times the clamped factor, over the
/// eight bits of a byte and the 2^149 units of one: it loses less than a byte per
/// second to being cut to an integer, and is otherwise off by at most one part in
/// 2^53.
pub proof fn rate_is_factor_times_bitrate(factor: RateFactor, bitrate: nat)
    requires
        factor.is_positive_finite(),
        bitrate > 0,
        factor.paced_rate(bitrate) < u64::MAX,
    ensures
        ({
            let rate = factor.paced_rate(bitrate);
            let exact = rounded(bitrate) * factor.clamped().units();
            &&& rate * (8 * pow2(149)) * SIGNIFICAND_LIMIT <= exact * (SIGNIFICAND_LIMIT + 1)
            &&& exact * (SIGNIFICAND_LIMIT - 1) < (rate + 1) * (8 * pow2(149)) * SIGNIFICAND_LIMIT
        }),
{
    let rate = factor.paced_rate(bitrate) as int;
    let exact = rounded(bitrate) * factor.clamped().units();
    let product = rounded(exact) as int;
    let eighth = 8 * pow2(149);
    let limit = SIGNIFICAND_LIMIT as int;
    assert(eighth == pow2(152)) by {
        lemma2_to64();
        lemma_pow2_adds(149, 3);
    }
    lemma_pow2_pos(152);
    rounding_is_off_by_little(exact);
    lemma_fundamental_div_mod(product, eighth as int);
    lemma_mod_bound(product, eighth as int);
    assert(rate == product / (eighth as int));
    assert(eighth * rate == rate * eighth) by (nonlinear_arith);
    assert((rate + 1) * eighth == rate * eighth + eighth) by (nonlinear_arith);
    assert(rate * eighth * limit <= product * limit < (rate + 1) * eighth * limit)
        by (nonlinear_arith)
        requires
            rate * eighth <= product,
            product < (rate + 1) * eighth,
            limit > 0,
    ;
}

} // verus!
