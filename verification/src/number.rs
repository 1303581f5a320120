//! Numbers of the scripting runtime and the integers they stand for.
//!
//! The runtime has one kind of number, the IEEE 754 double. A `u64` holds its
//! bit pattern: one sign bit, eleven exponent bits, fifty-two fraction bits.
//! An integer may become a number only if some double equals it exactly, and a
//! number may become an integer of some width only if it has no fractional
//! part and lies within that width.

use vstd::arithmetic::div_mod::*;
use vstd::arithmetic::power2::*;
use vstd::bits::*;
use vstd::prelude::*;

verus! {

/// Two to the power 52: the weight of the hidden bit of a normal double, and
/// the number of values that the fraction field can take.
pub const HIDDEN_BIT: u64 = 0x10_0000_0000_0000;

/// Two to the power 63: the sign bit of a double.
pub const SIGN_BIT: u64 = 0x8000_0000_0000_0000;

/// The exponent field of infinities and of values that are not numbers.
pub const EXPONENT_MAX: u64 = 0x7FF;

/// Whether the sign bit is set.
pub open spec fn is_negative(bits: u64) -> bool {
    bits >= SIGN_BIT
}

/// The exponent field, as stored.
pub open spec fn exponent_field(bits: u64) -> nat {
    ((bits / HIDDEN_BIT) % 0x800) as nat
}

/// The fraction field.
pub open spec fn fraction_field(bits: u64) -> nat {
    (bits % HIDDEN_BIT) as nat
}

/// Whether the pattern is one of the values that are not numbers.
pub open spec fn is_nan(bits: u64) -> bool {
    exponent_field(bits) == EXPONENT_MAX && fraction_field(bits) != 0
}

/// Whether the pattern is neither an infinity nor a value that is not a number.
pub open spec fn is_finite(bits: u64) -> bool {
    exponent_field(bits) != EXPONENT_MAX
}

/// The significand of a finite double as an integer: the fraction, with the
/// hidden bit in front unless the double is subnormal.
pub open spec fn significand(bits: u64) -> nat {
    if exponent_field(bits) == 0 {
        fraction_field(bits)
    } else {
        HIDDEN_BIT as nat + fraction_field(bits)
    }
}

/// The power of two by which the significand of a finite double is scaled:
/// its magnitude is `significand * 2^scale`.
pub open spec fn scale(bits: u64) -> int {
    if exponent_field(bits) == 0 {
        -1074
    } else {
        exponent_field(bits) - 1075
    }
}

/// The magnitude of a double that is finite and has no fractional part.
pub open spec fn magnitude(bits: u64) -> Option<nat> {
    if !is_finite(bits) {
        None
    } else if scale(bits) >= 0 {
        Some(significand(bits) * pow2(scale(bits) as nat))
    } else if significand(bits) % pow2((-scale(bits)) as nat) == 0 {
        Some(significand(bits) / pow2((-scale(bits)) as nat))
    } else {
        None
    }
}

/// The integer that a double equals, if it equals one. Both zeros equal 0.
pub open spec fn integer_value(bits: u64) -> Option<int> {
    match magnitude(bits) {
        Some(m) => Some(
            if is_negative(bits) {
                -(m as int)
            } else {
                m as int
            },
        ),
        None => None,
    }
}

/// The integer that a double equals, if it equals one within `low ..= high`.
pub open spec fn integer_within(bits: u64, low: int, high: int) -> Option<int> {
    match integer_value(bits) {
        Some(n) if low <= n <= high => Some(n),
        _ => None,
    }
}

/// Whether some double equals `n` exactly.
pub open spec fn representable(n: int) -> bool {
    exists|bits: u64| integer_value(bits) == Some(n)
}

/// The number that stands for the integer `n`: the double that equals it, and
/// of the two zeros the positive one. `None` where no double equals `n`.
pub open spec fn number_of(n: int) -> Option<u64> {
    if representable(n) {
        Some(choose|bits: u64| integer_value(bits) == Some(n) && bits != SIGN_BIT)
    } else {
        None
    }
}

/// A pattern is made of its three fields.
pub proof fn lemma_fields(bits: u64)
    ensures
        exponent_field(bits) <= EXPONENT_MAX,
        fraction_field(bits) < HIDDEN_BIT,
        bits == (if is_negative(bits) {
            SIGN_BIT as int
        } else {
            0
        }) + exponent_field(bits) * HIDDEN_BIT + fraction_field(bits),
{
}

/// The fields of a pattern put together from a sign, an exponent and a fraction.
pub proof fn lemma_compose(negative: bool, exponent: u64, fraction: u64)
    requires
        exponent <= EXPONENT_MAX,
        fraction < HIDDEN_BIT,
    ensures
        ({
            let bits = ((if negative {
                SIGN_BIT as int
            } else {
                0
            }) + exponent * HIDDEN_BIT + fraction) as u64;
            &&& is_negative(bits) == negative
            &&& exponent_field(bits) == exponent
            &&& fraction_field(bits) == fraction
        }),
{
    assert(exponent * HIDDEN_BIT <= 0x7FF * 0x10_0000_0000_0000) by (nonlinear_arith)
        requires
            exponent <= 0x7FF,
            HIDDEN_BIT == 0x10_0000_0000_0000,
    ;
}

/// Powers of two grow with the exponent.
pub proof fn lemma_pow2_monotonic(a: nat, b: nat)
    requires
        a <= b,
    ensures
        pow2(a) <= pow2(b),
{
    if a < b {
        lemma_pow2_strictly_increases(a, b);
    }
}

/// A positive integer lies between two neighbouring powers of two for one
/// exponent only.
pub proof fn lemma_window_unique(m: nat, p: nat, q: nat)
    requires
        pow2(p) <= m < pow2(p + 1),
        pow2(q) <= m < pow2(q + 1),
    ensures
        p == q,
{
    if p < q {
        lemma_pow2_monotonic(p + 1, q);
    }
    if q < p {
        lemma_pow2_monotonic(q + 1, p);
    }
}

/// Where a double equals a positive integer `m`, its exponent field tells
/// between which powers of two `m` lies, and its significand is `m` shifted to
/// 53 bits.
pub proof fn lemma_window(bits: u64, m: nat)
    requires
        magnitude(bits) == Some(m),
        m >= 1,
    ensures
        1023 <= exponent_field(bits) < EXPONENT_MAX,
        pow2((exponent_field(bits) - 1023) as nat) <= m < pow2(
            (exponent_field(bits) - 1022) as nat,
        ),
        exponent_field(bits) >= 1075 ==> m == significand(bits) * pow2(
            (exponent_field(bits) - 1075) as nat,
        ),
        exponent_field(bits) < 1075 ==> significand(bits) == m * pow2(
            (1075 - exponent_field(bits)) as nat,
        ),
{
    let e = exponent_field(bits);
    let sig = significand(bits);
    lemma2_to64();
    lemma2_to64_rest();
    if e == 0 {
        // below 2^52 units of 2^-1074 there is no whole number but zero
        lemma_pow2_monotonic(52, 1074);
        lemma_small_mod(sig, pow2(1074));
        lemma_basic_div(sig as int, pow2(1074) as int);
    } else if e >= 1075 {
        let s = (e - 1075) as nat;
        lemma_pow2_adds(52, s);
        lemma_pow2_adds(53, s);
        lemma_pow2_pos(s);
        assert(pow2(52) * pow2(s) <= sig * pow2(s)) by (nonlinear_arith)
            requires
                pow2(52) <= sig,
                pow2(s) > 0,
        ;
        assert(sig * pow2(s) < pow2(53) * pow2(s)) by (nonlinear_arith)
            requires
                sig < pow2(53),
                pow2(s) > 0,
        ;
    } else {
        let k = (1075 - e) as nat;
        lemma_pow2_pos(k);
        lemma_fundamental_div_mod(sig as int, pow2(k) as int);
        assert(sig == m * pow2(k)) by (nonlinear_arith)
            requires
                sig == pow2(k) * m + 0,
        ;
        if k > 52 {
            lemma_pow2_monotonic(53, k);
            assert(m * pow2(k) >= pow2(k)) by (nonlinear_arith)
                requires
                    m >= 1,
                    pow2(k) > 0,
            ;
        } else {
            lemma_pow2_adds((52 - k) as nat, k);
            lemma_pow2_adds((53 - k) as nat, k);
            assert(pow2((52 - k) as nat) <= m) by (nonlinear_arith)
                requires
                    pow2((52 - k) as nat) * pow2(k) <= m * pow2(k),
                    pow2(k) > 0,
            ;
            assert(m < pow2((53 - k) as nat)) by (nonlinear_arith)
                requires
                    m * pow2(k) < pow2((53 - k) as nat) * pow2(k),
                    pow2(k) > 0,
            ;
        }
    }
}

/// No two doubles equal the same integer, but for the two zeros.
pub proof fn lemma_integer_value_unique(a: u64, b: u64)
    requires
        integer_value(a) is Some,
        integer_value(a) == integer_value(b),
        integer_value(a) != Some(0int),
    ensures
        a == b,
{
    let m = magnitude(a)->Some_0;
    assert(magnitude(b) == Some(m));
    assert(is_negative(a) == is_negative(b));
    lemma_window(a, m);
    lemma_window(b, m);
    lemma_window_unique(
        m,
        (exponent_field(a) - 1023) as nat,
        (exponent_field(b) - 1023) as nat,
    );
    let e = exponent_field(a);
    if e >= 1075 {
        let s = (e - 1075) as nat;
        lemma_pow2_pos(s);
        assert(significand(a) == significand(b)) by (nonlinear_arith)
            requires
                significand(a) * pow2(s) == significand(b) * pow2(s),
                pow2(s) > 0,
        ;
    }
    lemma_fields(a);
    lemma_fields(b);
}

/// Both zeros equal 0.
pub proof fn lemma_zeros()
    ensures
        integer_value(0) == Some(0int),
        integer_value(SIGN_BIT) == Some(0int),
{
    lemma_compose(false, 0, 0);
    lemma_compose(true, 0, 0);
    lemma_pow2_pos(1074);
    lemma_small_mod(0, pow2(1074));
    lemma_basic_div(0, pow2(1074) as int);
}

/// Only the two zeros equal 0.
pub proof fn lemma_zero(bits: u64)
    requires
        integer_value(bits) == Some(0int),
    ensures
        bits == 0 || bits == SIGN_BIT,
{
    let e = exponent_field(bits);
    let sig = significand(bits);
    assert(magnitude(bits) == Some(0nat));
    if e == 0 {
        let unit = pow2(1074);
        lemma_pow2_pos(1074);
        lemma_fundamental_div_mod(sig as int, unit as int);
        assert(sig == 0) by (nonlinear_arith)
            requires
                sig == unit * (sig as int / unit as int) + sig as int % unit as int,
                sig as int / unit as int == 0,
                sig as int % unit as int == 0,
        ;
    } else if e >= 1075 {
        let s = (e - 1075) as nat;
        lemma_pow2_pos(s);
        assert(sig * pow2(s) > 0) by (nonlinear_arith)
            requires
                sig > 0,
                pow2(s) > 0,
        ;
    } else {
        let unit = pow2((1075 - e) as nat);
        lemma_pow2_pos((1075 - e) as nat);
        lemma_fundamental_div_mod(sig as int, unit as int);
        assert(sig == 0) by (nonlinear_arith)
            requires
                sig == unit * (sig as int / unit as int) + sig as int % unit as int,
                sig as int / unit as int == 0,
                sig as int % unit as int == 0,
        ;
    }
    lemma_fields(bits);
}

/// A double that equals `n`, and is not the negative zero, is the number that
/// stands for `n`.
pub proof fn lemma_number_of(n: int, bits: u64)
    requires
        integer_value(bits) == Some(n),
        bits != SIGN_BIT,
    ensures
        number_of(n) == Some(bits),
{
    let chosen = choose|b: u64| integer_value(b) == Some(n) && b != SIGN_BIT;
    if n == 0 {
        lemma_zero(bits);
        lemma_zero(chosen);
    } else {
        lemma_integer_value_unique(chosen, bits);
    }
}

/// An integer that becomes a number comes back from it unchanged.
pub proof fn lemma_number_round_trip(n: int)
    requires
        representable(n),
    ensures
        number_of(n) is Some,
        integer_value(number_of(n)->Some_0) == Some(n),
{
    let witness = choose|b: u64| integer_value(b) == Some(n);
    lemma_zeros();
    if witness == SIGN_BIT {
        lemma_number_of(0, 0);
    } else {
        lemma_number_of(n, witness);
    }
}

/// The place of the highest bit that is set in `n`, counted from 0.
pub open spec fn highest_bit(n: nat) -> nat
    decreases n,
{
    if n <= 1 {
        0
    } else {
        1 + highest_bit(n / 2)
    }
}

/// A positive number lies between the power of two of its highest bit and
/// the next power of two.
pub proof fn lemma_highest_bit(n: nat)
    requires
        n >= 1,
    ensures
        pow2(highest_bit(n)) <= n < pow2(highest_bit(n) + 1),
    decreases n,
{
    lemma2_to64();
    if n > 1 {
        lemma_highest_bit(n / 2);
        lemma_pow2_unfold(highest_bit(n));
        lemma_pow2_unfold(highest_bit(n) + 1);
    }
}

/// A double equals every integer from -2^53 to 2^53.
pub proof fn lemma_small_integers(n: int)
    requires
        -0x20_0000_0000_0000 <= n <= 0x20_0000_0000_0000,
    ensures
        representable(n),
{
    lemma2_to64();
    lemma2_to64_rest();
    if n == 0 {
        lemma_zeros();
    } else {
        let negative = n < 0;
        let m = (if negative {
            -n
        } else {
            n
        }) as nat;
        let high = highest_bit(m);
        lemma_highest_bit(m);
        if m == 0x20_0000_0000_0000 {
            // 2^53 is the significand 2^52, doubled
            let bits = ((if negative {
                SIGN_BIT as int
            } else {
                0
            }) + 1076 * HIDDEN_BIT) as u64;
            lemma_compose(negative, 1076, 0);
            assert(significand(bits) * pow2(1) == m);
            assert(integer_value(bits) == Some(n));
        } else {
            if high >= 53 {
                lemma_pow2_monotonic(53, high);
            }
            let shift = (52 - high) as nat;
            let power = pow2(shift);
            lemma_pow2_adds(high, shift);
            lemma_pow2_adds(high + 1, shift);
            lemma_pow2_pos(shift);
            assert(pow2(high) * power <= m * power) by (nonlinear_arith)
                requires
                    pow2(high) <= m,
                    power > 0,
            ;
            assert(m * power < pow2(high + 1) * power) by (nonlinear_arith)
                requires
                    m < pow2(high + 1),
                    power > 0,
            ;
            let sig = m * power;
            let exponent = (1075 - shift) as u64;
            let bits = ((if negative {
                SIGN_BIT as int
            } else {
                0
            }) + exponent * HIDDEN_BIT + (sig - HIDDEN_BIT)) as u64;
            lemma_compose(negative, exponent, (sig - HIDDEN_BIT) as u64);
            lemma_mod_multiples_basic(m as int, power as int);
            lemma_div_multiples_vanish(m as int, power as int);
            assert(m * power == power * m) by (nonlinear_arith);
            assert(significand(bits) == sig);
            assert(scale(bits) == -(shift as int));
            if shift == 0 {
                assert(sig == m) by (nonlinear_arith)
                    requires
                        sig == m * power,
                        power == 1,
                ;
                assert(significand(bits) * pow2(scale(bits) as nat) == m);
            } else {
                assert((-scale(bits)) as nat == shift);
                assert(significand(bits) % pow2(shift) == 0);
                assert(significand(bits) / pow2(shift) == m);
            }
            assert(magnitude(bits) == Some(m));
            assert(integer_value(bits) == Some(n));
        }
    }
}

/// A double equals every power of two up to 2^1023, and its negative: so it
/// does the smallest `i64`, which is -2^63.
pub proof fn lemma_powers_of_two(exponent: nat, negative: bool)
    requires
        exponent <= 1023,
    ensures
        representable(
            if negative {
                -(pow2(exponent) as int)
            } else {
                pow2(exponent) as int
            },
        ),
{
    lemma2_to64();
    lemma2_to64_rest();
    let field = (exponent + 1023) as u64;
    let bits = ((if negative {
        SIGN_BIT as int
    } else {
        0
    }) + field * HIDDEN_BIT) as u64;
    lemma_compose(negative, field, 0);
    lemma_pow2_pos(exponent);
    if exponent >= 52 {
        lemma_pow2_adds(52, (exponent - 52) as nat);
    } else {
        let shift = (52 - exponent) as nat;
        lemma_pow2_adds(exponent, shift);
        lemma_pow2_pos(shift);
        lemma_mod_multiples_basic(pow2(exponent) as int, pow2(shift) as int);
        lemma_div_multiples_vanish(pow2(exponent) as int, pow2(shift) as int);
        assert(pow2(exponent) * pow2(shift) == pow2(shift) * pow2(exponent)) by (nonlinear_arith);
    }
    assert(magnitude(bits) == Some(pow2(exponent)));
    assert(integer_value(bits) == Some(
        if negative {
            -(pow2(exponent) as int)
        } else {
            pow2(exponent) as int
        },
    ));
}

/// No double equals an odd integer beyond 2^53, or below -2^53: so none does
/// the largest `i64`, the largest `u64`, or the smallest `i64` but one.
pub proof fn lemma_large_odd_integers(n: int)
    requires
        n % 2 == 1,
        n > 0x20_0000_0000_0000 || n < -0x20_0000_0000_0000,
    ensures
        !representable(n),
{
    lemma2_to64();
    lemma2_to64_rest();
    let m = (if n < 0 {
        -n
    } else {
        n
    }) as nat;
    assert forall|bits: u64| integer_value(bits) != Some(n) by {
        if integer_value(bits) == Some(n) {
            assert(magnitude(bits) == Some(m));
            lemma_window(bits, m);
            let e = exponent_field(bits);
            if e < 1076 {
                // below 2^53 at most
                lemma_pow2_monotonic((e - 1022) as nat, 53);
            } else {
                let s = (e - 1075) as nat;
                lemma_pow2_unfold(s);
                // a multiple of two
                let half = significand(bits) * pow2((s - 1) as nat);
                assert(m == half * 2) by (nonlinear_arith)
                    requires
                        m == significand(bits) * pow2(s),
                        pow2(s) == 2 * pow2((s - 1) as nat),
                        half == significand(bits) * pow2((s - 1) as nat),
                ;
                lemma_mod_multiples_basic(half as int, 2);
            }
        }
    }
}

/// Whether a number is one of the values that are not numbers.
pub fn number_is_nan(bits: u64) -> (nan: bool)
    ensures
        nan == is_nan(bits),
{
    (bits / HIDDEN_BIT) % 0x800 == EXPONENT_MAX && bits % HIDDEN_BIT != 0
}

/// Two to the power `k`.
pub(crate) fn power_of_two(k: u64) -> (power: u64)
    requires
        k < 64,
    ensures
        power == pow2(k as nat),
{
    proof {
        lemma_u64_pow2_no_overflow(k as nat);
        lemma_u64_shl_is_mul(1, k);
    }
    1u64 << k
}

/// The magnitude of a number that has no fractional part and is below 2^64.
fn magnitude_below_2_64(bits: u64) -> (found: Option<u64>)
    ensures
        found == (match magnitude(bits) {
            Some(m) if m <= u64::MAX => Some(m as u64),
            _ => None,
        }),
{
    let exponent = (bits / HIDDEN_BIT) % 0x800;
    let fraction = bits % HIDDEN_BIT;
    proof {
        lemma2_to64();
        lemma2_to64_rest();
    }
    if exponent == EXPONENT_MAX {
        return None;
    }
    if exponent == 0 {
        proof {
            lemma_pow2_monotonic(52, 1074);
            lemma_small_mod(fraction as nat, pow2(1074));
            lemma_basic_div(fraction as int, pow2(1074) as int);
        }
        return if fraction == 0 {
            Some(0)
        } else {
            None
        };
    }
    let sig = HIDDEN_BIT + fraction;
    if exponent >= 1075 {
        let shift = exponent - 1075;
        if shift > 11 {
            proof {
                lemma_pow2_monotonic(12, shift as nat);
                assert(sig * pow2(shift as nat) >= 0x10_0000_0000_0000 * 0x1000)
                    by (nonlinear_arith)
                    requires
                        sig >= 0x10_0000_0000_0000,
                        pow2(shift as nat) >= 0x1000,
                ;
            }
            None
        } else {
            let power = power_of_two(shift);
            proof {
                lemma_pow2_monotonic(shift as nat, 11);
                assert(sig * power <= 0x1F_FFFF_FFFF_FFFF * 0x800) by (nonlinear_arith)
                    requires
                        sig <= 0x1F_FFFF_FFFF_FFFF,
                        power <= 0x800,
                ;
            }
            Some(sig * power)
        }
    } else {
        let shift = 1075 - exponent;
        if shift > 52 {
            proof {
                lemma_pow2_monotonic(53, shift as nat);
                lemma_small_mod(sig as nat, pow2(shift as nat));
            }
            None
        } else {
            let power = power_of_two(shift);
            proof {
                lemma_pow2_pos(shift as nat);
            }
            if sig % power == 0 {
                Some(sig / power)
            } else {
                None
            }
        }
    }
}

/// The unsigned integer that a number equals, if it equals one below 2^64.
pub fn number_to_u64(bits: u64) -> (found: Option<u64>)
    ensures
        found == (match integer_within(bits, 0, u64::MAX as int) {
            Some(n) => Some(n as u64),
            None => None,
        }),
{
    match magnitude_below_2_64(bits) {
        Some(m) => if bits >= SIGN_BIT && m != 0 {
            None
        } else {
            Some(m)
        },
        None => None,
    }
}

/// The signed integer that a number equals, if it equals one from -2^63 to
/// 2^63 - 1.
pub fn number_to_i64(bits: u64) -> (found: Option<i64>)
    ensures
        found == (match integer_within(bits, i64::MIN as int, i64::MAX as int) {
            Some(n) => Some(n as i64),
            None => None,
        }),
{
    match magnitude_below_2_64(bits) {
        Some(m) => if bits >= SIGN_BIT {
            if m < SIGN_BIT {
                Some(-(m as i64))
            } else if m == SIGN_BIT {
                Some(i64::MIN)
            } else {
                None
            }
        } else if m < SIGN_BIT {
            Some(m as i64)
        } else {
            None
        },
        None => None,
    }
}

/// The number that equals the integer of magnitude `m` and the given sign, if
/// there is one. Zero becomes the positive zero.
fn number_from_magnitude(m: u64, negative: bool) -> (found: Option<u64>)
    ensures
        match found {
            Some(bits) => {
                &&& magnitude(bits) == Some(m as nat)
                &&& is_negative(bits) == (negative && m != 0)
            },
            None => forall|bits: u64| magnitude(bits) != Some(m as nat),
        },
        m <= 0x20_0000_0000_0000 ==> found is Some,
{
    proof {
        lemma2_to64();
        lemma2_to64_rest();
    }
    if m == 0 {
        proof {
            lemma_compose(false, 0, 0);
            lemma_pow2_pos(1074);
            lemma_small_mod(0, pow2(1074));
            lemma_basic_div(0, pow2(1074) as int);
        }
        return Some(0);
    }
    // the exponent of the highest power of two within `m`
    let mut top: u64 = m;
    let mut high: u64 = 0;
    while top > 1
        invariant
            top == m as nat / pow2(high as nat),
            top >= 1,
            high < 64,
        decreases top,
    {
        proof {
            lemma_pow2_pos(high as nat);
            lemma_pow2_unfold((high + 1) as nat);
            lemma_div_denominator(m as int, pow2(high as nat) as int, 2);
            // two times the power is within `m`, so the exponent stays below 64
            lemma_fundamental_div_mod(m as int, pow2(high as nat) as int);
            assert(pow2(high as nat) * top >= pow2(high as nat) * 2) by (nonlinear_arith)
                requires
                    top >= 2,
                    pow2(high as nat) > 0,
            ;
            lemma_mod_bound(m as int, pow2(high as nat) as int);
            lemma2_to64();
            if high >= 63 {
                lemma_pow2_monotonic(64, (high + 1) as nat);
            }
        }
        top = top / 2;
        high = high + 1;
    }
    proof {
        lemma2_to64();
        lemma2_to64_rest();
        lemma_pow2_pos(high as nat);
        lemma_pow2_unfold((high + 1) as nat);
        lemma_fundamental_div_mod(m as int, pow2(high as nat) as int);
        lemma_mod_bound(m as int, pow2(high as nat) as int);
        assert(pow2(high as nat) <= m < pow2((high + 1) as nat));
    }
    let sign: u64 = if negative {
        SIGN_BIT
    } else {
        0
    };
    if high <= 52 {
        let shift = 52 - high;
        let power = power_of_two(shift);
        proof {
            lemma_pow2_adds(high as nat, shift as nat);
            lemma_pow2_adds((high + 1) as nat, shift as nat);
            lemma_pow2_pos(shift as nat);
            assert(pow2(high as nat) * power <= m * power) by (nonlinear_arith)
                requires
                    pow2(high as nat) <= m,
                    power > 0,
            ;
            assert(m * power < pow2((high + 1) as nat) * power) by (nonlinear_arith)
                requires
                    m < pow2((high + 1) as nat),
                    power > 0,
            ;
        }
        let sig = m * power;
        let exponent = 1075 - shift;
        let bits = sign + exponent * HIDDEN_BIT + (sig - HIDDEN_BIT);
        proof {
            lemma_compose(negative, exponent, (sig - HIDDEN_BIT) as u64);
            lemma_mod_multiples_basic(m as int, power as int);
            lemma_div_multiples_vanish(m as int, power as int);
            assert(m * power == power * m) by (nonlinear_arith);
            assert(significand(bits) == sig);
            assert(scale(bits) == -(shift as int));
            assert(is_finite(bits));
            if shift == 0 {
                assert(power == 1);
                assert(sig == m) by (nonlinear_arith)
                    requires
                        sig == m * power,
                        power == 1,
                ;
                assert(scale(bits) as nat == 0);
                assert(pow2(scale(bits) as nat) == 1);
                assert(significand(bits) * pow2(scale(bits) as nat) == m);
                assert(magnitude(bits) == Some(m as nat));
            } else {
                assert(sig % power == 0);
                assert(sig / power == m);
                assert((-scale(bits)) as nat == shift as nat);
                assert(significand(bits) % pow2(shift as nat) == 0);
                assert(significand(bits) / pow2(shift as nat) == m);
                assert(magnitude(bits) == Some(m as nat));
            }
        }
        Some(bits)
    } else {
        let shift = high - 52;
        let power = power_of_two(shift);
        proof {
            lemma_pow2_pos(shift as nat);
        }
        if m % power != 0 {
            proof {
                assert forall|bits: u64| magnitude(bits) != Some(m as nat) by {
                    if magnitude(bits) == Some(m as nat) {
                        lemma_window(bits, m as nat);
                        lemma_window_unique(
                            m as nat,
                            high as nat,
                            (exponent_field(bits) - 1023) as nat,
                        );
                        lemma_mod_multiples_basic(significand(bits) as int, power as int);
                    }
                }
                if m <= 0x20_0000_0000_0000 {
                    // only 2^53 itself reaches this far, and it is even
                    if high >= 54 {
                        lemma_pow2_monotonic(54, high as nat);
                    }
                    assert(high == 53);
                    assert(m == 0x20_0000_0000_0000);
                    assert(power == 2);
                    assert(m % power == 0) by (nonlinear_arith)
                        requires
                            m == 0x20_0000_0000_0000,
                            power == 2,
                    ;
                }
            }
            None
        } else {
            let sig = m / power;
            proof {
                lemma_fundamental_div_mod(m as int, power as int);
                lemma_pow2_adds(52, shift as nat);
                lemma_pow2_adds(53, shift as nat);
                assert(sig >= pow2(52)) by (nonlinear_arith)
                    requires
                        pow2(52) * power <= power * sig,
                        power > 0,
                ;
                assert(sig < pow2(53)) by (nonlinear_arith)
                    requires
                        power * sig < pow2(53) * power,
                        power > 0,
                ;
            }
            let exponent = 1075 + shift;
            let bits = sign + exponent * HIDDEN_BIT + (sig - HIDDEN_BIT);
            proof {
                lemma_compose(negative, exponent, (sig - HIDDEN_BIT) as u64);
                assert(significand(bits) == sig);
                assert(scale(bits) == shift as int);
                assert(sig * power == power * sig) by (nonlinear_arith);
                assert(magnitude(bits) == Some(m as nat));
            }
            Some(bits)
        }
    }
}

/// The number that stands for `v`, if there is one.
pub fn number_from_u64(v: u64) -> (found: Option<u64>)
    ensures
        found == number_of(v as int),
        v <= 0x20_0000_0000_0000 ==> found is Some,
{
    let found = number_from_magnitude(v, false);
    proof {
        lemma_zeros();
        if let Some(bits) = found {
            lemma_number_of(v as int, bits);
        }
    }
    found
}

/// The number that stands for `v`, if there is one.
pub fn number_from_i64(v: i64) -> (found: Option<u64>)
    ensures
        found == number_of(v as int),
        -0x20_0000_0000_0000 <= v <= 0x20_0000_0000_0000 ==> found is Some,
{
    let found = if v >= 0 {
        number_from_magnitude(v as u64, false)
    } else if v == i64::MIN {
        number_from_magnitude(SIGN_BIT, true)
    } else {
        number_from_magnitude((-v) as u64, true)
    };
    proof {
        lemma_zeros();
        if let Some(bits) = found {
            lemma_number_of(v as int, bits);
        }
    }
    found
}

} // verus!
