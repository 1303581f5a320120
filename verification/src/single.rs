//! Single-precision numbers and the doubles they become.
//!
//! The runtime has doubles only. A single-precision number crosses as the
//! double of the same value, which always exists; on the way back a double
//! becomes the single nearest to it, and of two that are equally near the one
//! whose last bit is zero. A `u32` holds the bit pattern of a single: one sign
//! bit, eight exponent bits, twenty-three fraction bits.

use crate::number::{
    exponent_field, fraction_field, highest_bit, is_finite, is_nan, is_negative, lemma_compose,
    lemma_fields, lemma_highest_bit, lemma_pow2_monotonic, power_of_two, EXPONENT_MAX,
    HIDDEN_BIT, SIGN_BIT,
};
use vstd::arithmetic::div_mod::*;
use vstd::arithmetic::power2::*;
use vstd::prelude::*;

verus! {

/// Two to the power 23: the weight of the hidden bit of a normal single.
pub const SINGLE_HIDDEN_BIT: u32 = 0x80_0000;

/// Two to the power 31: the sign bit of a single.
pub const SINGLE_SIGN_BIT: u32 = 0x8000_0000;

/// The exponent field of infinities and of values that are not numbers.
pub const SINGLE_EXPONENT_MAX: u32 = 0xFF;

/// The bit of the fraction that tells a quiet value that is not a number.
pub const SINGLE_QUIET_BIT: u32 = 0x40_0000;

/// The largest pattern of a single that is a number: the positive infinity.
pub const SINGLE_INFINITY: u32 = 0x7F80_0000;

/// Two to the power 29: by so much the fraction of a double is longer than
/// the fraction of a single.
pub const FRACTION_SURPLUS: u64 = 0x2000_0000;

/// Whether the sign bit of a single is set.
pub open spec fn single_is_negative(bits: u32) -> bool {
    bits >= SINGLE_SIGN_BIT
}

/// The exponent field of a single, as stored.
pub open spec fn single_exponent_field(bits: u32) -> nat {
    ((bits / SINGLE_HIDDEN_BIT) % 0x100) as nat
}

/// The fraction field of a single.
pub open spec fn single_fraction_field(bits: u32) -> nat {
    (bits % SINGLE_HIDDEN_BIT) as nat
}

/// Whether a single is one of the values that are not numbers.
pub open spec fn single_is_nan(bits: u32) -> bool {
    single_exponent_field(bits) == SINGLE_EXPONENT_MAX && single_fraction_field(bits) != 0
}

/// Whether a single is an infinity.
pub open spec fn single_is_infinite(bits: u32) -> bool {
    single_exponent_field(bits) == SINGLE_EXPONENT_MAX && single_fraction_field(bits) == 0
}

/// Whether a single is neither an infinity nor a value that is not a number.
pub open spec fn single_is_finite(bits: u32) -> bool {
    single_exponent_field(bits) != SINGLE_EXPONENT_MAX
}

/// Whether a double is an infinity.
pub open spec fn is_infinite(bits: u64) -> bool {
    exponent_field(bits) == EXPONENT_MAX && fraction_field(bits) == 0
}

/// The magnitude of a single in steps of 2^-149, the spacing of the subnormal
/// singles: every finite single is a whole number of these. For an infinity
/// this is 2^277 steps, the value 2^128, which is where the next single
/// after the largest finite one would stand.
pub open spec fn single_steps(bits: u32) -> nat {
    if single_exponent_field(bits) == 0 {
        single_fraction_field(bits)
    } else {
        (SINGLE_HIDDEN_BIT as nat + single_fraction_field(bits)) * pow2(
            (single_exponent_field(bits) - 1) as nat,
        )
    }
}

/// The magnitude of a finite double in steps of 2^-1074, the spacing of the
/// subnormal doubles: every finite double is a whole number of these.
pub open spec fn double_steps(bits: u64) -> nat {
    if exponent_field(bits) == 0 {
        fraction_field(bits)
    } else {
        (HIDDEN_BIT as nat + fraction_field(bits)) * pow2((exponent_field(bits) - 1) as nat)
    }
}

/// How many steps of a double make one step of a single: 2^925.
pub open spec fn steps_in_single_step() -> nat {
    pow2(925)
}

/// The fraction of the value that is not a number which a fraction becomes:
/// it is made quiet, and keeps its other bits.
pub open spec fn quieted(fraction: nat) -> nat {
    if fraction < SINGLE_QUIET_BIT {
        fraction + SINGLE_QUIET_BIT as nat
    } else {
        fraction
    }
}

/// The spacing of the singles at a single, in steps of 2^-149: how far the
/// next single stands.
pub open spec fn single_step_size(bits: u32) -> nat {
    if single_exponent_field(bits) == 0 {
        1
    } else {
        pow2((single_exponent_field(bits) - 1) as nat)
    }
}

/// How far apart two whole numbers are.
pub open spec fn distance(a: int, b: int) -> int {
    if a >= b {
        a - b
    } else {
        b - a
    }
}

/// How far the magnitude of a single is from the magnitude of a finite
/// double, in steps of 2^-1074.
pub open spec fn gap(single: u32, double: u64) -> int {
    distance((single_steps(single) * steps_in_single_step()) as int, double_steps(double) as int)
}

/// Whether a single is as near to a finite double as a single can be, and,
/// where another single is as near, is the one of the two whose last bit is
/// zero. An infinity counts as the value 2^128.
pub open spec fn is_nearest(single: u32, double: u64) -> bool {
    &&& forall|other: u32|
        !single_is_nan(other) ==> gap(single, double) <= #[trigger] gap(other, double)
    &&& forall|other: u32|
        !single_is_nan(other) && #[trigger] gap(other, double) == gap(single, double)
            && single_steps(other) != single_steps(single) ==> single_fraction_field(single) % 2
            == 0
}

/// What widening is: the double has the sign of the single. A finite single
/// becomes the finite double of the same magnitude, an infinity an infinity,
/// and a value that is not a number one that is made quiet and has the bits
/// of its fraction in front.
pub open spec fn widens_to(single: u32, double: u64) -> bool {
    &&& is_negative(double) == single_is_negative(single)
    &&& single_is_finite(single) ==> is_finite(double) && double_steps(double) == single_steps(
        single,
    ) * steps_in_single_step()
    &&& single_is_infinite(single) ==> is_infinite(double)
    &&& single_is_nan(single) ==> exponent_field(double) == EXPONENT_MAX && fraction_field(double)
        == quieted(single_fraction_field(single)) * FRACTION_SURPLUS
}

/// What narrowing is: the single has the sign of the double. A finite double
/// becomes the single nearest to it, which is an infinity where the double
/// lies beyond the largest finite single by half a step or more; an infinity
/// becomes an infinity; a value that is not a number becomes one that is made
/// quiet and has the leading bits of its fraction.
pub open spec fn narrows_to(double: u64, single: u32) -> bool {
    &&& single_is_negative(single) == is_negative(double)
    &&& single_is_nan(single) == is_nan(double)
    &&& is_infinite(double) ==> single_is_infinite(single)
    &&& is_finite(double) ==> is_nearest(single, double)
    &&& is_nan(double) ==> single_fraction_field(single) == quieted(
        fraction_field(double) / FRACTION_SURPLUS as nat,
    )
}

/// The double that a single widens to, field by field: a normal single keeps
/// its fraction and has its exponent moved to the bias of doubles; a
/// subnormal single becomes a normal double, with the highest bit of its
/// fraction for the hidden bit.
pub open spec fn widened(single: u32) -> u64 {
    let exponent = single_exponent_field(single);
    let fraction = single_fraction_field(single);
    let sign = if single_is_negative(single) {
        SIGN_BIT as nat
    } else {
        0
    };
    let magnitude = if exponent == SINGLE_EXPONENT_MAX {
        if fraction == 0 {
            EXPONENT_MAX as nat * HIDDEN_BIT as nat
        } else {
            EXPONENT_MAX as nat * HIDDEN_BIT as nat + quieted(fraction) * FRACTION_SURPLUS as nat
        }
    } else if exponent == 0 {
        if fraction == 0 {
            0
        } else {
            ((highest_bit(fraction) + 874) * HIDDEN_BIT as nat + fraction * pow2(
                (52 - highest_bit(fraction)) as nat,
            ) - HIDDEN_BIT as nat) as nat
        }
    } else {
        (exponent + 896) * HIDDEN_BIT as nat + fraction * FRACTION_SURPLUS as nat
    };
    (sign + magnitude) as u64
}

/// The magnitude of the single that a finite double of the exponent field
/// `exponent`, from 863 to 1150, and of the significand `significand`
/// narrows to: the bits of the significand that a single has room for, and
/// one more where what is cut off is more than half of the last bit, or is
/// that half and the last bit is set.
pub open spec fn rounded(exponent: nat, significand: nat) -> nat {
    let cut = if exponent >= 897 {
        29nat
    } else {
        (926 - exponent) as nat
    };
    let kept = significand / pow2(cut);
    let rest = significand % pow2(cut);
    let low = if exponent >= 897 {
        ((exponent - 897) * SINGLE_HIDDEN_BIT + kept) as nat
    } else {
        kept
    };
    if 2 * rest > pow2(cut) || (2 * rest == pow2(cut) && low % 2 == 1) {
        low + 1
    } else {
        low
    }
}

/// The single that a double narrows to, field by field.
pub open spec fn narrowed(double: u64) -> u32 {
    let exponent = exponent_field(double);
    let fraction = fraction_field(double);
    let sign = if is_negative(double) {
        SINGLE_SIGN_BIT as nat
    } else {
        0
    };
    let magnitude = if exponent == EXPONENT_MAX {
        if fraction == 0 {
            SINGLE_INFINITY as nat
        } else {
            SINGLE_INFINITY as nat + quieted(fraction / FRACTION_SURPLUS as nat)
        }
    } else if exponent >= 1151 {
        SINGLE_INFINITY as nat
    } else if exponent < 863 {
        0
    } else {
        rounded(exponent, HIDDEN_BIT as nat + fraction)
    };
    (sign + magnitude) as u32
}

/// The fields of a single put together from a sign, an exponent and a fraction.
pub proof fn lemma_single_compose(negative: bool, exponent: u32, fraction: u32)
    requires
        exponent <= SINGLE_EXPONENT_MAX,
        fraction < SINGLE_HIDDEN_BIT,
    ensures
        ({
            let bits = ((if negative {
                SINGLE_SIGN_BIT as int
            } else {
                0
            }) + exponent * SINGLE_HIDDEN_BIT + fraction) as u32;
            &&& single_is_negative(bits) == negative
            &&& single_exponent_field(bits) == exponent
            &&& single_fraction_field(bits) == fraction
        }),
{
    assert(exponent * SINGLE_HIDDEN_BIT <= 0xFF * 0x80_0000) by (nonlinear_arith)
        requires
            exponent <= 0xFF,
            SINGLE_HIDDEN_BIT == 0x80_0000,
    ;
}

/// A single is made of its three fields.
pub proof fn lemma_single_fields(bits: u32)
    ensures
        single_exponent_field(bits) <= SINGLE_EXPONENT_MAX,
        single_fraction_field(bits) < SINGLE_HIDDEN_BIT,
        bits == (if single_is_negative(bits) {
            SINGLE_SIGN_BIT as int
        } else {
            0
        }) + single_exponent_field(bits) * SINGLE_HIDDEN_BIT + single_fraction_field(bits),
{
}

/// The sign of a single has no part in its fields, and a single that is a
/// number has a magnitude of at most the infinity.
proof fn lemma_without_sign(bits: u32)
    ensures
        single_exponent_field((bits % SINGLE_SIGN_BIT) as u32) == single_exponent_field(bits),
        single_fraction_field((bits % SINGLE_SIGN_BIT) as u32) == single_fraction_field(bits),
        single_steps((bits % SINGLE_SIGN_BIT) as u32) == single_steps(bits),
        !single_is_nan(bits) ==> bits % SINGLE_SIGN_BIT <= SINGLE_INFINITY,
{
}

/// The next single stands one step size further.
proof fn lemma_next_single(bits: u32)
    requires
        bits < SINGLE_INFINITY,
    ensures
        single_steps((bits + 1) as u32) == single_steps(bits) + single_step_size(bits),
        single_step_size(bits) > 0,
{
    let e = single_exponent_field(bits);
    let f = single_fraction_field(bits);
    lemma2_to64();
    if e > 0 {
        lemma_pow2_pos((e - 1) as nat);
    }
    if f + 1 < SINGLE_HIDDEN_BIT {
        assert(single_exponent_field((bits + 1) as u32) == e);
        assert(single_fraction_field((bits + 1) as u32) == f + 1);
        if e > 0 {
            let p = pow2((e - 1) as nat);
            assert((SINGLE_HIDDEN_BIT + f + 1) * p == (SINGLE_HIDDEN_BIT + f) * p + p)
                by (nonlinear_arith);
        }
    } else {
        assert(single_exponent_field((bits + 1) as u32) == e + 1);
        assert(single_fraction_field((bits + 1) as u32) == 0);
        if e > 0 {
            let p = pow2((e - 1) as nat);
            lemma_pow2_unfold(e);
            assert(SINGLE_HIDDEN_BIT * (2 * p) == (SINGLE_HIDDEN_BIT + f) * p + p)
                by (nonlinear_arith)
                requires
                    f + 1 == SINGLE_HIDDEN_BIT,
            ;
        } else {
            assert(SINGLE_HIDDEN_BIT * pow2(0) == SINGLE_HIDDEN_BIT) by (nonlinear_arith)
                requires
                    pow2(0) == 1,
            ;
        }
    }
}

/// Among the singles that are numbers, a larger pattern is a larger
/// magnitude.
proof fn lemma_single_steps_grow(a: u32, b: u32)
    requires
        a <= b <= SINGLE_INFINITY,
    ensures
        single_steps(a) <= single_steps(b),
        a < b ==> single_steps(a) < single_steps(b),
    decreases b - a,
{
    if a < b {
        lemma_single_steps_grow(a, (b - 1) as u32);
        lemma_next_single((b - 1) as u32);
    }
}

/// Where the magnitude of a finite double lies between a single and the next
/// one, every single is at least as far from it as the nearer of the two.
proof fn lemma_between(low: u32, double: u64, other: u32)
    requires
        low < SINGLE_INFINITY,
        single_steps(low) * steps_in_single_step() <= double_steps(double),
        double_steps(double) < single_steps((low + 1) as u32) * steps_in_single_step(),
        !single_is_nan(other),
    ensures
        gap(other, double) >= gap(low, double) && (gap(other, double) == gap(low, double)
            ==> single_steps(other) == single_steps(low)) || gap(other, double) >= gap(
            (low + 1) as u32,
            double,
        ) && (gap(other, double) == gap((low + 1) as u32, double) ==> single_steps(other)
            == single_steps((low + 1) as u32)),
{
    let unit = steps_in_single_step();
    let magnitude = (other % SINGLE_SIGN_BIT) as u32;
    lemma_without_sign(other);
    lemma_pow2_pos(925);
    if magnitude <= low {
        lemma_single_steps_grow(magnitude, low);
        assert(single_steps(other) * unit <= single_steps(low) * unit) by (nonlinear_arith)
            requires
                single_steps(other) <= single_steps(low),
                unit > 0,
        ;
        if gap(other, double) == gap(low, double) {
            assert(single_steps(other) == single_steps(low)) by (nonlinear_arith)
                requires
                    single_steps(other) * unit == single_steps(low) * unit,
                    unit > 0,
            ;
        }
    } else {
        lemma_single_steps_grow((low + 1) as u32, magnitude);
        assert(single_steps((low + 1) as u32) * unit <= single_steps(other) * unit)
            by (nonlinear_arith)
            requires
                single_steps((low + 1) as u32) <= single_steps(other),
                unit > 0,
        ;
        if gap(other, double) == gap((low + 1) as u32, double) {
            assert(single_steps(other) == single_steps((low + 1) as u32)) by (nonlinear_arith)
                requires
                    single_steps(other) * unit == single_steps((low + 1) as u32) * unit,
                    unit > 0,
            ;
        }
    }
}

/// Rounding to the nearer of a single and the next one, and to the one whose
/// last bit is zero where both are as near, gives a nearest single. `down` is
/// how far the double lies above the single `low`, `width` how far the next
/// single lies above `low`, both in steps of 2^-1074.
proof fn lemma_round(low: u32, double: u64, down: nat, width: nat, chosen: u32)
    requires
        low < SINGLE_INFINITY,
        down < width,
        double_steps(double) == single_steps(low) * steps_in_single_step() + down,
        single_steps((low + 1) as u32) * steps_in_single_step() == single_steps(low)
            * steps_in_single_step() + width,
        chosen == (if 2 * down > width || (2 * down == width && low % 2 == 1) {
            (low + 1) as u32
        } else {
            low
        }),
    ensures
        is_nearest(chosen, double),
{
    assert(gap(low, double) == down);
    assert(gap((low + 1) as u32, double) == width - down);
    assert(single_fraction_field(chosen) % 2 == chosen % 2);
    assert forall|other: u32| !single_is_nan(other) implies gap(chosen, double) <= #[trigger] gap(
        other,
        double,
    ) by {
        lemma_between(low, double, other);
    }
    assert forall|other: u32|
        !single_is_nan(other) && #[trigger] gap(other, double) == gap(chosen, double)
            && single_steps(other) != single_steps(chosen) implies single_fraction_field(chosen)
        % 2 == 0 by {
        lemma_between(low, double, other);
    }
}

/// A single is as near with a sign as without.
proof fn lemma_nearest_with_sign(chosen: u32, double: u64)
    requires
        chosen <= SINGLE_INFINITY,
        is_nearest(chosen, double),
    ensures
        is_nearest((SINGLE_SIGN_BIT + chosen) as u32, double),
{
    let signed = (SINGLE_SIGN_BIT + chosen) as u32;
    lemma_without_sign(signed);
    assert(signed % SINGLE_SIGN_BIT == chosen);
    assert(gap(signed, double) == gap(chosen, double));
    assert forall|other: u32| !single_is_nan(other) implies gap(signed, double) <= #[trigger] gap(
        other,
        double,
    ) by {}
    assert forall|other: u32|
        !single_is_nan(other) && #[trigger] gap(other, double) == gap(signed, double)
            && single_steps(other) != single_steps(signed) implies single_fraction_field(signed)
        % 2 == 0 by {}
}

/// The magnitude that rounding gives is a single that is a number, and is
/// nearest to the double.
proof fn lemma_rounded(double: u64)
    requires
        863 <= exponent_field(double) < 1151,
    ensures
        rounded(exponent_field(double), HIDDEN_BIT as nat + fraction_field(double))
            <= SINGLE_INFINITY,
        is_nearest(
            rounded(exponent_field(double), HIDDEN_BIT as nat + fraction_field(double)) as u32,
            double,
        ),
{
    let exponent = exponent_field(double);
    let sig = HIDDEN_BIT as nat + fraction_field(double);
    let unit = steps_in_single_step();
    let cut = if exponent >= 897 {
        29nat
    } else {
        (926 - exponent) as nat
    };
    let power = pow2(cut);
    let kept = sig / power;
    let rest = sig % power;
    let scale = (exponent - 1) as nat;
    let grain = pow2(scale);
    lemma2_to64();
    lemma2_to64_rest();
    lemma_pow2_pos(cut);
    lemma_pow2_pos(scale);
    lemma_fundamental_div_mod(sig as int, power as int);
    lemma_mod_bound(sig as int, power as int);
    lemma_pow2_monotonic(29, cut);
    let low = if exponent >= 897 {
        ((exponent - 897) * SINGLE_HIDDEN_BIT + kept) as nat
    } else {
        kept
    };
    if exponent >= 897 {
        assert(power == 0x2000_0000);
        assert(0x80_0000 <= kept < 0x100_0000);
        lemma_single_compose(false, (exponent - 896) as u32, (kept - 0x80_0000) as u32);
        assert(low == (exponent - 896) * SINGLE_HIDDEN_BIT + (kept - 0x80_0000));
    } else {
        lemma_pow2_monotonic(30, cut);
        lemma_pow2_adds(30, 23);
        assert(power * kept <= sig);
        assert(pow2(30) * 0x80_0000 == pow2(53));
        assert(kept < 0x80_0000) by (nonlinear_arith)
            requires
                power * kept < pow2(30) * 0x80_0000,
                power >= pow2(30),
        ;
        lemma_single_compose(false, 0, kept as u32);
    }
    assert(low < SINGLE_INFINITY);
    let low = low as u32;
    let chosen = rounded(exponent, sig);
    // in steps of a double: the single `low` stands at kept * power * grain,
    // the next one power * grain further, and the double rest * grain above
    // `low`
    lemma_next_single(low);
    let width = (power * grain) as nat;
    let down = (rest * grain) as nat;
    assert(double_steps(double) == sig * grain);
    assert(sig * grain == kept * power * grain + rest * grain) by (nonlinear_arith)
        requires
            sig == power * kept + rest,
    ;
    assert(down < width) by (nonlinear_arith)
        requires
            down == rest * grain,
            width == power * grain,
            rest < power,
            grain > 0,
    ;
    if exponent >= 897 {
        let e = (exponent - 897) as nat;
        lemma_pow2_adds(e, 925);
        lemma_pow2_adds(29, scale);
        assert(e + 925 == 29 + scale);
        assert(single_steps(low) == kept * pow2(e));
        assert(single_step_size(low) == pow2(e));
        assert(kept * pow2(e) * unit == kept * (pow2(e) * unit)) by (nonlinear_arith);
        assert(kept * power * grain == kept * (power * grain)) by (nonlinear_arith);
        assert(pow2(e) * unit == power * grain);
    } else {
        lemma_pow2_adds(cut, scale);
        assert(cut + scale == 925);
        assert(single_steps(low) == kept);
        assert(single_step_size(low) == 1);
        assert(kept * power * grain == kept * (power * grain)) by (nonlinear_arith);
        assert(1 * unit == unit) by (nonlinear_arith);
        assert(power * grain == unit);
    }
    assert(single_steps(low) * unit == kept * power * grain);
    assert(single_steps((low + 1) as u32) * unit == single_steps(low) * unit + width)
        by (nonlinear_arith)
        requires
            single_steps((low + 1) as u32) == single_steps(low) + single_step_size(low),
            single_step_size(low) * unit == width,
    ;
    assert((2 * down > width) == (2 * rest > power) && (2 * down == width) == (2 * rest
        == power)) by (nonlinear_arith)
        requires
            down == rest * grain,
            width == power * grain,
            grain > 0,
    ;
    lemma_round(low, double, down, width, chosen as u32);
}

/// The single that a double narrows to is what narrowing is said to be.
pub proof fn lemma_narrowed(double: u64)
    ensures
        narrows_to(double, narrowed(double)),
{
    let exponent = exponent_field(double);
    let fraction = fraction_field(double);
    let negative = is_negative(double);
    let unit = steps_in_single_step();
    lemma2_to64();
    lemma2_to64_rest();
    lemma_fields(double);
    if exponent == EXPONENT_MAX {
        let kept = if fraction == 0 {
            0nat
        } else {
            quieted(fraction / FRACTION_SURPLUS as nat)
        };
        lemma_single_compose(negative, SINGLE_EXPONENT_MAX, kept as u32);
    } else if exponent >= 1151 {
        // at least 2^128: beyond every finite single
        let scale = (exponent - 1) as nat;
        lemma_single_compose(negative, SINGLE_EXPONENT_MAX, 0);
        lemma_single_compose(false, SINGLE_EXPONENT_MAX, 0);
        lemma_pow2_adds(23, 254);
        lemma_pow2_adds(277, 925);
        lemma_pow2_adds(52, 1150);
        lemma_pow2_monotonic(1150, scale);
        assert(double_steps(double) >= pow2(52) * pow2(1150)) by (nonlinear_arith)
            requires
                double_steps(double) == (HIDDEN_BIT + fraction) * pow2(scale),
                HIDDEN_BIT == pow2(52),
                pow2(1150) <= pow2(scale),
        ;
        assert(single_steps(SINGLE_INFINITY) == pow2(23) * pow2(254));
        assert forall|other: u32| !single_is_nan(other) implies gap(SINGLE_INFINITY, double)
            <= #[trigger] gap(other, double) && (gap(other, double) == gap(
            SINGLE_INFINITY,
            double,
        ) ==> single_steps(other) == single_steps(SINGLE_INFINITY)) by {
            lemma_without_sign(other);
            lemma_single_steps_grow((other % SINGLE_SIGN_BIT) as u32, SINGLE_INFINITY);
            lemma_pow2_pos(925);
            assert(single_steps(other) * unit <= single_steps(SINGLE_INFINITY) * unit)
                by (nonlinear_arith)
                requires
                    single_steps(other) <= single_steps(SINGLE_INFINITY),
                    unit > 0,
            ;
            if gap(other, double) == gap(SINGLE_INFINITY, double) {
                assert(single_steps(other) == single_steps(SINGLE_INFINITY)) by (nonlinear_arith)
                    requires
                        single_steps(other) * unit == single_steps(SINGLE_INFINITY) * unit,
                        unit > 0,
                ;
            }
        }
        assert(is_nearest(SINGLE_INFINITY, double));
        if negative {
            lemma_nearest_with_sign(SINGLE_INFINITY, double);
        }
    } else if exponent < 863 {
        // less than half the smallest single
        lemma_single_compose(negative, 0, 0);
        lemma_single_compose(false, 0, 0);
        lemma_single_compose(false, 0, 1);
        lemma_pow2_pos(925);
        assert(0 * unit == 0) by (nonlinear_arith);
        assert(1 * unit == unit) by (nonlinear_arith);
        if exponent == 0 {
            lemma_pow2_monotonic(53, 925);
        } else {
            let scale = (exponent - 1) as nat;
            lemma_pow2_adds(53, 861);
            lemma_pow2_monotonic(scale, 861);
            lemma_pow2_monotonic(915, 925);
            lemma_pow2_unfold(915);
            lemma_pow2_pos(scale);
            assert((HIDDEN_BIT + fraction) * pow2(scale) < pow2(53) * pow2(861))
                by (nonlinear_arith)
                requires
                    HIDDEN_BIT + fraction < pow2(53),
                    pow2(scale) <= pow2(861),
                    pow2(scale) > 0,
            ;
        }
        lemma_round(0, double, double_steps(double), unit, 0);
        if negative {
            lemma_nearest_with_sign(0, double);
        }
    } else {
        lemma_rounded(double);
        let chosen = rounded(exponent, HIDDEN_BIT as nat + fraction) as u32;
        lemma_single_fields(chosen);
        lemma_single_compose(
            negative,
            single_exponent_field(chosen) as u32,
            single_fraction_field(chosen) as u32,
        );
        lemma_single_steps_grow(chosen, SINGLE_INFINITY);
        if negative {
            lemma_nearest_with_sign(chosen, double);
        }
    }
}

/// The double that a single widens to is what widening is said to be.
pub proof fn lemma_widened(single: u32)
    ensures
        widens_to(single, widened(single)),
{
    let exponent = single_exponent_field(single);
    let fraction = single_fraction_field(single);
    let negative = single_is_negative(single);
    lemma2_to64();
    lemma2_to64_rest();
    lemma_single_fields(single);
    if exponent == SINGLE_EXPONENT_MAX {
        let kept = if fraction == 0 {
            0nat
        } else {
            quieted(fraction) * FRACTION_SURPLUS as nat
        };
        lemma_compose(negative, EXPONENT_MAX, kept as u64);
    } else if exponent == 0 {
        if fraction == 0 {
            lemma_compose(negative, 0, 0);
            assert(0 * steps_in_single_step() == 0) by (nonlinear_arith);
        } else {
            // a subnormal single is a normal double: the highest bit of the
            // fraction becomes the hidden bit
            let high = highest_bit(fraction);
            lemma_highest_bit(fraction);
            if high >= 23 {
                lemma_pow2_monotonic(23, high);
            }
            let shift = (52 - high) as nat;
            let power = pow2(shift);
            lemma_pow2_adds(high, shift);
            lemma_pow2_adds(high + 1, shift);
            lemma_pow2_pos(shift);
            assert(pow2(high) * power <= fraction * power) by (nonlinear_arith)
                requires
                    pow2(high) <= fraction,
                    power > 0,
            ;
            assert(fraction * power < pow2(high + 1) * power) by (nonlinear_arith)
                requires
                    fraction < pow2(high + 1),
                    power > 0,
            ;
            let sig = fraction * power;
            let wide = high + 874;
            lemma_compose(negative, wide as u64, (sig - HIDDEN_BIT) as u64);
            // fraction * 2^(52 - high) * 2^(high + 873) is fraction * 2^925
            lemma_pow2_adds(shift, (wide - 1) as nat);
            assert(fraction * power * pow2((wide - 1) as nat) == fraction * (power * pow2(
                (wide - 1) as nat,
            ))) by (nonlinear_arith);
        }
    } else {
        let wide = exponent + 896;
        let kept = fraction * FRACTION_SURPLUS as nat;
        lemma_compose(negative, wide as u64, kept as u64);
        // (2^23 + fraction) * 2^29 * 2^(exponent + 895) is
        // (2^23 + fraction) * 2^(exponent - 1) * 2^925
        let e = (exponent - 1) as nat;
        lemma_pow2_adds(e, 925);
        lemma_pow2_adds(29, (wide - 1) as nat);
        let s = SINGLE_HIDDEN_BIT as nat + fraction;
        assert(HIDDEN_BIT as nat + kept == s * pow2(29));
        assert(s * pow2(29) * pow2((wide - 1) as nat) == s * (pow2(29) * pow2((wide - 1) as nat)))
            by (nonlinear_arith);
        assert(s * pow2(e) * pow2(925) == s * (pow2(e) * pow2(925))) by (nonlinear_arith);
        assert(29 + (wide - 1) == e + 925);
    }
}

/// A single that is widened and narrowed again is the single that it was,
/// unless it is a value that is not a number and is not quiet.
pub proof fn lemma_single_comes_back(single: u32)
    requires
        !single_is_nan(single) || single_fraction_field(single) >= SINGLE_QUIET_BIT,
    ensures
        narrowed(widened(single)) == single,
{
    let double = widened(single);
    let back = narrowed(double);
    lemma_widened(single);
    lemma_narrowed(double);
    lemma_single_fields(single);
    lemma_single_fields(back);
    lemma2_to64();
    if single_is_finite(single) {
        // the single itself is no way off the double, so neither is the
        // nearest one
        assert(gap(single, double) == 0);
        assert(gap(back, double) == 0);
        lemma_pow2_pos(925);
        assert(single_steps(back) == single_steps(single)) by (nonlinear_arith)
            requires
                single_steps(back) * steps_in_single_step() == single_steps(single)
                    * steps_in_single_step(),
                steps_in_single_step() > 0,
        ;
        lemma_without_sign(single);
        lemma_without_sign(back);
        let a = (single % SINGLE_SIGN_BIT) as u32;
        let b = (back % SINGLE_SIGN_BIT) as u32;
        if a < b {
            lemma_single_steps_grow(a, b);
        }
        if b < a {
            lemma_single_steps_grow(b, a);
        }
    } else if single_is_nan(single) {
        assert(fraction_field(double) / FRACTION_SURPLUS as nat == single_fraction_field(single))
            by (nonlinear_arith)
            requires
                fraction_field(double) == single_fraction_field(single) * FRACTION_SURPLUS,
                FRACTION_SURPLUS == 0x2000_0000,
        ;
    }
}

/// The double of the same value as a single.
pub fn widen(single: u32) -> (double: u64)
    ensures
        double == widened(single),
        widens_to(single, double),
{
    let exponent = (single / SINGLE_HIDDEN_BIT) % 0x100;
    let fraction = single % SINGLE_HIDDEN_BIT;
    let sign: u64 = if single >= SINGLE_SIGN_BIT {
        SIGN_BIT
    } else {
        0
    };
    proof {
        lemma_widened(single);
        lemma2_to64();
        lemma2_to64_rest();
    }
    if exponent == SINGLE_EXPONENT_MAX {
        let kept: u64 = if fraction == 0 {
            0
        } else if fraction < SINGLE_QUIET_BIT {
            (fraction + SINGLE_QUIET_BIT) as u64 * FRACTION_SURPLUS
        } else {
            fraction as u64 * FRACTION_SURPLUS
        };
        return sign + EXPONENT_MAX * HIDDEN_BIT + kept;
    }
    if exponent == 0 {
        if fraction == 0 {
            return sign;
        }
        let mut top: u32 = fraction;
        let mut high: u64 = 0;
        while top > 1
            invariant
                top >= 1,
                high + top <= fraction,
                high + highest_bit(top as nat) == highest_bit(fraction as nat),
            decreases top,
        {
            top = top / 2;
            high = high + 1;
        }
        proof {
            lemma_highest_bit(fraction as nat);
            if high >= 23 {
                lemma_pow2_monotonic(23, high as nat);
            }
            let shift = (52 - high) as nat;
            lemma_pow2_adds(high as nat, shift);
            lemma_pow2_adds((high + 1) as nat, shift);
            lemma_pow2_pos(shift);
            assert(pow2(high as nat) * pow2(shift) <= fraction * pow2(shift)) by (nonlinear_arith)
                requires
                    pow2(high as nat) <= fraction,
                    pow2(shift) > 0,
            ;
            assert(fraction * pow2(shift) < pow2((high + 1) as nat) * pow2(shift))
                by (nonlinear_arith)
                requires
                    fraction < pow2((high + 1) as nat),
                    pow2(shift) > 0,
            ;
        }
        let power = power_of_two(52 - high);
        let sig = fraction as u64 * power;
        return sign + (high + 874) * HIDDEN_BIT + (sig - HIDDEN_BIT);
    }
    sign + (exponent as u64 + 896) * HIDDEN_BIT + fraction as u64 * FRACTION_SURPLUS
}

/// The single nearest to a double, and of two that are equally near the one
/// whose last bit is zero.
pub fn narrow(double: u64) -> (single: u32)
    ensures
        single == narrowed(double),
        narrows_to(double, single),
{
    let exponent = (double / HIDDEN_BIT) % 0x800;
    let fraction = double % HIDDEN_BIT;
    let sign: u32 = if double >= SIGN_BIT {
        SINGLE_SIGN_BIT
    } else {
        0
    };
    proof {
        lemma_narrowed(double);
        lemma2_to64();
        lemma2_to64_rest();
    }
    if exponent == EXPONENT_MAX {
        let leading = (fraction / FRACTION_SURPLUS) as u32;
        let kept: u32 = if fraction == 0 {
            0
        } else if leading < SINGLE_QUIET_BIT {
            leading + SINGLE_QUIET_BIT
        } else {
            leading
        };
        return sign + SINGLE_INFINITY + kept;
    }
    if exponent >= 1151 {
        return sign + SINGLE_INFINITY;
    }
    if exponent < 863 {
        return sign;
    }
    let sig = HIDDEN_BIT + fraction;
    let cut = if exponent >= 897 {
        29
    } else {
        926 - exponent
    };
    let power = power_of_two(cut);
    let kept = sig / power;
    let rest = sig % power;
    let half = power / 2;
    proof {
        lemma_rounded(double);
        lemma_pow2_pos(cut as nat);
        lemma_pow2_unfold(cut as nat);
        lemma_pow2_monotonic(29, cut as nat);
        lemma_fundamental_div_mod(sig as int, power as int);
        assert(power >= 0x2000_0000);
        assert(kept < 0x100_0000) by (nonlinear_arith)
            requires
                sig == power * kept + rest,
                sig < 0x20_0000_0000_0000,
                power >= 0x2000_0000,
                rest >= 0,
        ;
    }
    let low: u64 = if exponent >= 897 {
        (exponent - 897) * 0x80_0000 + kept
    } else {
        kept
    };
    let up = rest > half || (rest == half && low % 2 == 1);
    let magnitude = if up {
        low + 1
    } else {
        low
    };
    sign + magnitude as u32
}

} // verus!
