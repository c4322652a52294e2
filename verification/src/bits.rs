//! IEEE 754 numbers as their bit patterns.
//!
//! A single-precision number is held as its 32 bits in a `u32`, a
//! double-precision number as its 64 bits in a `u64`. Everything that the
//! library decides about a number (whether it is finite, how two of them
//! compare) is decided here on the bits.
use vstd::arithmetic::power2::*;
use vstd::prelude::*;

verus! {

/// Half of the range of a `u32`: the sign bit of a single.
pub const SINGLE_SIGN: u32 = 0x8000_0000;

/// The magnitude bits of a single's infinity; NaNs lie above, finite numbers below.
pub const SINGLE_INFINITY: u32 = 0x7f80_0000;

/// The sign bit of a double.
pub const DOUBLE_SIGN: u64 = 0x8000_0000_0000_0000;

/// The magnitude bits of a double's infinity; NaNs lie above, finite numbers below.
pub const DOUBLE_INFINITY: u64 = 0x7ff0_0000_0000_0000;

/// A single that is neither infinite nor a NaN.
pub open spec fn single_finite(bits: u32) -> bool {
    bits % SINGLE_SIGN < SINGLE_INFINITY
}

/// A single that is zero, of either sign.
pub open spec fn single_zero(bits: u32) -> bool {
    bits % SINGLE_SIGN == 0
}

/// The place of a single in the total order of bit patterns: negative patterns
/// come first, larger magnitudes before smaller, then the positive patterns.
pub open spec fn single_rank(bits: u32) -> int {
    if bits < SINGLE_SIGN {
        bits as int
    } else {
        SINGLE_SIGN - 1 - bits
    }
}

/// A double that is a NaN.
pub open spec fn double_nan(bits: u64) -> bool {
    bits % DOUBLE_SIGN > DOUBLE_INFINITY
}

/// A double that is neither infinite nor a NaN.
pub open spec fn double_finite(bits: u64) -> bool {
    bits % DOUBLE_SIGN < DOUBLE_INFINITY
}

/// The place of a double on the number line; both zeros share one place. Only
/// meant for a double that is not a NaN.
pub open spec fn double_rank(bits: u64) -> int {
    if bits < DOUBLE_SIGN {
        bits as int
    } else {
        DOUBLE_SIGN - bits
    }
}

/// Numeric `a == b`: a NaN equals nothing, and the zeros are equal.
pub open spec fn double_equal(a: u64, b: u64) -> bool {
    !double_nan(a) && !double_nan(b) && double_rank(a) == double_rank(b)
}

/// Numeric `a < b`: false when either is a NaN.
pub open spec fn double_less(a: u64, b: u64) -> bool {
    !double_nan(a) && !double_nan(b) && double_rank(a) < double_rank(b)
}

/// Numeric `a >= b`: false when either is a NaN.
pub open spec fn double_at_least(a: u64, b: u64) -> bool {
    !double_nan(a) && !double_nan(b) && double_rank(a) >= double_rank(b)
}

/// The magnitude bits of the double nearest to `magnitude`, where
/// `2^exponent <= magnitude < 2^(exponent + 1)`: the biased exponent above 52
/// fraction bits, rounded to nearest with ties to even.
pub open spec fn nearest_magnitude(magnitude: nat, exponent: nat) -> nat {
    let lead = ((exponent + 1022) * pow2(52)) as nat;
    if exponent <= 52 {
        (lead + magnitude * pow2((52 - exponent) as nat)) as nat
    } else {
        let unit = pow2((exponent - 52) as nat);
        let kept = magnitude / unit;
        let rest = magnitude % unit;
        if 2 * rest > unit || (2 * rest == unit && kept % 2 == 1) {
            (lead + kept + 1) as nat
        } else {
            (lead + kept) as nat
        }
    }
}

/// The position of the highest bit of `n`.
pub open spec fn top_bit(n: nat) -> nat
    decreases n,
{
    if n < 2 {
        0
    } else {
        top_bit(n / 2) + 1
    }
}

/// The magnitude bits of the double nearest to a natural number.
pub open spec fn magnitude_bits(magnitude: nat) -> nat {
    if magnitude == 0 {
        0
    } else {
        nearest_magnitude(magnitude, top_bit(magnitude))
    }
}

/// The bits of the double nearest to an integer, ties to even.
pub open spec fn integer_double(value: int) -> int {
    if value >= 0 {
        magnitude_bits(value as nat) as int
    } else {
        DOUBLE_SIGN + magnitude_bits((-value) as nat)
    }
}

/// Whether a single is finite.
pub fn is_single_finite(bits: u32) -> (finite: bool)
    ensures
        finite == single_finite(bits),
{
    bits % SINGLE_SIGN < SINGLE_INFINITY
}

/// Whether a single is zero.
pub fn is_single_zero(bits: u32) -> (zero: bool)
    ensures
        zero == single_zero(bits),
{
    bits % SINGLE_SIGN == 0
}

/// The place of a single in the total order.
pub fn single_place(bits: u32) -> (rank: i64)
    ensures
        rank == single_rank(bits),
        -0x8000_0000 <= rank < 0x8000_0000,
{
    if bits < SINGLE_SIGN {
        bits as i64
    } else {
        (SINGLE_SIGN - 1) as i64 - bits as i64
    }
}

/// Whether a double is a NaN.
pub fn is_double_nan(bits: u64) -> (nan: bool)
    ensures
        nan == double_nan(bits),
{
    bits % DOUBLE_SIGN > DOUBLE_INFINITY
}

/// Whether a double is finite.
pub fn is_double_finite(bits: u64) -> (finite: bool)
    ensures
        finite == double_finite(bits),
{
    bits % DOUBLE_SIGN < DOUBLE_INFINITY
}

/// The place of a double on the number line.
pub fn double_place(bits: u64) -> (rank: i128)
    ensures
        rank == double_rank(bits),
{
    if bits < DOUBLE_SIGN {
        bits as i128
    } else {
        DOUBLE_SIGN as i128 - bits as i128
    }
}

/// Numeric `a == b`.
pub fn is_double_equal(a: u64, b: u64) -> (equal: bool)
    ensures
        equal == double_equal(a, b),
{
    !is_double_nan(a) && !is_double_nan(b) && double_place(a) == double_place(b)
}

/// Numeric `a < b`.
pub fn is_double_less(a: u64, b: u64) -> (less: bool)
    ensures
        less == double_less(a, b),
{
    !is_double_nan(a) && !is_double_nan(b) && double_place(a) < double_place(b)
}

/// Numeric `a >= b`.
pub fn is_double_at_least(a: u64, b: u64) -> (at_least: bool)
    ensures
        at_least == double_at_least(a, b),
{
    !is_double_nan(a) && !is_double_nan(b) && double_place(a) >= double_place(b)
}

proof fn lemma_top_bit(n: nat)
    requires
        n > 0,
    ensures
        pow2(top_bit(n)) <= n < 2 * pow2(top_bit(n)),
    decreases n,
{
    lemma2_to64();
    if n >= 2 {
        lemma_top_bit(n / 2);
        lemma_pow2_unfold(top_bit(n));
    }
}

fn highest_bit(n: u64) -> (bit: u32)
    requires
        n > 0,
    ensures
        bit == top_bit(n as nat),
        bit < 64,
{
    let mut rest: u64 = n;
    let mut bit: u32 = 0;
    proof {
        lemma2_to64();
    }
    while rest >= 2
        invariant
            rest > 0,
            bit + top_bit(rest as nat) == top_bit(n as nat),
            bit <= 63,
            rest < pow2((64 - bit) as nat),
        decreases rest,
    {
        proof {
            lemma2_to64();
            lemma_pow2_unfold((64 - bit) as nat);
            if bit == 63 {
                assert(pow2(1) == 2);
            }
        }
        rest = rest / 2;
        bit = bit + 1;
    }
    bit
}

fn power_of_two(exponent: u32) -> (power: u128)
    requires
        exponent < 64,
    ensures
        power == pow2(exponent as nat),
        1 <= power <= 0x8000_0000_0000_0000,
{
    let mut power: u128 = 1;
    let mut done: u32 = 0;
    proof {
        lemma2_to64();
    }
    while done < exponent
        invariant
            done <= exponent,
            exponent < 64,
            power == pow2(done as nat),
            power <= 0x8000_0000_0000_0000,
        decreases exponent - done,
    {
        proof {
            lemma2_to64_rest();
            lemma_pow2_unfold((done + 1) as nat);
            lemma_pow2_le((done + 1) as nat, 63);
        }
        power = power * 2;
        done = done + 1;
    }
    proof {
        lemma_pow2_pos(exponent as nat);
    }
    power
}

proof fn lemma_pow2_le(a: nat, b: nat)
    requires
        a <= b,
    ensures
        pow2(a) <= pow2(b),
{
    if a < b {
        lemma_pow2_strictly_increases(a, b);
    }
}

fn natural_magnitude(magnitude: u64) -> (bits: u64)
    requires
        magnitude <= 0x8000_0000_0000_0000,
    ensures
        bits == magnitude_bits(magnitude as nat),
        bits < DOUBLE_INFINITY,
{
    if magnitude == 0 {
        return 0;
    }
    let exponent: u32 = highest_bit(magnitude);
    let lead: u128 = (exponent as u128 + 1022) * 0x10_0000_0000_0000;
    proof {
        lemma_top_bit(magnitude as nat);
        lemma2_to64();
        lemma2_to64_rest();
        assert(pow2(52) == 0x10_0000_0000_0000);
    }
    if exponent <= 52 {
        let scale: u128 = power_of_two(52 - exponent);
        proof {
            lemma_pow2_adds(exponent as nat, (52 - exponent) as nat);
            assert(magnitude * scale < 2 * pow2(exponent as nat) * scale) by (nonlinear_arith)
                requires
                    magnitude < 2 * pow2(exponent as nat),
                    scale >= 1,
            ;
            assert(2 * pow2(exponent as nat) * scale == 2 * (pow2(exponent as nat) * scale))
                by (nonlinear_arith);
        }
        let scaled: u128 = magnitude as u128 * scale;
        let bits: u128 = lead + scaled;
        bits as u64
    } else {
        let unit: u128 = power_of_two(exponent - 52);
        let kept: u128 = magnitude as u128 / unit;
        let rest: u128 = magnitude as u128 % unit;
        proof {
            lemma_pow2_adds((exponent - 52) as nat, 52);
            assert(kept <= 2 * pow2(52)) by (nonlinear_arith)
                requires
                    kept == magnitude as int / unit as int,
                    unit >= 1,
                    magnitude < 2 * (unit * pow2(52)),
            ;
        }
        let bits: u128 = if 2 * rest > unit || (2 * rest == unit && kept % 2 == 1) {
            lead + kept + 1
        } else {
            lead + kept
        };
        bits as u64
    }
}

/// The double nearest to an integer, ties to even.
pub fn double_from_integer(value: i64) -> (bits: u64)
    ensures
        bits == integer_double(value as int),
        double_finite(bits),
{
    if value >= 0 {
        natural_magnitude(value as u64)
    } else {
        let magnitude: u64 = if value == i64::MIN {
            0x8000_0000_0000_0000
        } else {
            (-value) as u64
        };
        DOUBLE_SIGN + natural_magnitude(magnitude)
    }
}

proof fn lemma_magnitude_bits(magnitude: nat)
    requires
        magnitude <= 0x8000_0000_0000_0000,
    ensures
        magnitude_bits(magnitude) < DOUBLE_INFINITY,
{
    lemma2_to64();
    lemma2_to64_rest();
    if magnitude > 0 {
        let exponent = top_bit(magnitude);
        lemma_top_bit(magnitude);
        if exponent > 63 {
            lemma_pow2_strictly_increases(63, exponent);
        }
        assert(exponent <= 63);
        if exponent <= 52 {
            let scale = pow2((52 - exponent) as nat);
            lemma_pow2_adds(exponent, (52 - exponent) as nat);
            lemma_pow2_pos((52 - exponent) as nat);
            assert(magnitude * scale < 2 * (pow2(exponent) * scale)) by (nonlinear_arith)
                requires
                    magnitude < 2 * pow2(exponent),
                    scale > 0,
            ;
        } else {
            let unit = pow2((exponent - 52) as nat);
            lemma_pow2_pos((exponent - 52) as nat);
            lemma_pow2_adds((exponent - 52) as nat, 52);
            assert(magnitude / unit <= 2 * pow2(52)) by (nonlinear_arith)
                requires
                    unit > 0,
                    magnitude < 2 * (unit * pow2(52)),
            ;
        }
    }
}

/// The double nearest to an `i64` is finite.
pub proof fn lemma_integer_double_finite(value: i64)
    ensures
        0 <= integer_double(value as int) <= u64::MAX,
        double_finite(integer_double(value as int) as u64),
{
    if value >= 0 {
        lemma_magnitude_bits(value as nat);
    } else {
        lemma_magnitude_bits((-value) as nat);
    }
}

/// The number that a finite double stands for, in units of `2^-1074`, by the definition
/// of the format: 52 fraction bits below an exponent of 11 bits, with a leading one
/// unless the exponent is zero, and a sign.
pub open spec fn double_value(bits: u64) -> int {
    let magnitude = (bits % DOUBLE_SIGN) as int;
    let value = format_value(magnitude, 52);
    if bits < DOUBLE_SIGN {
        value
    } else {
        -value
    }
}

/// The number that a finite single stands for, in units of `2^-149`.
pub open spec fn single_value(bits: u32) -> int {
    let magnitude = (bits % SINGLE_SIGN) as int;
    let value = format_value(magnitude, 23);
    if bits < SINGLE_SIGN {
        value
    } else {
        -value
    }
}

/// The number behind the magnitude bits of a format with so many fraction bits, in units
/// of its smallest number.
pub open spec fn format_value(magnitude: int, fraction_bits: nat) -> int {
    let unit = pow2(fraction_bits) as int;
    let exponent = magnitude / unit;
    let fraction = magnitude % unit;
    if exponent == 0 {
        fraction
    } else {
        (unit + fraction) * pow2((exponent - 1) as nat)
    }
}

/// Larger magnitude bits stand for larger numbers.
proof fn lemma_format_value_grows(a: int, b: int, fraction_bits: nat)
    requires
        0 <= a < b,
    ensures
        0 <= format_value(a, fraction_bits) < format_value(b, fraction_bits),
{
    let unit = pow2(fraction_bits) as int;
    lemma_pow2_pos(fraction_bits);
    let ea = a / unit;
    let eb = b / unit;
    let fa = a % unit;
    let fb = b % unit;
    vstd::arithmetic::div_mod::lemma_fundamental_div_mod(a, unit);
    vstd::arithmetic::div_mod::lemma_fundamental_div_mod(b, unit);
    assert(0 <= fa < unit && 0 <= fb < unit && 0 <= ea && 0 <= eb) by (nonlinear_arith)
        requires
            unit > 0,
            fa == a % unit,
            fb == b % unit,
            ea == a / unit,
            eb == b / unit,
            0 <= a,
            0 <= b,
    ;
    assert(ea <= eb && (ea == eb ==> fa < fb)) by (nonlinear_arith)
        requires
            a < b,
            a == unit * ea + fa,
            b == unit * eb + fb,
            0 <= fa < unit,
            0 <= fb < unit,
            unit > 0,
    ;
    if ea == eb {
        if ea > 0 {
            let p = pow2((ea - 1) as nat) as int;
            lemma_pow2_pos((ea - 1) as nat);
            assert(0 <= (unit + fa) * p < (unit + fb) * p) by (nonlinear_arith)
                requires
                    p > 0,
                    0 <= unit + fa < unit + fb,
            ;
        }
    } else {
        let q = pow2((eb - 1) as nat) as int;
        lemma_pow2_pos((eb - 1) as nat);
        assert((unit + fb) * q >= unit * q) by (nonlinear_arith)
            requires
                fb >= 0,
                q > 0,
        ;
        assert(unit * q >= unit) by (nonlinear_arith)
            requires
                q >= 1,
                unit > 0,
        ;
        if ea > 0 {
            let p = pow2((ea - 1) as nat) as int;
            lemma_pow2_pos((ea - 1) as nat);
            lemma_pow2_unfold(ea as nat);
            lemma_pow2_le(ea as nat, (eb - 1) as nat);
            assert(0 <= (unit + fa) * p < 2 * unit * p) by (nonlinear_arith)
                requires
                    p > 0,
                    0 <= unit + fa < 2 * unit,
            ;
            assert(2 * unit * p <= unit * q) by (nonlinear_arith)
                requires
                    2 * p <= q,
                    unit > 0,
            ;
        }
    }
}

proof fn lemma_format_value_order(a: int, b: int, fraction_bits: nat)
    requires
        0 <= a,
        0 <= b,
    ensures
        format_value(a, fraction_bits) < format_value(b, fraction_bits) <==> a < b,
        format_value(a, fraction_bits) >= 0,
        format_value(a, fraction_bits) == 0 <==> a == 0,
{
    lemma_pow2_pos(fraction_bits);
    assert(format_value(0, fraction_bits) == 0) by {
        let unit = pow2(fraction_bits) as int;
        assert(0int / unit == 0 && 0int % unit == 0) by (nonlinear_arith)
            requires
                unit > 0,
        ;
    }
    if a > 0 {
        lemma_format_value_grows(0, a, fraction_bits);
    }
    if a < b {
        lemma_format_value_grows(a, b, fraction_bits);
    } else if b < a {
        lemma_format_value_grows(b, a, fraction_bits);
    }
}

/// Doubles compare as the numbers that they stand for.
pub proof fn law_doubles_compare_as_numbers(a: u64, b: u64)
    requires
        double_finite(a),
        double_finite(b),
    ensures
        double_less(a, b) <==> double_value(a) < double_value(b),
        double_equal(a, b) <==> double_value(a) == double_value(b),
        double_at_least(a, b) <==> double_value(a) >= double_value(b),
{
    let x = (a % DOUBLE_SIGN) as int;
    let y = (b % DOUBLE_SIGN) as int;
    lemma_format_value_order(x, y, 52);
    lemma_format_value_order(y, x, 52);
}

/// A double with its sign turned round.
pub open spec fn double_negated(bits: u64) -> u64 {
    if bits < DOUBLE_SIGN {
        (bits + DOUBLE_SIGN) as u64
    } else {
        (bits - DOUBLE_SIGN) as u64
    }
}

/// Turning both signs round turns a comparison round. Infinities lie outside of every
/// finite number, and a NaN compares with nothing.
pub proof fn law_negation_turns_comparisons_round(a: u64, b: u64)
    ensures
        double_less(a, b) <==> double_less(double_negated(b), double_negated(a)),
        double_equal(a, b) <==> double_equal(double_negated(b), double_negated(a)),
        double_finite(a) ==> double_less(a, DOUBLE_INFINITY) && double_less(
            double_negated(DOUBLE_INFINITY),
            a,
        ),
        double_nan(a) ==> !double_less(a, b) && !double_less(b, a) && !double_equal(a, b)
            && !double_equal(b, a) && !double_at_least(a, b) && !double_at_least(b, a),
{
}

/// Singles are ranked as the numbers that they stand for; of the two zeros the negative
/// one comes first.
pub proof fn law_singles_are_ranked_as_numbers(a: u32, b: u32)
    requires
        single_finite(a),
        single_finite(b),
    ensures
        single_rank(a) < single_rank(b) <==> single_value(a) < single_value(b) || (a == SINGLE_SIGN
            && b == 0),
        single_rank(a) == single_rank(b) <==> a == b,
{
    let x = (a % SINGLE_SIGN) as int;
    let y = (b % SINGLE_SIGN) as int;
    lemma_format_value_order(x, y, 23);
    lemma_format_value_order(y, x, 23);
}

proof fn lemma_exact_magnitude(n: nat)
    requires
        n <= pow2(53),
    ensures
        format_value(magnitude_bits(n) as int, 52) == n * pow2(1074),
        magnitude_bits(n) < DOUBLE_INFINITY,
{
    let unit = pow2(52) as int;
    lemma2_to64();
    lemma2_to64_rest();
    lemma_pow2_pos(52);
    assert(pow2(53) <= 0x8000_0000_0000_0000);
    lemma_magnitude_bits(n);
    if n > 0 {
        let e = top_bit(n);
        lemma_top_bit(n);
        if e > 53 {
            lemma_pow2_strictly_increases(53, e);
        }
        // The significand, with its leading one, and the exponent above it.
        let s = if e <= 52 {
            n * pow2((52 - e) as nat)
        } else {
            n / 2
        };
        if e <= 52 {
            lemma_pow2_adds(e, (52 - e) as nat);
            lemma_pow2_pos((52 - e) as nat);
            let p = pow2((52 - e) as nat);
            let q = pow2(e);
            assert(q * p <= n * p < 2 * (q * p)) by (nonlinear_arith)
                requires
                    q <= n < 2 * q,
                    p > 0,
            ;
            lemma_pow2_adds((52 - e) as nat, (e + 1022) as nat);
            let t = pow2((e + 1022) as nat);
            assert((n * p) * t == n * (p * t)) by (nonlinear_arith);
            assert(p * t == pow2(1074));
        } else {
            assert(e == 53);
            assert(n == pow2(53));
            assert(pow2((53 - 52) as nat) == 2);
            assert(n / 2 == pow2(52) && n % 2 == 0);
            lemma_pow2_unfold(1076);
            lemma_pow2_adds(1, 1074);
            lemma_pow2_adds(52, 1075);
            lemma_pow2_adds(53, 1074);
        }
        let bits = magnitude_bits(n) as int;
        assert(bits == (e + 1022) * unit + s);
        assert(unit <= s < 2 * unit);
        let fraction = s - unit;
        assert(bits == (e + 1023) * unit + fraction) by (nonlinear_arith)
            requires
                bits == (e + 1022) * unit + s,
                fraction == s - unit,
        ;
        vstd::arithmetic::div_mod::lemma_fundamental_div_mod_converse(
            bits,
            unit,
            (e + 1023) as int,
            fraction,
        );
        assert(format_value(bits, 52) == s * pow2((e + 1022) as nat));
    } else {
        assert(0int / unit == 0 && 0int % unit == 0) by (nonlinear_arith)
            requires
                unit > 0,
        ;
        assert(0 * pow2(1074) == 0);
    }
}

/// The double of an integer of at most 53 bits is that integer.
pub proof fn law_integers_are_exact(value: i64)
    requires
        -pow2(53) <= value <= pow2(53),
    ensures
        double_finite(integer_double(value as int) as u64),
        double_value(integer_double(value as int) as u64) == value * pow2(1074),
{
    lemma_integer_double_finite(value);
    if value >= 0 {
        lemma_exact_magnitude(value as nat);
    } else {
        lemma_exact_magnitude((-value) as nat);
        let s = pow2(1074) as int;
        assert(-((-value) * s) == value * s) by (nonlinear_arith);
    }
}

/// Integers of at most 53 bits compare as doubles as they do themselves.
pub proof fn law_integers_keep_their_order(a: i64, b: i64)
    requires
        -pow2(53) <= a <= pow2(53),
        -pow2(53) <= b <= pow2(53),
    ensures
        double_less(
            integer_double(a as int) as u64,
            integer_double(b as int) as u64,
        ) <==> a < b,
        double_equal(
            integer_double(a as int) as u64,
            integer_double(b as int) as u64,
        ) <==> a == b,
{
    law_integers_are_exact(a);
    law_integers_are_exact(b);
    law_doubles_compare_as_numbers(
        integer_double(a as int) as u64,
        integer_double(b as int) as u64,
    );
    let s = pow2(1074) as int;
    lemma_pow2_pos(1074);
    assert((a * s < b * s <==> a < b) && (a * s == b * s <==> a == b)) by (nonlinear_arith)
        requires
            s > 0,
    ;
}

/// The number that rounding gives is off by at most one part in `2^53`.
proof fn lemma_rounded_magnitude(n: nat)
    requires
        n <= 0x8000_0000_0000_0000,
    ensures
        ({
            let exact = n * pow2(1074);
            let off = format_value(magnitude_bits(n) as int, 52) - exact;
            -exact <= off * pow2(53) <= exact
        }),
{
    let unit = pow2(52) as int;
    let smallest = pow2(1074) as int;
    lemma2_to64();
    lemma2_to64_rest();
    lemma_pow2_pos(1074);
    if n <= pow2(53) {
        lemma_exact_magnitude(n);
        let exact = n * pow2(1074);
        assert(0 * pow2(53) == 0);
        assert(exact >= 0) by (nonlinear_arith)
            requires
                exact == n * pow2(1074),
                n >= 0,
                pow2(1074) > 0,
        ;
    } else {
        let e = top_bit(n);
        lemma_top_bit(n);
        if e < 53 {
            if e + 1 < 53 {
                lemma_pow2_strictly_increases(e + 1, 53);
            }
            lemma_pow2_unfold(e + 1);
        }
        assert(e >= 53);
        let step = pow2((e - 52) as nat) as int;
        lemma_pow2_pos((e - 52) as nat);
        lemma_pow2_adds(52, (e - 52) as nat);
        assert(pow2(e) == unit * step);
        let kept = n as int / step;
        let rest = n as int % step;
        vstd::arithmetic::div_mod::lemma_fundamental_div_mod(n as int, step);
        vstd::arithmetic::div_mod::lemma_mod_bound(n as int, step);
        assert(n == step * kept + rest);
        assert(unit <= kept < 2 * unit) by (nonlinear_arith)
            requires
                n == step * kept + rest,
                0 <= rest < step,
                unit * step <= n < 2 * (unit * step),
        ;
        let s = if 2 * rest > step || (2 * rest == step && kept % 2 == 1) {
            kept + 1
        } else {
            kept
        };
        let bits = magnitude_bits(n) as int;
        assert(bits == (e + 1022) * unit + s);
        let t = pow2((e + 1022) as nat) as int;
        assert(format_value(bits, 52) == s * t) by {
            if s < 2 * unit {
                let fraction = s - unit;
                assert(bits == (e + 1023) * unit + fraction) by (nonlinear_arith)
                    requires
                        bits == (e + 1022) * unit + s,
                        fraction == s - unit,
                ;
                vstd::arithmetic::div_mod::lemma_fundamental_div_mod_converse(
                    bits,
                    unit,
                    (e + 1023) as int,
                    fraction,
                );
            } else {
                assert(bits == (e + 1024) * unit + 0) by (nonlinear_arith)
                    requires
                        bits == (e + 1022) * unit + s,
                        s == 2 * unit,
                ;
                vstd::arithmetic::div_mod::lemma_fundamental_div_mod_converse(
                    bits,
                    unit,
                    (e + 1024) as int,
                    0,
                );
                lemma_pow2_unfold((e + 1023) as nat);
                assert(unit * (2 * t) == (2 * unit) * t) by (nonlinear_arith);
            }
        }
        lemma_pow2_adds((e - 52) as nat, 1074);
        assert(t == step * smallest);
        let miss = s * step - n;
        assert(-step <= 2 * miss <= step) by (nonlinear_arith)
            requires
                miss == s * step - n,
                n == step * kept + rest,
                0 <= rest < step,
                s == kept || s == kept + 1,
                s == kept ==> 2 * rest <= step,
                s == kept + 1 ==> 2 * rest >= step,
        ;
        assert(-n <= miss * (2 * unit) <= n) by (nonlinear_arith)
            requires
                -step <= 2 * miss <= step,
                unit * step <= n,
                unit > 0,
        ;
        let exact = n * smallest;
        let off = s * t - exact;
        assert(off == miss * smallest) by (nonlinear_arith)
            requires
                off == s * t - exact,
                t == step * smallest,
                exact == n * smallest,
                miss == s * step - n,
        ;
        assert(-exact <= off * (2 * unit) <= exact) by (nonlinear_arith)
            requires
                off == miss * smallest,
                exact == n * smallest,
                -n <= miss * (2 * unit) <= n,
                smallest > 0,
        ;
        assert(pow2(53) == 2 * unit);
    }
}

/// The double of an integer is a nearest one: it is off by at most one part in `2^53`,
/// however large the integer is.
pub proof fn law_integers_are_rounded_to_nearest(value: i64)
    ensures
        double_finite(integer_double(value as int) as u64),
        ({
            let exact = value * pow2(1074);
            let off = double_value(integer_double(value as int) as u64) - exact;
            let size = if exact >= 0 {
                exact
            } else {
                -exact
            };
            -size <= off * pow2(53) <= size
        }),
{
    lemma_integer_double_finite(value);
    lemma_pow2_pos(1074);
    let s = pow2(1074) as int;
    if value >= 0 {
        lemma_magnitude_bits(value as nat);
        lemma_rounded_magnitude(value as nat);
        assert(value * s >= 0) by (nonlinear_arith)
            requires
                value >= 0,
                s > 0,
        ;
        let v = format_value(magnitude_bits(value as nat) as int, 52);
        let p = pow2(53) as int;
        assert(double_value(integer_double(value as int) as u64) == v);
        assert(-(value * s) <= (v - value * s) * p <= value * s);
    } else {
        let n = (-value) as nat;
        lemma_magnitude_bits(n);
        lemma_rounded_magnitude(n);
        assert(value * s == -(n * s) && n * s >= 0) by (nonlinear_arith)
            requires
                n == -value,
                n >= 0,
                s > 0,
        ;
        let v = format_value(magnitude_bits(n) as int, 52);
        let p = pow2(53) as int;
        assert(double_value(integer_double(value as int) as u64) == -v);
        assert(-(n * s) <= (v - n * s) * p <= n * s);
        assert((-v - value * s) * p == -((v - n * s) * p)) by (nonlinear_arith)
            requires
                value * s == -(n * s),
        ;
        assert(value * s <= (-v - value * s) * p <= -(value * s));
    }
}

} // verus!
