//! How much of a line a template has in common with it, and the threshold that this is held to.
use vstd::prelude::*;
use vstd::arithmetic::power2::{lemma_pow2_adds, lemma_pow2_pos, lemma_pow2_strictly_increases, pow2};

verus! {

/// The first bit pattern of an `f64` with a full fraction, two to the power 52.
pub const FRACTION: u64 = 0x10_0000_0000_0000;

/// The bit pattern of the `f64` value one.
pub const ONE: u64 = 0x3FF0_0000_0000_0000;

/// The bit pattern of the infinite `f64`; the patterns above it are no numbers.
pub const INFINITY: u64 = 0x7FF0_0000_0000_0000;

/// The bit that an `f64` carries where it is negative.
pub const SIGN: u64 = 0x8000_0000_0000_0000;

/// The value of the positive `f64` with the bit pattern `m`, in units of two to the power -1074,
/// the smallest positive `f64`.
pub open spec fn f64_units(m: nat) -> nat {
    if m < FRACTION {
        m
    } else {
        (FRACTION + m % (FRACTION as nat)) as nat * pow2((m / (FRACTION as nat) - 1) as nat)
    }
}

/// Whether the quotient of two counts, rounded to the nearest `f64` and to the even one of two
/// that are equally near, is at least the `f64` with the bit pattern `m`. It is so from the middle
/// between that value and the one just below it. Counts below two to the power 53 are `f64`
/// values, and their `f64` quotient is this one.
pub open spec fn quotient_rounds_up_to(matched: nat, total: nat, m: nat) -> bool {
    let twice_quotient = 2 * (matched * pow2(1074));
    let twice_middle = total * (f64_units((m - 1) as nat) + f64_units(m));
    twice_quotient > twice_middle || (twice_quotient == twice_middle && m % 2 == 0)
}

/// The values around the middle below a bit pattern up to that of one, with the power of two taken
/// out.
proof fn lemma_middle(m: nat, sum: nat, shift: nat)
    requires
        0 < m <= ONE,
        (sum, shift) == if m < FRACTION {
            ((2 * m - 1) as nat, 1075nat)
        } else if m % (FRACTION as nat) == 0 && m >= 2 * FRACTION {
            ((4 * FRACTION - 1) as nat, (1077 - m / (FRACTION as nat)) as nat)
        } else {
            (
                (2 * (FRACTION + m % (FRACTION as nat)) - 1) as nat,
                (1076 - m / (FRACTION as nat)) as nat,
            )
        },
    ensures
        53 <= shift <= 1075,
        0 < sum < 4 * FRACTION,
        f64_units((m - 1) as nat) + f64_units(m) == sum * pow2((1075 - shift) as nat),
{
    let e = m / (FRACTION as nat);
    let f = m % (FRACTION as nat);
    let low = (m - 1) as nat;
    vstd::arithmetic::power2::lemma_pow2(0);
    assert(pow2(0) == 1) by {
        vstd::arithmetic::power2::lemma2_to64();
    }
    if m < FRACTION {
        assert(sum * pow2(0) == sum);
    } else if f == 0 && e > 1 {
        assert(low / (FRACTION as nat) == e - 1 && low % (FRACTION as nat) == FRACTION - 1);
        let k = pow2((e - 2) as nat);
        vstd::arithmetic::power2::lemma_pow2_unfold((e - 1) as nat);
        assert(pow2((e - 1) as nat) == 2 * k);
        assert((2 * FRACTION - 1) * k + FRACTION * (2 * k) == (4 * FRACTION - 1) * k)
            by (nonlinear_arith);
        assert(f64_units(low) == (2 * FRACTION - 1) * k);
        assert(f64_units(m) == FRACTION * (2 * k));
    } else if f == 0 {
        assert(m == FRACTION);
        assert(f64_units(m) == FRACTION * pow2(0));
        assert(sum * pow2(0) == sum);
    } else {
        assert(low / (FRACTION as nat) == e && low % (FRACTION as nat) == f - 1);
        let k = pow2((e - 1) as nat);
        assert((FRACTION + f - 1) * k + (FRACTION + f) * k == (2 * (FRACTION + f) - 1) * k)
            by (nonlinear_arith);
        assert(f64_units(low) == (FRACTION + f - 1) * k);
        assert(f64_units(m) == (FRACTION + f) * k);
    }
}

/// The value of a bit pattern from that of one on is one or more.
proof fn lemma_one_or_more(m: nat)
    requires
        ONE <= m,
    ensures
        f64_units(m) >= pow2(1074),
        m > ONE ==> f64_units(m) > pow2(1074),
{
    let e = m / (FRACTION as nat);
    let f = m % (FRACTION as nat);
    let k = pow2((e - 1) as nat);
    assert(FRACTION == pow2(52)) by {
        vstd::arithmetic::power2::lemma2_to64();
        vstd::arithmetic::power2::lemma2_to64_rest();
    }
    lemma_pow2_adds(52, 1022);
    lemma_pow2_pos(1022);
    if e > 1023 {
        lemma_pow2_strictly_increases(1022, (e - 1) as nat);
    }
    assert((FRACTION + f) * k >= FRACTION * pow2(1022)) by (nonlinear_arith)
        requires
            k >= pow2(1022),
            f >= 0,
    ;
    if m > ONE {
        assert((FRACTION + f) * k > FRACTION * pow2(1022)) by (nonlinear_arith)
            requires
                k >= pow2(1022),
                f >= 0,
                pow2(1022) > 0,
                f > 0 || k > pow2(1022),
        ;
    }
}

/// A quotient of at most one does not round to more than one.
proof fn lemma_above_one(matched: nat, total: nat, m: nat)
    requires
        matched <= total,
        0 < total,
        ONE < m,
    ensures
        !quotient_rounds_up_to(matched, total, m),
{
    lemma_one_or_more(m);
    lemma_one_or_more((m - 1) as nat);
    let p = pow2(1074);
    let sum = f64_units((m - 1) as nat) + f64_units(m);
    assert(2 * (matched * p) < total * sum) by (nonlinear_arith)
        requires
            matched <= total,
            0 < total,
            sum > 2 * p,
    ;
}

/// The quotient and the middle are compared with the common power of two taken out.
proof fn lemma_compare(matched: nat, total: nat, m: nat, sum: nat, shift: nat)
    requires
        shift <= 1075,
        f64_units((m - 1) as nat) + f64_units(m) == sum * pow2((1075 - shift) as nat),
    ensures
        quotient_rounds_up_to(matched, total, m) <==> (matched * pow2(shift) > total * sum || (
        matched * pow2(shift) == total * sum && m % 2 == 0)),
{
    let k = pow2((1075 - shift) as nat);
    let d = pow2(shift);
    let p = pow2(1074);
    lemma_pow2_pos((1075 - shift) as nat);
    lemma_pow2_adds(shift, (1075 - shift) as nat);
    vstd::arithmetic::power2::lemma_pow2_unfold(1075);
    assert(2 * p == d * k);
    assert(2 * (matched * p) == (matched * d) * k) by (nonlinear_arith)
        requires
            2 * p == d * k,
    ;
    assert(total * (sum * k) == (total * sum) * k) by (nonlinear_arith);
    let a = matched * d;
    let b = total * sum;
    assert((a * k > b * k <==> a > b) && (a * k == b * k <==> a == b)) by (nonlinear_arith)
        requires
            k > 0,
    ;
}

/// A number exceeds a rounded down quotient exactly when its product with the divisor exceeds the
/// dividend.
proof fn lemma_exceeds_quotient(c: int, x: int, d: int)
    requires
        0 <= x,
        0 < d,
    ensures
        c > x / d <==> c * d > x,
{
    vstd::arithmetic::div_mod::lemma_fundamental_div_mod(x, d);
    let q = x / d;
    let r = x % d;
    assert(0 <= r < d) by {
        vstd::arithmetic::div_mod::lemma_mod_bound(x, d);
    }
    if c > q {
        assert(c * d >= d * q + d) by (nonlinear_arith)
            requires
                c >= q + 1,
                d > 0,
        ;
    } else {
        assert(c * d <= d * q) by (nonlinear_arith)
            requires
                c <= q,
                d > 0,
        ;
    }
}

/// Any match at all outweighs a middle that is shifted out of sight.
proof fn lemma_far_shift(matched: nat, middle: nat, shift: nat)
    requires
        118 <= shift,
        0 < middle < pow2(118),
    ensures
        matched * pow2(shift) > middle <==> matched > 0,
        matched * pow2(shift) != middle,
{
    if shift > 118 {
        lemma_pow2_strictly_increases(118, shift);
    }
    let d = pow2(shift);
    if matched > 0 {
        assert(matched * d >= d) by (nonlinear_arith)
            requires
                matched > 0,
                d >= 0,
        ;
    } else {
        assert(matched * d == 0) by (nonlinear_arith)
            requires
                matched == 0,
        ;
    }
}

/// The product of a count and the sum of two neighbouring values.
fn scaled(total: usize, sum: u64) -> (r: u128)
    requires
        0 < total,
        0 < sum < 4 * FRACTION,
    ensures
        r == total * sum,
        0 < r < pow2(118),
{
    assert(0 < total * sum < pow2(118)) by {
        assert(0 < total * sum < 0x1_0000_0000_0000_0000 * (4 * FRACTION)) by (nonlinear_arith)
            requires
                0 < total < 0x1_0000_0000_0000_0000,
                0 < sum < 4 * FRACTION,
        ;
        vstd::arithmetic::power2::lemma2_to64();
        vstd::arithmetic::power2::lemma2_to64_rest();
        lemma_pow2_adds(64, 54);
    }
    assert(pow2(118) < u128::MAX) by {
        vstd::arithmetic::power2::lemma2_to64();
        vstd::arithmetic::power2::lemma2_to64_rest();
        lemma_pow2_adds(64, 54);
    }
    total as u128 * sum as u128
}

/// A similarity threshold: an `f64`, held as its bit pattern.
#[derive(Clone, Copy, Debug, PartialEq, Eq, Structural)]
pub struct SimThreshold {
    pub bits: u64,
}

impl SimThreshold {
    /// Whether the `f64` quotient of two counts is at least the threshold.
    pub open spec fn reached_by(self, matched: nat, total: nat) -> bool {
        let m = self.bits % SIGN;
        if m > INFINITY {
            false
        } else if self.bits >= SIGN || m == 0 {
            true
        } else {
            quotient_rounds_up_to(matched, total, m as nat)
        }
    }

    /// The threshold with the given bit pattern of an `f64`.
    pub fn from_bits(bits: u64) -> (r: Self)
        ensures
            r.bits == bits,
    {
        SimThreshold { bits }
    }

    /// Whether the `f64` quotient of two counts is at least the threshold.
    pub fn admits(&self, matched: usize, total: usize) -> (r: bool)
        requires
            matched <= total,
            0 < total,
        ensures
            r == self.reached_by(matched as nat, total as nat),
    {
        let m: u64 = self.bits % SIGN;
        if m > INFINITY {
            return false;
        }
        if self.bits >= SIGN || m == 0 {
            return true;
        }
        if m > ONE {
            proof {
                lemma_above_one(matched as nat, total as nat, m as nat);
            }
            return false;
        }
        let exponent: u64 = m / FRACTION;
        let fraction: u64 = m % FRACTION;
        // The two values around the middle add up to `sum` times two to the power 1075 - `shift`.
        let (sum, shift): (u64, u64) = if exponent == 0 {
            (2 * fraction - 1, 1075)
        } else if fraction == 0 && exponent > 1 {
            (4 * FRACTION - 1, 1077 - exponent)
        } else {
            (2 * (FRACTION + fraction) - 1, 1076 - exponent)
        };
        proof {
            lemma_middle(m as nat, sum as nat, shift as nat);
        }
        let middle: u128 = scaled(total, sum);
        proof {
            lemma_compare(matched as nat, total as nat, m as nat, sum as nat, shift as nat);
        }
        if shift >= 118 {
            proof {
                lemma_far_shift(matched as nat, middle as nat, shift as nat);
            }
            return matched > 0;
        }
        let below: u128 = if m % 2 == 0 {
            middle - 1
        } else {
            middle
        };
        proof {
            lemma_pow2_pos(shift as nat);
            vstd::bits::lemma_u128_shr_is_div(below, shift as u128);
            lemma_exceeds_quotient(matched as int, below as int, pow2(shift as nat) as int);
        }
        matched as u128 > below >> (shift as u128)
    }
}

/// One value and the next differ by at least one unit and, up to one, by at most two to the power
/// -53.
proof fn lemma_gap(m: nat)
    requires
        m < ONE,
    ensures
        f64_units(m) < f64_units(m + 1) <= f64_units(m) + pow2(1021),
{
    let e = m / (FRACTION as nat);
    let f = m % (FRACTION as nat);
    vstd::arithmetic::power2::lemma2_to64();
    lemma_pow2_pos(1021);
    if m < FRACTION {
        if m + 1 == FRACTION {
            assert(f64_units(m + 1) == FRACTION * pow2(0));
        }
    } else {
        let k = pow2((e - 1) as nat);
        lemma_pow2_pos((e - 1) as nat);
        if e < 1022 {
            lemma_pow2_strictly_increases((e - 1) as nat, 1021);
        }
        if f + 1 < FRACTION {
            assert((m + 1) / (FRACTION as nat) == e && (m + 1) % (FRACTION as nat) == f + 1);
            assert(f64_units(m + 1) == (FRACTION + f + 1) * k);
            assert((FRACTION + f + 1) * k == (FRACTION + f) * k + k) by (nonlinear_arith);
        } else {
            assert((m + 1) / (FRACTION as nat) == e + 1 && (m + 1) % (FRACTION as nat) == 0);
            vstd::arithmetic::power2::lemma_pow2_unfold(e);
            assert(pow2(e) == 2 * k);
            assert(f64_units(m + 1) == FRACTION * (2 * k));
            assert(f64_units(m) == (2 * FRACTION - 1) * k);
            assert(FRACTION * (2 * k) == (2 * FRACTION - 1) * k + k) by (nonlinear_arith);
        }
    }
}

/// The bit pattern of one has the value one.
proof fn lemma_one()
    ensures
        f64_units(ONE as nat) == pow2(1074),
{
    vstd::arithmetic::power2::lemma2_to64();
    vstd::arithmetic::power2::lemma2_to64_rest();
    lemma_pow2_adds(52, 1022);
    assert(ONE as nat / (FRACTION as nat) == 1023 && ONE as nat % (FRACTION as nat) == 0);
}

/// The value of a bit pattern below that of one is below one.
proof fn lemma_below_one(m: nat)
    requires
        m < ONE,
    ensures
        f64_units(m) < pow2(1074),
    decreases ONE - m,
{
    lemma_gap(m);
    if m + 1 < ONE {
        lemma_below_one(m + 1);
    } else {
        lemma_one();
    }
}

/// The greatest bit pattern, up to that of one, that a quotient rounds up to.
proof fn lemma_greatest_reached(matched: nat, total: nat, low: nat) -> (m: nat)
    requires
        0 < low <= ONE,
        quotient_rounds_up_to(matched, total, low),
    ensures
        low <= m <= ONE,
        quotient_rounds_up_to(matched, total, m),
        m < ONE ==> !quotient_rounds_up_to(matched, total, m + 1),
    decreases ONE - low,
{
    if low < ONE && quotient_rounds_up_to(matched, total, low + 1) {
        lemma_greatest_reached(matched, total, low + 1)
    } else {
        low
    }
}

/// A threshold that some matches reach is reached by more matches.
pub proof fn law_more_matches_reach(threshold: SimThreshold, fewer: nat, more: nat, total: nat)
    requires
        fewer <= more,
        threshold.reached_by(fewer, total),
    ensures
        threshold.reached_by(more, total),
{
    assert(fewer * pow2(1074) <= more * pow2(1074)) by (nonlinear_arith)
        requires
            fewer <= more,
    ;
    if fewer < more {
        lemma_pow2_pos(1074);
        assert(fewer * pow2(1074) < more * pow2(1074)) by (nonlinear_arith)
            requires
                fewer < more,
                pow2(1074) > 0,
        ;
    }
}

/// A line that matches in full reaches every threshold up to one.
pub proof fn law_full_match_reaches(threshold: SimThreshold, total: nat)
    requires
        0 < total,
        threshold.bits <= ONE || SIGN <= threshold.bits <= SIGN + INFINITY,
    ensures
        threshold.reached_by(total, total),
{
    let m = threshold.bits % SIGN;
    if threshold.bits < SIGN && m > 0 {
        lemma_gap((m - 1) as nat);
        if m < ONE {
            lemma_below_one(m as nat);
        } else {
            lemma_one();
        }
        let p = pow2(1074);
        let sum = f64_units((m - 1) as nat) + f64_units(m as nat);
        assert(2 * (total * p) > total * sum) by (nonlinear_arith)
            requires
                0 < total,
                sum < 2 * p,
        ;
    }
}

/// For lines of fewer than two to the power 53 tokens, more matches are a greater `f64` quotient:
/// there is a value that the quotient of the greater count reaches and that of the smaller one
/// does not. So counts of one total are in the order of their quotients.
pub proof fn law_more_matches_are_a_greater_quotient(fewer: nat, more: nat, total: nat)
    requires
        fewer < more <= total,
        total < 2 * FRACTION,
    ensures
        exists|m: nat|
            0 < m <= ONE && quotient_rounds_up_to(more, total, m) && !quotient_rounds_up_to(
                fewer,
                total,
                m,
            ),
{
    let p = pow2(1074);
    let g = pow2(1021);
    vstd::arithmetic::power2::lemma2_to64();
    vstd::arithmetic::power2::lemma2_to64_rest();
    lemma_pow2_adds(53, 1021);
    lemma_pow2_pos(1021);
    assert(p == 2 * FRACTION * g);
    assert(f64_units(0) == 0 && f64_units(1) == 1);
    assert(2 * (more * p) > total * 1) by (nonlinear_arith)
        requires
            more >= 1,
            p == 2 * FRACTION * g,
            g > 0,
            total < 2 * FRACTION,
    ;
    let m = lemma_greatest_reached(more, total, 1);
    lemma_gap((m - 1) as nat);
    let low = f64_units((m - 1) as nat);
    let mid = f64_units(m);
    if quotient_rounds_up_to(fewer, total, m) {
        if m == ONE {
            lemma_one();
            assert(2 * (fewer * p) < total * (low + mid)) by (nonlinear_arith)
                requires
                    fewer + 1 <= total,
                    mid == p,
                    low + g >= p,
                    p == 2 * FRACTION * g,
                    g > 0,
                    total < 2 * FRACTION,
            ;
        } else {
            lemma_gap(m);
            let high = f64_units(m + 1);
            assert(2 * (more * p) <= total * (mid + high));
            assert(2 * (fewer * p) >= total * (low + mid));
            assert(false) by (nonlinear_arith)
                requires
                    2 * (more * p) <= total * (mid + high),
                    2 * (fewer * p) >= total * (low + mid),
                    high <= low + 2 * g,
                    fewer + 1 <= more,
                    p == 2 * FRACTION * g,
                    g > 0,
                    total < 2 * FRACTION,
            ;
        }
    }
}

/// The values of bit patterns: up to two to the power 53 they count the smallest one, and from two
/// to the power 52 on each is doubled two to the power 52 patterns later.
pub proof fn law_values_of_bit_patterns(m: nat)
    ensures
        m < 0x20_0000_0000_0000 ==> f64_units(m) == m,
        m >= 0x10_0000_0000_0000 ==> f64_units(m + 0x10_0000_0000_0000) == 2 * f64_units(m),
{
    vstd::arithmetic::power2::lemma2_to64();
    if m >= FRACTION {
        let e = m / (FRACTION as nat);
        let f = m % (FRACTION as nat);
        assert((m + FRACTION) as nat / (FRACTION as nat) == e + 1);
        assert((m + FRACTION) as nat % (FRACTION as nat) == f);
        vstd::arithmetic::power2::lemma_pow2_unfold(e);
        let k = pow2((e - 1) as nat);
        assert(pow2(e) == 2 * k);
        assert((FRACTION + f) * (2 * k) == 2 * ((FRACTION + f) * k)) by (nonlinear_arith);
        if m < 2 * FRACTION {
            assert(e == 1);
            assert((FRACTION + f) * pow2(0) == FRACTION + f) by (nonlinear_arith)
                requires
                    pow2(0) == 1,
            ;
        }
    }
}

/// Greater bit patterns have greater values.
proof fn lemma_values_increase(m: nat)
    ensures
        f64_units(m) < f64_units(m + 1),
{
    let e = m / (FRACTION as nat);
    let f = m % (FRACTION as nat);
    vstd::arithmetic::power2::lemma2_to64();
    if m < FRACTION {
        if m + 1 == FRACTION {
            assert(f64_units(m + 1) == FRACTION * pow2(0));
        }
    } else {
        let k = pow2((e - 1) as nat);
        lemma_pow2_pos((e - 1) as nat);
        if f + 1 < FRACTION {
            assert((m + 1) / (FRACTION as nat) == e && (m + 1) % (FRACTION as nat) == f + 1);
            assert((FRACTION + f + 1) * k == (FRACTION + f) * k + k) by (nonlinear_arith);
        } else {
            assert((m + 1) / (FRACTION as nat) == e + 1 && (m + 1) % (FRACTION as nat) == 0);
            vstd::arithmetic::power2::lemma_pow2_unfold(e);
            assert(pow2(e) == 2 * k);
            assert(FRACTION * (2 * k) == (2 * FRACTION - 1) * k + k) by (nonlinear_arith);
        }
    }
}

/// A positive threshold is held against the quotient rounded to the nearest value: it is reached by
/// every quotient that is no less, and by none that is no more than the value just below it. One in
/// between reaches it where it is nearer to it, and in the middle where its bit pattern is even.
pub proof fn law_quotient_is_rounded_to_the_nearest(
    threshold: SimThreshold,
    matched: nat,
    total: nat,
)
    requires
        0 < threshold.bits <= INFINITY,
        0 < total,
    ensures
        ({
            let quotient = matched * pow2(1074);
            let value = total * f64_units(threshold.bits as nat);
            let below = total * f64_units((threshold.bits - 1) as nat);
            &&& below < value
            &&& value <= quotient ==> threshold.reached_by(matched, total)
            &&& quotient <= below ==> !threshold.reached_by(matched, total)
            &&& below < quotient < value ==> (threshold.reached_by(matched, total) <==> value
                - quotient < quotient - below || (value - quotient == quotient - below
                && threshold.bits % 2 == 0))
        }),
{
    let m = threshold.bits as nat;
    lemma_values_increase((m - 1) as nat);
    let u = f64_units(m);
    let w = f64_units((m - 1) as nat);
    assert(total * (w + u) == total * w + total * u) by (nonlinear_arith);
    assert(total * w < total * u) by (nonlinear_arith)
        requires
            0 < total,
            w < u,
    ;
}

/// A threshold of zero or less is always reached, one that is no number never, and one above one
/// never by a part of a whole.
pub proof fn law_thresholds_beyond_the_quotients(
    threshold: SimThreshold,
    matched: nat,
    total: nat,
)
    requires
        matched <= total,
        0 < total,
    ensures
        threshold.bits == 0 ==> threshold.reached_by(matched, total),
        0x8000_0000_0000_0000 <= threshold.bits <= 0xFFF0_0000_0000_0000
            ==> threshold.reached_by(matched, total),
        0x7FF0_0000_0000_0000 < threshold.bits < 0x8000_0000_0000_0000 ==> !threshold.reached_by(
            matched,
            total,
        ),
        threshold.bits > 0xFFF0_0000_0000_0000 ==> !threshold.reached_by(matched, total),
        0x3FF0_0000_0000_0000 < threshold.bits <= 0x7FF0_0000_0000_0000 ==> !threshold.reached_by(
            matched,
            total,
        ),
{
    if ONE < threshold.bits <= INFINITY {
        lemma_above_one(matched, total, threshold.bits as nat);
    }
}

/// A threshold that is a share, rounded to the nearest value, is reached exactly by the lines of
/// which at least that share matches, as long as they are not too long to tell.
pub proof fn law_threshold_is_a_share(
    threshold: SimThreshold,
    share: nat,
    whole: nat,
    matched: nat,
    total: nat,
)
    requires
        0 < share <= whole,
        0 < threshold.bits <= ONE,
        quotient_rounds_up_to(share, whole, threshold.bits as nat),
        threshold.bits < ONE ==> !quotient_rounds_up_to(
            share,
            whole,
            (threshold.bits + 1) as nat,
        ),
        0 < total,
        whole * total < 0x20_0000_0000_0000,
    ensures
        threshold.reached_by(matched, total) <==> matched * whole >= share * total,
{
    let m = threshold.bits as nat;
    let p = pow2(1074);
    let g = pow2(1021);
    vstd::arithmetic::power2::lemma2_to64();
    vstd::arithmetic::power2::lemma2_to64_rest();
    lemma_pow2_adds(53, 1021);
    lemma_pow2_pos(1021);
    assert(p == 2 * FRACTION * g);
    lemma_gap((m - 1) as nat);
    let low = f64_units((m - 1) as nat);
    let mid = f64_units(m);
    let sum = low + mid;
    if matched * whole >= share * total {
        lemma_share_reached(share, whole, matched, total, p, sum);
        assert(2 * (matched * p) >= total * sum);
        if 2 * (matched * p) == total * sum && m % 2 == 1 {
            assert(2 * (share * p) > whole * sum);
            lemma_share_reached_strictly(share, whole, matched, total, p, sum);
        }
    } else {
        let high: nat;
        if m < ONE {
            lemma_gap(m);
            high = f64_units(m + 1);
        } else {
            lemma_one();
            high = mid;
            assert(2 * (share * p) <= whole * (mid + high)) by (nonlinear_arith)
                requires
                    share <= whole,
                    mid == p,
                    high == p,
            ;
        }
        assert(2 * (share * p) <= whole * (mid + high));
        lemma_share_missed(share, whole, matched, total, p, g, low, mid, high);
    }
}

/// A share that is reached by a value is reached by every greater share.
proof fn lemma_share_reached(
    share: nat,
    whole: nat,
    matched: nat,
    total: nat,
    p: nat,
    sum: nat,
)
    requires
        0 < whole,
        matched * whole >= share * total,
        2 * (share * p) >= whole * sum,
    ensures
        2 * (matched * p) >= total * sum,
{
    assert((matched * whole) * (2 * p) >= (share * total) * (2 * p)) by (nonlinear_arith)
        requires
            matched * whole >= share * total,
    ;
    assert(total * (2 * (share * p)) >= total * (whole * sum)) by (nonlinear_arith)
        requires
            2 * (share * p) >= whole * sum,
    ;
    assert(whole * (2 * (matched * p)) == (matched * whole) * (2 * p)) by (nonlinear_arith);
    assert(total * (2 * (share * p)) == (share * total) * (2 * p)) by (nonlinear_arith);
    assert(whole * (total * sum) == total * (whole * sum)) by (nonlinear_arith);
    assert(2 * (matched * p) >= total * sum) by (nonlinear_arith)
        requires
            whole * (2 * (matched * p)) >= whole * (total * sum),
            0 < whole,
    ;
}

/// The same with more than the value.
proof fn lemma_share_reached_strictly(
    share: nat,
    whole: nat,
    matched: nat,
    total: nat,
    p: nat,
    sum: nat,
)
    requires
        0 < whole,
        0 < total,
        matched * whole >= share * total,
        2 * (share * p) > whole * sum,
    ensures
        2 * (matched * p) > total * sum,
{
    assert((matched * whole) * (2 * p) >= (share * total) * (2 * p)) by (nonlinear_arith)
        requires
            matched * whole >= share * total,
    ;
    assert(total * (2 * (share * p)) > total * (whole * sum)) by (nonlinear_arith)
        requires
            2 * (share * p) > whole * sum,
            0 < total,
    ;
    assert(whole * (2 * (matched * p)) == (matched * whole) * (2 * p)) by (nonlinear_arith);
    assert(total * (2 * (share * p)) == (share * total) * (2 * p)) by (nonlinear_arith);
    assert(whole * (total * sum) == total * (whole * sum)) by (nonlinear_arith);
    assert(2 * (matched * p) > total * sum) by (nonlinear_arith)
        requires
            whole * (2 * (matched * p)) > whole * (total * sum),
            0 < whole,
    ;
}

/// A smaller share stays below the middle under the value that a share is rounded to.
proof fn lemma_share_missed(
    share: nat,
    whole: nat,
    matched: nat,
    total: nat,
    p: nat,
    g: nat,
    low: nat,
    mid: nat,
    high: nat,
)
    requires
        0 < whole,
        0 < total,
        matched * whole < share * total,
        2 * (share * p) <= whole * (mid + high),
        p == 2 * FRACTION * g,
        g > 0,
        whole * total < 2 * FRACTION,
        high <= low + 2 * g,
    ensures
        2 * (matched * p) < total * (low + mid),
{
    let d = whole * total;
    assert((matched * whole + 1) * (2 * p) <= (share * total) * (2 * p)) by (nonlinear_arith)
        requires
            matched * whole + 1 <= share * total,
    ;
    assert((matched * whole + 1) * (2 * p) == whole * (2 * (matched * p)) + 2 * p)
        by (nonlinear_arith);
    assert((share * total) * (2 * p) == total * (2 * (share * p))) by (nonlinear_arith);
    assert(total * (2 * (share * p)) <= total * (whole * (mid + high))) by (nonlinear_arith)
        requires
            2 * (share * p) <= whole * (mid + high),
    ;
    assert(total * (whole * (mid + high)) == d * (mid + high)) by (nonlinear_arith)
        requires
            d == whole * total,
    ;
    assert(d * (mid + high) <= d * (mid + low) + d * (2 * g)) by (nonlinear_arith)
        requires
            high <= low + 2 * g,
    ;
    assert(d * (2 * g) < 2 * p) by (nonlinear_arith)
        requires
            d < 2 * FRACTION,
            p == 2 * FRACTION * g,
            g > 0,
    ;
    assert(d * (mid + low) == whole * (total * (low + mid))) by (nonlinear_arith)
        requires
            d == whole * total,
    ;
    assert(2 * (matched * p) < total * (low + mid)) by (nonlinear_arith)
        requires
            whole * (2 * (matched * p)) < whole * (total * (low + mid)),
            0 < whole,
    ;
}

/// One half is reached exactly by the lines of which at least every second word matches.
pub proof fn law_one_half(matched: nat, total: nat)
    requires
        0 < total < 0x10_0000_0000_0000,
    ensures
        (SimThreshold { bits: 0x3FE0_0000_0000_0000 }).reached_by(matched, total) <==> 2 * matched
            >= total,
{
    let m = 0x3FE0_0000_0000_0000nat;
    let k = pow2(1020);
    vstd::arithmetic::power2::lemma2_to64();
    vstd::arithmetic::power2::lemma2_to64_rest();
    lemma_pow2_adds(54, 1020);
    lemma_pow2_pos(1020);
    vstd::arithmetic::power2::lemma_pow2_unfold(1021);
    assert(f64_units(m) == FRACTION * pow2(1021));
    assert(f64_units((m - 1) as nat) == (2 * FRACTION - 1) * k);
    assert(f64_units(m + 1) == (FRACTION + 1) * pow2(1021));
    assert(FRACTION * pow2(1021) == 2 * FRACTION * k) by (nonlinear_arith)
        requires
            pow2(1021) == 2 * k,
    ;
    assert((FRACTION + 1) * pow2(1021) == (2 * FRACTION + 2) * k) by (nonlinear_arith)
        requires
            pow2(1021) == 2 * k,
    ;
    assert(quotient_rounds_up_to(1, 2, m)) by {
        assert(2 * (1 * pow2(1074)) > 2 * ((2 * FRACTION - 1) * k + 2 * FRACTION * k))
            by (nonlinear_arith)
            requires
                pow2(1074) == 4 * FRACTION * k,
                k > 0,
        ;
    }
    assert(!quotient_rounds_up_to(1, 2, m + 1)) by {
        assert(2 * (1 * pow2(1074)) < 2 * (2 * FRACTION * k + (2 * FRACTION + 2) * k))
            by (nonlinear_arith)
            requires
                pow2(1074) == 4 * FRACTION * k,
                k > 0,
        ;
    }
    law_threshold_is_a_share(
        SimThreshold { bits: 0x3FE0_0000_0000_0000 },
        1,
        2,
        matched,
        total,
    );
}

/// Two fifths are reached exactly by the lines of which at least two words in five match.
pub proof fn law_two_fifths(matched: nat, total: nat)
    requires
        0 < total < 0x4_0000_0000_0000,
    ensures
        (SimThreshold { bits: 0x3FD9_9999_9999_999A }).reached_by(matched, total) <==> 5 * matched
            >= 2 * total,
{
    let m = 0x3FD9_9999_9999_999Anat;
    let k = pow2(1020);
    let a = 0x19_9999_9999_999Anat;
    vstd::arithmetic::power2::lemma2_to64();
    vstd::arithmetic::power2::lemma2_to64_rest();
    lemma_pow2_adds(54, 1020);
    lemma_pow2_pos(1020);
    assert(f64_units(m) == a * k);
    assert(f64_units((m - 1) as nat) == (a - 1) as nat * k);
    assert(f64_units(m + 1) == (a + 1) * k);
    assert(quotient_rounds_up_to(2, 5, m)) by {
        assert(2 * (2 * pow2(1074)) > 5 * ((a - 1) * k + a * k)) by (nonlinear_arith)
            requires
                pow2(1074) == 4 * FRACTION * k,
                k > 0,
                a == 0x19_9999_9999_999A,
        ;
    }
    assert(!quotient_rounds_up_to(2, 5, m + 1)) by {
        assert(2 * (2 * pow2(1074)) < 5 * (a * k + (a + 1) * k)) by (nonlinear_arith)
            requires
                pow2(1074) == 4 * FRACTION * k,
                k > 0,
                a == 0x19_9999_9999_999A,
        ;
    }
    law_threshold_is_a_share(
        SimThreshold { bits: 0x3FD9_9999_9999_999A },
        2,
        5,
        matched,
        total,
    );
}

}
