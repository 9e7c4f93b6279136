//! Splitting the average time of a token between the kinds of token.

use vstd::arithmetic::div_mod::{
    lemma_div_is_ordered, lemma_div_multiples_vanish, lemma_fundamental_div_mod,
    lemma_fundamental_div_mod_converse,
};
use vstd::prelude::*;

verus! {

/// One whole in millionths, and the number of microseconds in a second.
pub const UNIT: u64 = 1_000_000;

/// How long each kind of token lasts, in microseconds.
#[derive(Clone, Copy, Debug, PartialEq, Eq, Structural)]
pub struct TokenDurations {
    /// A space outside a group.
    pub short_pause: u64,
    /// A `|`.
    pub pause: u64,
    /// The "long" share of the pause time. This is a share of its own, not
    /// derived from blank lines; playback chooses to wait this long for a
    /// run of blank lines as well (see `Delay::LongPause`).
    pub long_pause: u64,
    /// A single key, or a chord as a whole.
    pub single: u64,
    /// Each key of an arpeggio.
    pub many_fast: u64,
}

/// How a token's time is shared out; every field is in millionths.
///
/// `short`, `standard` and `long` split the pause time and must add up to
/// one whole (`UNIT`). `pause_ratio` weighs notes against pauses (20 notes to
/// one pause is `20 * UNIT`) and must be positive. `many_fast_proportion` is
/// the part kept for each key of an arpeggio, at most one whole.
#[derive(Clone, Copy, Debug, PartialEq, Eq, Structural)]
pub struct PauseDistribution {
    pub short: u32,
    pub standard: u32,
    pub long: u32,
    pub pause_ratio: u32,
    pub many_fast_proportion: u32,
}

/// Why a distribution is refused.
#[derive(Clone, Copy, Debug, PartialEq, Eq, Structural)]
pub enum DistributionError {
    /// `pause_ratio` is zero.
    InvalidDistributionRatio,
    /// The three pause proportions do not add up to one whole.
    InvalidDistributionSum,
    /// `many_fast_proportion` is more than one whole.
    InvalidFastProportion,
}

/// The first rule that `d` breaks, in the order in which they are checked.
pub open spec fn distribution_error(d: PauseDistribution) -> Option<DistributionError> {
    if d.pause_ratio == 0 {
        Some(DistributionError::InvalidDistributionRatio)
    } else if d.short + d.standard + d.long != UNIT {
        Some(DistributionError::InvalidDistributionSum)
    } else if d.many_fast_proportion > UNIT {
        Some(DistributionError::InvalidFastProportion)
    } else {
        None
    }
}

/// What is left once the arpeggio part is taken, in millionths.
pub open spec fn remaining_share(d: PauseDistribution) -> int {
    UNIT as int - d.many_fast_proportion
}

/// `pause_ratio + 1`, in millionths: the note share is `pause_ratio` over it.
pub open spec fn ratio_whole(d: PauseDistribution) -> int {
    d.pause_ratio + UNIT as int
}

/// Note share times remaining share times the multiplier, in microseconds.
pub open spec fn single_spec(multiplier: int, d: PauseDistribution) -> int {
    multiplier * d.pause_ratio * remaining_share(d) / (ratio_whole(d) * UNIT as int)
}

/// The arpeggio share of the multiplier, in microseconds.
pub open spec fn many_fast_spec(multiplier: int, d: PauseDistribution) -> int {
    multiplier * d.many_fast_proportion / (UNIT as int)
}

/// The pause share times the remaining share times `part`, in microseconds of
/// a second.
pub open spec fn pause_part_spec(d: PauseDistribution, part: int) -> int {
    remaining_share(d) * part / ratio_whole(d)
}

/// (1 - many_fast_proportion) x (1 - note share) x `multiplier`, rounded down.
pub open spec fn pause_block_spec(multiplier: int, d: PauseDistribution) -> int {
    remaining_share(d) * multiplier / ratio_whole(d)
}

/// Splits `multiplier`, the average time of a token in microseconds, between
/// the kinds of token as `d` says, each result rounded down to a whole
/// microsecond.
///
/// The pause durations are shares of one second and do not scale with
/// `multiplier`.
pub fn calculate_token_durations(multiplier: u64, d: &PauseDistribution) -> (r: Result<
    TokenDurations,
    DistributionError,
>)
    ensures
        r is Err <==> distribution_error(*d) is Some,
        r matches Err(e) ==> distribution_error(*d) == Some(e),
        r matches Ok(t) ==> {
            &&& t.single == single_spec(multiplier as int, *d)
            &&& t.many_fast == many_fast_spec(multiplier as int, *d)
            &&& t.short_pause == pause_part_spec(*d, d.short as int)
            &&& t.pause == pause_part_spec(*d, d.standard as int)
            &&& t.long_pause == pause_part_spec(*d, d.long as int)
        },
{
    if d.pause_ratio == 0 {
        return Err(DistributionError::InvalidDistributionRatio);
    }
    let total: u64 = d.short as u64 + d.standard as u64 + d.long as u64;
    if total != UNIT {
        return Err(DistributionError::InvalidDistributionSum);
    }
    if d.many_fast_proportion as u64 > UNIT {
        return Err(DistributionError::InvalidFastProportion);
    }
    let m: u128 = multiplier as u128;
    let ratio: u128 = d.pause_ratio as u128;
    let rest: u128 = (UNIT - d.many_fast_proportion as u64) as u128;
    let whole: u128 = ratio + UNIT as u128;
    let unit: u128 = UNIT as u128;
    assert(m * ratio <= 0xffff_ffff_ffff_ffff * 0xffff_ffff) by (nonlinear_arith)
        requires
            m <= 0xffff_ffff_ffff_ffff,
            ratio <= 0xffff_ffff,
    ;
    assert(m * ratio * rest <= 0xffff_ffff_ffff_ffff * 0xffff_ffff * 1_000_000) by (
    nonlinear_arith)
        requires
            m * ratio <= 0xffff_ffff_ffff_ffff * 0xffff_ffff,
            rest <= 1_000_000,
    ;
    assert(whole * unit <= 0x1_ffff_ffff * 1_000_000) by (nonlinear_arith)
        requires
            whole <= 0x1_ffff_ffff,
            unit == 1_000_000,
    ;
    let single = m * ratio * rest / (whole * unit);
    proof {
        lemma_share_at_most(m as int, ratio as int, rest as int, whole as int, unit as int);
    }
    assert(m * d.many_fast_proportion as u128 <= 0xffff_ffff_ffff_ffff * 1_000_000) by (
    nonlinear_arith)
        requires
            m <= 0xffff_ffff_ffff_ffff,
            d.many_fast_proportion <= 1_000_000,
    ;
    let many_fast = m * d.many_fast_proportion as u128 / unit;
    proof {
        lemma_share_at_most(m as int, d.many_fast_proportion as int, 1, unit as int, 1);
    }
    Ok(
        TokenDurations {
            short_pause: pause_part(rest, whole, d.short),
            pause: pause_part(rest, whole, d.standard),
            long_pause: pause_part(rest, whole, d.long),
            single: single as u64,
            many_fast: many_fast as u64,
        },
    )
}

/// `rest * part / whole`, where all are in millionths and `whole` is at least
/// one whole.
fn pause_part(rest: u128, whole: u128, part: u32) -> (r: u64)
    requires
        rest <= UNIT,
        whole >= UNIT,
        part <= UNIT,
    ensures
        r == (rest * part) as int / (whole as int),
{
    assert(rest * part <= 1_000_000 * 1_000_000) by (nonlinear_arith)
        requires
            rest <= 1_000_000,
            part <= 1_000_000,
    ;
    let p = rest * part as u128 / whole;
    proof {
        lemma_div_by_larger((rest * part) as int, 1, whole as int);
    }
    p as u64
}

/// Dividing by more gives no more.
proof fn lemma_div_by_larger(x: int, a: int, b: int)
    requires
        x >= 0,
        0 < a <= b,
    ensures
        x / b <= x / a,
{
    lemma_fundamental_div_mod(x, a);
    lemma_fundamental_div_mod(x, b);
    assert(x / b <= x / a) by (nonlinear_arith)
        requires
            x == a * (x / a) + (x % a),
            x == b * (x / b) + (x % b),
            0 <= x % a < a,
            0 <= x % b < b,
            0 < a <= b,
            x >= 0,
    ;
}

/// A share of `m` no larger than one whole is no larger than `m`.
proof fn lemma_share_at_most(m: int, p: int, q: int, wp: int, wq: int)
    requires
        m >= 0,
        0 <= p <= wp,
        0 <= q <= wq,
        wp * wq > 0,
    ensures
        m * p * q / (wp * wq) <= m,
{
    assert(m * p * q <= m * (wp * wq)) by (nonlinear_arith)
        requires
            m >= 0,
            0 <= p <= wp,
            0 <= q <= wq,
    ;
    lemma_div_is_ordered(m * p * q, m * (wp * wq), wp * wq);
    assert((m * (wp * wq)) / (wp * wq) == m) by {
        lemma_div_multiples_vanish(m, wp * wq);
        assert(m * (wp * wq) == (wp * wq) * m) by (nonlinear_arith);
    }
}

/// Three quotients rounded down add up to the rounded-down quotient of the
/// sum, or fall short of it by at most two.
proof fn lemma_floor_sum3(a: int, b: int, e: int, c: int)
    requires
        a >= 0,
        b >= 0,
        e >= 0,
        c > 0,
    ensures
        a / c + b / c + e / c <= (a + b + e) / c,
        (a + b + e) / c <= a / c + b / c + e / c + 2,
{
    lemma_fundamental_div_mod(a, c);
    lemma_fundamental_div_mod(b, c);
    lemma_fundamental_div_mod(e, c);
    let q = a / c + b / c + e / c;
    let r = a % c + b % c + e % c;
    assert(a + b + e == q * c + r) by (nonlinear_arith)
        requires
            a == c * (a / c) + (a % c),
            b == c * (b / c) + (b % c),
            e == c * (e / c) + (e % c),
            q == a / c + b / c + e / c,
            r == a % c + b % c + e % c,
    ;
    if r < c {
        lemma_fundamental_div_mod_converse(a + b + e, c, q, r);
    } else if r < 2 * c {
        assert(a + b + e == (q + 1) * c + (r - c)) by (nonlinear_arith)
            requires
                a + b + e == q * c + r,
        ;
        lemma_fundamental_div_mod_converse(a + b + e, c, q + 1, r - c);
    } else {
        assert(a + b + e == (q + 2) * c + (r - 2 * c)) by (nonlinear_arith)
            requires
                a + b + e == q * c + r,
        ;
        lemma_fundamental_div_mod_converse(a + b + e, c, q + 2, r - 2 * c);
    }
}

/// For a valid distribution, the three pause durations together are
/// (1 - many_fast_proportion) x (1 - note share) x `multiplier`, short of it by
/// at most two microseconds of rounding. The pause durations are shares of one
/// second, so this holds where `multiplier` is one second, or where nothing is
/// left for pauses (`many_fast_proportion` is one whole).
pub proof fn lemma_pause_durations_sum(multiplier: u64, d: PauseDistribution)
    requires
        distribution_error(d) is None,
        multiplier == UNIT || d.many_fast_proportion == UNIT,
    ensures
        pause_part_spec(d, d.short as int) + pause_part_spec(d, d.standard as int)
            + pause_part_spec(d, d.long as int) <= pause_block_spec(multiplier as int, d),
        pause_block_spec(multiplier as int, d) <= pause_part_spec(d, d.short as int)
            + pause_part_spec(d, d.standard as int) + pause_part_spec(d, d.long as int) + 2,
{
    let rest = remaining_share(d);
    let s = d.short as int;
    let t = d.standard as int;
    let l = d.long as int;
    assert(rest * s + rest * t + rest * l == rest * (s + t + l)) by (nonlinear_arith);
    assert(rest >= 0);
    assert(rest * s >= 0 && rest * t >= 0 && rest * l >= 0) by (nonlinear_arith)
        requires
            rest >= 0,
            s >= 0,
            t >= 0,
            l >= 0,
    ;
    lemma_floor_sum3(rest * s, rest * t, rest * l, ratio_whole(d));
    if d.many_fast_proportion == UNIT {
        assert(rest == 0);
        assert(rest * s == 0 && rest * t == 0 && rest * l == 0 && rest * multiplier == 0) by (
        nonlinear_arith)
            requires
                rest == 0,
        ;
    } else {
        assert(rest * (s + t + l) == rest * multiplier);
    }
}

} // verus!
