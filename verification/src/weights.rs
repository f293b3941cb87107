//! Which edges of an image can be resized.
//!
//! A resized pixel is a weighted sum of the pixels around its position in the source. Positions
//! and weights are computed in single precision, so that on very long edges a pixel can be left
//! without any weight. Here those positions are computed in integers: a float stands for itself
//! times a power of two.
use vstd::prelude::*;

#[allow(unused_imports)]
use crate::geometry::round_to_even;

verus! {

/// The number of values that the significand of a float can take.
pub const SIGNIFICANDS: u128 = 0x100_0000;

/// Up to here every half of an integer is a float.
pub const HALVES: u32 = 0x80_0000;

/// Up to here every quarter of an integer is a float.
pub const QUARTERS: u32 = 0x40_0000;

/// The unit of positions: a position is held as this many parts of a pixel.
pub const PIXEL: u128 = 0x200_0000_0000_0000;

/// Half a pixel, which is also the unit of ratios.
pub const HALF_PIXEL: u128 = 0x100_0000_0000_0000;

/// The spacing of the floats at `num / den`, counted from `unit` on: the first of `unit`,
/// `2 * unit`, `4 * unit` and so on that brings the quotient below `SIGNIFICANDS` of it.
pub open spec fn spacing_at(num: nat, den: nat, unit: nat) -> nat
    decreases
            (if num < unit {
                0
            } else {
                num - unit + 1
            }),
{
    if unit == 0 || den == 0 || num < den * unit * SIGNIFICANDS {
        unit
    } else {
        proof {
            assert(den * unit * SIGNIFICANDS >= 2 * unit) by (nonlinear_arith)
                requires
                    den > 0,
                    unit > 0,
                    SIGNIFICANDS == 0x100_0000,
            ;
        }
        spacing_at(num, den, 2 * unit)
    }
}

/// The float nearest to `num / den`, where that is an integer or at least `SIGNIFICANDS`; of two
/// that are equally near, the even one.
pub open spec fn single(num: nat, den: nat) -> nat {
    let unit = spacing_at(num, den, 1);
    round_to_even(num, den * unit) * unit
}

/// The length of a resized pixel in the source, in parts of `HALF_PIXEL`.
pub open spec fn ratio_of(edge: nat, new_edge: nat) -> nat {
    single(single(edge, 1) * HALF_PIXEL as nat, single(new_edge, 1))
}

/// The position of the middle of resized pixel `pixel` in the source, in parts of `PIXEL`.
pub open spec fn position_of(pixel: nat, ratio: nat) -> nat {
    single(single(2 * single(pixel, 1) + 1, 1) * ratio, 1)
}

/// How far from its position a resized pixel takes pixels of the source, in parts of `PIXEL`: its
/// own length, but at least one pixel.
pub open spec fn reach_of(ratio: nat) -> nat {
    if 2 * ratio < PIXEL {
        PIXEL as nat
    } else {
        2 * ratio
    }
}

/// Whether resized pixel `pixel` lies so far behind the last pixel of the source that it does not
/// reach it.
pub open spec fn lies_behind(edge: nat, ratio: nat, pixel: nat) -> bool {
    let position = position_of(pixel, ratio);
    position >= HALF_PIXEL && single((position - HALF_PIXEL) as nat, 1) >= single(
        (edge - 1) as nat,
        1,
    ) * PIXEL + reach_of(ratio)
}

/// Whether every pixel of an edge that is resized from `edge` to `new_edge` has a weight.
///
/// It has where the new edge is at most `HALVES` or the edge is enlarged from at most `QUARTERS`:
/// up to there rounding carries no position too far behind the edge. Beyond, a pixel has none in
/// two cases only. The last one, whose position is the farthest, can lie behind the edge. And
/// where a pixel reaches one pixel far, one whose position is exactly `SIGNIFICANDS` takes only
/// the pixel before that position, one pixel off: the spacing of the floats doubles there, and
/// the end of its range is rounded down.
pub open spec fn has_weights(edge: u32, new_edge: u32) -> bool {
    ||| new_edge <= HALVES
    ||| edge < new_edge && edge <= QUARTERS
    ||| {
        let ratio = ratio_of(edge as nat, new_edge as nat);
        &&& !lies_behind(edge as nat, ratio, (new_edge - 1) as nat)
        &&& edge > SIGNIFICANDS && reach_of(ratio) == PIXEL ==> forall|pixel: nat|
            pixel < new_edge ==> #[trigger] position_of(pixel, ratio) != SIGNIFICANDS * PIXEL
    }
}

/// Rounds a quotient to a float.
fn to_single(num: u128, den: u128) -> (out: u128)
    requires
        num < 0x4000_0000_0000_0000_0000_0000_0000_0000,
        0 < den < 0x2_0000_0000,
    ensures
        out == single(num as nat, den as nat),
        out <= num + num / 0x80_0000 + 1,
        num >= den ==> out > 0,
{
    let mut unit: u128 = 1;
    assert(den * unit * SIGNIFICANDS <= 0x2_0000_0000 * 0x100_0000) by (nonlinear_arith)
        requires
            den < 0x2_0000_0000,
            unit == 1,
            SIGNIFICANDS == 0x100_0000,
    ;
    while num >= den * unit * SIGNIFICANDS
        invariant
            num < 0x4000_0000_0000_0000_0000_0000_0000_0000,
            0 < den < 0x2_0000_0000,
            unit >= 1,
            den * unit * SIGNIFICANDS <= 0x8000_0000_0000_0000_0000_0000_0000_0000,
            unit == 1 || den * unit * SIGNIFICANDS <= 2 * num,
            spacing_at(num as nat, den as nat, 1) == spacing_at(
                num as nat,
                den as nat,
                unit as nat,
            ),
        decreases num - unit,
    {
        assert(den * (2 * unit) * SIGNIFICANDS == 2 * (den * unit * SIGNIFICANDS) && 2 * unit <= den
            * unit * SIGNIFICANDS && den * (2 * unit) <= 2 * (den * unit * SIGNIFICANDS))
            by (nonlinear_arith)
            requires
                den > 0,
                unit >= 1,
                SIGNIFICANDS == 0x100_0000,
        ;
        unit = 2 * unit;
    }
    assert(0 < den * unit <= den * unit * SIGNIFICANDS) by (nonlinear_arith)
        requires
            den > 0,
            unit >= 1,
            SIGNIFICANDS == 0x100_0000,
    ;
    let step: u128 = den * unit;
    let quotient: u128 = num / step;
    let rest: u128 = num % step;
    let rounded: u128 = if rest < step - rest || (rest == step - rest && quotient % 2 == 0) {
        quotient
    } else {
        quotient + 1
    };
    proof {
        vstd::arithmetic::div_mod::lemma_fundamental_div_mod(num as int, step as int);
        assert(rounded * unit <= num + unit) by (nonlinear_arith)
            requires
                rounded <= quotient + 1,
                num == step * quotient + rest,
                step == den * unit,
                rest >= 0,
                den >= 1,
                unit >= 1,
                quotient >= 0,
        ;
        assert(unit == 1 || unit * 0x80_0000 <= num) by (nonlinear_arith)
            requires
                unit == 1 || den * unit * SIGNIFICANDS <= 2 * num,
                den >= 1,
                unit >= 1,
                SIGNIFICANDS == 0x100_0000,
        ;
        assert(num >= den ==> quotient > 0) by (nonlinear_arith)
            requires
                unit == 1 || den * unit * SIGNIFICANDS <= 2 * num,
                num == step * quotient + rest,
                rest < step,
                step == den * unit,
                den >= 1,
                unit >= 1,
                SIGNIFICANDS == 0x100_0000,
        ;
        assert(quotient > 0 ==> rounded * unit > 0) by (nonlinear_arith)
            requires
                rounded >= quotient,
                unit >= 1,
        ;
    }
    rounded * unit
}

fn position(pixel: u32, ratio: u128) -> (out: u128)
    requires
        ratio < 0x400_0000_0000_0000_0000_0000,
    ensures
        out == position_of(pixel as nat, ratio as nat),
        out < 0x4000_0000_0000_0000_0000_0000_0000_0000,
{
    let middle: u128 = to_single(2 * to_single(pixel as u128, 1) + 1, 1);
    assert(middle * ratio < 0x8_0000_0000 * 0x400_0000_0000_0000_0000_0000) by (nonlinear_arith)
        requires
            middle < 0x8_0000_0000,
            ratio < 0x400_0000_0000_0000_0000_0000,
    ;
    to_single(middle * ratio, 1)
}

/// Tells whether every pixel of a resized edge has a weight.
pub fn weights_exist(edge: u32, new_edge: u32) -> (out: bool)
    requires
        edge > 0,
    ensures
        out == has_weights(edge, new_edge),
{
    if new_edge <= HALVES || (edge < new_edge && edge <= QUARTERS) {
        return true;
    }
    let source: u128 = to_single(edge as u128, 1);
    let target: u128 = to_single(new_edge as u128, 1);
    let ratio: u128 = to_single(source * HALF_PIXEL, target);
    let reach: u128 = if 2 * ratio < PIXEL {
        PIXEL
    } else {
        2 * ratio
    };
    let last: u128 = position(new_edge - 1, ratio);
    if last >= HALF_PIXEL && to_single(last - HALF_PIXEL, 1) >= to_single(edge as u128 - 1, 1)
        * PIXEL + reach {
        return false;
    }
    if edge as u128 > SIGNIFICANDS && reach == PIXEL {
        let mut pixel: u32 = new_edge;
        while pixel > 0
            invariant
                pixel <= new_edge,
                new_edge > HALVES,
                edge > SIGNIFICANDS,
                ratio == ratio_of(edge as nat, new_edge as nat),
                reach_of(ratio as nat) == PIXEL,
                ratio < 0x400_0000_0000_0000_0000_0000,
                forall|p: nat|
                    pixel <= p < new_edge ==> #[trigger] position_of(p, ratio as nat)
                        != SIGNIFICANDS * PIXEL,
            ensures
                pixel == 0,
            decreases pixel,
        {
            if position(pixel - 1, ratio) == SIGNIFICANDS * PIXEL {
                assert(position_of((pixel - 1) as nat, ratio as nat) == SIGNIFICANDS * PIXEL);
                return false;
            }
            pixel = pixel - 1;
        }
    }
    true
}

/// Edges that are resized to up to eight million pixels, and edges of up to four million pixels
/// that are enlarged, have weights all over.
pub proof fn short_edges_have_weights(edge: u32, new_edge: u32)
    requires
        new_edge <= 0x80_0000 || edge <= 0x40_0000,
    ensures
        has_weights(edge, new_edge),
{
}

proof fn lemma_spacing(num: nat, den: nat, unit: nat)
    requires
        den > 0,
        unit > 0,
        unit == 1 || den * unit * 0x80_0000 <= num,
    ensures
        ({
            let found = spacing_at(num, den, unit);
            &&& found > 0
            &&& num < den * found * 0x100_0000
            &&& found == 1 || den * found * 0x80_0000 <= num
        }),
    decreases
            (if num < unit {
                0
            } else {
                num - unit + 1
            }),
{
    if num >= den * unit * 0x100_0000 {
        assert(den * unit * 0x100_0000 == den * (2 * unit) * 0x80_0000 && den * unit * 0x100_0000
            >= 2 * unit) by (nonlinear_arith)
            requires
                den > 0,
                unit > 0,
        ;
        lemma_spacing(num, den, 2 * unit);
    }
}

/// The float of a quotient is near it: by half an integer where it is below 2^24, else by one part
/// in 2^24.
pub proof fn quotients_are_near(num: nat, den: nat)
    requires
        den > 0,
    ensures
        num < den * 0x100_0000 ==> 2 * num - den <= 2 * (single(num, den) * den) <= 2 * num + den,
        num >= den * 0x100_0000 ==> 0xff_ffff * num <= 0x100_0000 * (single(num, den) * den)
            <= 0x100_0001 * num,
{
    lemma_spacing(num, den, 1);
    let unit = spacing_at(num, den, 1);
    let step = den * unit;
    assert(step > 0) by (nonlinear_arith)
        requires
            step == den * unit,
            den > 0,
            unit > 0,
    ;
    let q = num / step;
    let rest = num % step;
    let rounded = round_to_even(num, step);
    vstd::arithmetic::div_mod::lemma_fundamental_div_mod(num as int, step as int);
    assert(q * step == num - rest && (q + 1) * step == num - rest + step) by (nonlinear_arith)
        requires
            num == step * q + rest,
    ;
    assert(rounded == q || rounded == q + 1);
    assert(single(num, den) * den == rounded * step) by (nonlinear_arith)
        requires
            single(num, den) == rounded * unit,
            step == den * unit,
    ;
    assert(2 * num - step <= 2 * (rounded * step) <= 2 * num + step);
    if num < den * 0x100_0000 {
        if unit > 1 {
            assert(den * unit * 0x80_0000 >= den * 0x100_0000) by (nonlinear_arith)
                requires
                    unit >= 2,
                    den > 0,
            ;
        }
        assert(unit == 1);
        assert(step == den);
    } else {
        assert(unit > 1) by (nonlinear_arith)
            requires
                num < den * unit * 0x100_0000,
                num >= den * 0x100_0000,
                unit > 0,
        ;
    }
}

/// An integer below 2^24 is its own float; a larger one differs from its float by no more than
/// one part in 2^24.
pub proof fn floats_are_near(n: nat)
    ensures
        n < 0x100_0000 ==> single(n, 1) == n,
        0x100_0000 * single(n, 1) <= 0x100_0001 * n,
        0x100_0000 * single(n, 1) >= 0xff_ffff * n,
{
    quotients_are_near(n, 1);
}

/// A resized pixel is as long as the quotient of the edges says, up to rounding.
pub proof fn ratios_are_near(edge: nat, new_edge: nat)
    requires
        0 < edge < 0x100_0000,
        0 < new_edge < 0x100_0000,
    ensures
        0xff_ffff * (edge * 0x100_0000_0000_0000) <= 0x100_0000 * (ratio_of(edge, new_edge)
            * new_edge) <= 0x100_0001 * (edge * 0x100_0000_0000_0000),
{
    floats_are_near(edge);
    floats_are_near(new_edge);
    quotients_are_near(edge * 0x100_0000_0000_0000, new_edge);
}

/// The middle of resized pixel `pixel` lies half a pixel behind as many lengths of a pixel, up to
/// rounding.
pub proof fn positions_are_near_the_middles(pixel: nat, ratio: nat)
    requires
        pixel < 0x80_0000,
    ensures
        0xff_ffff * ((2 * pixel + 1) * ratio) <= 0x100_0000 * position_of(pixel, ratio)
            <= 0x100_0001 * ((2 * pixel + 1) * ratio),
        (2 * pixel + 1) * ratio < 0x100_0000 ==> position_of(pixel, ratio) == (2 * pixel + 1)
            * ratio,
{
    floats_are_near(pixel);
    floats_are_near(2 * pixel + 1);
    floats_are_near((2 * pixel + 1) * ratio);
}

/// A resized pixel reaches as far as it is long, and at least one pixel far.
pub proof fn pixels_reach_one_pixel(ratio: nat)
    ensures
        reach_of(ratio) >= 2 * ratio,
        reach_of(ratio) >= 0x200_0000_0000_0000,
        reach_of(ratio) == 2 * ratio || reach_of(ratio) == 0x200_0000_0000_0000,
{
}

/// A resized pixel lies behind an edge where, half a pixel before its position, it is at least its
/// reach behind the last pixel. This holds where that place is a float.
pub proof fn pixels_behind_do_not_reach_the_edge(edge: nat, ratio: nat, pixel: nat, place: nat)
    requires
        0 < edge <= 0x100_0000,
        position_of(pixel, ratio) == place + 0x100_0000_0000_0000,
        single(place, 1) == place,
    ensures
        lies_behind(edge, ratio, pixel) <==> place >= (edge - 1) * 0x200_0000_0000_0000 + reach_of(
            ratio,
        ),
{
    floats_are_near((edge - 1) as nat);
}

/// A resized pixel whose position is less than half a pixel lies behind no edge.
pub proof fn the_first_pixels_lie_behind_no_edge(edge: nat, ratio: nat, pixel: nat)
    requires
        position_of(pixel, ratio) < 0x100_0000_0000_0000,
    ensures
        !lies_behind(edge, ratio, pixel),
{
}

/// A long edge has weights all over where its last pixel does not lie behind it and, on an edge of
/// more than 2^24 pixels whose resized pixels reach just one pixel, none lies exactly at pixel
/// 2^24.
pub proof fn long_edges_have_weights_where_all_pixels_reach(edge: u32, new_edge: u32)
    requires
        new_edge > 0x80_0000,
        edge > 0x40_0000,
    ensures
        ({
            let ratio = ratio_of(edge as nat, new_edge as nat);
            &&& lies_behind(edge as nat, ratio, (new_edge - 1) as nat) ==> !has_weights(
                edge,
                new_edge,
            )
            &&& !lies_behind(edge as nat, ratio, (new_edge - 1) as nat) && (edge <= 0x100_0000
                || reach_of(ratio) > 0x200_0000_0000_0000) ==> has_weights(edge, new_edge)
            &&& edge > 0x100_0000 && reach_of(ratio) == 0x200_0000_0000_0000 && (exists|pixel: nat|
                pixel < new_edge && #[trigger] position_of(pixel, ratio)
                    == 0x2_0000_0000_0000_0000_0000) ==> !has_weights(edge, new_edge)
            &&& !lies_behind(edge as nat, ratio, (new_edge - 1) as nat) && (forall|pixel: nat|
                pixel < new_edge ==> #[trigger] position_of(pixel, ratio)
                    != 0x2_0000_0000_0000_0000_0000) ==> has_weights(edge, new_edge)
        }),
{
}

} // verus!
