//! The size to which an image is resized, and the square that is cut out of it.
use vstd::prelude::*;

verus! {

pub open spec fn at_most_u32(n: nat) -> nat {
    if n > u32::MAX {
        u32::MAX as nat
    } else {
        n
    }
}

/// The integer nearest to `num / den`; of two that are equally near, the even one.
pub open spec fn round_to_even(num: nat, den: nat) -> nat {
    let quotient = num / den;
    let rest = num % den;
    if 2 * rest < den || (2 * rest == den && quotient % 2 == 0) {
        quotient
    } else {
        quotient + 1
    }
}

/// The length of the longer edge once the shorter one is `target`: without its fraction, and at
/// most `u32::MAX`.
pub open spec fn scaled_edge(long: nat, short: nat, target: nat) -> nat {
    if short == 0 {
        if long * target == 0 {
            0
        } else {
            u32::MAX as nat
        }
    } else {
        at_most_u32(long * target / short)
    }
}

/// The width and the height after the shorter edge has been scaled to `target`.
pub open spec fn scaled_dims(src_w: nat, src_h: nat, target: nat) -> (nat, nat) {
    if src_w <= src_h {
        (target, scaled_edge(src_h, src_w, target))
    } else {
        (scaled_edge(src_w, src_h, target), target)
    }
}

/// What an edge of length `edge` leaves free on the near side of a centred span of `target`: half
/// of the rest, rounded to even where the rest is odd.
pub open spec fn margin(edge: nat, target: nat) -> nat {
    if edge > target {
        round_to_even((edge - target) as nat, 2)
    } else {
        0
    }
}

pub open spec fn at_least(edge: nat, target: nat) -> nat {
    if edge < target {
        target
    } else {
        edge
    }
}

/// The width and the height of the resized image, and the left and upper edge of the crop.
pub open spec fn crop_dims(src_w: nat, src_h: nat, target: nat) -> (nat, nat, nat, nat) {
    let (w, h) = scaled_dims(src_w, src_h, target);
    (at_least(w, target), at_least(h, target), margin(w, target), margin(h, target))
}

/// Scales the longer edge as `scaled_edge` says.
fn scale_edge(long: u32, short: u32, target: u32) -> (out: u32)
    ensures
        out == scaled_edge(long as nat, short as nat, target as nat),
{
    assert(long * target <= 0xffff_ffff * 0xffff_ffff) by (nonlinear_arith)
        requires
            long <= 0xffff_ffff,
            target <= 0xffff_ffff,
    ;
    let product: u64 = long as u64 * target as u64;
    if short == 0 {
        if product == 0 {
            0
        } else {
            u32::MAX
        }
    } else {
        let edge: u64 = product / short as u64;
        if edge > u32::MAX as u64 {
            u32::MAX
        } else {
            edge as u32
        }
    }
}

fn margin_of(edge: u32, target: u32) -> (out: u32)
    ensures
        out == margin(edge as nat, target as nat),
{
    if edge <= target {
        return 0;
    }
    let rest: u32 = edge - target;
    let half: u32 = rest / 2;
    if rest % 2 == 1 && half % 2 == 1 {
        half + 1
    } else {
        half
    }
}

/// Resizes the shorter edge to `target`, keeping the aspect ratio, and then cuts a centred square
/// of that size. Returns the resized width and height and the left and upper edge of the square.
/// The rounding is that of torchvision's `Resize` and `CenterCrop`.
pub fn resize_crop_dims(src_w: u32, src_h: u32, target: u32) -> (out: (u32, u32, u32, u32))
    ensures
        (out.0 as nat, out.1 as nat, out.2 as nat, out.3 as nat) == crop_dims(
            src_w as nat,
            src_h as nat,
            target as nat,
        ),
{
    let (w, h): (u32, u32) = if src_w <= src_h {
        (target, scale_edge(src_h, src_w, target))
    } else {
        (scale_edge(src_w, src_h, target), target)
    };
    let resized_w: u32 = if w < target {
        target
    } else {
        w
    };
    let resized_h: u32 = if h < target {
        target
    } else {
        h
    };
    (resized_w, resized_h, margin_of(w, target), margin_of(h, target))
}

/// The crop lies within the resized image, and what is left of each edge is shared evenly between
/// its two sides, up to one pixel; where it cannot be shared evenly, the near side has an even
/// number of pixels.
pub proof fn crop_is_centred(src_w: nat, src_h: nat, target: nat)
    ensures
        ({
            let (w, h, x0, y0) = crop_dims(src_w, src_h, target);
            &&& x0 + target <= w
            &&& y0 + target <= h
            &&& -1 <= (w - target - x0) - x0 <= 1
            &&& -1 <= (h - target - y0) - y0 <= 1
            &&& w - target - x0 == x0 || x0 % 2 == 0
            &&& h - target - y0 == y0 || y0 % 2 == 0
        }),
{
}

/// The shorter edge becomes `target` and the longer one is not shorter than it.
pub proof fn shorter_edge_becomes_target(src_w: nat, src_h: nat, target: nat)
    ensures
        ({
            let (w, h, x0, y0) = crop_dims(src_w, src_h, target);
            &&& src_w <= src_h ==> w == target && h >= target && x0 == 0
            &&& src_h < src_w ==> h == target && w >= target && y0 == 0
        }),
{
}

/// The aspect ratio is kept up to the fraction of a pixel, as long as the longer edge fits.
pub proof fn aspect_ratio_is_kept(long: nat, short: nat, target: nat)
    requires
        0 < short <= long,
        long * target <= short * u32::MAX,
    ensures
        crop_dims(long, short, target).0 * short <= long * target,
        long * target < (crop_dims(long, short, target).0 + 1) * short,
        crop_dims(short, long, target).1 * short <= long * target,
        long * target < (crop_dims(short, long, target).1 + 1) * short,
{
    let edge = long * target / short;
    vstd::arithmetic::div_mod::lemma_fundamental_div_mod((long * target) as int, short as int);
    assert(edge * short <= long * target < (edge + 1) * short && target <= edge <= u32::MAX && (long
        == short ==> edge == target)) by (nonlinear_arith)
        requires
            long * target == short * edge + (long * target) % short,
            0 <= (long * target) % short < short,
            0 < short <= long,
            long * target <= short * u32::MAX,
    ;
}

/// A longer edge that would not fit 32 bits is cut to the longest that does.
pub proof fn longest_edge_is_the_limit(long: nat, short: nat, target: nat)
    requires
        0 < short <= long,
        target <= u32::MAX,
        short * 0x1_0000_0000 <= long * target,
    ensures
        crop_dims(long, short, target).0 == u32::MAX,
        crop_dims(short, long, target).1 == u32::MAX,
{
    assert(long * target / short >= 0x1_0000_0000) by (nonlinear_arith)
        requires
            0 < short,
            short * 0x1_0000_0000 <= long * target,
    ;
    assert(short < long) by (nonlinear_arith)
        requires
            short <= long,
            0 < short,
            target <= u32::MAX,
            short * 0x1_0000_0000 <= long * target,
    ;
}

/// An image without pixels in one direction becomes a square of the target size where it has none
/// in the other either, or where the target is nothing; else the longest edge there is.
pub proof fn empty_images_have_a_size(long: nat, target: nat)
    requires
        target <= u32::MAX,
    ensures
        crop_dims(0, 0, target) == (target, target, 0nat, 0nat),
        crop_dims(0, long, 0) == (0nat, 0nat, 0nat, 0nat),
        crop_dims(long, 0, 0) == (0nat, 0nat, 0nat, 0nat),
        long > 0 && target > 0 ==> crop_dims(0, long, target).1 == u32::MAX && crop_dims(
            long,
            0,
            target,
        ).0 == u32::MAX,
{
    assert(0 * target == 0 && long * 0 == 0) by (nonlinear_arith);
    if long > 0 && target > 0 {
        assert(long * target > 0) by (nonlinear_arith)
            requires
                long > 0,
                target > 0,
        ;
    }
}

} // verus!
