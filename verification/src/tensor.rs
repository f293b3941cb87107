//! From the pixels of an image to the input of a model.
use vstd::prelude::*;

use image::imageops::FilterType;

use crate::geometry::resize_crop_dims;
use crate::metadata::ModelInfo;
use crate::weights::weights_exist;
#[allow(unused_imports)]
use crate::geometry::{crop_dims, crop_is_centred};
#[allow(unused_imports)]
use crate::weights::has_weights;

verus! {

/// How the pixels of an image are read.
#[derive(Clone, Copy, Debug, PartialEq, Eq, Structural)]
pub enum PixelMode {
    /// One brightness per pixel.
    Gray,
    /// Red, green and blue per pixel.
    Rgb,
}

/// The number of bytes per pixel.
pub open spec fn samples(mode: PixelMode) -> nat {
    match mode {
        PixelMode::Gray => 1,
        PixelMode::Rgb => 3,
    }
}

/// The pixels of an image, row by row.
pub struct Raster {
    pub width: u32,
    pub height: u32,
    pub mode: PixelMode,
    pub pixels: Vec<u8>,
}

impl Raster {
    /// Whether there are as many bytes as the size and the mode ask for.
    pub open spec fn is_complete(&self) -> bool {
        self.pixels@.len() == self.width * self.height * samples(self.mode)
    }
}

/// What `image::imageops::resize` with the triangle filter makes of the pixels of an image of
/// `samples` bytes per pixel, of size `w` by `h`, for the new size `nw` by `nh`.
pub uninterp spec fn triangle_resized(
    pixels: Seq<u8>,
    samples: nat,
    w: u32,
    h: u32,
    nw: u32,
    nh: u32,
) -> Seq<u8>;

/// Whether the weights of one pixel of a resized edge have an allowed length. There are at most as
/// many as the edge has pixels, and about two per pixel that goes into one; each takes four
/// bytes, and as much again may be reserved for more.
pub open spec fn weights_fit(edge: u32, new_edge: u32) -> bool {
    ||| new_edge == 0
    ||| 8 * edge <= isize::MAX
    ||| 16 * (edge / new_edge) + 0x8000 <= isize::MAX
}

/// Whether an edge can be resized: each pixel has weights, and not too many.
pub open spec fn edge_can_be_resized(edge: u32, new_edge: u32) -> bool {
    has_weights(edge, new_edge) && weights_fit(edge, new_edge)
}

/// Whether an image can be resized: its rows and the buffers have an allowed length, and each
/// pixel has weights. The intermediate image has the old width, the new height and four floats per
/// pixel. There is none where the image is empty or keeps its size.
pub open spec fn can_be_resized(w: u32, h: u32, nw: u32, nh: u32, samples: nat) -> bool {
    &&& samples * w <= usize::MAX
    &&& samples * nw <= usize::MAX
    &&& samples * (nw * nh) <= isize::MAX
    &&& {
        ||| w == 0 || h == 0
        ||| w == nw && h == nh
        ||| {
            &&& edge_can_be_resized(w, nw)
            &&& edge_can_be_resized(h, nh)
            &&& 4 * w <= usize::MAX
            &&& 16 * (w * nh) <= isize::MAX
        }
    }
}

/// `image::imageops::resize` with `FilterType::Triangle` on an 8-bit gray image. The result has
/// one byte per pixel of the new size, and is a copy where the size does not change. Left out are
/// sizes on which a pixel has no weight or a buffer would be too long, where the call panics.
#[verifier::external_body]
fn resize_gray(pixels: Vec<u8>, w: u32, h: u32, nw: u32, nh: u32) -> (out: Vec<u8>)
    requires
        pixels@.len() == w * h,
        can_be_resized(w, h, nw, nh, 1),
    ensures
        out@ == triangle_resized(pixels@, 1, w, h, nw, nh),
        out@.len() == nw * nh,
        w == nw && h == nh ==> out@ == pixels@,
{
    let source = image::GrayImage::from_raw(w, h, pixels).unwrap();
    image::imageops::resize(&source, nw, nh, FilterType::Triangle).into_raw()
}

/// `image::imageops::resize` with `FilterType::Triangle` on an 8-bit RGB image, as for a gray
/// one, with three bytes per pixel.
#[verifier::external_body]
fn resize_rgb(pixels: Vec<u8>, w: u32, h: u32, nw: u32, nh: u32) -> (out: Vec<u8>)
    requires
        pixels@.len() == w * h * 3,
        can_be_resized(w, h, nw, nh, 3),
    ensures
        out@ == triangle_resized(pixels@, 3, w, h, nw, nh),
        out@.len() == nw * nh * 3,
        w == nw && h == nh ==> out@ == pixels@,
{
    let source = image::RgbImage::from_raw(w, h, pixels).unwrap();
    image::imageops::resize(&source, nw, nh, FilterType::Triangle).into_raw()
}

/// The byte of channel `ch` of the pixel in column `x` and row `y` of an image of width `w`. A
/// gray image has the same byte in every channel; a colour image has three channels, and
/// nothing beyond.
pub open spec fn sample_at(
    pixels: Seq<u8>,
    mode: PixelMode,
    w: nat,
    x: nat,
    y: nat,
    ch: nat,
) -> u8 {
    match mode {
        PixelMode::Gray => pixels[(y * w + x) as int],
        PixelMode::Rgb => if ch < 3 {
            pixels[((y * w + x) * 3 + ch) as int]
        } else {
            0
        },
    }
}

/// The position of column `x` and row `y` of channel `ch` in a tensor of square planes.
pub open spec fn tensor_index(edge: nat, ch: nat, y: nat, x: nat) -> nat {
    (ch * edge + y) * edge + x
}

/// The byte of a tensor in column `x` and row `y` of channel `ch`.
pub open spec fn tensor_at(tensor: Seq<u8>, edge: nat, ch: nat, y: nat, x: nat) -> u8 {
    tensor[tensor_index(edge, ch, y, x) as int]
}

/// Whether `tensor` holds, channel by channel and row by row, the square of size `edge` that
/// starts at column `x0` and row `y0` of an image of width `w`.
pub open spec fn is_crop(
    tensor: Seq<u8>,
    channels: nat,
    edge: nat,
    pixels: Seq<u8>,
    mode: PixelMode,
    w: nat,
    x0: nat,
    y0: nat,
) -> bool {
    &&& tensor.len() == channels * edge * edge
    &&& forall|ch: nat, y: nat, x: nat|
        ch < channels && y < edge && x < edge ==> #[trigger] tensor_at(tensor, edge, ch, y, x)
            == sample_at(pixels, mode, w, x0 + x, y0 + y, ch)
}

/// Whether what `tensor` holds so far is the start of such a crop.
spec fn holds_crop(
    tensor: Seq<u8>,
    edge: nat,
    pixels: Seq<u8>,
    mode: PixelMode,
    w: nat,
    x0: nat,
    y0: nat,
) -> bool {
    forall|ch: nat, y: nat, x: nat|
        y < edge && x < edge && tensor_index(edge, ch, y, x) < tensor.len()
            ==> #[trigger] tensor_at(tensor, edge, ch, y, x) == sample_at(
            pixels,
            mode,
            w,
            x0 + x,
            y0 + y,
            ch,
        )
}

/// One position belongs to one channel, row and column.
proof fn lemma_index_is_unique(
    edge: nat,
    ch1: nat,
    y1: nat,
    x1: nat,
    ch2: nat,
    y2: nat,
    x2: nat,
)
    requires
        y1 < edge,
        x1 < edge,
        y2 < edge,
        x2 < edge,
        tensor_index(edge, ch1, y1, x1) == tensor_index(edge, ch2, y2, x2),
    ensures
        ch1 == ch2,
        y1 == y2,
        x1 == x2,
{
    let a = ch1 * edge + y1;
    let b = ch2 * edge + y2;
    assert(a == b && x1 == x2) by (nonlinear_arith)
        requires
            a * edge + x1 == b * edge + x2,
            x1 < edge,
            x2 < edge,
    ;
    assert(ch1 == ch2 && y1 == y2) by (nonlinear_arith)
        requires
            ch1 * edge + y1 == ch2 * edge + y2,
            y1 < edge,
            y2 < edge,
    ;
}

proof fn lemma_index_in_range(edge: nat, channels: nat, ch: nat, y: nat, x: nat)
    requires
        ch < channels,
        y < edge,
        x < edge,
    ensures
        tensor_index(edge, ch, y, x) < channels * edge * edge,
{
    let a = ch * edge + y;
    assert(a < channels * edge) by (nonlinear_arith)
        requires
            a == ch * edge + y,
            ch < channels,
            y < edge,
    ;
    assert(a * edge + x < channels * edge * edge) by (nonlinear_arith)
        requires
            a < channels * edge,
            x < edge,
    ;
}

proof fn lemma_pixel_in_range(w: nat, h: nat, x: nat, y: nat)
    requires
        x < w,
        y < h,
    ensures
        y * w + x < w * h,
        y * w <= w * h,
{
    assert(y * w + x < w * h && y * w <= w * h) by (nonlinear_arith)
        requires
            x < w,
            y < h,
    ;
}

/// Reads the byte that `sample_at` names.
fn read_sample(
    pixels: &Vec<u8>,
    mode: PixelMode,
    w: u32,
    h: u32,
    x: u32,
    y: u32,
    ch: usize,
) -> (out: u8)
    requires
        pixels@.len() == w * h * samples(mode),
        x < w,
        y < h,
    ensures
        out == sample_at(pixels@, mode, w as nat, x as nat, y as nat, ch as nat),
{
    let total: usize = pixels.len();
    proof {
        lemma_pixel_in_range(w as nat, h as nat, x as nat, y as nat);
        assert(w * h <= total) by (nonlinear_arith)
            requires
                total == w * h * samples(mode),
                samples(mode) >= 1,
                w * h >= 0,
        ;
    }
    let pixel: usize = y as usize * w as usize + x as usize;
    match mode {
        PixelMode::Gray => pixels[pixel],
        PixelMode::Rgb => if ch < 3 {
            pixels[pixel * 3 + ch]
        } else {
            0
        },
    }
}

/// Cuts the square of size `edge` at column `x0` and row `y0` out of an image of size `w` by `h`,
/// and lays it out channel by channel and row by row.
pub fn crop_to_tensor(
    pixels: &Vec<u8>,
    mode: PixelMode,
    w: u32,
    h: u32,
    x0: u32,
    y0: u32,
    edge: u32,
    channels: usize,
) -> (out: Vec<u8>)
    requires
        pixels@.len() == w * h * samples(mode),
        x0 + edge <= w,
        y0 + edge <= h,
        channels * edge * edge <= usize::MAX,
    ensures
        is_crop(
            out@,
            channels as nat,
            edge as nat,
            pixels@,
            mode,
            w as nat,
            x0 as nat,
            y0 as nat,
        ),
{
    let mut out: Vec<u8> = Vec::new();
    let ghost n = edge as nat;
    let mut ch: usize = 0;
    assert(tensor_index(n, 0, 0, 0) == 0) by (nonlinear_arith);
    while ch < channels
        invariant
            n == edge as nat,
            ch <= channels,
            pixels@.len() == w * h * samples(mode),
            x0 + edge <= w,
            y0 + edge <= h,
            out@.len() == tensor_index(n, ch as nat, 0, 0),
            holds_crop(out@, n, pixels@, mode, w as nat, x0 as nat, y0 as nat),
        decreases channels - ch,
    {
        let mut y: u32 = 0;
        while y < edge
            invariant
                n == edge as nat,
                y <= edge,
                pixels@.len() == w * h * samples(mode),
                x0 + edge <= w,
                y0 + edge <= h,
                out@.len() == tensor_index(n, ch as nat, y as nat, 0),
                holds_crop(out@, n, pixels@, mode, w as nat, x0 as nat, y0 as nat),
            decreases edge - y,
        {
            let mut x: u32 = 0;
            while x < edge
                invariant
                    n == edge as nat,
                    x <= edge,
                    y < edge,
                    pixels@.len() == w * h * samples(mode),
                    x0 + edge <= w,
                    y0 + edge <= h,
                    out@.len() == tensor_index(n, ch as nat, y as nat, x as nat),
                    holds_crop(out@, n, pixels@, mode, w as nat, x0 as nat, y0 as nat),
                decreases edge - x,
            {
                let sample: u8 = read_sample(pixels, mode, w, h, x0 + x, y0 + y, ch);
                let ghost before = out@;
                out.push(sample);
                proof {
                    assert forall|c: nat, yy: nat, xx: nat|
                        yy < n && xx < n && tensor_index(n, c, yy, xx)
                            < out@.len() implies #[trigger] tensor_at(out@, n, c, yy, xx)
                        == sample_at(
                        pixels@,
                        mode,
                        w as nat,
                        x0 as nat + xx,
                        y0 as nat + yy,
                        c,
                    ) by {
                        if tensor_index(n, c, yy, xx) < before.len() {
                            assert(tensor_at(before, n, c, yy, xx) == tensor_at(
                                out@,
                                n,
                                c,
                                yy,
                                xx,
                            ));
                        } else {
                            lemma_index_is_unique(
                                n,
                                c,
                                yy,
                                xx,
                                ch as nat,
                                y as nat,
                                x as nat,
                            );
                        }
                    }
                }
                x = x + 1;
            }
            assert(tensor_index(n, ch as nat, y as nat, n) == tensor_index(
                n,
                ch as nat,
                y as nat + 1,
                0,
            )) by (nonlinear_arith);
            y = y + 1;
        }
        assert(tensor_index(n, ch as nat, n, 0) == tensor_index(n, ch as nat + 1, 0, 0))
            by (nonlinear_arith);
        ch = ch + 1;
    }
    proof {
        assert(tensor_index(n, channels as nat, 0, 0) == channels * n * n) by (nonlinear_arith);
        assert forall|c: nat, y: nat, x: nat| c < channels && y < n && x < n implies #[trigger]
        tensor_at(out@, n, c, y, x) == sample_at(
            pixels@,
            mode,
            w as nat,
            x0 as nat + x,
            y0 as nat + y,
            c,
        ) by {
            lemma_index_in_range(n, channels as nat, c, y, x);
        }
    }
    out
}

/// Reads a model with one channel, or any model on request, in gray.
pub fn pixel_mode(channels: usize, force_gray: bool) -> (out: PixelMode)
    ensures
        out == mode_for(channels as nat, force_gray),
{
    if force_gray || channels == 1 {
        PixelMode::Gray
    } else {
        PixelMode::Rgb
    }
}

pub open spec fn mode_for(channels: nat, force_gray: bool) -> PixelMode {
    if force_gray || channels == 1 {
        PixelMode::Gray
    } else {
        PixelMode::Rgb
    }
}

/// The edge of the square that a model takes: the shorter edge of its input.
pub open spec fn target_edge(model: ModelInfo) -> u32 {
    if model.height < model.width {
        model.height
    } else {
        model.width
    }
}

/// Whether the resized image and the input of the model have an allowed length. An input value
/// takes four bytes.
pub open spec fn can_be_prepared(
    w: u32,
    h: u32,
    mode: PixelMode,
    channels: nat,
    target: u32,
) -> bool {
    let (nw, nh, x0, y0) = crop_dims(w as nat, h as nat, target as nat);
    &&& can_be_resized(w, h, nw as u32, nh as u32, samples(mode))
    &&& channels * (target * target) <= isize::MAX / 4
}

fn can_resize_edge(edge: u32, new_edge: u32) -> (out: bool)
    requires
        edge > 0,
    ensures
        out == edge_can_be_resized(edge, new_edge),
{
    let limit: u64 = isize::MAX as u64;
    let fits: bool = new_edge == 0 || 8 * (edge as u64) <= limit || 16 * (edge as u64
        / new_edge as u64) + 0x8000 <= limit;
    fits && weights_exist(edge, new_edge)
}

/// Resizes an image so that its shorter edge fits the model, cuts the centred square out of it
/// and lays it out channel by channel and row by row. `None` if the image cannot be resized or a
/// buffer would be too long.
pub fn input_tensor(image: Raster, model: &ModelInfo, force_gray: bool) -> (out: Option<Vec<u8>>)
    requires
        image.is_complete(),
        image.mode == mode_for(model.channels as nat, force_gray),
    ensures
        out is Some <==> can_be_prepared(
            image.width,
            image.height,
            image.mode,
            model.channels as nat,
            target_edge(*model),
        ),
        match out {
            Some(tensor) => {
                let target = target_edge(*model);
                let (nw, nh, x0, y0) = crop_dims(
                    image.width as nat,
                    image.height as nat,
                    target as nat,
                );
                &&& is_crop(
                    tensor@,
                    model.channels as nat,
                    target as nat,
                    triangle_resized(
                        image.pixels@,
                        samples(image.mode),
                        image.width,
                        image.height,
                        nw as u32,
                        nh as u32,
                    ),
                    image.mode,
                    nw,
                    x0,
                    y0,
                )
                &&& image.width == target && image.height == target ==> is_crop(
                    tensor@,
                    model.channels as nat,
                    target as nat,
                    image.pixels@,
                    image.mode,
                    target as nat,
                    0,
                    0,
                )
            },
            None => true,
        },
{
    let target: u32 = if model.height < model.width {
        model.height
    } else {
        model.width
    };
    let (nw, nh, x0, y0): (u32, u32, u32, u32) = resize_crop_dims(
        image.width,
        image.height,
        target,
    );
    proof {
        crop_is_centred(image.width as nat, image.height as nat, target as nat);
        lemma_products_fit(image.width, nh);
        lemma_products_fit(nw, nh);
        lemma_products_fit(target, target);
    }
    let per_pixel: u128 = match image.mode {
        PixelMode::Gray => 1,
        PixelMode::Rgb => 3,
    };
    let limit: u128 = isize::MAX as u128;
    let row_limit: u128 = usize::MAX as u128;
    if per_pixel * image.width as u128 > row_limit || per_pixel * nw as u128 > row_limit || per_pixel
        * (nw as u128 * nh as u128) > limit {
        return None;
    }
    let stays: bool = image.width == nw && image.height == nh;
    if image.width > 0 && image.height > 0 && !stays {
        if 4 * image.width as u128 > row_limit || 16 * (image.width as u128 * nh as u128) > limit
            || !can_resize_edge(image.width, nw) || !can_resize_edge(image.height, nh) {
            return None;
        }
    }
    let plane: u128 = target as u128 * target as u128;
    assert(model.channels as u128 * plane <= u128::MAX) by (nonlinear_arith)
        requires
            model.channels <= u64::MAX,
            plane <= 0xffff_ffff * 0xffff_ffff,
    ;
    if model.channels as u128 * plane > limit / 4 {
        return None;
    }
    let mode: PixelMode = image.mode;
    let ghost pixels = image.pixels@;
    let resized: Vec<u8> = match mode {
        PixelMode::Gray => resize_gray(image.pixels, image.width, image.height, nw, nh),
        PixelMode::Rgb => resize_rgb(image.pixels, image.width, image.height, nw, nh),
    };
    proof {
        assert(model.channels * target * target == model.channels * (target * target))
            by (nonlinear_arith);
        if image.width == target && image.height == target {
            lemma_square_stays(target as nat);
        }
    }
    Some(crop_to_tensor(&resized, mode, nw, nh, x0, y0, target, model.channels))
}

proof fn lemma_products_fit(a: u32, b: u32)
    ensures
        0 <= a * b <= 0xffff_ffff * 0xffff_ffff,
        a as u128 * b as u128 == a * b,
{
    assert(0 <= a * b <= 0xffff_ffff * 0xffff_ffff) by (nonlinear_arith)
        requires
            a <= 0xffff_ffff,
            b <= 0xffff_ffff,
    ;
}

/// A square of the target size is neither resized nor cut.
proof fn lemma_square_stays(target: nat)
    requires
        target <= u32::MAX,
    ensures
        crop_dims(target, target, target) == (target, target, 0nat, 0nat),
{
    if target > 0 {
        assert(target * target / target == target) by (nonlinear_arith)
            requires
                target > 0,
        ;
    } else {
        assert(target * target == 0);
    }
}

/// Let an image hold, row by row, the byte `f(x, y, ch)` for channel `ch` of the pixel in column
/// `x` and row `y`. A crop of it holds the pixels of its square, each where it belongs: in the plane of its channel, in
/// its row and in its column. In gray every plane is the same; in colour those behind the third
/// are empty.
pub proof fn crops_hold_their_pixels(
    tensor: Seq<u8>,
    channels: nat,
    edge: nat,
    pixels: Seq<u8>,
    mode: PixelMode,
    w: nat,
    h: nat,
    x0: nat,
    y0: nat,
    f: spec_fn(nat, nat, nat) -> u8,
)
    requires
        is_crop(tensor, channels, edge, pixels, mode, w, x0, y0),
        x0 + edge <= w,
        y0 + edge <= h,
        mode == PixelMode::Gray ==> forall|x: nat, y: nat|
            x < w && y < h ==> pixels[(y * w + x) as int] == #[trigger] f(x, y, 0),
        mode == PixelMode::Rgb ==> forall|x: nat, y: nat, ch: nat|
            x < w && y < h && ch < 3 ==> pixels[((y * w + x) * 3 + ch) as int] == #[trigger] f(
                x,
                y,
                ch,
            ),
    ensures
        tensor.len() == channels * edge * edge,
        forall|ch: nat, y: nat, x: nat|
            #![trigger tensor[(ch * edge * edge + y * edge + x) as int]]
            ch < channels && y < edge && x < edge ==> tensor[(ch * edge * edge + y * edge
                + x) as int] == (match mode {
                PixelMode::Gray => f(x0 + x, y0 + y, 0),
                PixelMode::Rgb => if ch < 3 {
                    f(x0 + x, y0 + y, ch)
                } else {
                    0
                },
            }),
{
    assert forall|ch: nat, y: nat, x: nat|
        #![trigger tensor[(ch * edge * edge + y * edge + x) as int]]
        ch < channels && y < edge && x < edge implies tensor[(ch * edge * edge + y * edge
        + x) as int] == (match mode {
        PixelMode::Gray => f(x0 + x, y0 + y, 0),
        PixelMode::Rgb => if ch < 3 {
            f(x0 + x, y0 + y, ch)
        } else {
            0
        },
    }) by {
        assert(tensor_index(edge, ch, y, x) == ch * edge * edge + y * edge + x)
            by (nonlinear_arith);
        assert(tensor_at(tensor, edge, ch, y, x) == sample_at(
            pixels,
            mode,
            w,
            x0 + x,
            y0 + y,
            ch,
        ));
        match mode {
            PixelMode::Gray => {
                let byte = f(x0 + x, y0 + y, 0);
            },
            PixelMode::Rgb => {
                let byte = f(x0 + x, y0 + y, ch);
            },
        }
    }
}

/// Pixels are read in gray when that is asked for or the model has one channel, else in colour.
pub proof fn mode_follows_the_channels(channels: nat)
    ensures
        mode_for(channels, true) == PixelMode::Gray,
        mode_for(1, false) == PixelMode::Gray,
        channels != 1 ==> mode_for(channels, false) == PixelMode::Rgb,
{
}

/// The square that a model takes fits its input in both directions, and touches it in one.
pub proof fn target_is_the_shorter_edge(model: ModelInfo)
    ensures
        target_edge(model) <= model.width,
        target_edge(model) <= model.height,
        target_edge(model) == model.width || target_edge(model) == model.height,
{
}

/// A complete image has as many bytes as it has pixels, three times over in colour.
pub proof fn complete_images_have_all_bytes(image: Raster)
    requires
        image.is_complete(),
    ensures
        image.mode == PixelMode::Gray ==> image.pixels@.len() == image.width * image.height,
        image.mode == PixelMode::Rgb ==> image.pixels@.len() == 3 * (image.width * image.height),
{
    assert(image.width * image.height * 3 == 3 * (image.width * image.height)) by (nonlinear_arith);
    assert(image.width * image.height * 1 == image.width * image.height) by (nonlinear_arith);
}

/// On a machine with 64-bit addresses every image with edges of up to four million pixels can be
/// prepared for a model of up to 65536 by 65536 pixels.
pub proof fn photos_can_be_prepared(
    w: u32,
    h: u32,
    mode: PixelMode,
    channels: nat,
    target: u32,
)
    requires
        isize::MAX == 0x7fff_ffff_ffff_ffff,
        usize::MAX == 0xffff_ffff_ffff_ffff,
        0 < w <= 0x40_0000,
        0 < h <= 0x40_0000,
        0 < target <= 0x1_0000,
        channels <= 0x1000_0000,
    ensures
        can_be_prepared(w, h, mode, channels, target),
{
    let (nw, nh, x0, y0) = crop_dims(w as nat, h as nat, target as nat);
    crate::geometry::shorter_edge_becomes_target(w as nat, h as nat, target as nat);
    assert(nw <= u32::MAX && nh <= u32::MAX);
    assert(nw * nh <= 0x1_0000 * 0x1_0000_0000) by (nonlinear_arith)
        requires
            nw <= u32::MAX,
            nh <= u32::MAX,
            nw <= 0x1_0000 || nh <= 0x1_0000,
    ;
    assert(w * nh <= 0x40_0000 * 0x1_0000_0000) by (nonlinear_arith)
        requires
            w <= 0x40_0000,
            nh <= u32::MAX,
    ;
    assert(channels * (target * target) <= 0x1000_0000 * (0x1_0000 * 0x1_0000))
        by (nonlinear_arith)
        requires
            channels <= 0x1000_0000,
            target <= 0x1_0000,
    ;
    assert(samples(mode) * (nw * nh) <= 3 * (nw * nh)) by (nonlinear_arith)
        requires
            samples(mode) <= 3,
            nw * nh >= 0,
    ;
    assert(samples(mode) * w <= 3 * w && samples(mode) * nw <= 3 * nw) by (nonlinear_arith)
        requires
            samples(mode) <= 3,
    ;
}

/// The weights of a resized pixel always fit the memory of a machine with 64-bit addresses. On one
/// with 32-bit addresses they do where the edge is below 2^28, or is divided by enough.
pub proof fn few_weights_fit(edge: u32, new_edge: u32)
    ensures
        weights_fit(edge, 0),
        isize::MAX == 0x7fff_ffff_ffff_ffff ==> weights_fit(edge, new_edge),
        isize::MAX == 0x7fff_ffff && new_edge > 0 ==> weights_fit(edge, new_edge) == (edge
            < 0x1000_0000 || edge / new_edge < 0x7ff_f800),
{
}

/// An image that can be resized has a result that fits the memory, and so have its rows. Where
/// there is something to compute, the intermediate image fits too, and both edges have weights
/// that fit.
pub proof fn resized_images_fit(w: u32, h: u32, nw: u32, nh: u32, samples: nat)
    requires
        can_be_resized(w, h, nw, nh, samples),
    ensures
        samples * (nw * nh) <= isize::MAX,
        samples * w <= usize::MAX,
        samples * nw <= usize::MAX,
        w > 0 && h > 0 && (w != nw || h != nh) ==> {
            &&& has_weights(w, nw)
            &&& has_weights(h, nh)
            &&& weights_fit(w, nw)
            &&& weights_fit(h, nh)
            &&& 4 * w <= usize::MAX
            &&& 16 * (w * nh) <= isize::MAX
        },
{
}

/// An image whose result, rows and intermediate image fit the memory can be resized, where its
/// edges have weights that fit. One that is empty or keeps its size needs no weights.
pub proof fn images_that_fit_can_be_resized(w: u32, h: u32, nw: u32, nh: u32, samples: nat)
    requires
        samples * (nw * nh) <= isize::MAX,
        samples * w <= usize::MAX,
        samples * nw <= usize::MAX,
    ensures
        w == 0 ==> can_be_resized(w, h, nw, nh, samples),
        h == 0 ==> can_be_resized(w, h, nw, nh, samples),
        w == nw && h == nh ==> can_be_resized(w, h, nw, nh, samples),
        has_weights(w, nw) && has_weights(h, nh) && weights_fit(w, nw) && weights_fit(h, nh) && 4
            * w <= usize::MAX && 16 * (w * nh) <= isize::MAX ==> can_be_resized(
            w,
            h,
            nw,
            nh,
            samples,
        ),
{
}

/// An image can be prepared just where it can be resized to the size that the crop asks for and
/// the input of the model, at four bytes a value, fits the memory.
pub proof fn prepared_images_fit(w: u32, h: u32, mode: PixelMode, channels: nat, target: u32)
    ensures
        ({
            let (nw, nh, x0, y0) = crop_dims(w as nat, h as nat, target as nat);
            &&& can_be_prepared(w, h, mode, channels, target) ==> 4 * (channels * (target * target))
                <= isize::MAX
            &&& mode == PixelMode::Gray ==> can_be_prepared(w, h, mode, channels, target) == (
            can_be_resized(w, h, nw as u32, nh as u32, 1) && 4 * (channels * (target * target))
                <= isize::MAX)
            &&& mode == PixelMode::Rgb ==> can_be_prepared(w, h, mode, channels, target) == (
            can_be_resized(w, h, nw as u32, nh as u32, 3) && 4 * (channels * (target * target))
                <= isize::MAX)
        }),
{
}

} // verus!
