//! Classical resampling, by the `image` crate.

use vstd::prelude::*;

use crate::raster::{Raster, RgbaImage};

verus! {

/// How pixels between samples are made up.
#[derive(Debug, Clone, Copy, PartialEq, Eq, Structural)]
pub enum Filter {
    Nearest,
    Triangle,
    CatmullRom,
    Gaussian,
    Lanczos3,
}

/// Source sides up to this length are resampled to any length.
pub const FREE_SIDE: u32 = 4_194_304;

/// Source sides up to this length are resampled to sides up to this length.
pub const MAX_SIDE: u32 = 8_388_608;

/// Source sides up to this length, over which every pixel has a position of its own,
/// are shrunk.
pub const MAX_SHRUNK_SIDE: u32 = 16_777_216;

/// Source sides up to this length are resampled to any length with the Gaussian
/// kernel.
pub const MAX_BLURRED_SIDE: u32 = 33_554_432;

/// Source sides of any length are shrunk to sides up to this length, by at most
/// [`MAX_SHRINKING`].
pub const SMALL_SIDE: u32 = 65_536;

/// How many pixels of a longer side one pixel of a small side can stand for.
pub const MAX_SHRINKING: u32 = 524_288;

/// Whether a side of length `side` can be resampled to `new_side`.
///
/// Sample positions are 32-bit floating-point numbers, and the resampler divides by
/// the sum of the weights around a position, which makes it panic where that is
/// zero. `Nearest` weighs every sample alike, so its sums never are, and a side without
/// pixels has no positions. With the other kernels that depends on how far past the
/// last sample the last position is rounded, in units of the kernel. It stays less than
/// one unit away, where every kernel has weight, in these cases:
/// - on a source side of up to 2^22 it is at most a quarter of a pixel past the end;
/// - where neither side exceeds 2^23 it is not past the end;
/// - where a side of up to 2^24 is halved or more it is half a unit away;
/// - where a side is shrunk to at most 2^16 positions are off by a fiftieth of a unit,
///   and shrinking by at most 2^19 leaves few enough weights to be added up.
///
/// Otherwise it can be a unit or more away. Triangle weights then add up to zero, as
/// they do on 9,844,300 pixels that are to stay 9,844,300. So do Catmull-Rom weights,
/// and Lanczos weights up to the last digits of `sin`, where the kernel is not widened
/// and the position is one or two whole samples away. Where it is widened by a
/// twentieth or more, on a side of up to 2^24, their sums are not near zero. Gaussian
/// weights are positive as far as the position falls on a side of up to 2^25, which is
/// less than six samples.
pub open spec fn side_resizable(filter: Filter, side: int, new_side: int) -> bool {
    ||| filter == Filter::Nearest || new_side == 0
    ||| side <= FREE_SIDE
    ||| side <= MAX_SIDE && new_side <= MAX_SIDE
    ||| side <= MAX_SHRUNK_SIDE && 2 * new_side <= side
    ||| new_side <= SMALL_SIDE && side <= MAX_SHRINKING * new_side
    ||| {
        &&& filter == Filter::CatmullRom || filter == Filter::Lanczos3
        &&& side <= MAX_SHRUNK_SIDE
        &&& 21 * new_side <= 20 * side
    }
    ||| filter == Filter::Gaussian && side <= MAX_BLURRED_SIDE
}

/// Whether an image of `width` x `height` can be resampled to `new_width` x
/// `new_height`: a row of either and the result can be held, and where pixels have to
/// be made up both sides can be resampled and the intermediate image can be held as
/// well. A row counts even where an image has none: its length is computed first.
pub open spec fn resizable(
    filter: Filter,
    width: int,
    height: int,
    new_width: int,
    new_height: int,
) -> bool {
    &&& 4 * width <= isize::MAX
    &&& 4 * new_width <= isize::MAX
    &&& 4 * (new_width * new_height) <= isize::MAX
    &&& {
        ||| width == new_width && height == new_height
        ||| width == 0 || height == 0
        ||| {
            &&& side_resizable(filter, width, new_width)
            &&& side_resizable(filter, height, new_height)
            &&& 16 * (width * new_height) <= isize::MAX
        }
    }
}

fn can_resize_side(filter: Filter, side: u32, new_side: u32) -> (r: bool)
    ensures
        r == side_resizable(filter, side as int, new_side as int),
{
    if filter == Filter::Nearest || new_side == 0 || side <= FREE_SIDE {
        return true;
    }
    if side <= MAX_SIDE && new_side <= MAX_SIDE {
        return true;
    }
    if side <= MAX_SHRUNK_SIDE && 2 * (new_side as u64) <= side as u64 {
        return true;
    }
    proof {
        assert(0 <= MAX_SHRINKING as u64 * new_side as u64 <= u64::MAX) by (nonlinear_arith)
            requires
                MAX_SHRINKING <= u32::MAX,
                new_side <= u32::MAX,
        ;
    }
    if new_side <= SMALL_SIDE && side as u64 <= MAX_SHRINKING as u64 * new_side as u64 {
        return true;
    }
    match filter {
        Filter::Gaussian => side <= MAX_BLURRED_SIDE,
        Filter::CatmullRom | Filter::Lanczos3 => side <= MAX_SHRUNK_SIDE && 21 * (new_side as u64)
            <= 20 * (side as u64),
        _ => false,
    }
}

/// Whether [`resizable`] holds.
pub fn can_resize(filter: Filter, width: u32, height: u32, new_width: u32, new_height: u32) -> (r:
    bool)
    ensures
        r == resizable(
            filter,
            width as int,
            height as int,
            new_width as int,
            new_height as int,
        ),
{
    proof {
        assert(0 <= new_width as u128 * new_height as u128 <= 0xffff_ffff * 0xffff_ffff)
            by (nonlinear_arith)
            requires
                new_width <= u32::MAX,
                new_height <= u32::MAX,
        ;
        assert(0 <= width as u128 * new_height as u128 <= 0xffff_ffff * 0xffff_ffff)
            by (nonlinear_arith)
            requires
                width <= u32::MAX,
                new_height <= u32::MAX,
        ;
    }
    let limit: u128 = isize::MAX as u128;
    if 4 * (width as u128) > limit || 4 * (new_width as u128) > limit {
        return false;
    }
    if 4 * (new_width as u128 * new_height as u128) > limit {
        return false;
    }
    if width == new_width && height == new_height {
        return true;
    }
    if width == 0 || height == 0 {
        return true;
    }
    can_resize_side(filter, width, new_width) && can_resize_side(filter, height, new_height) && 16
        * (width as u128 * new_height as u128) <= limit
}

/// Whether `image::imageops::resize` can give `out` for an image of `channels`
/// bytes per pixel.
pub uninterp spec fn resize_gives(
    channels: int,
    filter: Filter,
    width: u32,
    height: u32,
    data: Seq<u8>,
    new_width: u32,
    new_height: u32,
    out: Seq<u8>,
) -> bool;

/// Resamples four-channel pixels with `image::imageops::resize`.
///
/// What is claimed of it: the result has the size asked for; an image that
/// already has that size is copied; an image without pixels gives one that is
/// zero throughout. The pixels otherwise are not pinned down: the kernels use
/// `sin` and `exp`, whose last digits differ between machines. They are only
/// said to be what the call can give for these arguments.
#[verifier::external_body]
fn resize_rgba(
    width: u32,
    height: u32,
    data: &Vec<u8>,
    new_width: u32,
    new_height: u32,
    filter: Filter,
) -> (out: Vec<u8>)
    requires
        data@.len() == width * height * 4,
        resizable(filter, width as int, height as int, new_width as int, new_height as int),
    ensures
        out@.len() == new_width * new_height * 4,
        resize_gives(4, filter, width, height, data@, new_width, new_height, out@),
        width == new_width && height == new_height ==> out@ == data@,
        width == 0 || height == 0 ==> forall|i: int| 0 <= i < out@.len() ==> out@[i] == 0,
{
    let img = image::RgbaImage::from_raw(width, height, data.clone()).unwrap();
    let kernel = match filter {
        Filter::Nearest => image::imageops::FilterType::Nearest,
        Filter::Triangle => image::imageops::FilterType::Triangle,
        Filter::CatmullRom => image::imageops::FilterType::CatmullRom,
        Filter::Gaussian => image::imageops::FilterType::Gaussian,
        Filter::Lanczos3 => image::imageops::FilterType::Lanczos3,
    };
    image::imageops::resize(&img, new_width, new_height, kernel).into_raw()
}

/// Resamples single-channel pixels with `image::imageops::resize` and the
/// Lanczos kernel.
///
/// The same is claimed of it as of four-channel pixels.
#[verifier::external_body]
fn resize_gray(width: u32, height: u32, data: &Vec<u8>, new_width: u32, new_height: u32) -> (out:
    Vec<u8>)
    requires
        data@.len() == width * height,
        resizable(Filter::Lanczos3, width as int, height as int, new_width as int, new_height as int),
    ensures
        out@.len() == new_width * new_height,
        resize_gives(1, Filter::Lanczos3, width, height, data@, new_width, new_height, out@),
        width == new_width && height == new_height ==> out@ == data@,
        width == 0 || height == 0 ==> forall|i: int| 0 <= i < out@.len() ==> out@[i] == 0,
{
    let img = image::GrayImage::from_raw(width, height, data.clone()).unwrap();
    let kernel = image::imageops::FilterType::Lanczos3;
    image::imageops::resize(&img, new_width, new_height, kernel).into_raw()
}

/// Whether resampling `from` can give `to`.
pub open spec fn resamples(filter: Filter, from: Raster, to: Raster) -> bool {
    &&& to.valid()
    &&& resize_gives(4, filter, from.width, from.height, from.data, to.width, to.height, to.data)
    &&& from.width == to.width && from.height == to.height ==> to == from
    &&& from.is_empty() ==> forall|i: int| 0 <= i < to.data.len() ==> to.data[i] == 0
}

/// Resample an image to `width` x `height`.
pub fn resize(img: &RgbaImage, width: u32, height: u32, filter: Filter) -> (out: RgbaImage)
    requires
        resizable(filter, img@.width as int, img@.height as int, width as int, height as int),
    ensures
        out@.width == width,
        out@.height == height,
        resamples(filter, img@, out@),
{
    let (w, h) = img.dimensions();
    let data = resize_rgba(w, h, img.as_raw(), width, height, filter);
    let made = RgbaImage::from_raw(width, height, data);
    made.unwrap()
}

/// Whether resampling a `width` x `height` plane of bytes can give `out`.
pub open spec fn resamples_plane(
    width: u32,
    height: u32,
    plane: Seq<u8>,
    new_width: u32,
    new_height: u32,
    out: Seq<u8>,
) -> bool {
    &&& out.len() == new_width * new_height
    &&& resize_gives(1, Filter::Lanczos3, width, height, plane, new_width, new_height, out)
    &&& width == new_width && height == new_height ==> out == plane
}

/// Resample a single plane of bytes, such as an alpha channel.
pub fn resize_plane(
    width: u32,
    height: u32,
    plane: &Vec<u8>,
    new_width: u32,
    new_height: u32,
) -> (out: Vec<u8>)
    requires
        plane@.len() == width * height,
        resizable(Filter::Lanczos3, width as int, height as int, new_width as int, new_height as int),
    ensures
        resamples_plane(width, height, plane@, new_width, new_height, out@),
{
    resize_gray(width, height, plane, new_width, new_height)
}

/// What is resampled comes from the kernel that was asked for and from all of the image,
/// at the size that was asked for; nothing else counts as a resampling of it.
pub proof fn law_resampling_is_by_the_kernel(filter: Filter, from: Raster, to: Raster)
    requires
        resamples(filter, from, to),
    ensures
        to.data.len() == to.width * to.height * 4,
        resize_gives(4, filter, from.width, from.height, from.data, to.width, to.height, to.data),
        from.width == to.width && from.height == to.height ==> to.data == from.data,
        from.width == 0 || from.height == 0 ==> forall|i: int|
            0 <= i < to.data.len() ==> to.data[i] == 0,
{
}

/// The same of a plane of bytes.
pub proof fn law_planes_are_resampled_by_the_kernel(
    width: u32,
    height: u32,
    plane: Seq<u8>,
    new_width: u32,
    new_height: u32,
    out: Seq<u8>,
)
    requires
        resamples_plane(width, height, plane, new_width, new_height, out),
    ensures
        out.len() == new_width * new_height,
        resize_gives(1, Filter::Lanczos3, width, height, plane, new_width, new_height, out),
        width == new_width && height == new_height ==> out == plane,
{
}

/// Images of ordinary size can be resampled to any ordinary size, with any filter:
/// those with sides of up to 2^22 whose pixels, at 16 bytes each, can be held.
pub proof fn law_ordinary_images_can_be_resampled(
    filter: Filter,
    width: int,
    height: int,
    new_width: int,
    new_height: int,
)
    requires
        0 <= width <= 4_194_304,
        0 <= height <= 4_194_304,
        0 <= new_width <= 4_194_304,
        0 <= new_height,
        4 * (new_width * new_height) <= isize::MAX,
        16 * (width * new_height) <= isize::MAX,
    ensures
        resizable(filter, width, height, new_width, new_height),
{
}

} // verus!
