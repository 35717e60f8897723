//! Turning images into something an interface can display.

use base64::Engine;
use vstd::prelude::*;
use vstd::string::*;

use crate::raster;
use crate::raster::{Raster, RgbaImage};
use crate::resize;
use crate::resize::Filter;

verus! {

/// Why an image could not be made into a data URL.
#[derive(Debug, Clone, Copy, PartialEq, Eq, Structural)]
pub enum PreviewError {
    /// The image could not be encoded.
    Encoding,
    /// A row is too long to be encoded, or the encoded image too large to be held as
    /// text.
    TooLarge,
}

/// The error type of the `image` crate.
#[verifier::external_type_specification]
#[verifier::external_body]
pub struct ExImageError(image::ImageError);

/// The bytes of the PNG file that the `image` crate makes of four-channel pixels.
pub uninterp spec fn png_bytes(width: u32, height: u32, data: Seq<u8>) -> Seq<u8>;

/// Whether `bytes` start with the eight that mark a PNG file.
pub open spec fn starts_as_png(bytes: Seq<u8>) -> bool {
    &&& bytes.len() >= 8
    &&& bytes.take(8) == seq![137u8, 80u8, 78u8, 71u8, 13u8, 10u8, 26u8, 10u8]
}

/// Encodes four-channel pixels with `image::ImageBuffer::write_to`, as PNG, into
/// memory.
///
/// Claimed of it: it fails just when there are no pixels; otherwise the result
/// rests on the size and the pixels alone, and starts with the eight bytes that
/// mark a PNG file. It counts the zero bytes of a row in 32 bits, so longer rows are
/// left out.
#[verifier::external_body]
fn encode_png(width: u32, height: u32, data: &Vec<u8>) -> (r: Result<Vec<u8>, image::ImageError>)
    requires
        data@.len() == width * height * 4,
        4 * width < u32::MAX,
    ensures
        r is Err <==> (width == 0 || height == 0),
        r matches Ok(bytes) ==> bytes@ == png_bytes(width, height, data@),
        r matches Ok(bytes) ==> starts_as_png(bytes@),
{
    let img = image::RgbaImage::from_raw(width, height, data.clone()).unwrap();
    let mut bytes: Vec<u8> = Vec::new();
    img.write_to(&mut std::io::Cursor::new(&mut bytes), image::ImageFormat::Png)?;
    Ok(bytes)
}

/// The character that stands for six bits.
pub open spec fn base64_symbol(n: int) -> char {
    if n < 26 {
        ('A' as u32 + n) as char
    } else if n < 52 {
        ('a' as u32 + (n - 26)) as char
    } else if n < 62 {
        ('0' as u32 + (n - 52)) as char
    } else if n == 62 {
        '+'
    } else {
        '/'
    }
}

/// Bytes in base 64: four characters for every three bytes, the last group filled
/// up with `=`.
pub open spec fn base64_text(bytes: Seq<u8>) -> Seq<char>
    decreases bytes.len(),
{
    let (a, b, c) = (bytes[0] as int, bytes[1] as int, bytes[2] as int);
    if bytes.len() == 0 {
        Seq::empty()
    } else if bytes.len() == 1 {
        seq![base64_symbol(a / 4), base64_symbol(a % 4 * 16), '=', '=']
    } else if bytes.len() == 2 {
        seq![
            base64_symbol(a / 4),
            base64_symbol(a % 4 * 16 + b / 16),
            base64_symbol(b % 16 * 4),
            '=',
        ]
    } else {
        seq![
            base64_symbol(a / 4),
            base64_symbol(a % 4 * 16 + b / 16),
            base64_symbol(b % 16 * 4 + c / 64),
            base64_symbol(c % 64),
        ] + base64_text(bytes.skip(3))
    }
}

/// Whether the base-64 text of `len` bytes can be held.
pub open spec fn base64_holdable(len: int) -> bool {
    (len + 2) / 3 * 4 <= isize::MAX
}

/// Encodes bytes with `Engine::encode` of the `base64` crate, with its standard
/// alphabet and padding.
///
/// Claimed of it: the result is the base-64 text of the bytes.
#[verifier::external_body]
fn encode_base64(bytes: &Vec<u8>) -> (s: String)
    requires
        base64_holdable(bytes@.len() as int),
    ensures
        s@ == base64_text(bytes@),
{
    base64::engine::general_purpose::STANDARD.encode(bytes)
}

/// A PNG file as a data URL.
pub open spec fn data_url(png: Seq<u8>) -> Seq<char> {
    "data:image/png;base64,"@ + base64_text(png)
}

/// The data URL of an encoded image.
pub fn url_of(png: &Vec<u8>) -> (r: Result<String, PreviewError>)
    ensures
        base64_holdable(png@.len() as int) ==> {
            &&& r matches Ok(url)
            &&& url@ == data_url(png@)
        },
        !base64_holdable(png@.len() as int) ==> r == Err::<String, PreviewError>(
            PreviewError::TooLarge,
        ),
{
    let len: u128 = png.len() as u128;
    if (len + 2) / 3 * 4 > isize::MAX as u128 {
        return Err(PreviewError::TooLarge);
    }
    let mut url = String::new();
    url.append("data:image/png;base64,");
    url.append(encode_base64(png).as_str());
    assert(url@ =~= data_url(png@));
    Ok(url)
}

/// Encode an image as a PNG data URL.
pub fn to_data_url(img: &RgbaImage) -> (r: Result<String, PreviewError>)
    ensures
        4 * img@.width >= u32::MAX ==> r == Err::<String, PreviewError>(PreviewError::TooLarge),
        4 * img@.width < u32::MAX && img@.is_empty() ==> r == Err::<String, PreviewError>(
            PreviewError::Encoding,
        ),
        4 * img@.width < u32::MAX && !img@.is_empty() ==> {
            let png = png_bytes(img@.width, img@.height, img@.data);
            &&& starts_as_png(png)
            &&& if base64_holdable(png.len() as int) {
                &&& r matches Ok(url)
                &&& url@ == data_url(png)
            } else {
                r == Err::<String, PreviewError>(PreviewError::TooLarge)
            }
        },
{
    let (w, h) = img.dimensions();
    if 4 * (w as u64) >= u32::MAX as u64 {
        return Err(PreviewError::TooLarge);
    }
    match encode_png(w, h, img.as_raw()) {
        Ok(png) => url_of(&png),
        Err(_) => Err(PreviewError::Encoding),
    }
}

/// The longer of two sides.
pub open spec fn longer(w: u32, h: u32) -> u32 {
    if w >= h {
        w
    } else {
        h
    }
}

/// At least one.
pub open spec fn at_least_one(n: u32) -> u32 {
    if n >= 1 {
        n
    } else {
        1
    }
}

/// Whether `r` can be `img` shrunk so that neither side exceeds `max`, where `side`
/// says how long a side gets, given its length, `max` and the longer side.
pub open spec fn fits<F: Fn(u32, u32, u32) -> u32>(
    img: Raster,
    max: u32,
    side: F,
    r: Option<Raster>,
) -> bool {
    if img.width <= max && img.height <= max {
        r == Some(img)
    } else {
        let long = longer(img.width, img.height);
        exists|w: u32, h: u32|
            #![trigger call_ensures(side, (img.width, max, long), w), call_ensures(side, (img.height, max, long), h)]
            {
                let (nw, nh) = (at_least_one(w), at_least_one(h));
                &&& call_ensures(side, (img.width, max, long), w)
                &&& call_ensures(side, (img.height, max, long), h)
                &&& if resize::resizable(
                    Filter::Lanczos3,
                    img.width as int,
                    img.height as int,
                    nw as int,
                    nh as int,
                ) {
                    &&& r matches Some(out)
                    &&& out.width == nw
                    &&& out.height == nh
                    &&& resize::resamples(Filter::Lanczos3, img, out)
                } else {
                    r is None
                }
            }
    }
}

/// What an optional image shows.
pub open spec fn shown(r: Option<RgbaImage>) -> Option<Raster> {
    match r {
        Some(img) => Some(img@),
        None => None,
    }
}

/// Shrink so neither side exceeds `max`, leaving smaller images alone.
///
/// `side` says how long a side gets, given its length, `max` and the longer side.
/// Nothing is returned where the image is too large to be resampled.
pub fn fit<F: Fn(u32, u32, u32) -> u32>(img: &RgbaImage, max: u32, side: &F) -> (r: Option<
    RgbaImage,
>)
    requires
        forall|n: u32, m: u32, l: u32| #[trigger] call_requires(side, (n, m, l)),
    ensures
        fits(img@, max, *side, shown(r)),
{
    let (w, h) = img.dimensions();
    if w <= max && h <= max {
        return Some(img.clone());
    }
    let long: u32 = if w >= h {
        w
    } else {
        h
    };
    let sw: u32 = side(w, max, long);
    let sh: u32 = side(h, max, long);
    let nw: u32 = if sw >= 1 {
        sw
    } else {
        1
    };
    let nh: u32 = if sh >= 1 {
        sh
    } else {
        1
    };
    if resize::can_resize(Filter::Lanczos3, w, h, nw, nh) {
        Some(resize::resize(img, nw, nh, Filter::Lanczos3))
    } else {
        None
    }
}

/// Neither side of a fitted image exceeds `max`, provided that no side is said to get
/// longer than that.
pub proof fn law_fit_stays_within<F: Fn(u32, u32, u32) -> u32>(
    img: Raster,
    max: u32,
    side: F,
    out: Raster,
)
    requires
        max >= 1,
        fits(img, max, side, Some(out)),
        forall|n: u32, long: u32, s: u32|
            n <= long && #[trigger] call_ensures(side, (n, max, long), s) ==> s <= max,
    ensures
        out.width <= max,
        out.height <= max,
{
}

/// Side of a square region: no longer than the image, and at least one pixel.
pub open spec fn region_side(w: int, h: int, size: int) -> int {
    let s = if size <= w && size <= h {
        size
    } else if w <= h {
        w
    } else {
        h
    };
    if s >= 1 {
        s
    } else {
        1
    }
}

/// Where a region of length `side` starts that is centred on `centre` as far as it
/// can be inside an image of length `extent`.
pub open spec fn region_start(centre: int, side: int, extent: int) -> int {
    let start = if centre >= side / 2 {
        centre - side / 2
    } else {
        0
    };
    if extent < side {
        0
    } else if start <= extent - side {
        start
    } else {
        extent - side
    }
}

/// The part of a side that the image has.
pub open spec fn region_extent(side: int, extent: int) -> int {
    if side <= extent {
        side
    } else {
        extent
    }
}

/// A square region of an image.
pub open spec fn region_of(img: Raster, cx: u32, cy: u32, size: u32) -> Raster {
    let (w, h) = (img.width as int, img.height as int);
    let side = region_side(w, h, size as int);
    img.crop(
        region_start(cx as int, side, w),
        region_start(cy as int, side, h),
        region_extent(side, w) as u32,
        region_extent(side, h) as u32,
    )
}

/// Where along one axis a region starts.
fn start_of(centre: u32, side: u32, extent: u32) -> (start: u32)
    ensures
        start == region_start(centre as int, side as int, extent as int),
{
    let last: u32 = extent.saturating_sub(side);
    let start: u32 = centre.saturating_sub(side / 2);
    if start <= last {
        start
    } else {
        last
    }
}

/// A square region of `img` centred on the pixel (`cx`, `cy`).
///
/// A comparison works at full size rather than fitting the whole result to the
/// window: shrinking a result back down to fit hides exactly the detail the user
/// is trying to judge.
pub fn region(img: &RgbaImage, cx: u32, cy: u32, size: u32) -> (part: RgbaImage)
    ensures
        part@ == region_of(img@, cx, cy, size),
{
    let (w, h) = img.dimensions();
    let mut side: u32 = size;
    if w < side {
        side = w;
    }
    if h < side {
        side = h;
    }
    if side < 1 {
        side = 1;
    }
    assert(side == region_side(w as int, h as int, size as int));
    let x: u32 = start_of(cx, side, w);
    let y: u32 = start_of(cy, side, h);
    let rw: u32 = if side <= w {
        side
    } else {
        w
    };
    let rh: u32 = if side <= h {
        side
    } else {
        h
    };
    img.crop(x, y, rw, rh)
}

/// A region stays inside the image and is as large as asked for, but never larger
/// than the image; one that is asked for well inside is centred.
pub proof fn law_region_stays_inside(img: Raster, cx: u32, cy: u32, size: u32)
    requires
        !img.is_empty(),
        size >= 1,
    ensures
        ({
            let (w, h) = (img.width as int, img.height as int);
            let side = region_side(w, h, size as int);
            let (x, y) = (
                region_start(cx as int, side, w),
                region_start(cy as int, side, h),
            );
            &&& side <= size
            &&& size <= w && size <= h ==> side == size
            &&& 0 <= x && x + side <= w
            &&& 0 <= y && y + side <= h
            &&& region_of(img, cx, cy, size).width == side
            &&& region_of(img, cx, cy, size).height == side
            &&& side / 2 <= cx <= w - side + side / 2 ==> x + side / 2 == cx
            &&& side / 2 <= cy <= h - side + side / 2 ==> y + side / 2 == cy
        }),
{
}

/// A region is a window on the image: a square that is as large as was asked for, but no
/// larger than the image, whose middle is the pixel that was asked for unless that would
/// take it over the border; its bytes are those that stand there.
pub proof fn law_region_is_a_window(
    img: Raster,
    cx: u32,
    cy: u32,
    size: u32,
    u: int,
    v: int,
    k: int,
)
    requires
        img.width > 0,
        img.height > 0,
        size >= 1,
        0 <= u < region_of(img, cx, cy, size).width,
        0 <= v < region_of(img, cx, cy, size).height,
        0 <= k < 4,
    ensures
        ({
            let part = region_of(img, cx, cy, size);
            let (w, h) = (img.width as int, img.height as int);
            let side = part.width as int;
            let left = cx - side / 2;
            let top = cy - side / 2;
            let x = if left < 0 {
                0
            } else if left + side > w {
                w - side
            } else {
                left
            };
            let y = if top < 0 {
                0
            } else if top + side > h {
                h - side
            } else {
                top
            };
            &&& part.height == part.width
            &&& side <= size && side <= w && side <= h
            &&& side == size || side == w || side == h
            &&& 0 <= x && x + side <= w
            &&& 0 <= y && y + side <= h
            &&& part.data[4 * (v * side + u) + k] == img.data[4 * ((y + v) * w + (x + u)) + k]
        }),
{
    let (w, h) = (img.width as int, img.height as int);
    let side: int = region_side(w, h, size as int);
    let (x, y) = (region_start(cx as int, side, w), region_start(cy as int, side, h));
    raster::law_crop_is_a_window(img, x, y, side as u32, side as u32);
    let part = region_of(img, cx, cy, size);
    assert(part == img.crop(x, y, side as u32, side as u32));
    assert(part.data[4 * (v * (side as u32) + u) + k] == img.data[4 * ((y + v) * img.width + (x + u))
        + k]);
}

/// An image that is small enough is left as it is; another is resampled with the Lanczos
/// kernel to the sides that were worked out for it, neither of them less than one.
pub proof fn law_fit_resamples_to_the_sides<F: Fn(u32, u32, u32) -> u32>(
    img: Raster,
    max: u32,
    side: F,
    r: Option<Raster>,
    long: u32,
)
    requires
        fits(img, max, side, r),
        long == img.width || long == img.height,
        img.width <= long,
        img.height <= long,
    ensures
        long <= max ==> r == Some(img),
        long > max ==> exists|w: u32, h: u32|
            #![trigger call_ensures(side, (img.width, max, long), w), call_ensures(side, (img.height, max, long), h)]
            {
                let nw = if w == 0 {
                    1u32
                } else {
                    w
                };
                let nh = if h == 0 {
                    1u32
                } else {
                    h
                };
                &&& call_ensures(side, (img.width, max, long), w)
                &&& call_ensures(side, (img.height, max, long), h)
                &&& r is None ==> !resize::resizable(
                    Filter::Lanczos3,
                    img.width as int,
                    img.height as int,
                    nw as int,
                    nh as int,
                )
                &&& r matches Some(out) ==> {
                    &&& out.width == nw
                    &&& out.height == nh
                    &&& out.data.len() == nw * nh * 4
                    &&& resize::resize_gives(
                        4,
                        Filter::Lanczos3,
                        img.width,
                        img.height,
                        img.data,
                        nw,
                        nh,
                        out.data,
                    )
                }
            },
{
    assert(long == longer(img.width, img.height));
    if long > max {
        let (w, h) = choose|w: u32, h: u32|
            #![trigger call_ensures(side, (img.width, max, long), w), call_ensures(side, (img.height, max, long), h)]
            {
                let (nw, nh) = (at_least_one(w), at_least_one(h));
                &&& call_ensures(side, (img.width, max, long), w)
                &&& call_ensures(side, (img.height, max, long), h)
                &&& if resize::resizable(
                    Filter::Lanczos3,
                    img.width as int,
                    img.height as int,
                    nw as int,
                    nh as int,
                ) {
                    &&& r matches Some(out)
                    &&& out.width == nw
                    &&& out.height == nh
                    &&& resize::resamples(Filter::Lanczos3, img, out)
                } else {
                    r is None
                }
            };
        assert(call_ensures(side, (img.width, max, long), w));
        assert(call_ensures(side, (img.height, max, long), h));
    }
}

/// A data URL says that a PNG image follows in base 64, and then gives all of it: four
/// characters for every three bytes, the last of them filled up.
pub proof fn law_data_urls_hold_all_bytes(png: Seq<u8>)
    ensures
        data_url(png).take("data:image/png;base64,"@.len() as int) == "data:image/png;base64,"@,
        data_url(png).skip("data:image/png;base64,"@.len() as int) == base64_text(png),
        base64_text(png).len() == (png.len() + 2) / 3 * 4,
{
    let head = "data:image/png;base64,"@;
    assert(data_url(png).take(head.len() as int) =~= head);
    assert(data_url(png).skip(head.len() as int) =~= base64_text(png));
    lemma_base64_length(png);
}

proof fn lemma_base64_length(bytes: Seq<u8>)
    ensures
        base64_text(bytes).len() == (bytes.len() + 2) / 3 * 4,
    decreases bytes.len(),
{
    if bytes.len() >= 3 {
        lemma_base64_length(bytes.skip(3));
    }
}

/// What an optional image shows is what it shows.
pub proof fn law_shown_is_the_image(r: Option<RgbaImage>)
    ensures
        r matches Some(img) ==> shown(r) == Some(img@),
        r is None ==> shown(r) is None,
{
}

/// Files of up to half of what memory can have are small enough for a data URL.
pub proof fn law_ordinary_files_make_data_urls(len: int)
    requires
        0 <= len,
        2 * len + 8 <= isize::MAX,
    ensures
        base64_holdable(len),
{
}

} // verus!
