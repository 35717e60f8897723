//! Between interleaved pixels and the planar layout that models take.
//!
//! Models work on planes of numbers: all red values, then all green, then all
//! blue. What number stands for a byte is left to the caller; which byte goes
//! where is settled here.

use vstd::prelude::*;

use crate::raster;
use crate::raster::{Canvas, Raster, Rgba, RgbaImage};
use crate::resize;

verus! {

/// The nearest coordinate inside an image of length `side`.
pub open spec fn clamped_to(pos: int, side: int) -> int {
    if pos < side {
        pos
    } else {
        side - 1
    }
}

/// An image extended to `width` x `height` by repeating its last column and row.
pub open spec fn padded(src: Raster, width: u32, height: u32) -> Raster {
    Raster::from_fn(
        width,
        height,
        |x: int, y: int|
            src.pixel(clamped_to(x, src.width as int), clamped_to(y, src.height as int)),
    )
}

/// Extend an image by repeating its edge pixels.
///
/// Replicating rather than zero-padding matters: a black border is real content
/// to a model, and the artifacts it provokes bleed back into the valid area.
pub fn pad_replicate(src: &RgbaImage, width: u32, height: u32) -> (out: RgbaImage)
    requires
        !src@.is_empty(),
        4 * (width * height) <= isize::MAX,
    ensures
        out@ == padded(src@, width, height),
{
    let (sw, sh) = src.dimensions();
    let ghost f = |x: int, y: int|
        src@.pixel(clamped_to(x, src@.width as int), clamped_to(y, src@.height as int));
    let mut canvas = Canvas::new();
    let mut y: u32 = 0;
    while y < height
        invariant
            sw == src@.width,
            sh == src@.height,
            sw > 0,
            sh > 0,
            y <= height,
            f == (|x: int, y: int|
                src@.pixel(clamped_to(x, src@.width as int), clamped_to(y, src@.height as int))),
            canvas@.len() == y * width,
            forall|j: int, i: int|
                0 <= i < width && 0 <= j < y ==> #[trigger] canvas@[j * width + i] == f(i, j),
        decreases height - y,
    {
        let sy: u32 = if y < sh {
            y
        } else {
            sh - 1
        };
        let mut x: u32 = 0;
        while x < width
            invariant
                sw == src@.width,
                sh == src@.height,
                sw > 0,
                sh > 0,
                y < height,
                x <= width,
                sy == clamped_to(y as int, sh as int),
                f == (|x: int, y: int|
                    src@.pixel(clamped_to(x, src@.width as int), clamped_to(y, src@.height as int))),
                canvas@.len() == y * width + x,
                forall|j: int, i: int|
                    0 <= i < width && 0 <= j < y ==> #[trigger] canvas@[j * width + i] == f(i, j),
                forall|i: int| 0 <= i < x ==> #[trigger] canvas@[y * width + i] == f(i, y as int),
            decreases width - x,
        {
            let sx: u32 = if x < sw {
                x
            } else {
                sw - 1
            };
            proof {
                raster::lemma_rows_before(width as int, y as int);
            }
            canvas.push(src.get_pixel(sx, sy));
            x = x + 1;
        }
        proof {
            assert((y + 1) * width == y * width + width) by (nonlinear_arith);
        }
        y = y + 1;
    }
    proof {
        assert(height * width == width * height) by (nonlinear_arith);
    }
    let out = canvas.into_image(width, height);
    proof {
        assert forall|i: int, j: int|
            0 <= i < width && 0 <= j < height implies #[trigger] raster::pixel_in(
            out@.data,
            j * width + i,
        ) == f(i, j) by {
            raster::lemma_reading_order_bound(width as int, height as int, i, j);
        }
        raster::lemma_is_from_fn(out@, f);
    }
    out
}

/// Padding adds no colour that the image lacks, and keeps the image itself.
pub proof fn law_padding_repeats_the_image(src: Raster, width: u32, height: u32, x: int, y: int)
    requires
        !src.is_empty(),
        0 <= x < width,
        0 <= y < height,
    ensures
        x < src.width && y < src.height ==> padded(src, width, height).pixel(x, y) == src.pixel(
            x,
            y,
        ),
        exists|u: int, v: int|
            0 <= u < src.width && 0 <= v < src.height && padded(src, width, height).pixel(x, y)
                == #[trigger] src.pixel(u, v),
{
    let f = |x: int, y: int|
        src.pixel(clamped_to(x, src.width as int), clamped_to(y, src.height as int));
    raster::lemma_from_fn_pixel(width, height, f, x, y);
    let u: int = clamped_to(x, src.width as int);
    let v: int = clamped_to(y, src.height as int);
    assert(padded(src, width, height).pixel(x, y) == src.pixel(u, v));
}

/// Padding an image to its own size changes nothing.
pub proof fn law_padding_to_own_size(src: Raster)
    requires
        src.valid(),
        !src.is_empty(),
    ensures
        padded(src, src.width, src.height) == src,
{
    let f = |x: int, y: int|
        src.pixel(clamped_to(x, src.width as int), clamped_to(y, src.height as int));
    let p = padded(src, src.width, src.height);
    raster::lemma_from_fn_valid(src.width, src.height, f);
    assert forall|x: int, y: int| 0 <= x < src.width && 0 <= y < src.height implies p.pixel(x, y)
        == src.pixel(x, y) by {
        raster::lemma_from_fn_pixel(src.width, src.height, f, x, y);
    }
    raster::lemma_same_pixels(p, src);
}

/// Whether `planes` holds the red, then the green, then the blue of every pixel,
/// each byte turned into a number by `encode`.
pub open spec fn planes_of<T, E: Fn(u8) -> T>(img: Raster, encode: E, planes: Seq<T>) -> bool {
    let n = img.width * img.height;
    &&& planes.len() == 3 * n
    &&& forall|i: int|
        #![trigger raster::pixel_in(img.data, i)]
        0 <= i < n ==> {
            let p = raster::pixel_in(img.data, i);
            &&& call_ensures(encode, (p.r,), planes[i])
            &&& call_ensures(encode, (p.g,), planes[n + i])
            &&& call_ensures(encode, (p.b,), planes[2 * n + i])
        }
}

/// Channel `c` of every pixel, turned into numbers.
fn push_plane<T, E: Fn(u8) -> T>(img: &RgbaImage, encode: &E, c: usize, planes: &mut Vec<T>)
    requires
        c < 3,
        forall|b: u8| #[trigger] call_requires(encode, (b,)),
    ensures
        img@.valid(),
        final(planes)@.len() == old(planes)@.len() + img@.width * img@.height,
        forall|i: int| 0 <= i < old(planes)@.len() ==> final(planes)@[i] == old(planes)@[i],
        forall|i: int|
            0 <= i < img@.width * img@.height ==> call_ensures(
                encode,
                (#[trigger] raster::pixel_in(img@.data, i).byte(c as int),),
                final(planes)@[old(planes)@.len() + i],
            ),
{
    let data = img.as_raw();
    let len: usize = data.len();
    let ghost n: int = img@.width * img@.height;
    let ghost start: int = planes@.len() as int;
    let mut at: usize = 0;
    let ghost mut i: int = 0;
    proof {
        assert(n >= 0) by (nonlinear_arith)
            requires
                n == img@.width * img@.height,
        ;
    }
    while at < len
        invariant
            c < 3,
            forall|b: u8| #[trigger] call_requires(encode, (b,)),
            data@ == img@.data,
            len == data@.len(),
            len == n * 4,
            at == i * 4,
            0 <= i <= n,
            start == old(planes)@.len(),
            planes@.len() == start + i,
            forall|k: int| 0 <= k < start ==> planes@[k] == old(planes)@[k],
            forall|k: int|
                0 <= k < i ==> call_ensures(
                    encode,
                    (#[trigger] raster::pixel_in(img@.data, k).byte(c as int),),
                    planes@[start + k],
                ),
        decreases len - at,
    {
        let b: u8 = data[at + c];
        planes.push(encode(b));
        proof {
            assert(raster::pixel_in(img@.data, i).byte(c as int) == b);
            i = i + 1;
        }
        at = at + 4;
    }
}

/// RGBA image to planar numbers, as models take them. Alpha is dropped.
pub fn to_nchw<T, E: Fn(u8) -> T>(img: &RgbaImage, encode: &E) -> (planes: Vec<T>)
    requires
        forall|b: u8| #[trigger] call_requires(encode, (b,)),
    ensures
        planes_of(img@, *encode, planes@),
{
    let mut planes: Vec<T> = Vec::new();
    push_plane(img, encode, 0, &mut planes);
    let ghost reds = planes@;
    push_plane(img, encode, 1, &mut planes);
    let ghost greens = planes@;
    push_plane(img, encode, 2, &mut planes);
    proof {
        let n: int = img@.width * img@.height;
        assert(n >= 0) by (nonlinear_arith)
            requires
                n == img@.width * img@.height,
        ;
        assert forall|i: int| #![trigger raster::pixel_in(img@.data, i)] 0 <= i < n implies {
            let p = raster::pixel_in(img@.data, i);
            &&& call_ensures(*encode, (p.r,), planes@[i])
            &&& call_ensures(*encode, (p.g,), planes@[n + i])
            &&& call_ensures(*encode, (p.b,), planes@[2 * n + i])
        } by {
            let p = raster::pixel_in(img@.data, i);
            assert(p.byte(0) == p.r && p.byte(1) == p.g && p.byte(2) == p.b);
            assert(planes@[i] == reds[i]);
            assert(planes@[n + i] == greens[n + i]);
        }
    }
    planes
}

/// Whether `img` is the opaque image that planar numbers hold, each turned into a
/// byte by `decode`.
pub open spec fn image_of<T, D: Fn(T) -> u8>(planes: Seq<T>, decode: D, img: Raster) -> bool {
    let n = img.width * img.height;
    &&& img.valid()
    &&& planes.len() >= 3 * n
    &&& forall|i: int|
        #![trigger raster::pixel_in(img.data, i)]
        0 <= i < n ==> {
            let p = raster::pixel_in(img.data, i);
            &&& call_ensures(decode, (planes[i],), p.r)
            &&& call_ensures(decode, (planes[n + i],), p.g)
            &&& call_ensures(decode, (planes[2 * n + i],), p.b)
            &&& p.a == 255
        }
}

/// Planar numbers back to an opaque RGBA image.
pub fn from_nchw<T: Copy, D: Fn(T) -> u8>(
    planes: &Vec<T>,
    width: u32,
    height: u32,
    decode: &D,
) -> (img: RgbaImage)
    requires
        planes@.len() >= 3 * (width * height),
        4 * (width * height) <= isize::MAX,
        forall|t: T| #[trigger] call_requires(decode, (t,)),
    ensures
        img@.width == width,
        img@.height == height,
        image_of(planes@, *decode, img@),
{
    let len: usize = planes.len();
    proof {
        assert(0 <= width * height) by (nonlinear_arith);
    }
    let n: usize = width as usize * height as usize;
    let mut canvas = Canvas::new();
    let mut i: usize = 0;
    while i < n
        invariant
            forall|t: T| #[trigger] call_requires(decode, (t,)),
            len == planes@.len(),
            3 * n <= len,
            i <= n,
            canvas@.len() == i,
            forall|k: int|
                #![trigger canvas@[k]]
                0 <= k < i ==> {
                    let p = canvas@[k];
                    &&& call_ensures(decode, (planes@[k],), p.r)
                    &&& call_ensures(decode, (planes@[n + k],), p.g)
                    &&& call_ensures(decode, (planes@[2 * n + k],), p.b)
                    &&& p.a == 255
                },
        decreases n - i,
    {
        let r: u8 = decode(planes[i]);
        let g: u8 = decode(planes[n + i]);
        let b: u8 = decode(planes[2 * n + i]);
        canvas.push(Rgba { r, g, b, a: 255 });
        i = i + 1;
    }
    let img = canvas.into_image(width, height);
    proof {
        assert forall|k: int| #![trigger raster::pixel_in(img@.data, k)] 0 <= k < n implies {
            let p = raster::pixel_in(img@.data, k);
            &&& call_ensures(decode, (planes@[k],), p.r)
            &&& call_ensures(decode, (planes@[n + k],), p.g)
            &&& call_ensures(decode, (planes@[2 * n + k],), p.b)
            &&& p.a == 255
        } by {
            assert(raster::pixel_in(img@.data, k) == canvas@[k]);
        }
    }
    img
}

/// Whether `decode` undoes `encode`.
pub open spec fn undoes<T, E: Fn(u8) -> T, D: Fn(T) -> u8>(encode: E, decode: D) -> bool {
    forall|b: u8, t: T, c: u8|
        #[trigger] call_ensures(encode, (b,), t) && #[trigger] call_ensures(decode, (t,), c)
            ==> c == b
}

/// An image with every pixel made opaque.
pub open spec fn made_opaque(img: Raster) -> Raster {
    Raster {
        width: img.width,
        height: img.height,
        data: raster::bytes_of(
            img.width * img.height,
            |i: int| Rgba { a: 255, ..raster::pixel_in(img.data, i) },
        ),
    }
}

/// The colours of an image survive the way to planes and back, whenever bytes survive
/// the way to numbers and back; its alpha does not, so an opaque image survives whole.
pub proof fn law_planes_round_trip<T, E: Fn(u8) -> T, D: Fn(T) -> u8>(
    img: Raster,
    encode: E,
    planes: Seq<T>,
    decode: D,
    back: Raster,
)
    requires
        img.valid(),
        undoes(encode, decode),
        planes_of(img, encode, planes),
        image_of(planes, decode, back),
        back.width == img.width,
        back.height == img.height,
    ensures
        back == made_opaque(img),
        opaque(img) ==> back == img,
{
    let n: int = img.width * img.height;
    assert(n >= 0) by (nonlinear_arith)
        requires
            n == img.width * img.height,
    ;
    let f = |i: int| Rgba { a: 255, ..raster::pixel_in(img.data, i) };
    assert forall|i: int| 0 <= i < n implies #[trigger] raster::pixel_in(back.data, i) == f(i) by {
        let p = raster::pixel_in(img.data, i);
        let q = raster::pixel_in(back.data, i);
        assert(call_ensures(encode, (p.r,), planes[i]));
        assert(call_ensures(decode, (planes[i],), q.r));
        assert(call_ensures(encode, (p.g,), planes[n + i]));
        assert(call_ensures(decode, (planes[n + i],), q.g));
        assert(call_ensures(encode, (p.b,), planes[2 * n + i]));
        assert(call_ensures(decode, (planes[2 * n + i],), q.b));
    }
    raster::lemma_bytes_of_unique(back.data, n, f);
    if opaque(img) {
        raster::lemma_bytes_of_unique(img.data, n, f);
    }
}

/// Whether no pixel lets anything through.
pub open spec fn opaque(img: Raster) -> bool {
    forall|i: int|
        0 <= i < img.width * img.height ==> (#[trigger] raster::pixel_in(img.data, i)).a == 255
}

/// Whether no pixel lets anything through.
pub fn is_opaque(img: &RgbaImage) -> (r: bool)
    ensures
        r == opaque(img@),
{
    let data = img.as_raw();
    let len: usize = data.len();
    let mut at: usize = 0;
    let ghost n: int = img@.width * img@.height;
    let ghost mut i: int = 0;
    proof {
        assert(n >= 0) by (nonlinear_arith)
            requires
                n == img@.width * img@.height,
        ;
    }
    while at < len
        invariant
            data@ == img@.data,
            len == data@.len(),
            n == img@.width * img@.height,
            len == n * 4,
            at == i * 4,
            0 <= i <= n,
            forall|k: int| 0 <= k < i ==> (#[trigger] raster::pixel_in(img@.data, k)).a == 255,
        decreases len - at,
    {
        if data[at + 3] != 255 {
            assert(raster::pixel_in(img@.data, i).a != 255);
            return false;
        }
        proof {
            i = i + 1;
        }
        at = at + 4;
    }
    true
}

/// An opaque image stays opaque when it is padded.
pub proof fn lemma_padded_stays_opaque(img: Raster, width: u32, height: u32)
    requires
        opaque(img),
        !img.is_empty(),
    ensures
        opaque(padded(img, width, height)),
{
    let big = padded(img, width, height);
    let f = |x: int, y: int|
        img.pixel(clamped_to(x, img.width as int), clamped_to(y, img.height as int));
    assert forall|i: int| 0 <= i < width * height implies (#[trigger] raster::pixel_in(
        big.data,
        i,
    )).a == 255 by {
        let (x, y) = (i % (width as int), i / (width as int));
        raster::lemma_position(width as int, height as int, i);
        raster::lemma_from_fn_pixel(width, height, f, x, y);
        let (u, v) = (clamped_to(x, img.width as int), clamped_to(y, img.height as int));
        raster::lemma_reading_order_bound(img.width as int, img.height as int, u, v);
        assert(big.pixel(x, y) == img.pixel(u, v));
    }
}

/// A part of an opaque image is opaque.
pub proof fn lemma_crop_stays_opaque(img: Raster, width: u32, height: u32)
    requires
        opaque(img),
        width <= img.width,
        height <= img.height,
    ensures
        opaque(img.crop(0, 0, width, height)),
{
    let part = img.crop(0, 0, width, height);
    let f = |u: int, v: int| img.pixel(0 + u, 0 + v);
    assert forall|i: int| 0 <= i < width * height implies (#[trigger] raster::pixel_in(
        part.data,
        i,
    )).a == 255 by {
        let (x, y) = (i % (width as int), i / (width as int));
        raster::lemma_position(width as int, height as int, i);
        raster::lemma_from_fn_pixel(width, height, f, x, y);
        raster::lemma_reading_order_bound(img.width as int, img.height as int, x, y);
        assert(part.pixel(x, y) == img.pixel(x, y));
    }
}

/// The alpha channel of an image.
pub open spec fn alpha_of(img: Raster) -> Seq<u8> {
    Seq::new(
        (img.width * img.height) as nat,
        |i: int| raster::pixel_in(img.data, i).a,
    )
}

/// Whether `out` is `rgb` with the alpha of `original`: untouched where the
/// original is opaque, else with the original's alpha channel resampled to size.
pub open spec fn alpha_restored(rgb: Raster, original: Raster, out: Raster) -> bool {
    if opaque(original) {
        out == rgb
    } else {
        &&& out.valid()
        &&& out.width == rgb.width
        &&& out.height == rgb.height
        &&& exists|alpha: Seq<u8>|
            {
                &&& #[trigger] resize::resamples_plane(
                    original.width,
                    original.height,
                    alpha_of(original),
                    rgb.width,
                    rgb.height,
                    alpha,
                )
                &&& forall|i: int|
                    0 <= i < rgb.width * rgb.height ==> #[trigger] raster::pixel_in(out.data, i) == (
                    Rgba { a: alpha[i], ..raster::pixel_in(rgb.data, i) })
            }
    }
}

/// Restore the alpha channel the model discarded.
///
/// Super-resolution models are RGB, so alpha is resampled classically and
/// reattached. Fully opaque tiles, which is most map content, skip the work.
pub fn reattach_alpha(rgb: RgbaImage, original: &RgbaImage, scale: u32) -> (out: RgbaImage)
    requires
        rgb@.width == original@.width * scale,
        rgb@.height == original@.height * scale,
        !opaque(original@) ==> resize::resizable(
            resize::Filter::Lanczos3,
            original@.width as int,
            original@.height as int,
            rgb@.width as int,
            rgb@.height as int,
        ),
    ensures
        alpha_restored(rgb@, original@, out@),
{
    if is_opaque(original) {
        return rgb;
    }
    let (w, h) = original.dimensions();
    let (rw, rh) = rgb.dimensions();
    let ghost n: int = w * h;
    let ghost m: int = rw * rh;
    proof {
        assert(n >= 0 && m >= 0) by (nonlinear_arith)
            requires
                n == w * h,
                m == rw * rh,
        ;
    }
    let data = original.as_raw();
    let len: usize = data.len();
    let mut alpha: Vec<u8> = Vec::new();
    let mut at: usize = 0;
    let ghost mut i: int = 0;
    while at < len
        invariant
            data@ == original@.data,
            w == original@.width,
            h == original@.height,
            n == w * h,
            len == data@.len(),
            len == n * 4,
            at == i * 4,
            0 <= i <= n,
            alpha@ == alpha_of(original@).take(i),
        decreases len - at,
    {
        let a: u8 = data[at + 3];
        alpha.push(a);
        proof {
            assert(raster::pixel_in(original@.data, i).a == a);
            assert(alpha@ =~= alpha_of(original@).take(i + 1));
            i = i + 1;
        }
        at = at + 4;
    }
    proof {
        assert(alpha@ =~= alpha_of(original@));
    }
    let scaled = resize::resize_plane(w, h, &alpha, rw, rh);
    let pixels = rgb.as_raw();
    let count: usize = scaled.len();
    let mut canvas = Canvas::new();
    let mut j: usize = 0;
    while j < count
        invariant
            pixels@ == rgb@.data,
            pixels@.len() == m * 4,
            count == m,
            scaled@.len() == m,
            m * 4 <= usize::MAX,
            j <= count,
            canvas@.len() == j,
            forall|k: int|
                0 <= k < j ==> #[trigger] canvas@[k] == (Rgba {
                    a: scaled@[k],
                    ..raster::pixel_in(rgb@.data, k)
                }),
        decreases count - j,
    {
        let p = Rgba {
            r: pixels[4 * j],
            g: pixels[4 * j + 1],
            b: pixels[4 * j + 2],
            a: scaled[j],
        };
        canvas.push(p);
        j = j + 1;
    }
    let out = canvas.into_image(rw, rh);
    proof {
        assert forall|k: int| 0 <= k < m implies #[trigger] raster::pixel_in(out@.data, k) == (
        Rgba { a: scaled@[k], ..raster::pixel_in(rgb@.data, k) }) by {
            assert(raster::pixel_in(out@.data, k) == canvas@[k]);
        }
        assert(resize::resamples_plane(w, h, alpha_of(original@), rw, rh, scaled@));
    }
    out
}

/// Padding repeats the last column and the last row: a pixel inside the image is that
/// of the image, one beyond it is the nearest one on its border.
pub proof fn law_padding_repeats_the_border(src: Raster, width: u32, height: u32, x: int, y: int)
    requires
        src.width > 0,
        src.height > 0,
        0 <= x < width,
        0 <= y < height,
    ensures
        ({
            let big = padded(src, width, height);
            let (u, v) = (
                if x < src.width {
                    x
                } else {
                    src.width - 1
                },
                if y < src.height {
                    y
                } else {
                    src.height - 1
                },
            );
            &&& big.width == width
            &&& big.height == height
            &&& big.data.len() == width * height * 4
            &&& forall|k: int|
                0 <= k < 4 ==> #[trigger] big.data[4 * (y * width + x) + k] == src.data[4 * (v
                    * src.width + u) + k]
        }),
{
    let f = |x: int, y: int|
        src.pixel(clamped_to(x, src.width as int), clamped_to(y, src.height as int));
    let big = padded(src, width, height);
    raster::lemma_from_fn_valid(width, height, f);
    raster::lemma_from_fn_pixel(width, height, f, x, y);
    let (u, v) = (clamped_to(x, src.width as int), clamped_to(y, src.height as int));
    assert(big.pixel(x, y) == src.pixel(u, v));
    let (p, q) = (y * width + x, v * src.width + u);
    let a = raster::pixel_in(big.data, p);
    let b = raster::pixel_in(src.data, q);
    assert(a == b);
    assert forall|k: int| 0 <= k < 4 implies #[trigger] big.data[4 * (y * width + x) + k]
        == src.data[4 * (v * src.width + u) + k] by {
        assert(k == 0 || k == 1 || k == 2 || k == 3);
        assert(a.r == big.data[4 * p] && b.r == src.data[4 * q]);
        assert(a.g == big.data[4 * p + 1] && b.g == src.data[4 * q + 1]);
        assert(a.b == big.data[4 * p + 2] && b.b == src.data[4 * q + 2]);
        assert(a.a == big.data[4 * p + 3] && b.a == src.data[4 * q + 3]);
    }
}

/// Models are handed all red values, then all green, then all blue, in reading order:
/// of the bytes of a pixel the first, the second and the third. Alpha is not among them.
pub proof fn law_planes_are_red_green_blue<T, E: Fn(u8) -> T>(
    img: Raster,
    encode: E,
    planes: Seq<T>,
    i: int,
)
    requires
        planes_of(img, encode, planes),
        0 <= i < img.width * img.height,
    ensures
        ({
            let n = img.width * img.height;
            &&& planes.len() == 3 * n
            &&& call_ensures(encode, (img.data[4 * i],), planes[i])
            &&& call_ensures(encode, (img.data[4 * i + 1],), planes[n + i])
            &&& call_ensures(encode, (img.data[4 * i + 2],), planes[2 * n + i])
        }),
{
    let p = raster::pixel_in(img.data, i);
    assert(p.r == img.data[4 * i]);
}

/// What a model returns is read in the same order, and every pixel is opaque.
pub proof fn law_images_are_red_green_blue<T, D: Fn(T) -> u8>(
    planes: Seq<T>,
    decode: D,
    img: Raster,
    i: int,
)
    requires
        image_of(planes, decode, img),
        0 <= i < img.width * img.height,
    ensures
        ({
            let n = img.width * img.height;
            &&& img.data.len() == 4 * n
            &&& planes.len() >= 3 * n
            &&& call_ensures(decode, (planes[i],), img.data[4 * i])
            &&& call_ensures(decode, (planes[n + i],), img.data[4 * i + 1])
            &&& call_ensures(decode, (planes[2 * n + i],), img.data[4 * i + 2])
            &&& img.data[4 * i + 3] == 255
        }),
{
    let p = raster::pixel_in(img.data, i);
    assert(p.r == img.data[4 * i]);
}

/// An image is opaque exactly when the fourth byte of every pixel is 255.
pub proof fn law_opaque_is_full_alpha(img: Raster)
    ensures
        opaque(img) <==> forall|i: int|
            0 <= i < img.width * img.height ==> #[trigger] img.data[4 * i + 3] == 255,
{
    if opaque(img) {
        assert forall|i: int| 0 <= i < img.width * img.height implies #[trigger] img.data[4 * i + 3]
            == 255 by {
            assert(raster::pixel_in(img.data, i).a == 255);
        }
    }
    if forall|i: int| 0 <= i < img.width * img.height ==> #[trigger] img.data[4 * i + 3] == 255 {
        assert forall|i: int| 0 <= i < img.width * img.height implies (#[trigger] raster::pixel_in(
            img.data,
            i,
        )).a == 255 by {
            assert(img.data[4 * i + 3] == 255);
        }
    }
}

/// Giving back the alpha touches no colour. Where all of the original is opaque the
/// alpha is left alone too; otherwise it is the original's alpha channel, resampled to
/// the new size.
pub proof fn law_alpha_is_given_back(rgb: Raster, original: Raster, out: Raster)
    requires
        rgb.valid(),
        alpha_restored(rgb, original, out),
    ensures
        out.width == rgb.width,
        out.height == rgb.height,
        out.data.len() == rgb.data.len(),
        forall|i: int|
            0 <= i < rgb.width * rgb.height ==> {
                &&& #[trigger] out.data[4 * i] == rgb.data[4 * i]
                &&& out.data[4 * i + 1] == rgb.data[4 * i + 1]
                &&& out.data[4 * i + 2] == rgb.data[4 * i + 2]
            },
        (forall|i: int|
            0 <= i < original.width * original.height ==> #[trigger] original.data[4 * i + 3] == 255)
            ==> out.data == rgb.data,
        (exists|i: int|
            0 <= i < original.width * original.height && #[trigger] original.data[4 * i + 3] != 255)
            ==> resize::resize_gives(
            1,
            resize::Filter::Lanczos3,
            original.width,
            original.height,
            Seq::new(
                (original.width * original.height) as nat,
                |i: int| original.data[4 * i + 3],
            ),
            rgb.width,
            rgb.height,
            Seq::new((rgb.width * rgb.height) as nat, |i: int| out.data[4 * i + 3]),
        ),
{
    law_opaque_is_full_alpha(original);
    let n: int = rgb.width * rgb.height;
    assert(n >= 0) by (nonlinear_arith)
        requires
            n == rgb.width * rgb.height,
    ;
    if !opaque(original) {
        let alpha = choose|alpha: Seq<u8>|
            {
                &&& #[trigger] resize::resamples_plane(
                    original.width,
                    original.height,
                    alpha_of(original),
                    rgb.width,
                    rgb.height,
                    alpha,
                )
                &&& forall|i: int|
                    0 <= i < rgb.width * rgb.height ==> #[trigger] raster::pixel_in(out.data, i) == (
                    Rgba { a: alpha[i], ..raster::pixel_in(rgb.data, i) })
            };
        assert forall|i: int| 0 <= i < n implies {
            &&& #[trigger] out.data[4 * i] == rgb.data[4 * i]
            &&& out.data[4 * i + 1] == rgb.data[4 * i + 1]
            &&& out.data[4 * i + 2] == rgb.data[4 * i + 2]
            &&& out.data[4 * i + 3] == alpha[i]
        } by {
            let p = raster::pixel_in(out.data, i);
            let q = raster::pixel_in(rgb.data, i);
            assert(p == Rgba { a: alpha[i], ..q });
            assert(p.r == out.data[4 * i] && q.r == rgb.data[4 * i]);
        }
        let before = Seq::new(
            (original.width * original.height) as nat,
            |i: int| original.data[4 * i + 3],
        );
        let after = Seq::new(n as nat, |i: int| out.data[4 * i + 3]);
        assert(before =~= alpha_of(original));
        assert forall|i: int| 0 <= i < n implies after[i] == alpha[i] by {
            assert(out.data[4 * i] == rgb.data[4 * i]);
        }
        assert(after =~= alpha);
    }
}

} // verus!
