//! RGBA images, held as rows of interleaved bytes.

use vstd::arithmetic::div_mod::*;
use vstd::prelude::*;

verus! {

/// One pixel, straight alpha.
#[derive(Debug, Clone, Copy, PartialEq, Eq, Structural)]
pub struct Rgba {
    pub r: u8,
    pub g: u8,
    pub b: u8,
    pub a: u8,
}

impl Rgba {
    /// Byte `k` of the pixel as it is stored.
    pub open spec fn byte(self, k: int) -> u8 {
        if k == 0 {
            self.r
        } else if k == 1 {
            self.g
        } else if k == 2 {
            self.b
        } else {
            self.a
        }
    }
}

/// The bytes of the pixels `f(0)`, `f(1)`, .. `f(n - 1)`.
pub open spec fn bytes_of(n: int, f: spec_fn(int) -> Rgba) -> Seq<u8> {
    Seq::new((n * 4) as nat, |i: int| f(i / 4).byte(i % 4))
}

/// The pixel whose bytes start at `4 * p`.
pub open spec fn pixel_in(data: Seq<u8>, p: int) -> Rgba {
    Rgba { r: data[4 * p], g: data[4 * p + 1], b: data[4 * p + 2], a: data[4 * p + 3] }
}

/// The contents of an image.
#[verifier::ext_equal]
pub struct Raster {
    pub width: u32,
    pub height: u32,
    pub data: Seq<u8>,
}

impl Raster {
    /// Four bytes for every pixel.
    pub open spec fn valid(self) -> bool {
        self.data.len() == self.width * self.height * 4
    }

    pub open spec fn is_empty(self) -> bool {
        self.width == 0 || self.height == 0
    }

    /// The pixel in column `x` and row `y`.
    pub open spec fn pixel(self, x: int, y: int) -> Rgba {
        pixel_in(self.data, y * self.width + x)
    }

    /// The image whose pixel in column `x` and row `y` is `f(x, y)`.
    pub open spec fn from_fn(width: u32, height: u32, f: spec_fn(int, int) -> Rgba) -> Raster {
        Raster {
            width,
            height,
            data: bytes_of(width * height, |p: int| f(p % (width as int), p / (width as int))),
        }
    }

    /// The part that starts at (`x`, `y`).
    pub open spec fn crop(self, x: int, y: int, width: u32, height: u32) -> Raster {
        Raster::from_fn(width, height, |u: int, v: int| self.pixel(x + u, y + v))
    }
}

/// Bytes laid down pixel by pixel are read back pixel by pixel.
pub proof fn lemma_pixel_in_bytes_of(n: int, f: spec_fn(int) -> Rgba, p: int)
    requires
        0 <= p < n,
    ensures
        pixel_in(bytes_of(n, f), p) == f(p),
{
    assert((4 * p) / 4 == p && (4 * p) % 4 == 0);
    assert((4 * p + 1) / 4 == p && (4 * p + 1) % 4 == 1);
    assert((4 * p + 2) / 4 == p && (4 * p + 2) % 4 == 2);
    assert((4 * p + 3) / 4 == p && (4 * p + 3) % 4 == 3);
}

/// Bytes that read as the pixels `f(0)`, .. `f(n - 1)` are those pixels' bytes.
pub proof fn lemma_bytes_of_unique(data: Seq<u8>, n: int, f: spec_fn(int) -> Rgba)
    requires
        data.len() == n * 4,
        n >= 0,
        forall|p: int| 0 <= p < n ==> #[trigger] pixel_in(data, p) == f(p),
    ensures
        data == bytes_of(n, f),
{
    assert forall|i: int| 0 <= i < data.len() implies data[i] == bytes_of(n, f)[i] by {
        let p: int = i / 4;
        assert(i == 4 * p + i % 4);
        assert(pixel_in(data, p) == f(p));
        assert(pixel_in(data, p).byte(i % 4) == data[i]);
    }
    assert(data =~= bytes_of(n, f));
}

/// Column and row of a pixel from its position in reading order.
pub proof fn lemma_reading_order(width: int, x: int, y: int)
    requires
        0 <= x < width,
        0 <= y,
    ensures
        (y * width + x) % width == x,
        (y * width + x) / width == y,
        0 <= y * width + x,
{
    assert(width * y == y * width) by (nonlinear_arith);
    lemma_fundamental_div_mod_converse(y * width + x, width, y, x);
    assert(0 <= y * width) by (nonlinear_arith)
        requires
            0 <= y,
            0 <= width,
    ;
}

/// Reading order stays within the image.
pub proof fn lemma_reading_order_bound(width: int, height: int, x: int, y: int)
    requires
        0 <= x < width,
        0 <= y < height,
    ensures
        0 <= y * width + x < width * height,
        y * width + width <= width * height,
{
    assert(0 <= y * width + x && y * width + width <= width * height) by (nonlinear_arith)
        requires
            0 <= x < width,
            0 <= y < height,
    ;
}

/// A position in reading order is that of a column and a row.
pub proof fn lemma_position(width: int, height: int, p: int)
    requires
        0 <= width,
        0 <= p < width * height,
    ensures
        0 <= p % width < width,
        0 <= p / width < height,
        (p / width) * width + p % width == p,
{
    assert(width > 0) by (nonlinear_arith)
        requires
            0 <= width,
            0 <= p < width * height,
    ;
    lemma_fundamental_div_mod(p, width);
    assert(width * (p / width) == (p / width) * width) by (nonlinear_arith);
    assert(0 <= p / width < height) by (nonlinear_arith)
        requires
            width > 0,
            0 <= p < width * height,
    ;
}

/// An image built from a function of its coordinates has that function's values
/// as its pixels.
pub proof fn lemma_from_fn_pixel(
    width: u32,
    height: u32,
    f: spec_fn(int, int) -> Rgba,
    x: int,
    y: int,
)
    requires
        0 <= x < width,
        0 <= y < height,
    ensures
        Raster::from_fn(width, height, f).pixel(x, y) == f(x, y),
{
    lemma_reading_order(width as int, x, y);
    lemma_reading_order_bound(width as int, height as int, x, y);
    lemma_pixel_in_bytes_of(
        width * height,
        |p: int| f(p % (width as int), p / (width as int)),
        y * width + x,
    );
}

/// An image built from a function of its coordinates has four bytes per pixel.
pub proof fn lemma_from_fn_valid(width: u32, height: u32, f: spec_fn(int, int) -> Rgba)
    ensures
        Raster::from_fn(width, height, f).valid(),
{
    assert(width * height >= 0) by (nonlinear_arith);
}

/// Two images of one size whose pixels agree are the same.
pub proof fn lemma_same_pixels(a: Raster, b: Raster)
    requires
        a.valid(),
        b.valid(),
        a.width == b.width,
        a.height == b.height,
        forall|x: int, y: int|
            0 <= x < a.width && 0 <= y < a.height ==> #[trigger] a.pixel(x, y) == b.pixel(x, y),
    ensures
        a == b,
{
    let n: int = a.width * a.height;
    assert(n >= 0) by (nonlinear_arith)
        requires
            n == a.width * a.height,
    ;
    let f = |p: int| pixel_in(b.data, p);
    assert forall|p: int| 0 <= p < n implies #[trigger] pixel_in(a.data, p) == f(p) by {
        let w: int = a.width as int;
        lemma_position(w, a.height as int, p);
        assert(a.pixel(p % w, p / w) == b.pixel(p % w, p / w));
    }
    lemma_bytes_of_unique(a.data, n, f);
    lemma_bytes_of_unique(b.data, n, f);
}

/// An image in memory.
#[derive(Debug, PartialEq, Eq)]
pub struct RgbaImage {
    width: u32,
    height: u32,
    data: Vec<u8>,
}

impl View for RgbaImage {
    type V = Raster;

    closed spec fn view(&self) -> Raster {
        Raster { width: self.width, height: self.height, data: self.data@ }
    }
}

impl RgbaImage {
    #[verifier::type_invariant]
    spec fn well_formed(self) -> bool {
        self.data@.len() == self.width * self.height * 4
    }

    /// Adopt a buffer of four bytes per pixel, rows from top to bottom.
    pub fn from_raw(width: u32, height: u32, data: Vec<u8>) -> (img: Option<Self>)
        ensures
            data@.len() == width * height * 4 ==> {
                &&& img matches Some(i)
                &&& i@ == (Raster { width, height, data: data@ })
            },
            data@.len() != width * height * 4 ==> img is None,
    {
        proof {
            assert(width as u128 * height as u128 * 4 <= u128::MAX) by (nonlinear_arith)
                requires
                    width <= u32::MAX,
                    height <= u32::MAX,
            ;
            assert(0 <= width as u128 * height as u128 <= u128::MAX) by (nonlinear_arith)
                requires
                    width <= u32::MAX,
                    height <= u32::MAX,
            ;
        }
        let needed: u128 = width as u128 * height as u128 * 4;
        if data.len() as u128 == needed {
            Some(RgbaImage { width, height, data })
        } else {
            None
        }
    }

    pub fn width(&self) -> (w: u32)
        ensures
            w == self@.width,
            self@.valid(),
    {
        proof {
            use_type_invariant(self);
        }
        self.width
    }

    pub fn height(&self) -> (h: u32)
        ensures
            h == self@.height,
            self@.valid(),
    {
        proof {
            use_type_invariant(self);
        }
        self.height
    }

    pub fn dimensions(&self) -> (d: (u32, u32))
        ensures
            d == (self@.width, self@.height),
            self@.valid(),
    {
        proof {
            use_type_invariant(self);
        }
        (self.width, self.height)
    }

    pub fn as_raw(&self) -> (data: &Vec<u8>)
        ensures
            data@ == self@.data,
            self@.valid(),
    {
        proof {
            use_type_invariant(self);
        }
        &self.data
    }

    pub fn into_raw(self) -> (data: Vec<u8>)
        ensures
            data@ == self@.data,
            self@.valid(),
    {
        proof {
            use_type_invariant(&self);
        }
        self.data
    }

    pub fn get_pixel(&self, x: u32, y: u32) -> (p: Rgba)
        requires
            x < self@.width,
            y < self@.height,
        ensures
            p == self@.pixel(x as int, y as int),
    {
        let len: usize = self.data.len();
        proof {
            use_type_invariant(self);
            lemma_reading_order_bound(self.width as int, self.height as int, x as int, y as int);
            assert((y * self.width + x) * 4 + 4 <= len);
            assert(0 <= y * self.width) by (nonlinear_arith)
                requires
                    y >= 0,
                    self.width >= 0,
            ;
        }
        let at: usize = (y as usize * self.width as usize + x as usize) * 4;
        Rgba {
            r: self.data[at],
            g: self.data[at + 1],
            b: self.data[at + 2],
            a: self.data[at + 3],
        }
    }

    /// Copy out the part that starts at (`x`, `y`).
    pub fn crop(&self, x: u32, y: u32, width: u32, height: u32) -> (part: RgbaImage)
        requires
            x + width <= self@.width,
            y + height <= self@.height,
        ensures
            part@ == self@.crop(x as int, y as int, width, height),
    {
        let ghost f = |u: int, v: int| self@.pixel(x + u, y + v);
        let mut canvas = Canvas::new();
        let mut v: u32 = 0;
        while v < height
            invariant
                x + width <= self@.width,
                y + height <= self@.height,
                v <= height,
                f == (|u: int, v: int| self@.pixel(x + u, y + v)),
                canvas@.len() == v * width,
                forall|j: int, i: int|
                    0 <= i < width && 0 <= j < v ==> #[trigger] canvas@[j * width + i] == f(i, j),
            decreases height - v,
        {
            let mut u: u32 = 0;
            while u < width
                invariant
                    x + width <= self@.width,
                    y + height <= self@.height,
                    v < height,
                    u <= width,
                    f == (|u: int, v: int| self@.pixel(x + u, y + v)),
                    canvas@.len() == v * width + u,
                    forall|j: int, i: int|
                        0 <= i < width && 0 <= j < v ==> #[trigger] canvas@[j * width + i] == f(
                            i,
                            j,
                        ),
                    forall|i: int| 0 <= i < u ==> #[trigger] canvas@[v * width + i] == f(i, v as int),
                decreases width - u,
            {
                let p = self.get_pixel(x + u, y + v);
                proof {
                    lemma_rows_before(width as int, v as int);
                }
                canvas.push(p);
                u = u + 1;
            }
            proof {
                assert((v + 1) * width == v * width + width) by (nonlinear_arith);
            }
            v = v + 1;
        }
        proof {
            assert(height * width == width * height) by (nonlinear_arith);
        }
        let part = canvas.into_image(width, height);
        proof {
            assert forall|i: int, j: int| 0 <= i < width && 0 <= j < height implies #[trigger] pixel_in(
                part@.data,
                j * width + i,
            ) == f(i, j) by {
                lemma_reading_order_bound(width as int, height as int, i, j);
            }
            lemma_is_from_fn(part@, f);
        }
        part
    }
}

/// Pixels of earlier rows come before those of row `v`.
pub proof fn lemma_rows_before(width: int, v: int)
    requires
        width >= 0,
        v >= 0,
    ensures
        forall|j: int, i: int|
            0 <= i < width && 0 <= j < v ==> 0 <= #[trigger] (j * width + i) < v * width,
        0 <= v * width,
{
    assert forall|j: int, i: int| 0 <= i < width && 0 <= j < v implies 0 <= #[trigger] (j * width + i)
        < v * width by {
        assert(0 <= j * width + i && j * width + width <= v * width) by (nonlinear_arith)
            requires
                0 <= i < width,
                0 <= j < v,
        ;
    }
    assert(0 <= v * width) by (nonlinear_arith)
        requires
            width >= 0,
            v >= 0,
    ;
}

/// An image in the making, filled pixel by pixel in reading order.
pub struct Canvas {
    data: Vec<u8>,
}

impl View for Canvas {
    type V = Seq<Rgba>;

    closed spec fn view(&self) -> Seq<Rgba> {
        Seq::new(self.data@.len() / 4, |p: int| pixel_in(self.data@, p))
    }
}

impl Canvas {
    #[verifier::type_invariant]
    spec fn whole_pixels(self) -> bool {
        self.data@.len() % 4 == 0
    }

    pub fn new() -> (c: Self)
        ensures
            c@ == Seq::<Rgba>::empty(),
    {
        let c = Canvas { data: Vec::new() };
        assert(c@ =~= Seq::<Rgba>::empty());
        c
    }

    /// Lay down the next pixel.
    pub fn push(&mut self, p: Rgba)
        ensures
            final(self)@ == old(self)@.push(p),
    {
        proof {
            use_type_invariant(&*self);
        }
        let ghost before = self.data@;
        let mut data: Vec<u8> = Vec::new();
        std::mem::swap(&mut data, &mut self.data);
        data.push(p.r);
        data.push(p.g);
        data.push(p.b);
        data.push(p.a);
        self.data = data;
        assert(self.data@ =~= before + seq![p.r, p.g, p.b, p.a]);
        assert(self@ =~= old(self)@.push(p));
    }

    /// The finished image.
    pub fn into_image(self, width: u32, height: u32) -> (img: RgbaImage)
        requires
            self@.len() == width * height,
        ensures
            img@.valid(),
            img@.width == width,
            img@.height == height,
            forall|p: int|
                0 <= p < width * height ==> #[trigger] pixel_in(img@.data, p) == self@[p],
    {
        proof {
            use_type_invariant(&self);
        }
        RgbaImage { width, height, data: self.data }
    }
}

/// An image whose pixels, in reading order, are those of a function of its
/// coordinates is the image built from that function.
pub proof fn lemma_is_from_fn(img: Raster, f: spec_fn(int, int) -> Rgba)
    requires
        img.valid(),
        forall|x: int, y: int|
            0 <= x < img.width && 0 <= y < img.height ==> #[trigger] pixel_in(
                img.data,
                y * img.width + x,
            ) == f(x, y),
    ensures
        img == Raster::from_fn(img.width, img.height, f),
{
    let made = Raster::from_fn(img.width, img.height, f);
    lemma_from_fn_valid(img.width, img.height, f);
    assert forall|x: int, y: int| 0 <= x < img.width && 0 <= y < img.height implies #[trigger] img.pixel(
        x,
        y,
    ) == made.pixel(x, y) by {
        lemma_from_fn_pixel(img.width, img.height, f, x, y);
        assert(pixel_in(img.data, y * img.width + x) == f(x, y));
    }
    lemma_same_pixels(img, made);
}

impl Clone for RgbaImage {
    fn clone(&self) -> (copy: Self)
        ensures
            copy@ == self@,
    {
        proof {
            use_type_invariant(self);
        }
        let data: Vec<u8> = self.data.clone();
        assert(data@ =~= self.data@);
        RgbaImage { width: self.width, height: self.height, data }
    }
}

/// A part of an image has the bytes that the image has there, pixel for pixel.
pub proof fn law_crop_is_a_window(img: Raster, x: int, y: int, width: u32, height: u32)
    requires
        0 <= x,
        0 <= y,
        x + width <= img.width,
        y + height <= img.height,
    ensures
        ({
            let part = img.crop(x, y, width, height);
            &&& part.width == width
            &&& part.height == height
            &&& part.data.len() == width * height * 4
            &&& forall|u: int, v: int, k: int|
                0 <= u < width && 0 <= v < height && 0 <= k < 4 ==> #[trigger] part.data[4 * (v
                    * width + u) + k] == img.data[4 * ((y + v) * img.width + (x + u)) + k]
        }),
{
    let part = img.crop(x, y, width, height);
    let f = |u: int, v: int| img.pixel(x + u, y + v);
    lemma_from_fn_valid(width, height, f);
    assert forall|u: int, v: int, k: int|
        0 <= u < width && 0 <= v < height && 0 <= k < 4 implies #[trigger] part.data[4 * (v * width
        + u) + k] == img.data[4 * ((y + v) * img.width + (x + u)) + k] by {
        lemma_from_fn_pixel(width, height, f, u, v);
        let (p, q) = (v * width + u, (y + v) * img.width + (x + u));
        assert(pixel_in(part.data, p) == pixel_in(img.data, q));
        assert(pixel_in(part.data, p).r == part.data[4 * p]);
        assert(pixel_in(img.data, q).r == img.data[4 * q]);
        assert(k == 0 || k == 1 || k == 2 || k == 3);
    }
}

/// The pixel in column `x` and row `y` has the four bytes that stand there, in the
/// order red, green, blue, alpha.
pub proof fn law_pixels_are_in_reading_order(img: Raster, x: int, y: int)
    ensures
        img.pixel(x, y).r == img.data[4 * (y * img.width + x)],
        img.pixel(x, y).g == img.data[4 * (y * img.width + x) + 1],
        img.pixel(x, y).b == img.data[4 * (y * img.width + x) + 2],
        img.pixel(x, y).a == img.data[4 * (y * img.width + x) + 3],
{
}

/// An image has four bytes for every pixel, and is empty where it has no pixels.
pub proof fn law_images_are_whole(img: Raster)
    ensures
        img.valid() <==> img.data.len() == img.width * img.height * 4,
        img.is_empty() <==> img.width == 0 || img.height == 0,
{
}

} // verus!
