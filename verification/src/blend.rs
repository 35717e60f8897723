//! Blending upscaled tiles into a band of the output.
//!
//! How pixels are summed is left to a [`Blender`]: it says what an empty sum is,
//! how a weighted pixel is added, and what pixel a finished sum stands for. What
//! is kept here is which pixels meet in which sum, with what weight and in what
//! order.

use vstd::arithmetic::div_mod::*;
use vstd::prelude::*;

use crate::raster;
use crate::raster::{Raster, Rgba, RgbaImage};
use crate::tiling::{Tile, Weight};

verus! {

/// One tile's say in an output pixel.
#[derive(Debug, Clone, Copy, PartialEq, Eq, Structural)]
pub struct Sample {
    pub pixel: Rgba,
    pub weight: Weight,
}

/// How weighted pixels are summed.
pub struct Blender<S, A, R> {
    /// The sum of nothing.
    pub zero: S,
    /// Adds one weighted pixel to a sum.
    pub add: A,
    /// The pixel that a sum stands for.
    pub resolve: R,
}

impl<S: Copy, A: Fn(S, Rgba, Weight) -> S, R: Fn(S) -> Rgba> Blender<S, A, R> {
    /// Whether it can be handed any sum, pixel and weight.
    pub open spec fn total(self) -> bool {
        &&& forall|s: S, p: Rgba, w: Weight| #[trigger] call_requires(self.add, (s, p, w))
        &&& forall|s: S| #[trigger] call_requires(self.resolve, (s,))
    }

    /// Whether adding `samples` one after the other, starting from nothing, can
    /// give `sum`.
    pub open spec fn sums(self, samples: Seq<Sample>, sum: S) -> bool
        decreases samples.len(),
    {
        if samples.len() == 0 {
            sum == self.zero
        } else {
            exists|before: S|
                {
                    &&& self.sums(samples.drop_last(), before)
                    &&& #[trigger] self.adds(before, samples.last(), sum)
                }
        }
    }

    /// Whether adding `sample` to `before` can give `after`.
    pub open spec fn adds(self, before: S, sample: Sample, after: S) -> bool {
        call_ensures(self.add, (before, sample.pixel, sample.weight), after)
    }

    /// Whether blending `samples` can give `pixel`.
    pub open spec fn mixes(self, samples: Seq<Sample>, pixel: Rgba) -> bool {
        exists|sum: S|
            #[trigger] self.sums(samples, sum) && call_ensures(self.resolve, (sum,), pixel)
    }
}

/// What a tile has to say about the output pixel (`x`, `y`) that it covers.
pub open spec fn sample_of(tile: Tile, patch: Raster, x: int, y: int) -> Sample {
    Sample {
        pixel: patch.pixel(x - tile.dst.x, y - tile.dst.y),
        weight: tile.weight(x - tile.dst.x, y - tile.dst.y),
    }
}

/// What the first `n` tiles have to say about the output pixel (`x`, `y`), in
/// order; `patches` holds what each was upscaled to.
pub open spec fn samples_at(
    tiles: Seq<Tile>,
    patches: Seq<Raster>,
    n: int,
    x: int,
    y: int,
) -> Seq<Sample>
    decreases n,
{
    if n <= 0 {
        Seq::empty()
    } else {
        let before = samples_at(tiles, patches, n - 1, x, y);
        if tiles[n - 1].dst.contains(x, y) {
            before.push(sample_of(tiles[n - 1], patches[n - 1], x, y))
        } else {
            before
        }
    }
}

/// Sums for a horizontal band of the output.
pub struct Accumulator<S> {
    pub width: u32,
    /// Absolute output row held at local row 0.
    pub y_offset: u32,
    pub height: u32,
    /// One sum per pixel, row by row.
    pub sums: Vec<S>,
}

impl<S: Copy> Accumulator<S> {
    /// One sum for every pixel of a band that ends where rows can be counted.
    pub open spec fn valid(self) -> bool {
        &&& self.sums@.len() == self.width * self.height
        &&& self.y_offset + self.height <= u32::MAX
    }

    /// Output column of the sum at `p`.
    pub open spec fn col(self, p: int) -> int {
        p % (self.width as int)
    }

    /// Output row of the sum at `p`.
    pub open spec fn row(self, p: int) -> int {
        self.y_offset + p / (self.width as int)
    }

    /// Everything but the sums.
    pub open spec fn same_band(self, other: Self) -> bool {
        &&& self.width == other.width
        &&& self.y_offset == other.y_offset
        &&& self.height == other.height
        &&& self.sums@.len() == other.sums@.len()
    }

    /// A band in which nothing has been summed yet.
    pub fn new(width: u32, y_offset: u32, height: u32, zero: S) -> (acc: Self)
        requires
            y_offset + height <= u32::MAX,
            width * height <= usize::MAX,
        ensures
            acc.valid(),
            acc.width == width,
            acc.y_offset == y_offset,
            acc.height == height,
            forall|p: int| 0 <= p < acc.sums@.len() ==> #[trigger] acc.sums@[p] == zero,
    {
        let mut sums: Vec<S> = Vec::new();
        assert(0 <= width * height) by (nonlinear_arith);
        let count: usize = width as usize * height as usize;
        let mut i: usize = 0;
        while i < count
            invariant
                i <= count,
                sums@.len() == i,
                forall|p: int| 0 <= p < i ==> #[trigger] sums@[p] == zero,
            decreases count - i,
        {
            sums.push(zero);
            i = i + 1;
        }
        Accumulator { width, y_offset, height, sums }
    }

    /// Adopt sums carried over from the previous band, from the first row on.
    pub fn seed(&mut self, carried: &Vec<S>)
        requires
            old(self).valid(),
            carried@.len() <= old(self).sums@.len(),
        ensures
            final(self).valid(),
            final(self).same_band(*old(self)),
            forall|p: int|
                0 <= p < final(self).sums@.len() ==> #[trigger] final(self).sums@[p] == (if p
                    < carried@.len() {
                    carried@[p]
                } else {
                    old(self).sums@[p]
                }),
    {
        let mut i: usize = 0;
        while i < carried.len()
            invariant
                i <= carried@.len(),
                carried@.len() <= old(self).sums@.len(),
                old(self).valid(),
                self.valid(),
                self.same_band(*old(self)),
                forall|p: int|
                    0 <= p < self.sums@.len() ==> #[trigger] self.sums@[p] == (if p < i {
                        carried@[p]
                    } else {
                        old(self).sums@[p]
                    }),
            decreases carried@.len() - i,
        {
            let s = carried[i];
            self.sums.set(i, s);
            i = i + 1;
        }
    }

    /// Sums for the absolute rows from `from` on, to seed the next band.
    pub fn tail(&self, from: u32) -> (rest: Vec<S>)
        requires
            self.valid(),
            self.y_offset <= from <= self.y_offset + self.height,
        ensures
            rest@ == self.sums@.subrange(
                (from - self.y_offset) * self.width,
                self.sums@.len() as int,
            ),
    {
        let len: usize = self.sums.len();
        proof {
            assert(0 <= (from - self.y_offset) * self.width <= self.width * self.height)
                by (nonlinear_arith)
                requires
                    0 <= from - self.y_offset <= self.height,
            ;
        }
        let start: usize = (from - self.y_offset) as usize * self.width as usize;
        let mut rest: Vec<S> = Vec::new();
        let mut i: usize = start;
        while i < len
            invariant
                len == self.sums@.len(),
                start <= i <= len,
                rest@ == self.sums@.subrange(start as int, i as int),
            decreases len - i,
        {
            let s = self.sums[i];
            rest.push(s);
            i = i + 1;
            assert(rest@ =~= self.sums@.subrange(start as int, i as int));
        }
        rest
    }

    /// Blend an upscaled tile into the band.
    pub fn add_tile<A: Fn(S, Rgba, Weight) -> S, R: Fn(S) -> Rgba>(
        &mut self,
        blender: &Blender<S, A, R>,
        tile: &Tile,
        patch: &RgbaImage,
    )
        requires
            old(self).valid(),
            blender.total(),
            patch@.width == tile.dst.w,
            patch@.height == tile.dst.h,
            tile.dst.x + tile.dst.w <= old(self).width,
            old(self).y_offset <= tile.dst.y,
            tile.dst.y + tile.dst.h <= old(self).y_offset + old(self).height,
        ensures
            final(self).valid(),
            final(self).same_band(*old(self)),
            forall|p: int|
                #![trigger final(self).sums@[p]]
                0 <= p < final(self).sums@.len() ==> {
                    let (x, y) = (old(self).col(p), old(self).row(p));
                    if tile.dst.contains(x, y) {
                        blender.adds(
                            old(self).sums@[p],
                            sample_of(*tile, patch@, x, y),
                            final(self).sums@[p],
                        )
                    } else {
                        final(self).sums@[p] == old(self).sums@[p]
                    }
                },
    {
        let len: usize = self.sums.len();
        let mut v: u32 = 0;
        while v < tile.dst.h
            invariant
                old(self).valid(),
                self.valid(),
                self.same_band(*old(self)),
                len == self.sums@.len(),
                blender.total(),
                patch@.width == tile.dst.w,
                patch@.height == tile.dst.h,
                tile.dst.x + tile.dst.w <= self.width,
                self.y_offset <= tile.dst.y,
                tile.dst.y + tile.dst.h <= self.y_offset + self.height,
                v <= tile.dst.h,
                forall|p: int|
                    #![trigger self.sums@[p]]
                    0 <= p < len ==> {
                        let (x, y) = (old(self).col(p), old(self).row(p));
                        if tile.dst.contains(x, y) && y < tile.dst.y + v {
                            blender.adds(
                                old(self).sums@[p],
                                sample_of(*tile, patch@, x, y),
                                self.sums@[p],
                            )
                        } else {
                            self.sums@[p] == old(self).sums@[p]
                        }
                    },
            decreases tile.dst.h - v,
        {
            let mut u: u32 = 0;
            while u < tile.dst.w
                invariant
                    old(self).valid(),
                    self.valid(),
                    self.same_band(*old(self)),
                    len == self.sums@.len(),
                    blender.total(),
                    patch@.width == tile.dst.w,
                    patch@.height == tile.dst.h,
                    tile.dst.x + tile.dst.w <= self.width,
                    self.y_offset <= tile.dst.y,
                    tile.dst.y + tile.dst.h <= self.y_offset + self.height,
                    v < tile.dst.h,
                    u <= tile.dst.w,
                    forall|p: int|
                        #![trigger self.sums@[p]]
                        0 <= p < len ==> {
                            let (x, y) = (old(self).col(p), old(self).row(p));
                            if tile.dst.contains(x, y) && (y < tile.dst.y + v || (y == tile.dst.y
                                + v && x < tile.dst.x + u)) {
                                blender.adds(
                                    old(self).sums@[p],
                                    sample_of(*tile, patch@, x, y),
                                    self.sums@[p],
                                )
                            } else {
                                self.sums@[p] == old(self).sums@[p]
                            }
                        },
                decreases tile.dst.w - u,
            {
                let w = tile.weight_at(u, v);
                let px = patch.get_pixel(u, v);
                let ghost w0: int = self.width as int;
                let ghost x0: int = tile.dst.x + u;
                let ghost y0: int = tile.dst.y + v - self.y_offset;
                proof {
                    raster::lemma_reading_order(w0, x0, y0);
                    raster::lemma_reading_order_bound(w0, self.height as int, x0, y0);
                    assert(0 <= y0 * w0) by (nonlinear_arith)
                        requires
                            0 <= y0,
                            0 <= w0,
                    ;
                }
                let idx: usize = (tile.dst.y + v - self.y_offset) as usize * self.width as usize + (
                tile.dst.x + u) as usize;
                let ghost before = self.sums@;
                let s = self.sums[idx];
                let sum = (blender.add)(s, px, w);
                self.sums.set(idx, sum);
                proof {
                    assert forall|p: int| 0 <= p < len && p != idx implies !(old(self).col(p) == x0
                        && old(self).row(p) == tile.dst.y + v) by {
                        lemma_fundamental_div_mod(p, w0);
                        assert(w0 * (p / w0) == (p / w0) * w0) by (nonlinear_arith);
                    }
                    assert(old(self).col(idx as int) == x0);
                    assert(old(self).row(idx as int) == tile.dst.y + v);
                    assert(before[idx as int] == old(self).sums@[idx as int]);
                }
                u = u + 1;
            }
            v = v + 1;
        }
    }

    /// Resolve absolute rows `from..to` to RGBA bytes.
    pub fn resolve_rows<A: Fn(S, Rgba, Weight) -> S, R: Fn(S) -> Rgba>(
        &self,
        blender: &Blender<S, A, R>,
        from: u32,
        to: u32,
    ) -> (rows: Vec<u8>)
        requires
            self.valid(),
            blender.total(),
            self.y_offset <= from <= to <= self.y_offset + self.height,
        ensures
            rows@.len() == (to - from) * self.width * 4,
            forall|j: int|
                0 <= j < (to - from) * self.width ==> call_ensures(
                    blender.resolve,
                    (self.sums@[(from - self.y_offset) * self.width + j],),
                    #[trigger] raster::pixel_in(rows@, j),
                ),
    {
        let len: usize = self.sums.len();
        let ghost w0: int = self.width as int;
        let ghost a: int = from - self.y_offset;
        let ghost b: int = to - self.y_offset;
        proof {
            assert(0 <= a * w0 <= b * w0 && b * w0 <= w0 * self.height && b * w0 - a * w0 == (b - a)
                * w0) by (nonlinear_arith)
                requires
                    0 <= a <= b <= self.height,
                    0 <= w0,
            ;
        }
        let start: usize = (from - self.y_offset) as usize * self.width as usize;
        let end: usize = (to - self.y_offset) as usize * self.width as usize;
        let mut rows: Vec<u8> = Vec::new();
        let mut i: usize = start;
        while i < end
            invariant
                blender.total(),
                start <= i <= end <= len,
                len == self.sums@.len(),
                rows@.len() == (i - start) * 4,
                forall|j: int|
                    0 <= j < i - start ==> call_ensures(
                        blender.resolve,
                        (self.sums@[start + j],),
                        #[trigger] raster::pixel_in(rows@, j),
                    ),
            decreases end - i,
        {
            let s = self.sums[i];
            let px = (blender.resolve)(s);
            let ghost before = rows@;
            rows.push(px.r);
            rows.push(px.g);
            rows.push(px.b);
            rows.push(px.a);
            proof {
                assert forall|j: int| 0 <= j < i - start implies #[trigger] raster::pixel_in(
                    rows@,
                    j,
                ) == raster::pixel_in(before, j) by {}
                assert(raster::pixel_in(rows@, i - start) == px);
            }
            i = i + 1;
        }
        rows
    }
}

/// Every tile that covers an output pixel has its say about it, once, in the order of
/// the tiles, and no other has: the pixel that its patch shows there, with the weight
/// that it gives that pixel.
pub proof fn law_covering_tiles_have_their_say(
    tiles: Seq<Tile>,
    patches: Seq<Raster>,
    n: int,
    x: int,
    y: int,
)
    requires
        0 <= n,
    ensures
        samples_at(tiles, patches, n, x, y) == Seq::new(n as nat, |k: int| k).filter(
            |k: int|
                {
                    &&& tiles[k].dst.x <= x < tiles[k].dst.x + tiles[k].dst.w
                    &&& tiles[k].dst.y <= y < tiles[k].dst.y + tiles[k].dst.h
                },
        ).map_values(
            |k: int|
                Sample {
                    pixel: patches[k].pixel(x - tiles[k].dst.x, y - tiles[k].dst.y),
                    weight: tiles[k].weight(x - tiles[k].dst.x, y - tiles[k].dst.y),
                },
        ),
    decreases n,
{
    let covering = |k: int|
        {
            &&& tiles[k].dst.x <= x < tiles[k].dst.x + tiles[k].dst.w
            &&& tiles[k].dst.y <= y < tiles[k].dst.y + tiles[k].dst.h
        };
    let say = |k: int|
        Sample {
            pixel: patches[k].pixel(x - tiles[k].dst.x, y - tiles[k].dst.y),
            weight: tiles[k].weight(x - tiles[k].dst.x, y - tiles[k].dst.y),
        };
    let all = Seq::new(n as nat, |k: int| k);
    reveal(Seq::filter);
    if n == 0 {
        assert(all.filter(covering).map_values(say) =~= Seq::empty());
    } else {
        let part = Seq::new((n - 1) as nat, |k: int| k);
        law_covering_tiles_have_their_say(tiles, patches, n - 1, x, y);
        assert(all.drop_last() =~= part);
        assert(all.last() == n - 1);
        assert(samples_at(tiles, patches, n - 1, x, y) == part.filter(covering).map_values(say));
        if covering(n - 1) {
            assert(all.filter(covering) == part.filter(covering).push(n - 1));
            assert(all.filter(covering).map_values(say) =~= part.filter(covering).map_values(
                say,
            ).push(say(n - 1)));
            assert(samples_at(tiles, patches, n, x, y) =~= all.filter(covering).map_values(say));
        }
    }
}

/// Blending is a running sum: it starts from nothing, takes up every sample with its
/// weight, one after the other, and resolves what comes out at the end.
pub proof fn law_blending_is_a_running_sum<
    S: Copy,
    A: Fn(S, Rgba, Weight) -> S,
    R: Fn(S) -> Rgba,
>(blender: Blender<S, A, R>, samples: Seq<Sample>, pixel: Rgba)
    ensures
        blender.mixes(samples, pixel) <==> exists|sums: Seq<S>|
            {
                &&& sums.len() == samples.len() + 1
                &&& #[trigger] sums[0] == blender.zero
                &&& forall|i: int|
                    0 <= i < samples.len() ==> call_ensures(
                        blender.add,
                        (sums[i], (#[trigger] samples[i]).pixel, samples[i].weight),
                        sums[i + 1],
                    )
                &&& call_ensures(blender.resolve, (sums[samples.len() as int],), pixel)
            },
{
    if blender.mixes(samples, pixel) {
        let sum = choose|sum: S|
            #[trigger] blender.sums(samples, sum) && call_ensures(blender.resolve, (sum,), pixel);
        let sums = lemma_running_sums(blender, samples, sum);
        assert(sums[0] == blender.zero);
    }
    if exists|sums: Seq<S>|
        {
            &&& sums.len() == samples.len() + 1
            &&& #[trigger] sums[0] == blender.zero
            &&& forall|i: int|
                0 <= i < samples.len() ==> call_ensures(
                    blender.add,
                    (sums[i], (#[trigger] samples[i]).pixel, samples[i].weight),
                    sums[i + 1],
                )
            &&& call_ensures(blender.resolve, (sums[samples.len() as int],), pixel)
        } {
        let sums = choose|sums: Seq<S>|
            {
                &&& sums.len() == samples.len() + 1
                &&& #[trigger] sums[0] == blender.zero
                &&& forall|i: int|
                    0 <= i < samples.len() ==> call_ensures(
                        blender.add,
                        (sums[i], (#[trigger] samples[i]).pixel, samples[i].weight),
                        sums[i + 1],
                    )
                &&& call_ensures(blender.resolve, (sums[samples.len() as int],), pixel)
            };
        lemma_sums_run(blender, samples, sums);
        assert(blender.sums(samples, sums[samples.len() as int]));
    }
}

/// The sums on the way to `sum`.
proof fn lemma_running_sums<S: Copy, A: Fn(S, Rgba, Weight) -> S, R: Fn(S) -> Rgba>(
    blender: Blender<S, A, R>,
    samples: Seq<Sample>,
    sum: S,
) -> (sums: Seq<S>)
    requires
        blender.sums(samples, sum),
    ensures
        sums.len() == samples.len() + 1,
        sums[0] == blender.zero,
        sums[samples.len() as int] == sum,
        forall|i: int|
            0 <= i < samples.len() ==> call_ensures(
                blender.add,
                (sums[i], (#[trigger] samples[i]).pixel, samples[i].weight),
                sums[i + 1],
            ),
    decreases samples.len(),
{
    if samples.len() == 0 {
        seq![sum]
    } else {
        let part = samples.drop_last();
        let before = choose|before: S|
            {
                &&& blender.sums(samples.drop_last(), before)
                &&& #[trigger] blender.adds(before, samples.last(), sum)
            };
        let sums = lemma_running_sums(blender, part, before);
        let more = sums.push(sum);
        assert forall|i: int| 0 <= i < samples.len() implies call_ensures(
            blender.add,
            (more[i], (#[trigger] samples[i]).pixel, samples[i].weight),
            more[i + 1],
        ) by {
            if i < part.len() {
                assert(part[i] == samples[i]);
            }
        }
        more
    }
}

/// Running sums add up.
proof fn lemma_sums_run<S: Copy, A: Fn(S, Rgba, Weight) -> S, R: Fn(S) -> Rgba>(
    blender: Blender<S, A, R>,
    samples: Seq<Sample>,
    sums: Seq<S>,
)
    requires
        sums.len() == samples.len() + 1,
        sums[0] == blender.zero,
        forall|i: int|
            0 <= i < samples.len() ==> call_ensures(
                blender.add,
                (sums[i], (#[trigger] samples[i]).pixel, samples[i].weight),
                sums[i + 1],
            ),
    ensures
        blender.sums(samples, sums[samples.len() as int]),
    decreases samples.len(),
{
    if samples.len() > 0 {
        let part = samples.drop_last();
        let less = sums.drop_last();
        assert forall|i: int| 0 <= i < part.len() implies call_ensures(
            blender.add,
            (less[i], (#[trigger] part[i]).pixel, part[i].weight),
            less[i + 1],
        ) by {
            assert(part[i] == samples[i]);
        }
        lemma_sums_run(blender, part, less);
        let n: int = part.len() as int;
        assert(samples[n] == samples.last());
        assert(blender.adds(less[n], samples.last(), sums[n + 1]));
    }
}

} // verus!
