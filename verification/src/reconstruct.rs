//! What cutting an image into tiles and blending it back together keeps.
//!
//! A backend that treats a pixel the same wherever the tile border runs gives the
//! result that it would have given for the whole image.

use vstd::arithmetic::power::*;
use vstd::prelude::*;

use crate::backend;
use crate::backend::{ResampleBackend, Upscaler};
use crate::blend;
use crate::blend::{Blender, Sample};
use crate::pass;
use crate::pass::{Error, UpscaleOptions};
use crate::pipeline;
use crate::raster;
use crate::raster::{Raster, Rgba};
use crate::resize;
use crate::seams;
use crate::sink::RowSink;
use crate::tiling;
use crate::tiling::{AxisWeight, Grid, Tile, Weight};

verus! {

/// Whether `patch` shows, where `tile` lies in the output, what `ideal` shows.
pub open spec fn matches_ideal(tile: Tile, patch: Raster, ideal: Raster) -> bool {
    forall|u: int, v: int|
        0 <= u < tile.dst.w && 0 <= v < tile.dst.h ==> #[trigger] patch.pixel(u, v) == ideal.pixel(
            tile.dst.x + u,
            tile.dst.y + v,
        )
}

/// Whether all of `samples` show `colour`, and there is at least one.
pub open spec fn all_show(samples: Seq<Sample>, colour: Rgba) -> bool {
    &&& samples.len() > 0
    &&& forall|i: int| 0 <= i < samples.len() ==> (#[trigger] samples[i]).pixel == colour
}

/// A colour, or clear where it lets everything through.
pub open spec fn cleared(colour: Rgba) -> Rgba {
    if colour.a == 0 {
        Rgba { r: 0, g: 0, b: 0, a: 0 }
    } else {
        colour
    }
}

/// An image whose pixels that let everything through are clear.
pub open spec fn all_cleared(img: Raster) -> Raster {
    Raster::from_fn(img.width, img.height, |x: int, y: int| cleared(img.pixel(x, y)))
}

/// Whether blending gives `colour`, or clear where it lets everything through, at
/// every pixel of a tiling at which all that the tiles have to say is `colour`.
pub open spec fn keeps<S: Copy, A: Fn(S, Rgba, Weight) -> S, R: Fn(S) -> Rgba>(
    blender: Blender<S, A, R>,
    g: Grid,
    colour: Rgba,
) -> bool {
    forall|patches: Seq<Raster>, x: int, y: int, p: Rgba|
        {
            let said = blend::samples_at(g.tiles(), patches, g.tiles().len() as int, x, y);
            &&& 0 <= x < g.width * g.scale
            &&& 0 <= y < g.height * g.scale
            &&& all_show(said, colour)
            &&& #[trigger] blender.mixes(
                blend::samples_at(g.tiles(), patches, g.tiles().len() as int, x, y),
                p,
            )
        } ==> p == cleared(colour)
}

/// Where patches show what one image shows, so does every sample of the first `n`
/// tiles; and a tile among them that covers the pixel adds a sample.
proof fn lemma_samples_match(
    tiles: Seq<Tile>,
    patches: Seq<Raster>,
    ideal: Raster,
    n: int,
    x: int,
    y: int,
)
    requires
        0 <= n <= tiles.len(),
        forall|k: int|
            0 <= k < tiles.len() ==> matches_ideal(tiles[k], #[trigger] patches[k], ideal),
    ensures
        forall|i: int|
            0 <= i < blend::samples_at(tiles, patches, n, x, y).len() ==> (
            #[trigger] blend::samples_at(tiles, patches, n, x, y)[i]).pixel == ideal.pixel(x, y),
        (exists|k: int| 0 <= k < n && (#[trigger] tiles[k]).dst.contains(x, y))
            ==> blend::samples_at(tiles, patches, n, x, y).len() > 0,
    decreases n,
{
    if n > 0 {
        lemma_samples_match(tiles, patches, ideal, n - 1, x, y);
        let t = tiles[n - 1];
        assert(matches_ideal(t, patches[n - 1], ideal));
        if t.dst.contains(x, y) {
            let u: int = x - t.dst.x;
            let v: int = y - t.dst.y;
            assert(patches[n - 1].pixel(u, v) == ideal.pixel(t.dst.x + u, t.dst.y + v));
        }
    }
}

/// Every output pixel has something said about it; and where the patches of a
/// tiling all show what one image shows, that is what is said.
pub proof fn law_samples_agree(
    g: Grid,
    patches: Seq<Raster>,
    ideal: Raster,
    x: int,
    y: int,
)
    requires
        g.valid(),
        g.fits(),
        0 <= x < g.width * g.scale,
        0 <= y < g.height * g.scale,
        patches.len() == g.tiles().len(),
        forall|k: int|
            0 <= k < g.tiles().len() ==> matches_ideal(
                g.tiles()[k],
                #[trigger] patches[k],
                ideal,
            ),
    ensures
        all_show(
            blend::samples_at(g.tiles(), patches, g.tiles().len() as int, x, y),
            ideal.pixel(x, y),
        ),
{
    seams::law_every_output_pixel_has_weight(g, x, y);
    lemma_samples_match(g.tiles(), patches, ideal, g.tiles().len() as int, x, y);
}

/// The numerators of the weights of `samples`, added up.
pub open spec fn total_share(samples: Seq<Sample>) -> int
    decreases samples.len(),
{
    if samples.len() == 0 {
        0
    } else {
        total_share(samples.drop_last()) + samples.last().weight.numer()
    }
}

/// Whether the weights of `samples` have one denominator and add up to one.
pub open spec fn weights_sum_to_one(samples: Seq<Sample>) -> bool {
    let denom = samples[0].weight.denom();
    &&& samples.len() > 0
    &&& denom > 0
    &&& forall|i: int|
        0 <= i < samples.len() ==> (#[trigger] samples[i]).weight.denom() == denom
    &&& total_share(samples) == denom
}

/// The shares of the first `n` tiles, added up.
spec fn shares_before(g: Grid, n: int, x: int, y: int) -> int
    decreases n,
{
    if n <= 0 {
        0
    } else {
        shares_before(g, n - 1, x, y) + g.share((n - 1) / g.cols(), (n - 1) % g.cols(), x, y)
    }
}

/// The share of the tile in row `r` and column `c`, if it is among the first `n`.
spec fn placed(g: Grid, r: int, c: int, n: int, x: int, y: int) -> int {
    if 0 <= r < g.rows() && 0 <= c < g.cols() && r * g.cols() + c < n {
        g.share(r, c, x, y)
    } else {
        0
    }
}

/// One more tile adds its share where it is the one in row `r` and column `c`.
proof fn lemma_placed_next(g: Grid, r: int, c: int, n: int, x: int, y: int)
    requires
        0 < g.cols(),
        0 <= n < g.rows() * g.cols(),
    ensures
        placed(g, r, c, n + 1, x, y) == placed(g, r, c, n, x, y) + (if r == n / g.cols() && c == n
            % g.cols() {
            g.share(r, c, x, y)
        } else {
            0
        }),
{
    let w: int = g.cols();
    assert(g.rows() * w == w * g.rows()) by (nonlinear_arith);
    raster::lemma_position(w, g.rows(), n);
    if 0 <= r && 0 <= c < w && r * w + c == n {
        raster::lemma_reading_order(w, c, r);
    }
}

/// Where no tiles but the four at rows `r`, `r + 1` and columns `c`, `c + 1` have a
/// share, the shares of the first `n` tiles are those of the four among them.
proof fn lemma_four_shares(g: Grid, r: int, c: int, n: int, x: int, y: int)
    requires
        0 < g.cols(),
        0 <= n <= g.rows() * g.cols(),
        forall|i: int, j: int|
            !((i == r || i == r + 1) && (j == c || j == c + 1)) ==> #[trigger] g.share(i, j, x, y)
                == 0,
    ensures
        shares_before(g, n, x, y) == placed(g, r, c, n, x, y) + placed(g, r, c + 1, n, x, y)
            + placed(g, r + 1, c, n, x, y) + placed(g, r + 1, c + 1, n, x, y),
    decreases n,
{
    if n > 0 {
        let m: int = n - 1;
        lemma_four_shares(g, r, c, m, x, y);
        lemma_placed_next(g, r, c, m, x, y);
        lemma_placed_next(g, r, c + 1, m, x, y);
        lemma_placed_next(g, r + 1, c, m, x, y);
        lemma_placed_next(g, r + 1, c + 1, m, x, y);
    } else {
        lemma_none_placed(g, r, c, x, y);
        lemma_none_placed(g, r, c + 1, x, y);
        lemma_none_placed(g, r + 1, c, x, y);
        lemma_none_placed(g, r + 1, c + 1, x, y);
    }
}

/// Among no tiles there is none.
proof fn lemma_none_placed(g: Grid, r: int, c: int, x: int, y: int)
    ensures
        placed(g, r, c, 0, x, y) == 0,
{
    if 0 <= r && 0 <= c < g.cols() {
        assert(0 <= r * g.cols()) by (nonlinear_arith)
            requires
                0 <= r,
                0 <= g.cols(),
        ;
    }
}

/// What the first `n` tiles have to say about a pixel carries their shares of it.
proof fn lemma_samples_carry_shares(g: Grid, patches: Seq<Raster>, n: int, x: int, y: int)
    requires
        g.valid(),
        g.fits(),
        0 <= n <= g.tiles().len(),
    ensures
        total_share(blend::samples_at(g.tiles(), patches, n, x, y)) == shares_before(g, n, x, y),
        forall|i: int|
            0 <= i < blend::samples_at(g.tiles(), patches, n, x, y).len() ==> exists|k: int|
                0 <= k < n && (#[trigger] g.tiles()[k]).dst.contains(x, y) && (
                #[trigger] blend::samples_at(g.tiles(), patches, n, x, y)[i]).weight
                    == g.tiles()[k].weight(x - g.tiles()[k].dst.x, y - g.tiles()[k].dst.y),
    decreases n,
{
    if n > 0 {
        let before = blend::samples_at(g.tiles(), patches, n - 1, x, y);
        let after = blend::samples_at(g.tiles(), patches, n, x, y);
        lemma_samples_carry_shares(g, patches, n - 1, x, y);
        seams::lemma_tile_row_col(g, n - 1);
        let t = g.tiles()[n - 1];
        if t.dst.contains(x, y) {
            let sample = blend::sample_of(t, patches[n - 1], x, y);
            assert(after == before.push(sample));
            assert(after.drop_last() =~= before);
            assert forall|i: int| 0 <= i < after.len() implies exists|k: int|
                0 <= k < n && (#[trigger] g.tiles()[k]).dst.contains(x, y) && (
                #[trigger] after[i]).weight == g.tiles()[k].weight(
                    x - g.tiles()[k].dst.x,
                    y - g.tiles()[k].dst.y,
                ) by {
                if i < before.len() {
                    assert(after[i] == before[i]);
                } else {
                    assert(g.tiles()[n - 1].dst.contains(x, y));
                }
            }
        }
    }
}

/// The cross-fade is complete: the weights with which an output pixel is blended add
/// up to exactly one, wherever at most two columns and at most two rows of tiles
/// cover it.
pub proof fn law_blended_weights_sum_to_one(g: Grid, patches: Seq<Raster>, x: int, y: int)
    requires
        g.valid(),
        g.fits(),
        0 <= x < g.width * g.scale,
        0 <= y < g.height * g.scale,
        seams::at_most_two(g.width, g.tile, tiling::clamped(g.overlap, g.tile), g.scale, x),
        seams::at_most_two(g.height, g.tile, tiling::clamped(g.overlap, g.tile), g.scale, y),
    ensures
        weights_sum_to_one(
            blend::samples_at(g.tiles(), patches, g.tiles().len() as int, x, y),
        ),
{
    let n: int = g.tiles().len() as int;
    let said = blend::samples_at(g.tiles(), patches, n, x, y);
    seams::law_blend_weights_sum_to_one(g, x, y);
    let (r, c) = choose|r: int, c: int| g.shares_sum_to_one(r, c, x, y);
    seams::law_every_output_pixel_has_weight(g, x, y);
    seams::lemma_grid_counts(g);
    lemma_samples_carry_shares(g, patches, n, x, y);
    let t = g.tile(r, c);
    let denom: int = t.weight(x - t.dst.x, y - t.dst.y).denom();
    assert forall|i: int, j: int|
        !((i == r || i == r + 1) && (j == c || j == c + 1)) implies #[trigger] g.share(i, j, x, y)
        == 0 by {}
    let k = choose|k: int|
        0 <= k < n && {
            let t = #[trigger] g.tiles()[k];
            &&& t.dst.contains(x, y)
            &&& t.weight(x - t.dst.x, y - t.dst.y).numer() > 0
            &&& t.weight(x - t.dst.x, y - t.dst.y).denom() > 0
        };
    seams::lemma_tile_row_col(g, k);
    lemma_four_shares(g, r, c, n, x, y);
    lemma_all_placed(g, r, c, x, y);
    lemma_all_placed(g, r, c + 1, x, y);
    lemma_all_placed(g, r + 1, c, x, y);
    lemma_all_placed(g, r + 1, c + 1, x, y);
    assert(total_share(said) == denom);
    assert(said.len() > 0);
    assert forall|i: int| 0 <= i < said.len() implies (#[trigger] said[i]).weight.denom()
        == denom by {
        let k = choose|k: int|
            0 <= k < n && (#[trigger] g.tiles()[k]).dst.contains(x, y) && said[i].weight
                == g.tiles()[k].weight(x - g.tiles()[k].dst.x, y - g.tiles()[k].dst.y);
        seams::lemma_tile_row_col(g, k);
        assert(g.tiles()[k] == g.tile(k / g.cols(), k % g.cols()));
    }
    assert(said[0].weight.denom() == denom);
}

/// Where the fades of no tile run into each other, the weights with which any output
/// pixel is blended add up to exactly one.
pub proof fn law_weights_sum_to_one_everywhere(g: Grid, patches: Seq<Raster>, x: int, y: int)
    requires
        g.valid(),
        g.fits(),
        0 <= x < g.width * g.scale,
        0 <= y < g.height * g.scale,
        seams::fades_apart(g.width, g.tile, tiling::clamped(g.overlap, g.tile)),
        seams::fades_apart(g.height, g.tile, tiling::clamped(g.overlap, g.tile)),
    ensures
        weights_sum_to_one(
            blend::samples_at(g.tiles(), patches, g.tiles().len() as int, x, y),
        ),
{
    let overlap: int = tiling::clamped(g.overlap, g.tile);
    seams::law_fades_apart(g.width, g.tile, overlap, g.scale);
    seams::law_fades_apart(g.height, g.tile, overlap, g.scale);
    assert(seams::at_most_two(g.width, g.tile, overlap, g.scale, x));
    assert(seams::at_most_two(g.height, g.tile, overlap, g.scale, y));
    law_blended_weights_sum_to_one(g, patches, x, y);
}

/// Among all tiles every tile is placed.
proof fn lemma_all_placed(g: Grid, r: int, c: int, x: int, y: int)
    ensures
        placed(g, r, c, g.rows() * g.cols(), x, y) == g.share(r, c, x, y),
{
    if 0 <= r < g.rows() && 0 <= c < g.cols() {
        assert(r * g.cols() + c < g.rows() * g.cols()) by (nonlinear_arith)
            requires
                0 <= r < g.rows(),
                0 <= c < g.cols(),
        ;
    }
}

/// Tiling is invisible: a backend that makes of every tile just what `ideal` shows
/// there gives `ideal`, whatever the tile size and the overlap, provided that
/// blending keeps the colours it has. Pixels that let everything through come out
/// clear.
pub proof fn law_tiling_is_invisible<
    U: Upscaler,
    S: Copy,
    A: Fn(S, Rgba, Weight) -> S,
    R: Fn(S) -> Rgba,
>(
    backend: U,
    blender: Blender<S, A, R>,
    source: Raster,
    opts: UpscaleOptions,
    ideal: Raster,
    out: Raster,
)
    requires
        pass::grid_for(source, backend.factor(), opts).valid(),
        pass::grid_for(source, backend.factor(), opts).fits(),
        ideal.valid(),
        ideal.width == source.width * backend.factor(),
        ideal.height == source.height * backend.factor(),
        forall|k: int, patch: Raster|
            #![trigger pass::renders(
                backend,
                source,
                pass::grid_for(source, backend.factor(), opts).tiles()[k],
                patch,
            )]
            0 <= k < pass::grid_for(source, backend.factor(), opts).tiles().len() && pass::renders(
                backend,
                source,
                pass::grid_for(source, backend.factor(), opts).tiles()[k],
                patch,
            ) ==> matches_ideal(
                pass::grid_for(source, backend.factor(), opts).tiles()[k],
                patch,
                ideal,
            ),
        forall|x: int, y: int|
            0 <= x < ideal.width && 0 <= y < ideal.height ==> keeps(
                blender,
                pass::grid_for(source, backend.factor(), opts),
                #[trigger] ideal.pixel(x, y),
            ),
        pass::pass_gives(backend, blender, source, opts, out),
    ensures
        out == all_cleared(ideal),
        (forall|x: int, y: int|
            0 <= x < ideal.width && 0 <= y < ideal.height ==> (#[trigger] ideal.pixel(x, y)).a > 0)
            ==> out == ideal,
{
    let g = pass::grid_for(source, backend.factor(), opts);
    let patches = choose|patches: Seq<Raster>| #[trigger]
        pass::all_rendered(backend, source, g.tiles(), patches) && pass::blended(
            blender,
            g.tiles(),
            patches,
            out,
        );
    assert forall|k: int| 0 <= k < g.tiles().len() implies matches_ideal(
        g.tiles()[k],
        #[trigger] patches[k],
        ideal,
    ) by {
        assert(pass::renders(backend, source, g.tiles()[k], patches[k]));
    }
    let f = |x: int, y: int| cleared(ideal.pixel(x, y));
    raster::lemma_from_fn_valid(ideal.width, ideal.height, f);
    assert forall|x: int, y: int| 0 <= x < out.width && 0 <= y < out.height implies out.pixel(x, y)
        == cleared(ideal.pixel(x, y)) && #[trigger] out.pixel(x, y) == all_cleared(ideal).pixel(
        x,
        y,
    ) by {
        law_samples_agree(g, patches, ideal, x, y);
        raster::lemma_from_fn_pixel(ideal.width, ideal.height, f, x, y);
        assert(keeps(blender, g, ideal.pixel(x, y)));
        assert(blender.mixes(
            blend::samples_at(g.tiles(), patches, g.tiles().len() as int, x, y),
            out.pixel(x, y),
        ));
    }
    raster::lemma_same_pixels(out, all_cleared(ideal));
    if forall|x: int, y: int|
        0 <= x < ideal.width && 0 <= y < ideal.height ==> (#[trigger] ideal.pixel(x, y)).a > 0 {
        assert forall|x: int, y: int| 0 <= x < out.width && 0 <= y < out.height implies
            #[trigger] out.pixel(x, y) == ideal.pixel(x, y) by {
            assert(ideal.pixel(x, y).a > 0);
        }
        raster::lemma_same_pixels(out, ideal);
    }
}

/// Full weight along both axes.
pub open spec fn full_weight() -> Weight {
    Weight {
        x: AxisWeight { lead: None, trail: None },
        y: AxisWeight { lead: None, trail: None },
    }
}

/// An image that fits in one tile is handed to the backend whole, and every pixel
/// of what comes back is blended from itself alone, at full weight.
pub proof fn law_one_tile_is_not_blended<
    U: Upscaler,
    S: Copy,
    A: Fn(S, Rgba, Weight) -> S,
    R: Fn(S) -> Rgba,
>(
    backend: U,
    blender: Blender<S, A, R>,
    source: Raster,
    opts: UpscaleOptions,
    out: Raster,
)
    requires
        pass::grid_for(source, backend.factor(), opts).valid(),
        pass::grid_for(source, backend.factor(), opts).fits(),
        source.valid(),
        0 < source.width <= opts.tile,
        0 < source.height <= opts.tile,
        pass::pass_gives(backend, blender, source, opts, out),
    ensures
        exists|patch: Raster|
            {
                &&& #[trigger] backend.gives(source, Ok(patch))
                &&& patch.width == out.width
                &&& patch.height == out.height
                &&& forall|x: int, y: int|
                    0 <= x < out.width && 0 <= y < out.height ==> blender.mixes(
                        seq![Sample { pixel: patch.pixel(x, y), weight: full_weight() }],
                        #[trigger] out.pixel(x, y),
                    )
            },
{
    let g = pass::grid_for(source, backend.factor(), opts);
    seams::law_small_images(g);
    let patches = choose|patches: Seq<Raster>| #[trigger]
        pass::all_rendered(backend, source, g.tiles(), patches) && pass::blended(
            blender,
            g.tiles(),
            patches,
            out,
        );
    let t = g.tiles()[0];
    let patch = patches[0];
    assert(pass::renders(backend, source, t, patch));
    let whole = pass::cut(source, t);
    let f = |u: int, v: int| source.pixel(t.src.x as int + u, t.src.y as int + v);
    raster::lemma_from_fn_valid(source.width, source.height, f);
    assert forall|x: int, y: int| 0 <= x < source.width && 0 <= y < source.height implies whole.pixel(
        x,
        y,
    ) == source.pixel(x, y) by {
        raster::lemma_from_fn_pixel(source.width, source.height, f, x, y);
    }
    raster::lemma_same_pixels(whole, source);
    assert(backend.gives(source, Ok(patch)));
    assert forall|x: int, y: int| 0 <= x < out.width && 0 <= y < out.height implies blender.mixes(
        seq![Sample { pixel: patch.pixel(x, y), weight: full_weight() }],
        #[trigger] out.pixel(x, y),
    ) by {
        let said = blend::samples_at(g.tiles(), patches, 1, x, y);
        assert(t.dst.contains(x, y));
        assert(blend::samples_at(g.tiles(), patches, 0, x, y) =~= Seq::empty());
        assert(said =~= seq![Sample { pixel: patch.pixel(x, y), weight: full_weight() }]);
        assert(blender.mixes(said, out.pixel(x, y)));
    }
}

/// Resampling does not fail on a tile that can be enlarged, so where every tile can
/// be, it is never to blame.
pub proof fn law_resampling_is_never_to_blame(
    resampler: ResampleBackend,
    source: Raster,
    opts: UpscaleOptions,
    e: Error,
)
    requires
        pass::grid_for(source, resampler.factor(), opts).valid(),
        pass::grid_for(source, resampler.factor(), opts).fits(),
        forall|k: int|
            0 <= k < pass::grid_for(source, resampler.factor(), opts).tiles().len()
                ==> backend::enlargeable(
                pass::cut(
                    source,
                    #[trigger] pass::grid_for(source, resampler.factor(), opts).tiles()[k],
                ),
                resampler.filter(),
                resampler.factor(),
            ),
    ensures
        !pass::backend_to_blame(resampler, source, opts, e),
{
    let g = pass::grid_for(source, resampler.factor(), opts);
    assert forall|k: int| 0 <= k < g.tiles().len() implies !pass::tile_failed(
        resampler,
        source,
        #[trigger] g.tiles()[k],
        e,
    ) by {
        seams::law_tiles_stay_inside(g, k);
        let t = g.tiles()[k];
        assert(t.dst.w == t.src.w * g.scale && t.dst.h == t.src.h * g.scale);
    }
}

/// Whether every pixel of an image is `colour`.
pub open spec fn painted(img: Raster, colour: Rgba) -> bool {
    forall|x: int, y: int|
        0 <= x < img.width && 0 <= y < img.height ==> #[trigger] img.pixel(x, y) == colour
}

/// A pass shows what the backend makes and nothing of the source: a backend whose every
/// result is one opaque colour gives an image of that colour, whatever the source, the
/// tile size and the overlap, provided that blending keeps the colour.
pub proof fn law_passes_show_what_the_backend_makes<
    U: Upscaler,
    S: Copy,
    A: Fn(S, Rgba, Weight) -> S,
    R: Fn(S) -> Rgba,
>(
    backend: U,
    blender: Blender<S, A, R>,
    source: Raster,
    opts: UpscaleOptions,
    colour: Rgba,
    out: Raster,
)
    requires
        opts.tile >= 1,
        backend.factor() >= 1,
        colour.a == 255,
        forall|tile: Raster, patch: Raster| #[trigger]
            backend.gives(tile, Ok(patch)) ==> painted(patch, colour),
        keeps(blender, pass::grid_for(source, backend.factor(), opts), colour),
        pass::pass_gives(backend, blender, source, opts, out),
    ensures
        painted(out, colour),
{
    let f = |x: int, y: int| colour;
    let ideal = Raster::from_fn(out.width, out.height, f);
    raster::lemma_from_fn_valid(out.width, out.height, f);
    let g = pass::grid_for(source, backend.factor(), opts);
    assert forall|x: int, y: int| 0 <= x < out.width && 0 <= y < out.height implies #[trigger]
        ideal.pixel(x, y) == colour by {
        raster::lemma_from_fn_pixel(out.width, out.height, f, x, y);
    }
    assert forall|k: int, patch: Raster|
        #![trigger pass::renders(backend, source, g.tiles()[k], patch)]
        0 <= k < g.tiles().len() && pass::renders(
            backend,
            source,
            g.tiles()[k],
            patch,
        ) implies matches_ideal(g.tiles()[k], patch, ideal) by {
        let t = g.tiles()[k];
        seams::law_tiles_stay_inside(g, k);
        assert(painted(patch, colour));
        assert forall|u: int, v: int| 0 <= u < t.dst.w && 0 <= v < t.dst.h implies #[trigger]
            patch.pixel(u, v) == ideal.pixel(t.dst.x + u, t.dst.y + v) by {
            assert(ideal.pixel(t.dst.x + u, t.dst.y + v) == colour);
        }
    }
    law_tiling_is_invisible(backend, blender, source, opts, ideal, out);
}

/// A run shows what the backend makes and nothing of the source, whatever the target and
/// the number of passes: with a backend whose every result is one opaque colour, and
/// blending and resampling that keep it, the result is that colour.
pub proof fn law_runs_show_what_the_backend_makes<
    U: Upscaler,
    S: Copy,
    A: Fn(S, Rgba, Weight) -> S,
    R: Fn(S) -> Rgba,
>(
    backend: U,
    blender: Blender<S, A, R>,
    source: Raster,
    target: u32,
    opts: UpscaleOptions,
    passes: nat,
    colour: Rgba,
    out: Raster,
)
    requires
        opts.tile >= 1,
        target >= 1,
        backend.factor() >= 1,
        1 <= passes <= 6,
        backend.factor() == 1 ==> passes == 1,
        backend.factor() > 1 ==> pow(backend.factor() as int, passes) >= target,
        backend.factor() > 1 && passes > 1 ==> pow(backend.factor() as int, (passes - 1) as nat)
            < target,
        pow(backend.factor() as int, passes) <= u32::MAX,
        colour.a == 255,
        forall|tile: Raster, patch: Raster| #[trigger]
            backend.gives(tile, Ok(patch)) ==> painted(patch, colour),
        forall|g: Grid| #[trigger] keeps(blender, g, colour),
        forall|from: Raster, to: Raster|
            painted(from, colour) && #[trigger] resize::resize_gives(
                4,
                resize::Filter::Lanczos3,
                from.width,
                from.height,
                from.data,
                to.width,
                to.height,
                to.data,
            ) ==> painted(to, colour),
        pipeline::run_gives(backend, blender, source, target, opts, out),
    ensures
        painted(out, colour),
{
    pipeline::law_runs_keep_what_the_model_makes(
        backend,
        blender,
        source,
        target,
        opts,
        passes,
        out,
    );
    let steps = choose|steps: Seq<Raster>|
        {
            let last = steps[passes as int];
            &&& steps.len() == passes + 1
            &&& #[trigger] steps[0] == source
            &&& forall|i: int|
                0 <= i < passes ==> pass::pass_gives(
                    backend,
                    blender,
                    #[trigger] steps[i],
                    opts,
                    steps[i + 1],
                )
            &&& last.width == source.width * pow(backend.factor() as int, passes)
            &&& last.height == source.height * pow(backend.factor() as int, passes)
            &&& pow(backend.factor() as int, passes) == target ==> out == last
            &&& pow(backend.factor() as int, passes) != target ==> resize::resize_gives(
                4,
                resize::Filter::Lanczos3,
                last.width,
                last.height,
                last.data,
                out.width,
                out.height,
                out.data,
            )
        };
    let before = steps[passes - 1];
    assert(pass::pass_gives(backend, blender, before, opts, steps[passes as int]));
    assert(keeps(blender, pass::grid_for(before, backend.factor(), opts), colour));
    law_passes_show_what_the_backend_makes(
        backend,
        blender,
        before,
        opts,
        colour,
        steps[passes as int],
    );
}

/// A backend that enlarges every part with pixels, to exactly its magnification, never
/// makes a pass fail.
pub proof fn law_sound_backends_are_never_to_blame<U: Upscaler>(
    backend: U,
    source: Raster,
    opts: UpscaleOptions,
    e: Error,
)
    requires
        opts.tile >= 1,
        backend.factor() >= 1,
        source.width * backend.factor() <= u32::MAX,
        source.height * backend.factor() <= u32::MAX,
        forall|part: Raster, why: Seq<char>|
            0 < part.width && 0 < part.height ==> !#[trigger] backend.gives(part, Err(why)),
        forall|part: Raster, made: Raster| #[trigger]
            backend.gives(part, Ok(made)) ==> {
                &&& made.width == part.width * backend.factor()
                &&& made.height == part.height * backend.factor()
            },
    ensures
        !pass::backend_to_blame(backend, source, opts, e),
{
    if pass::backend_to_blame(backend, source, opts, e) {
        pass::law_failures_are_the_backends(backend, source, opts, e);
    }
}

/// A run that is not refused does not fail with a backend that enlarges every part with
/// pixels to exactly its magnification, and a result that can be held.
pub proof fn law_sound_backends_do_not_fail_a_run<
    U: Upscaler,
    S: Copy,
    A: Fn(S, Rgba, Weight) -> S,
    R: Fn(S) -> Rgba,
>(
    backend: U,
    blender: Blender<S, A, R>,
    source: Raster,
    target: u32,
    opts: UpscaleOptions,
    e: Error,
)
    requires
        opts.tile >= 1,
        pipeline::refusal(source, target, backend.factor(), opts) is None,
        source.width * target <= u32::MAX,
        source.height * target <= u32::MAX,
        4 * ((source.width * target) * (source.height * target)) <= isize::MAX,
        forall|part: Raster, why: Seq<char>|
            0 < part.width && 0 < part.height ==> !#[trigger] backend.gives(part, Err(why)),
        forall|part: Raster, made: Raster| #[trigger]
            backend.gives(part, Ok(made)) ==> {
                &&& made.width == part.width * backend.factor()
                &&& made.height == part.height * backend.factor()
            },
    ensures
        !pipeline::target_fails(backend, blender, source, target, opts, e),
{
    if pipeline::target_fails(backend, blender, source, target, opts, e) {
        let passes: nat = pipeline::planned(target, backend.factor()).passes as nat;
        let (done, mid) = choose|done: nat, mid: Raster|
            {
                &&& done < passes
                &&& #[trigger] pipeline::chain_gives(backend, blender, source, opts, done, mid)
                &&& pass::backend_to_blame(backend, mid, opts, e)
            };
        pipeline::lemma_next_pass_fits(backend, blender, source, target, opts, done, mid);
        law_sound_backends_are_never_to_blame(backend, mid, opts, e);
    }
}

/// Nor does it stop on account of a tile while the result is handed over.
pub proof fn law_sound_backends_do_not_stop_a_run<
    U: Upscaler,
    S: Copy,
    A: Fn(S, Rgba, Weight) -> S,
    R: Fn(S) -> Rgba,
    K: RowSink,
>(
    backend: U,
    blender: Blender<S, A, R>,
    source: Raster,
    target: u32,
    opts: UpscaleOptions,
    e: Error,
    before: K,
    sink: K,
    done: nat,
    mid: Raster,
    k: int,
    bytes: Seq<u8>,
)
    requires
        opts.tile >= 1,
        pipeline::refusal(source, target, backend.factor(), opts) is None,
        forall|part: Raster, why: Seq<char>|
            0 < part.width && 0 < part.height ==> !#[trigger] backend.gives(part, Err(why)),
        forall|part: Raster, made: Raster| #[trigger]
            backend.gives(part, Ok(made)) ==> {
                &&& made.width == part.width * backend.factor()
                &&& made.height == part.height * backend.factor()
            },
        pipeline::chain_gives(backend, blender, source, opts, done, mid),
    ensures
        !pipeline::run_stops_at(
            backend,
            blender,
            pipeline::planned(target, backend.factor()),
            opts,
            e,
            before,
            sink,
            done,
            mid,
            k,
            bytes,
        ),
{
    if pipeline::run_stops_at(
        backend,
        blender,
        pipeline::planned(target, backend.factor()),
        opts,
        e,
        before,
        sink,
        done,
        mid,
        k,
        bytes,
    ) {
        pipeline::lemma_next_pass_fits(backend, blender, source, target, opts, done, mid);
        let tiles = pass::grid_for(mid, backend.factor(), opts).tiles();
        assert(pass::tile_failed(backend, mid, tiles[k], e));
        assert(pass::backend_to_blame(backend, mid, opts, e));
        law_sound_backends_are_never_to_blame(backend, mid, opts, e);
    }
}

} // verus!
