//! Upscaling an image to any whole magnification.
//!
//! A backend only ever magnifies by its own factor, so a run chains passes until
//! the result is at least as large as asked for, and resamples it down where it
//! overshoots.

use vstd::arithmetic::power::*;
use vstd::prelude::*;

use crate::axis;
use crate::backend::Upscaler;
use crate::blend::Blender;
use crate::pass;
use crate::pass::{run_pass, Error, Progress, UpscaleOptions};
use crate::raster::{Raster, Rgba, RgbaImage};
use crate::resize;
use crate::resize::Filter;
use crate::scale;
use crate::scale::{ScaleError, ScaleStrategy};
use crate::seams;
use crate::sink::{MemorySink, RowSink, SinkCall};
use crate::tiling;
use crate::tiling::Weight;

verus! {

/// Peak scratch memory for a run, in bytes.
///
/// Only the tile rows being blended are resident, so this depends on the tile
/// size and output width, not on output height.
pub fn accumulator_bytes(out_width: u32, tile: u32, scale: u32) -> (bytes: u64)
    requires
        out_width * (tile * scale * 2) * 20 <= u64::MAX,
    ensures
        bytes == out_width * (tile * scale * 2) * 20,
{
    proof {
        assert(0 <= tile * scale <= 0xffff_ffff * 0xffff_ffff) by (nonlinear_arith)
            requires
                tile <= u32::MAX,
                scale <= u32::MAX,
        ;
        if out_width > 0 {
            assert(tile * scale * 2 <= out_width * (tile * scale * 2)) by (nonlinear_arith)
                requires
                    out_width >= 1,
                    tile * scale >= 0,
            ;
        }
    }
    // Four colour channels and a weight, 4 bytes each, per pixel, over the rows of
    // one tile band plus the band carried into the next.
    if out_width == 0 {
        return 0;
    }
    let band_rows: u64 = (tile as u64 * scale as u64) * 2;
    out_width as u64 * band_rows * 20
}

/// Scratch memory does not grow with the height of an image: the sums of a band of
/// tiles, together with those carried into the next, take no more than
/// [`accumulator_bytes`] tells for the tile size and the output width.
pub proof fn law_scratch_is_bounded_by_the_band(g: tiling::Grid, r: int)
    requires
        g.valid(),
        g.fits(),
        0 <= r < g.rows(),
    ensures
        2 * (pass::SUM_BYTES * ((g.width * g.scale) * (pass::band_end(g, r) - pass::band_start(
            g,
            r,
        )))) <= (g.width * g.scale) * (g.tile * g.scale * 2) * 20,
{
    pass::lemma_bands(g, r);
    let w: int = g.width * g.scale;
    let rows: int = axis::span_extent(g.height, g.tile) * g.scale;
    assert(rows <= g.tile * g.scale) by (nonlinear_arith)
        requires
            rows == axis::span_extent(g.height, g.tile) * g.scale,
            axis::span_extent(g.height, g.tile) <= g.tile,
            g.scale >= 1,
    ;
    assert(w >= 0) by (nonlinear_arith)
        requires
            w == g.width * g.scale,
            g.width >= 0,
            g.scale >= 1,
    ;
    let most: int = g.tile * g.scale;
    assert(2 * (20 * (w * rows)) <= w * (most * 2) * 20) by (nonlinear_arith)
        requires
            w >= 0,
            rows <= most,
    ;
}

/// Number of tiles that a pass over a `width` x `height` image takes.
pub open spec fn tile_count(width: int, height: int, opts: UpscaleOptions) -> int {
    let overlap = tiling::clamped(opts.overlap as int, opts.tile as int);
    axis::span_count(height, opts.tile as int, overlap) * axis::span_count(
        width,
        opts.tile as int,
        overlap,
    )
}

/// Number of tiles across `passes` passes, each over the result of the one before.
pub open spec fn tiles_in_passes(
    width: int,
    height: int,
    native: int,
    passes: nat,
    opts: UpscaleOptions,
) -> int
    decreases passes,
{
    if passes == 0 {
        0
    } else {
        tile_count(width, height, opts) + tiles_in_passes(
            width * native,
            height * native,
            native,
            (passes - 1) as nat,
            opts,
        )
    }
}

/// Whether each of `passes` passes can be run, and each result that is kept can be
/// held in memory: all but the last, and the last as well where `keep_last`.
pub open spec fn passes_holdable(
    width: int,
    height: int,
    native: int,
    passes: nat,
    tile: int,
    keep_last: bool,
) -> bool
    decreases passes,
{
    passes > 0 ==> {
        &&& pass::pass_holdable(width, height, native, tile)
        &&& passes > 1 || keep_last ==> 4 * ((width * native) * (height * native)) <= isize::MAX
        &&& passes_holdable(
            width * native,
            height * native,
            native,
            (passes - 1) as nat,
            tile,
            keep_last,
        )
    }
}

/// A `width` x `height` image has no fewer pixels than tiles.
proof fn lemma_tile_count(width: int, height: int, opts: UpscaleOptions)
    requires
        0 <= width <= u32::MAX,
        0 <= height <= u32::MAX,
        opts.tile >= 1,
    ensures
        0 <= tile_count(width, height, opts) <= width * height,
        forall|factor: u32, source: Raster|
            factor >= 1 && source.width == width && source.height == height
                ==> #[trigger] pass::grid_for(source, factor, opts).tiles().len() == tile_count(
                width,
                height,
                opts,
            ),
{
    let source = Raster { width: width as u32, height: height as u32, data: Seq::empty() };
    let g = pass::grid_for(source, 1, opts);
    seams::lemma_grid_counts(g);
    assert(0 <= g.rows() * g.cols() <= g.width * g.height) by (nonlinear_arith)
        requires
            0 <= g.rows() <= g.height,
            0 <= g.cols() <= g.width,
    ;
}

/// Whether [`passes_holdable`] holds.
fn can_hold_passes(
    width: u32,
    height: u32,
    native: u32,
    passes: u32,
    tile: u32,
    keep_last: bool,
) -> (r: bool)
    ensures
        r == passes_holdable(
            width as int,
            height as int,
            native as int,
            passes as nat,
            tile as int,
            keep_last,
        ),
    decreases passes,
{
    if passes == 0 {
        return true;
    }
    if !pass::can_hold_pass(width, height, native, tile) {
        return false;
    }
    proof {
        assert(0 <= width * native && 0 <= height * native) by (nonlinear_arith);
    }
    let (w, h) = (width * native, height * native);
    proof {
        assert(0 <= w as u128 * h as u128 <= 0xffff_ffff * 0xffff_ffff) by (nonlinear_arith)
            requires
                w <= u32::MAX,
                h <= u32::MAX,
        ;
    }
    if (passes > 1 || keep_last) && 4 * (w as u128 * h as u128) > isize::MAX as u128 {
        return false;
    }
    can_hold_passes(w, h, native, passes - 1, tile, keep_last)
}

/// Total tiles across every pass, where they can be counted.
fn total_tiles(
    width: u32,
    height: u32,
    native: u32,
    passes: u32,
    opts: UpscaleOptions,
    keep_last: bool,
) -> (r: Option<usize>)
    requires
        opts.tile >= 1,
        passes_holdable(
            width as int,
            height as int,
            native as int,
            passes as nat,
            opts.tile as int,
            keep_last,
        ),
    ensures
        ({
            let total = tiles_in_passes(
                width as int,
                height as int,
                native as int,
                passes as nat,
                opts,
            );
            &&& 0 <= total
            &&& total <= usize::MAX ==> r == Some(total as usize)
            &&& total > usize::MAX ==> r is None
        }),
    decreases passes,
{
    if passes == 0 {
        return Some(0);
    }
    let overlap: u32 = if opts.overlap < opts.tile {
        opts.overlap
    } else {
        opts.tile - 1
    };
    let cols: u32 = axis::count_spans(width, opts.tile, overlap);
    let rows: u32 = axis::count_spans(height, opts.tile, overlap);
    proof {
        lemma_tile_count(width as int, height as int, opts);
        assert(0 <= width * native && 0 <= height * native) by (nonlinear_arith);
        assert(0 <= rows as u64 * cols as u64 <= u64::MAX) by (nonlinear_arith)
            requires
                rows <= u32::MAX,
                cols <= u32::MAX,
        ;
    }
    let rest = total_tiles(width * native, height * native, native, passes - 1, opts, keep_last);
    let here: u64 = rows as u64 * cols as u64;
    if here > usize::MAX as u64 {
        return None;
    }
    match rest {
        None => None,
        Some(n) => n.checked_add(here as usize),
    }
}

/// Whether `passes` passes, each over the result of the one before, can turn
/// `source` into `out`.
pub open spec fn chain_gives<
    U: Upscaler,
    S: Copy,
    A: Fn(S, Rgba, Weight) -> S,
    R: Fn(S) -> Rgba,
>(
    backend: U,
    blender: Blender<S, A, R>,
    source: Raster,
    opts: UpscaleOptions,
    passes: nat,
    out: Raster,
) -> bool
    decreases passes,
{
    if passes == 0 {
        out == source
    } else {
        exists|mid: Raster|
            {
                &&& chain_gives(backend, blender, source, opts, (passes - 1) as nat, mid)
                &&& #[trigger] pass::pass_gives(backend, blender, mid, opts, out)
            }
    }
}

/// Whether `e` tells of a failure of the backend on a tile of one of `passes`
/// passes.
pub open spec fn pass_to_blame<
    U: Upscaler,
    S: Copy,
    A: Fn(S, Rgba, Weight) -> S,
    R: Fn(S) -> Rgba,
>(
    backend: U,
    blender: Blender<S, A, R>,
    source: Raster,
    opts: UpscaleOptions,
    passes: nat,
    e: Error,
) -> bool {
    exists|done: nat, mid: Raster|
        {
            &&& done < passes
            &&& #[trigger] chain_gives(backend, blender, source, opts, done, mid)
            &&& pass::backend_to_blame(backend, mid, opts, e)
        }
}

/// The plan for reaching `target`.
pub open spec fn planned(target: u32, native: u32) -> ScaleStrategy {
    choose|s: ScaleStrategy| s.target == target && s.native == native && #[trigger] s.is_plan()
}

/// Whether a run can turn `source` into `out`, an image of exactly `target` times
/// its size.
pub open spec fn run_gives<
    U: Upscaler,
    S: Copy,
    A: Fn(S, Rgba, Weight) -> S,
    R: Fn(S) -> Rgba,
>(
    backend: U,
    blender: Blender<S, A, R>,
    source: Raster,
    target: u32,
    opts: UpscaleOptions,
    out: Raster,
) -> bool {
    let s = planned(target, backend.factor());
    &&& out.valid()
    &&& out.width == source.width * target
    &&& out.height == source.height * target
    &&& if s.intermediate == target {
        chain_gives(backend, blender, source, opts, s.passes as nat, out)
    } else {
        exists|big: Raster|
            {
                &&& #[trigger] chain_gives(backend, blender, source, opts, s.passes as nat, big)
                &&& resize::resamples(Filter::Lanczos3, big, out)
            }
    }
}

/// Whether a run that follows `s` can be counted and held.
pub open spec fn run_holdable(
    width: int,
    height: int,
    s: ScaleStrategy,
    opts: UpscaleOptions,
) -> bool {
    let resampled = s.intermediate != s.target;
    &&& passes_holdable(
        width,
        height,
        s.native as int,
        s.passes as nat,
        opts.tile as int,
        resampled,
    )
    &&& tiles_in_passes(width, height, s.native as int, s.passes as nat, opts) <= usize::MAX
    &&& resampled ==> {
        &&& width * s.target <= u32::MAX
        &&& height * s.target <= u32::MAX
        &&& resize::resizable(
            Filter::Lanczos3,
            width * s.intermediate,
            height * s.intermediate,
            width * s.target,
            height * s.target,
        )
    }
}

/// The error with which a run is refused before it starts, if it is.
pub open spec fn refusal(
    source: Raster,
    target: u32,
    native: u32,
    opts: UpscaleOptions,
) -> Option<Error> {
    if source.is_empty() {
        Some(Error::EmptySource)
    } else if target == 0 {
        Some(Error::Scale(ScaleError::ZeroTarget))
    } else if native == 0 {
        Some(Error::Scale(ScaleError::ZeroNative))
    } else if !scale::plan_holds(target, native) {
        Some(Error::TooLarge)
    } else if !scale::reachable(target, native) {
        Some(Error::Scale(ScaleError::OutOfReach { target, native }))
    } else if !run_holdable(
        source.width as int,
        source.height as int,
        planned(target, native),
        opts,
    ) {
        Some(Error::TooLarge)
    } else {
        None
    }
}

/// Whether a run gets as far as cutting tiles: there is something to enlarge, and a
/// plan for reaching `target`.
pub open spec fn gets_to_tiles(source: Raster, target: u32, native: u32) -> bool {
    &&& !source.is_empty()
    &&& target > 0
    &&& native > 0
    &&& scale::plan_holds(target, native)
    &&& scale::reachable(target, native)
}

/// How the input of the last pass is tiled.
pub open spec fn last_grid(source: Raster, s: ScaleStrategy, opts: UpscaleOptions) -> tiling::Grid {
    tiling::Grid {
        width: source.width * pow(s.native as int, (s.passes - 1) as nat),
        height: source.height * pow(s.native as int, (s.passes - 1) as nat),
        scale: s.native as int,
        tile: opts.tile as int,
        overlap: opts.overlap as int,
    }
}

/// Whether `sink` was handed the result `out` of a run that follows `s` since it was
/// `before`, and was then closed: the last pass is streamed into it, or, where the
/// result is resampled, all of it is handed over at once.
pub open spec fn handed_over<K: RowSink>(
    before: K,
    sink: K,
    source: Raster,
    s: ScaleStrategy,
    opts: UpscaleOptions,
    out: Raster,
) -> bool {
    if s.intermediate == s.target {
        pass::streamed(before, sink, last_grid(source, s, opts), out)
    } else {
        &&& sink.written() == before.written() + out.data
        &&& sink.calls() == before.calls().push(SinkCall::Rows { bytes: out.data }).push(
            SinkCall::Finish,
        )
    }
}

/// Whether a run can stop with `e` because of tile `k` of the pass over `mid`, after
/// `done` passes: `bytes` are the output rows of that pass that were finished, and the
/// sink has been handed them where that pass is streamed into it, else nothing.
pub open spec fn run_stops_at<
    U: Upscaler,
    S: Copy,
    A: Fn(S, Rgba, Weight) -> S,
    R: Fn(S) -> Rgba,
    K: RowSink,
>(
    backend: U,
    blender: Blender<S, A, R>,
    s: ScaleStrategy,
    opts: UpscaleOptions,
    e: Error,
    before: K,
    sink: K,
    done: nat,
    mid: Raster,
    k: int,
    bytes: Seq<u8>,
) -> bool {
    let g = pass::grid_for(mid, backend.factor(), opts);
    &&& done < s.passes
    &&& pass::stops_at(backend, blender, mid, opts, e, k, bytes)
    &&& if s.intermediate == s.target && done + 1 == s.passes {
        pass::sink_holds(before, sink, g, k / g.cols(), bytes)
    } else {
        sink == before
    }
}

/// Whether a run that follows `s` can have handed over what it had to when the sink,
/// now `at`, refused: whole rows of tiles of the last pass where that is streamed,
/// else nothing or the whole result.
pub open spec fn handed_in_part<
    U: Upscaler,
    S: Copy,
    A: Fn(S, Rgba, Weight) -> S,
    R: Fn(S) -> Rgba,
    K: RowSink,
>(
    backend: U,
    blender: Blender<S, A, R>,
    source: Raster,
    s: ScaleStrategy,
    opts: UpscaleOptions,
    before: K,
    at: K,
) -> bool {
    if s.intermediate == s.target {
        exists|mid: Raster, n: int, bytes: Seq<u8>|
            {
                let g = last_grid(source, s, opts);
                &&& #[trigger] chain_gives(
                    backend,
                    blender,
                    source,
                    opts,
                    (s.passes - 1) as nat,
                    mid,
                )
                &&& 0 <= n <= g.rows()
                &&& #[trigger] pass::part_gives(backend, blender, mid, opts, n, bytes)
                &&& pass::sink_holds(before, at, g, n, bytes)
            }
    } else {
        ||| at == before
        ||| exists|out: Raster|
            {
                &&& #[trigger] run_gives(backend, blender, source, s.target, opts, out)
                &&& at.written() == before.written() + out.data
                &&& at.calls() == before.calls().push(SinkCall::Rows { bytes: out.data })
            }
    }
}

/// Whether a single pass and its whole result can be held.
pub open spec fn tiled_holdable(width: int, height: int, factor: int, tile: int) -> bool {
    &&& pass::pass_holdable(width, height, factor, tile)
    &&& 4 * ((width * factor) * (height * factor)) <= isize::MAX
}

/// Upscale `source` by the backend's native factor, returning the result.
///
/// `progress` is told (completed, total) after each tile.
pub fn upscale_tiled<
    U: Upscaler,
    S: Copy,
    A: Fn(S, Rgba, Weight) -> S,
    R: Fn(S) -> Rgba,
    P: Progress,
>(
    source: &RgbaImage,
    backend: &U,
    opts: UpscaleOptions,
    blender: &Blender<S, A, R>,
    progress: &mut P,
) -> (r: Result<RgbaImage, Error>)
    requires
        blender.total(),
        !source@.is_empty() ==> opts.tile >= 1 && backend.factor() >= 1,
    ensures
        source@.is_empty() ==> r == Err::<RgbaImage, Error>(Error::EmptySource) && *final(progress)
            == *old(progress),
        !source@.is_empty() && !tiled_holdable(
            source@.width as int,
            source@.height as int,
            backend.factor() as int,
            opts.tile as int,
        ) ==> r == Err::<RgbaImage, Error>(Error::TooLarge) && *final(progress) == *old(progress),
        r matches Ok(img) ==> {
            let tiles = tile_count(source@.width as int, source@.height as int, opts);
            &&& pass::pass_gives(*backend, *blender, source@, opts, img@)
            &&& final(progress).log() == old(progress).log() + pass::reports(
                0,
                tiles,
                tiles as usize,
            )
        },
        !source@.is_empty() && tiled_holdable(
            source@.width as int,
            source@.height as int,
            backend.factor() as int,
            opts.tile as int,
        ) && r is Err ==> pass::backend_to_blame(*backend, source@, opts, r->Err_0),
{
    let (width, height) = source.dimensions();
    if width == 0 || height == 0 {
        return Err(Error::EmptySource);
    }
    let factor: u32 = backend.scale_factor();
    if !can_hold_passes(width, height, factor, 1, opts.tile, true) {
        assert(!passes_holdable(
            width as int,
            height as int,
            factor as int,
            1,
            opts.tile as int,
            true,
        ));
        assert(passes_holdable(
            width * factor,
            height * factor,
            factor as int,
            0,
            opts.tile as int,
            true,
        ));
        return Err(Error::TooLarge);
    }
    proof {
        lemma_tile_count(width as int, height as int, opts);
        lemma_counts_fit(width as int, height as int, factor as int);
        assert(0 <= width * factor && 0 <= height * factor) by (nonlinear_arith);
        assert(tiles_in_passes(width * factor, height * factor, factor as int, 0, opts) == 0);
    }
    let total: usize = total_tiles(width, height, factor, 1, opts, true).unwrap();
    let mut sink = MemorySink::new(width * factor, height * factor);
    match run_pass(source, backend, opts, blender, &mut sink, progress, 0, total) {
        Err(e) => Err(e),
        Ok(_) => {
            let ghost out = choose|out: Raster| #[trigger]
                pass::pass_gives(*backend, *blender, source@, opts, out) && sink.written() == Seq::<
                    u8,
                >::empty() + out.data;
            assert(sink.written() =~= out.data);
            let img = sink.into_image().unwrap();
            assert(img@ =~= out);
            Ok(img)
        },
    }
}

/// An image whose enlargement can be held can have its own pixels counted.
proof fn lemma_counts_fit(width: int, height: int, factor: int)
    requires
        0 <= width,
        0 <= height,
        factor >= 1,
        4 * ((width * factor) * (height * factor)) <= isize::MAX,
    ensures
        width * height <= isize::MAX,
{
    assert(0 <= width * height <= (width * factor) * (height * factor)) by (nonlinear_arith)
        requires
            0 <= width,
            0 <= height,
            factor >= 1,
    ;
}

/// Upscale `source` to exactly `target` times its size, into `sink`.
///
/// The final pass streams straight into `sink` when `target` is a whole number
/// of model passes. Otherwise the last pass must be held in memory so it can be
/// resampled down to the exact size, which is the one case where output size is
/// still bounded by available memory.
#[verifier::rlimit(60)]
pub fn upscale_to_sink<
    U: Upscaler,
    S: Copy,
    A: Fn(S, Rgba, Weight) -> S,
    R: Fn(S) -> Rgba,
    K: RowSink,
    P: Progress,
>(
    source: &RgbaImage,
    backend: &U,
    target: u32,
    opts: UpscaleOptions,
    blender: &Blender<S, A, R>,
    sink: &mut K,
    progress: &mut P,
) -> (r: Result<(), Error>)
    requires
        blender.total(),
        gets_to_tiles(source@, target, backend.factor()) ==> opts.tile >= 1,
    ensures
        final(sink).size() == old(sink).size(),
        refusal(source@, target, backend.factor(), opts) matches Some(e) ==> r == Err::<(), Error>(
            e,
        ) && *final(sink) == *old(sink) && *final(progress) == *old(progress),
        r is Ok ==> {
            let s = planned(target, backend.factor());
            let total = tiles_in_passes(
                source@.width as int,
                source@.height as int,
                backend.factor() as int,
                s.passes as nat,
                opts,
            );
            &&& final(sink).closed()
            &&& old(sink).always_takes() ==> final(sink).always_takes()
            &&& final(progress).log() == old(progress).log() + pass::reports(
                0,
                total,
                total as usize,
            )
            &&& exists|out: Raster| #[trigger]
                run_gives(*backend, *blender, source@, target, opts, out) && handed_over(
                    *old(sink),
                    *final(sink),
                    source@,
                    s,
                    opts,
                    out,
                )
        },
        refusal(source@, target, backend.factor(), opts) is None && r is Err ==> {
            let s = planned(target, backend.factor());
            let (w, h, native) = (
                source@.width as int,
                source@.height as int,
                backend.factor() as int,
            );
            ||| exists|done: nat, mid: Raster, k: int, bytes: Seq<u8>|
                {
                    &&& #[trigger] chain_gives(*backend, *blender, source@, opts, done, mid)
                    &&& #[trigger] run_stops_at(
                        *backend,
                        *blender,
                        s,
                        opts,
                        r->Err_0,
                        *old(sink),
                        *final(sink),
                        done,
                        mid,
                        k,
                        bytes,
                    )
                    &&& final(progress).log() == old(progress).log() + pass::reports(
                        0,
                        tiles_in_passes(w, h, native, done, opts) + k,
                        tiles_in_passes(w, h, native, s.passes as nat, opts) as usize,
                    )
                }
            ||| {
                &&& !old(sink).always_takes()
                &&& r->Err_0 matches Error::Sink(why)
                &&& exists|at: K|
                    {
                        &&& #[trigger] at.refuses(why)
                        &&& handed_in_part(
                            *backend,
                            *blender,
                            source@,
                            s,
                            opts,
                            *old(sink),
                            at,
                        )
                    }
            }
        },
{
    let (src_w, src_h) = source.dimensions();
    if src_w == 0 || src_h == 0 {
        return Err(Error::EmptySource);
    }
    let native: u32 = backend.scale_factor();
    if target == 0 {
        return Err(Error::Scale(ScaleError::ZeroTarget));
    }
    if native == 0 {
        return Err(Error::Scale(ScaleError::ZeroNative));
    }
    if !ScaleStrategy::can_plan(target, native) {
        return Err(Error::TooLarge);
    }
    let s = match ScaleStrategy::plan(target, native) {
        Ok(s) => s,
        Err(e) => {
            return Err(Error::Scale(e));
        },
    };
    proof {
        let p = planned(target, native);
        assert(s.target == target && s.native == native && s.is_plan());
        scale::law_plan_is_unique(s, p);
    }
    let resampled: bool = s.needs_resample();
    if !can_hold_passes(src_w, src_h, native, s.passes, opts.tile, resampled) {
        return Err(Error::TooLarge);
    }
    let total: usize = match total_tiles(src_w, src_h, native, s.passes, opts, resampled) {
        Some(n) => n,
        None => {
            return Err(Error::TooLarge);
        },
    };
    proof {
        lemma_reached(
            src_w as int,
            src_h as int,
            native as int,
            s.passes as nat,
            opts.tile as int,
            resampled,
        );
    }
    if resampled {
        match (src_w.checked_mul(target), src_h.checked_mul(target)) {
            (Some(out_w), Some(out_h)) => {
                proof {
                    assert(0 <= src_w * s.intermediate && 0 <= src_h * s.intermediate)
                        by (nonlinear_arith);
                }
                if !resize::can_resize(
                    Filter::Lanczos3,
                    src_w * s.intermediate,
                    src_h * s.intermediate,
                    out_w,
                    out_h,
                ) {
                    return Err(Error::TooLarge);
                }
            },
            _ => {
                return Err(Error::TooLarge);
            },
        }
    }
    // Every pass but the last produces input for the next, so it must be
    // materialised regardless. So must the last where it is resampled.

    let kept: u32 = if resampled {
        s.passes
    } else {
        s.passes - 1
    };
    let mut current = source.clone();
    let mut done: usize = 0;
    let mut i: u32 = 0;
    proof {
        lemma_pow0(native as int);
        assert(src_w * 1 == src_w && src_h * 1 == src_h);
        assert(old(progress).log() + pass::reports(0, 0, total) =~= old(progress).log());
    }
    while i < kept
        invariant
            blender.total(),
            opts.tile >= 1,
            native == backend.factor(),
            native >= 1,
            src_w > 0,
            src_h > 0,
            src_w == source@.width,
            src_h == source@.height,
            refusal(source@, target, native, opts) is None,
            s == planned(target, native),
            s.is_plan(),
            resampled == (s.intermediate != s.target),
            i <= kept,
            kept == (if resampled {
                s.passes as int
            } else {
                s.passes - 1
            }),
            current@.valid(),
            current@.width == src_w * pow(native as int, i as nat),
            current@.height == src_h * pow(native as int, i as nat),
            chain_gives(*backend, *blender, source@, opts, i as nat, current@),
            passes_holdable(
                current@.width as int,
                current@.height as int,
                native as int,
                (s.passes - i) as nat,
                opts.tile as int,
                resampled,
            ),
            done == tiles_in_passes(
                src_w as int,
                src_h as int,
                native as int,
                i as nat,
                opts,
            ),
            total == tiles_in_passes(
                src_w as int,
                src_h as int,
                native as int,
                s.passes as nat,
                opts,
            ),
            done + tiles_in_passes(
                current@.width as int,
                current@.height as int,
                native as int,
                (s.passes - i) as nat,
                opts,
            ) == total,
            total <= usize::MAX,
            progress.log() == old(progress).log() + pass::reports(0, done as int, total),
            *sink == *old(sink),
        decreases kept - i,
    {
        let (w, h) = current.dimensions();
        proof {
            lemma_positive(src_w as int, src_h as int, native as int, i as nat);
            lemma_tile_count(w as int, h as int, opts);
            assert(0 <= w * native && 0 <= h * native) by (nonlinear_arith);
            lemma_tiles_nonnegative(
                w * native,
                h * native,
                native as int,
                (s.passes - i - 1) as nat,
                opts,
                opts.tile as int,
                resampled,
            );
            lemma_step(src_w as int, native as int, i as nat);
            lemma_step(src_h as int, native as int, i as nat);
            lemma_tiles_next(src_w as int, src_h as int, native as int, i as nat, opts);
        }
        let mut mem = MemorySink::new(w * native, h * native);
        let ghost log_before = progress.log();
        let ghost before = current@;
        match run_pass(&current, backend, opts, blender, &mut mem, progress, done, total) {
            Err(e) => {
                proof {
                    assert(chain_gives(*backend, *blender, source@, opts, i as nat, before));
                    let (k, bytes) = choose|k: int, bytes: Seq<u8>| #[trigger]
                        pass::stops_at(*backend, *blender, before, opts, e, k, bytes)
                            && progress.log() == log_before + pass::reports(done as int, k, total);
                    assert(run_stops_at(
                        *backend,
                        *blender,
                        s,
                        opts,
                        e,
                        *old(sink),
                        *sink,
                        i as nat,
                        before,
                        k,
                        bytes,
                    ));
                    assert(progress.log() =~= old(progress).log() + pass::reports(
                        0,
                        done + k,
                        total,
                    ));
                }
                return Err(e);
            },
            Ok(n) => {
                let ghost out = choose|out: Raster| #[trigger]
                    pass::pass_gives(*backend, *blender, before, opts, out) && mem.written()
                        == Seq::<u8>::empty() + out.data;
                assert(mem.written() =~= out.data);
                current = mem.into_image().unwrap();
                proof {
                    assert(current@ =~= out);
                    assert(pass::pass_gives(*backend, *blender, before, opts, current@));
                    let tiles: int = tile_count(w as int, h as int, opts);
                    assert(pass::reports(0, done as int, total) + pass::reports(
                        done as int,
                        tiles,
                        total,
                    ) =~= pass::reports(0, done + tiles, total));
                    assert(log_before + pass::reports(done as int, tiles, total) =~= old(
                        progress,
                    ).log() + pass::reports(0, done + tiles, total));
                }
                done = n;
            },
        }
        i = i + 1;
    }
    if resampled {
        proof {
            assert(tiles_in_passes(
                current@.width as int,
                current@.height as int,
                native as int,
                0,
                opts,
            ) == 0);
        }
        let out = resize::resize(&current, src_w * target, src_h * target, Filter::Lanczos3);
        assert(chain_gives(*backend, *blender, source@, opts, s.passes as nat, current@));
        assert(run_gives(*backend, *blender, source@, target, opts, out@));
        let ghost before_write = *sink;
        match sink.write_rows(out.as_raw().as_slice()) {
            Ok(_) => {},
            Err(e) => {
                assert(before_write.refuses(e));
                let ghost why = e;
                let failure = Error::Sink(e);
                assert(failure->Sink_0 == why);
                return Err(failure);
            },
        }
        let ghost before_finish = *sink;
        match sink.finish() {
            Ok(_) => Ok(()),
            Err(e) => {
                assert(before_finish.refuses(e));
                let ghost why = e;
                let failure = Error::Sink(e);
                assert(failure->Sink_0 == why);
                Err(failure)
            },
        }
    } else {
        let (w, h) = current.dimensions();
        proof {
            lemma_positive(src_w as int, src_h as int, native as int, i as nat);
            lemma_tile_count(w as int, h as int, opts);
            assert(tiles_in_passes(w * native, h * native, native as int, 0, opts) == 0);
            lemma_step(src_w as int, native as int, i as nat);
            lemma_step(src_h as int, native as int, i as nat);
        }
        let ghost log_before = progress.log();
        match run_pass(&current, backend, opts, blender, sink, progress, done, total) {
            Err(e) => {
                proof {
                    assert(chain_gives(*backend, *blender, source@, opts, i as nat, current@));
                    let g = pass::grid_for(current@, native, opts);
                    assert(g == last_grid(source@, s, opts));
                    if exists|k: int, bytes: Seq<u8>| #[trigger]
                        pass::stops_at(*backend, *blender, current@, opts, e, k, bytes)
                            && pass::sink_holds(*old(sink), *sink, g, k / g.cols(), bytes)
                            && progress.log() == log_before + pass::reports(
                            done as int,
                            k,
                            total,
                        ) {
                        let (k, bytes) = choose|k: int, bytes: Seq<u8>| #[trigger]
                            pass::stops_at(*backend, *blender, current@, opts, e, k, bytes)
                                && pass::sink_holds(*old(sink), *sink, g, k / g.cols(), bytes)
                                && progress.log() == log_before + pass::reports(
                                done as int,
                                k,
                                total,
                            );
                        assert(run_stops_at(
                            *backend,
                            *blender,
                            s,
                            opts,
                            e,
                            *old(sink),
                            *sink,
                            i as nat,
                            current@,
                            k,
                            bytes,
                        ));
                        assert(progress.log() =~= old(progress).log() + pass::reports(
                            0,
                            done + k,
                            total,
                        ));
                    } else {
                        let why = e->Sink_0;
                        let (at, n, bytes) = choose|at: K, n: int, bytes: Seq<u8>|
                            {
                                &&& 0 <= n <= g.rows()
                                &&& #[trigger] at.refuses(why)
                                &&& #[trigger] pass::part_gives(
                                    *backend,
                                    *blender,
                                    current@,
                                    opts,
                                    n,
                                    bytes,
                                )
                                &&& pass::sink_holds(*old(sink), at, g, n, bytes)
                            };
                        assert(at.refuses(why));
                        assert(handed_in_part(
                            *backend,
                            *blender,
                            source@,
                            s,
                            opts,
                            *old(sink),
                            at,
                        ));
                    }
                }
                Err(e)
            },
            Ok(_) => {
                proof {
                    let g = pass::grid_for(current@, native, opts);
                    let out = choose|out: Raster| #[trigger]
                        pass::pass_gives(*backend, *blender, current@, opts, out)
                            && pass::streamed(*old(sink), *sink, g, out);
                    assert(g == last_grid(source@, s, opts));
                    assert(chain_gives(*backend, *blender, source@, opts, s.passes as nat, out));
                    assert(run_gives(*backend, *blender, source@, target, opts, out));
                    let tiles: int = tile_count(w as int, h as int, opts);
                    assert(pass::reports(0, done as int, total) + pass::reports(
                        done as int,
                        tiles,
                        total,
                    ) =~= pass::reports(0, done + tiles, total));
                    assert(log_before + pass::reports(done as int, tiles, total) =~= old(
                        progress,
                    ).log() + pass::reports(0, done + tiles, total));
                }
                Ok(())
            },
        }
    }
}

/// One more pass adds the tiles of the image it runs over.
proof fn lemma_tiles_next(width: int, height: int, native: int, k: nat, opts: UpscaleOptions)
    ensures
        tiles_in_passes(width, height, native, k + 1, opts) == tiles_in_passes(
            width,
            height,
            native,
            k,
            opts,
        ) + tile_count(width * pow(native, k), height * pow(native, k), opts),
    decreases k,
{
    if k == 0 {
        lemma_pow0(native);
        assert(width * 1 == width && height * 1 == height);
        assert(tiles_in_passes(width * native, height * native, native, 0, opts) == 0);
    } else {
        let j: nat = (k - 1) as nat;
        lemma_tiles_next(width * native, height * native, native, j, opts);
        scale::lemma_pow_next(native, j);
        assert((width * native) * pow(native, j) == width * (native * pow(native, j))
            && (height * native) * pow(native, j) == height * (native * pow(native, j)))
            by (nonlinear_arith);
        assert(native * pow(native, j) == pow(native, j) * native) by (nonlinear_arith);
    }
}

/// One more pass multiplies a side once more.
proof fn lemma_step(side: int, native: int, k: nat)
    ensures
        side * pow(native, k + 1) == (side * pow(native, k)) * native,
{
    scale::lemma_pow_next(native, k);
    let p: int = pow(native, k);
    assert(side * (p * native) == (side * p) * native) by (nonlinear_arith);
}

/// Images along a chain keep having pixels.
proof fn lemma_positive(width: int, height: int, native: int, k: nat)
    requires
        width > 0,
        height > 0,
        native >= 1,
    ensures
        width * pow(native, k) > 0,
        height * pow(native, k) > 0,
{
    scale::lemma_pow_grows(native, 0, k);
    let p: int = pow(native, k);
    assert(width * p > 0 && height * p > 0) by (nonlinear_arith)
        requires
            width > 0,
            height > 0,
            p >= 1,
    ;
}

/// The last image of a chain that can be held can be counted.
proof fn lemma_reached(
    width: int,
    height: int,
    native: int,
    passes: nat,
    tile: int,
    keep_last: bool,
)
    requires
        passes_holdable(width, height, native, passes, tile, keep_last),
        0 <= width <= u32::MAX,
        0 <= height <= u32::MAX,
        native >= 1,
    ensures
        width * pow(native, passes) <= u32::MAX,
        height * pow(native, passes) <= u32::MAX,
    decreases passes,
{
    if passes == 0 {
        lemma_pow0(native);
        assert(width * 1 == width && height * 1 == height);
    } else {
        let k: nat = (passes - 1) as nat;
        assert(0 <= width * native && 0 <= height * native) by (nonlinear_arith)
            requires
                0 <= width,
                0 <= height,
                native >= 1,
        ;
        lemma_reached(width * native, height * native, native, k, tile, keep_last);
        scale::lemma_pow_next(native, k);
        let p: int = pow(native, k);
        assert((width * native) * p == width * (native * p) && (height * native) * p == height * (
        native * p)) by (nonlinear_arith);
    }
}

/// A chain never takes a negative number of tiles.
proof fn lemma_tiles_nonnegative(
    width: int,
    height: int,
    native: int,
    passes: nat,
    opts: UpscaleOptions,
    tile: int,
    keep_last: bool,
)
    requires
        passes_holdable(width, height, native, passes, tile, keep_last),
        0 <= width <= u32::MAX,
        0 <= height <= u32::MAX,
        native >= 1,
        opts.tile >= 1,
    ensures
        0 <= tiles_in_passes(width, height, native, passes, opts),
    decreases passes,
{
    if passes > 0 {
        lemma_tile_count(width, height, opts);
        assert(0 <= width * native && 0 <= height * native) by (nonlinear_arith)
            requires
                0 <= width,
                0 <= height,
                native >= 1,
        ;
        lemma_tiles_nonnegative(
            width * native,
            height * native,
            native,
            (passes - 1) as nat,
            opts,
            tile,
            keep_last,
        );
    }
}

/// Whether the result of a run can be held whole.
pub open spec fn result_holdable(source: Raster, target: u32) -> bool {
    &&& source.width * target <= u32::MAX
    &&& source.height * target <= u32::MAX
    &&& 4 * ((source.width * target) * (source.height * target)) <= isize::MAX
}

/// Whether a run whose result is held whole is refused before it starts.
pub open spec fn target_refused(
    source: Raster,
    target: u32,
    native: u32,
    opts: UpscaleOptions,
) -> bool {
    ||| source.is_empty()
    ||| !result_holdable(source, target)
    ||| refusal(source, target, native, opts) is Some
}

/// Whether a run whose result is held whole can fail with `e`.
pub open spec fn target_fails<
    U: Upscaler,
    S: Copy,
    A: Fn(S, Rgba, Weight) -> S,
    R: Fn(S) -> Rgba,
>(
    backend: U,
    blender: Blender<S, A, R>,
    source: Raster,
    target: u32,
    opts: UpscaleOptions,
    e: Error,
) -> bool {
    if source.is_empty() {
        e == Error::EmptySource
    } else if !result_holdable(source, target) {
        e == Error::TooLarge
    } else {
        match refusal(source, target, backend.factor(), opts) {
            Some(why) => e == why,
            None => pass_to_blame(
                backend,
                blender,
                source,
                opts,
                planned(target, backend.factor()).passes as nat,
                e,
            ),
        }
    }
}

/// Upscale `source` to exactly `target` times its size, returning the result.
pub fn upscale_to_target<
    U: Upscaler,
    S: Copy,
    A: Fn(S, Rgba, Weight) -> S,
    R: Fn(S) -> Rgba,
    P: Progress,
>(
    source: &RgbaImage,
    backend: &U,
    target: u32,
    opts: UpscaleOptions,
    blender: &Blender<S, A, R>,
    progress: &mut P,
) -> (r: Result<RgbaImage, Error>)
    requires
        blender.total(),
        gets_to_tiles(source@, target, backend.factor()) ==> opts.tile >= 1,
    ensures
        target_refused(source@, target, backend.factor(), opts) ==> r is Err && *final(progress)
            == *old(progress),
        r matches Err(e) ==> target_fails(*backend, *blender, source@, target, opts, e),
        r matches Ok(img) ==> {
            let s = planned(target, backend.factor());
            let total = tiles_in_passes(
                source@.width as int,
                source@.height as int,
                backend.factor() as int,
                s.passes as nat,
                opts,
            );
            &&& run_gives(*backend, *blender, source@, target, opts, img@)
            &&& final(progress).log() == old(progress).log() + pass::reports(
                0,
                total,
                total as usize,
            )
        },
{
    let (w, h) = source.dimensions();
    if w == 0 || h == 0 {
        return Err(Error::EmptySource);
    }
    match (w.checked_mul(target), h.checked_mul(target)) {
        (Some(out_w), Some(out_h)) => {
            proof {
                assert(0 <= out_w as u128 * out_h as u128 <= 0xffff_ffff * 0xffff_ffff)
                    by (nonlinear_arith)
                    requires
                        out_w <= u32::MAX,
                        out_h <= u32::MAX,
                ;
            }
            if 4 * (out_w as u128 * out_h as u128) > isize::MAX as u128 {
                return Err(Error::TooLarge);
            }
            let mut sink = MemorySink::new(out_w, out_h);
            match upscale_to_sink(source, backend, target, opts, blender, &mut sink, progress) {
                Err(e) => Err(e),
                Ok(_) => {
                    let ghost out = choose|out: Raster| #[trigger]
                        run_gives(*backend, *blender, source@, target, opts, out) && sink.written()
                            == Seq::<u8>::empty() + out.data;
                    assert(sink.written() =~= out.data);
                    let img = sink.into_image().unwrap();
                    assert(img@ =~= out);
                    Ok(img)
                },
            }
        },
        _ => Err(Error::TooLarge),
    }
}

/// The plan for reaching a target is the one whose passes are enough and not too many.
pub proof fn law_plans_take_the_fewest_passes(target: u32, native: u32, passes: nat)
    requires
        target >= 1,
        native >= 1,
        1 <= passes <= 6,
        native == 1 ==> passes == 1,
        native > 1 ==> pow(native as int, passes) >= target,
        native > 1 && passes > 1 ==> pow(native as int, (passes - 1) as nat) < target,
        pow(native as int, passes) <= u32::MAX,
    ensures
        planned(target, native) == (ScaleStrategy {
            target,
            native,
            passes: passes as u32,
            intermediate: pow(native as int, passes) as u32,
        }),
        planned(target, native).is_plan(),
{
    scale::lemma_pow_grows(native as int, 0, passes);
    let s = ScaleStrategy {
        target,
        native,
        passes: passes as u32,
        intermediate: pow(native as int, passes) as u32,
    };
    assert(s.target == target && s.native == native && s.is_plan());
    scale::law_plan_is_unique(s, planned(target, native));
}

/// What a chain of passes goes through: it starts with the source, every image is what
/// one pass gives for the one before it, and after `i` passes it is as large as `i`
/// magnifications make it.
pub proof fn law_chains_go_pass_by_pass<
    U: Upscaler,
    S: Copy,
    A: Fn(S, Rgba, Weight) -> S,
    R: Fn(S) -> Rgba,
>(
    backend: U,
    blender: Blender<S, A, R>,
    source: Raster,
    opts: UpscaleOptions,
    passes: nat,
    out: Raster,
)
    requires
        chain_gives(backend, blender, source, opts, passes, out),
    ensures
        exists|steps: Seq<Raster>|
            {
                &&& steps.len() == passes + 1
                &&& #[trigger] steps[0] == source
                &&& steps[passes as int] == out
                &&& forall|i: int|
                    0 <= i < passes ==> pass::pass_gives(
                        backend,
                        blender,
                        #[trigger] steps[i],
                        opts,
                        steps[i + 1],
                    )
                &&& forall|i: int|
                    0 <= i <= passes ==> {
                        &&& (#[trigger] steps[i]).width == source.width * pow(
                            backend.factor() as int,
                            i as nat,
                        )
                        &&& steps[i].height == source.height * pow(
                            backend.factor() as int,
                            i as nat,
                        )
                    }
            },
{
    let steps = lemma_steps(backend, blender, source, opts, passes, out);
    assert(steps[0] == source);
}

/// The images that a chain goes through.
proof fn lemma_steps<U: Upscaler, S: Copy, A: Fn(S, Rgba, Weight) -> S, R: Fn(S) -> Rgba>(
    backend: U,
    blender: Blender<S, A, R>,
    source: Raster,
    opts: UpscaleOptions,
    passes: nat,
    out: Raster,
) -> (steps: Seq<Raster>)
    requires
        chain_gives(backend, blender, source, opts, passes, out),
    ensures
        steps.len() == passes + 1,
        steps[0] == source,
        steps[passes as int] == out,
        forall|i: int|
            0 <= i < passes ==> pass::pass_gives(
                backend,
                blender,
                #[trigger] steps[i],
                opts,
                steps[i + 1],
            ),
        forall|i: int|
            0 <= i <= passes ==> {
                &&& (#[trigger] steps[i]).width == source.width * pow(
                    backend.factor() as int,
                    i as nat,
                )
                &&& steps[i].height == source.height * pow(backend.factor() as int, i as nat)
            },
    decreases passes,
{
    let native: int = backend.factor() as int;
    lemma_pow0(native);
    assert(source.width * 1 == source.width && source.height * 1 == source.height);
    if passes == 0 {
        seq![source]
    } else {
        let k: nat = (passes - 1) as nat;
        let mid = choose|mid: Raster|
            {
                &&& chain_gives(backend, blender, source, opts, (passes - 1) as nat, mid)
                &&& #[trigger] pass::pass_gives(backend, blender, mid, opts, out)
            };
        let steps = lemma_steps(backend, blender, source, opts, k, mid);
        let more = steps.push(out);
        lemma_step(source.width as int, native, k);
        lemma_step(source.height as int, native, k);
        assert forall|i: int| 0 <= i < passes implies pass::pass_gives(
            backend,
            blender,
            #[trigger] more[i],
            opts,
            more[i + 1],
        ) by {
            if i < k {
                assert(more[i] == steps[i] && more[i + 1] == steps[i + 1]);
            }
        }
        assert forall|i: int| 0 <= i <= passes implies {
            &&& (#[trigger] more[i]).width == source.width * pow(native, i as nat)
            &&& more[i].height == source.height * pow(native, i as nat)
        } by {
            if i < passes {
                assert(more[i] == steps[i]);
            } else {
                assert(steps[k as int] == mid);
            }
        }
        more
    }
}

/// A run keeps what the model makes: whatever the number of passes, the result is what
/// the last of them gives, where that has the size that was asked for, and otherwise the
/// Lanczos resampling of it, and of nothing smaller. As many passes are run as it takes
/// for the model to reach the target, and no more.
pub proof fn law_runs_keep_what_the_model_makes<
    U: Upscaler,
    S: Copy,
    A: Fn(S, Rgba, Weight) -> S,
    R: Fn(S) -> Rgba,
>(
    backend: U,
    blender: Blender<S, A, R>,
    source: Raster,
    target: u32,
    opts: UpscaleOptions,
    passes: nat,
    out: Raster,
)
    requires
        target >= 1,
        backend.factor() >= 1,
        1 <= passes <= 6,
        backend.factor() == 1 ==> passes == 1,
        backend.factor() > 1 ==> pow(backend.factor() as int, passes) >= target,
        backend.factor() > 1 && passes > 1 ==> pow(backend.factor() as int, (passes - 1) as nat)
            < target,
        pow(backend.factor() as int, passes) <= u32::MAX,
        run_gives(backend, blender, source, target, opts, out),
    ensures
        out.width == source.width * target,
        out.height == source.height * target,
        out.data.len() == out.width * out.height * 4,
        exists|steps: Seq<Raster>|
            {
                let last = steps[passes as int];
                &&& steps.len() == passes + 1
                &&& #[trigger] steps[0] == source
                &&& forall|i: int|
                    0 <= i < passes ==> pass::pass_gives(
                        backend,
                        blender,
                        #[trigger] steps[i],
                        opts,
                        steps[i + 1],
                    )
                &&& last.width == source.width * pow(backend.factor() as int, passes)
                &&& last.height == source.height * pow(backend.factor() as int, passes)
                &&& pow(backend.factor() as int, passes) == target ==> out == last
                &&& pow(backend.factor() as int, passes) != target ==> resize::resize_gives(
                    4,
                    Filter::Lanczos3,
                    last.width,
                    last.height,
                    last.data,
                    out.width,
                    out.height,
                    out.data,
                )
            },
{
    let native: u32 = backend.factor();
    law_plans_take_the_fewest_passes(target, native, passes);
    if pow(native as int, passes) == target {
        let steps = lemma_steps(backend, blender, source, opts, passes, out);
        assert(steps[0] == source);
    } else {
        let big = choose|big: Raster|
            {
                &&& #[trigger] chain_gives(backend, blender, source, opts, passes, big)
                &&& resize::resamples(Filter::Lanczos3, big, out)
            };
        let steps = lemma_steps(backend, blender, source, opts, passes, big);
        assert(steps[0] == source);
    }
}

/// What a sink is handed by a run is the result and nothing else: in rows of tiles of the
/// last pass where that has the size that was asked for, otherwise all at once; and then
/// it is closed.
pub proof fn law_results_are_handed_over<K: RowSink>(
    before: K,
    sink: K,
    source: Raster,
    s: ScaleStrategy,
    opts: UpscaleOptions,
    out: Raster,
)
    requires
        handed_over(before, sink, source, s, opts, out),
    ensures
        sink.written() == before.written() + out.data,
        sink.calls().len() > before.calls().len(),
        sink.calls().last() == SinkCall::Finish,
        s.intermediate != s.target ==> sink.calls() == before.calls() + seq![
            SinkCall::Rows { bytes: out.data },
            SinkCall::Finish,
        ],
        s.intermediate == s.target && s.passes >= 1 ==> pass::streamed(
            before,
            sink,
            tiling::Grid {
                width: source.width * pow(s.native as int, (s.passes - 1) as nat),
                height: source.height * pow(s.native as int, (s.passes - 1) as nat),
                scale: s.native as int,
                tile: opts.tile as int,
                overlap: opts.overlap as int,
            },
            out,
        ),
{
    if s.intermediate != s.target {
        assert(sink.calls() =~= before.calls() + seq![
            SinkCall::Rows { bytes: out.data },
            SinkCall::Finish,
        ]);
    }
}

/// A pass takes as many reports as it has tiles.
pub proof fn law_tiles_are_counted(source: Raster, factor: u32, opts: UpscaleOptions)
    requires
        opts.tile >= 1,
        factor >= 1,
    ensures
        tile_count(source.width as int, source.height as int, opts) == pass::grid_for(
            source,
            factor,
            opts,
        ).tiles().len(),
{
    lemma_tile_count(source.width as int, source.height as int, opts);
}

/// A run takes as many reports as its passes have tiles together.
pub proof fn law_passes_are_counted(
    width: int,
    height: int,
    native: int,
    passes: nat,
    opts: UpscaleOptions,
)
    ensures
        tiles_in_passes(width, height, native, 0, opts) == 0,
        tiles_in_passes(width, height, native, passes + 1, opts) == tiles_in_passes(
            width,
            height,
            native,
            passes,
            opts,
        ) + tile_count(width * pow(native, passes), height * pow(native, passes), opts),
{
    lemma_tiles_next(width, height, native, passes, opts);
}

/// Passes whose last result can be held, at 20 bytes a pixel, can be held, and their
/// tiles are no more than its pixels each.
proof fn lemma_passes_fit(
    width: int,
    height: int,
    native: int,
    passes: nat,
    opts: UpscaleOptions,
    keep_last: bool,
)
    requires
        0 <= width,
        0 <= height,
        native >= 1,
        opts.tile >= 1,
        width * pow(native, passes) <= u32::MAX,
        height * pow(native, passes) <= u32::MAX,
        20 * ((width * pow(native, passes)) * (height * pow(native, passes))) <= isize::MAX,
    ensures
        passes_holdable(width, height, native, passes, opts.tile as int, keep_last),
        0 <= tiles_in_passes(width, height, native, passes, opts) <= passes * ((width * pow(
            native,
            passes,
        )) * (height * pow(native, passes))),
    decreases passes,
{
    let p: int = pow(native, passes);
    let all: int = (width * p) * (height * p);
    scale::lemma_pow_grows(native, 0, passes);
    assert(width <= width * p && height <= height * p) by (nonlinear_arith)
        requires
            0 <= width,
            0 <= height,
            p >= 1,
    ;
    assert(0 <= width * height <= all) by (nonlinear_arith)
        requires
            all == (width * p) * (height * p),
            0 <= width <= width * p,
            0 <= height <= height * p,
    ;
    if passes > 0 {
        let k: nat = (passes - 1) as nat;
        let q: int = pow(native, k);
        let (w, h) = (width * native, height * native);
        scale::lemma_pow_next(native, k);
        scale::lemma_pow_grows(native, 0, k);
        assert(w * q == width * p && h * q == height * p) by (nonlinear_arith)
            requires
                w == width * native,
                h == height * native,
                p == native * q,
        ;
        assert(0 <= w <= w * q && 0 <= h <= h * q) by (nonlinear_arith)
            requires
                w == width * native,
                h == height * native,
                0 <= width,
                0 <= height,
                native >= 1,
                q >= 1,
        ;
        assert(0 <= w * h <= all) by (nonlinear_arith)
            requires
                all == (w * q) * (h * q),
                0 <= w <= w * q,
                0 <= h <= h * q,
        ;
        pass::law_ordinary_passes_can_be_held(width, height, native, opts.tile as int);
        lemma_passes_fit(w, h, native, k, opts, keep_last);
        lemma_tile_count(width, height, opts);
        assert(passes * all == k * all + all) by (nonlinear_arith)
            requires
                passes == k + 1,
        ;
    } else {
        assert(0 * all == 0);
    }
}

/// No run of ordinary size is refused: where there are pixels, the plan takes at most six
/// passes, and both what the last of them gives and the result have sides of up to 2^22
/// and can be held, the former at 20 bytes a pixel.
pub proof fn law_ordinary_runs_are_not_refused(
    source: Raster,
    target: u32,
    native: u32,
    opts: UpscaleOptions,
    passes: nat,
)
    requires
        source.width > 0,
        source.height > 0,
        target >= 1,
        native >= 1,
        opts.tile >= 1,
        1 <= passes <= 6,
        native == 1 ==> passes == 1,
        native > 1 ==> pow(native as int, passes) >= target,
        native > 1 && passes > 1 ==> pow(native as int, (passes - 1) as nat) < target,
        pow(native as int, passes) <= u32::MAX,
        source.width * pow(native as int, passes) <= 4_194_304,
        source.height * pow(native as int, passes) <= 4_194_304,
        source.width * target <= 4_194_304,
        source.height * target <= 4_194_304,
        20 * ((source.width * pow(native as int, passes)) * (source.height * pow(
            native as int,
            passes,
        ))) <= isize::MAX,
        16 * ((source.width * pow(native as int, passes)) * (source.height * target))
            <= isize::MAX,
        4 * ((source.width * target) * (source.height * target)) <= isize::MAX,
    ensures
        refusal(source, target, native, opts) is None,
        !target_refused(source, target, native, opts),
        tiled_holdable(
            source.width as int,
            source.height as int,
            native as int,
            opts.tile as int,
        ) || passes > 1,
{
    let (w, h, n) = (source.width as int, source.height as int, native as int);
    let p: int = pow(n, passes);
    law_plans_take_the_fewest_passes(target, native, passes);
    scale::law_plans_are_found(target, native, passes);
    lemma_passes_fit(w, h, n, passes, opts, p != target);
    let all: int = (w * p) * (h * p);
    scale::lemma_pow_grows(n, 0, passes);
    assert(w * p >= 0 && h * p >= 0 && w * target >= 0 && h * target >= 0 && all >= 0)
        by (nonlinear_arith)
        requires
            w >= 0,
            h >= 0,
            p >= 1,
            target >= 0,
            all == (w * p) * (h * p),
    ;
    assert(passes * all <= 6 * all) by (nonlinear_arith)
        requires
            passes <= 6,
            all >= 0,
    ;
    resize::law_ordinary_images_can_be_resampled(
        Filter::Lanczos3,
        w * p,
        h * p,
        w * target,
        h * target,
    );
    if passes == 1 {
        lemma_pow1(n);
        pass::law_ordinary_passes_can_be_held(w, h, n, opts.tile as int);
    }
}

/// What is refused before anything is done is refused with the reason that comes first:
/// an empty source, then a target of zero, then a model that has no factor, then a target
/// that six passes do not reach.
pub proof fn law_refusals_tell_the_first_reason(
    source: Raster,
    target: u32,
    native: u32,
    opts: UpscaleOptions,
)
    ensures
        source.width == 0 || source.height == 0 ==> refusal(source, target, native, opts) == Some(
            Error::EmptySource,
        ),
        source.width > 0 && source.height > 0 && target == 0 ==> refusal(
            source,
            target,
            native,
            opts,
        ) == Some(Error::Scale(ScaleError::ZeroTarget)),
        source.width > 0 && source.height > 0 && target > 0 && native == 0 ==> refusal(
            source,
            target,
            native,
            opts,
        ) == Some(Error::Scale(ScaleError::ZeroNative)),
        source.width > 0 && source.height > 0 && native > 1 && pow(native as int, 6) < target
            ==> refusal(source, target, native, opts) == Some(
            Error::Scale(ScaleError::OutOfReach { target, native }),
        ),
{
    if native > 1 && pow(native as int, 6) < target {
        scale::lemma_pow_grows(native as int, 0, 6);
        assert forall|k: nat| 1 <= k < scale::MAX_PASSES && #[trigger] pow(native as int, k)
            < target implies pow(native as int, k + 1) <= u32::MAX by {
            scale::lemma_pow_grows(native as int, k + 1, 6);
        }
    }
}

/// While passes are left, the output of the next can be counted.
pub proof fn lemma_next_pass_fits<
    U: Upscaler,
    S: Copy,
    A: Fn(S, Rgba, Weight) -> S,
    R: Fn(S) -> Rgba,
>(
    backend: U,
    blender: Blender<S, A, R>,
    source: Raster,
    target: u32,
    opts: UpscaleOptions,
    done: nat,
    mid: Raster,
)
    requires
        refusal(source, target, backend.factor(), opts) is None,
        done < planned(target, backend.factor()).passes,
        chain_gives(backend, blender, source, opts, done, mid),
    ensures
        backend.factor() >= 1,
        mid.width * backend.factor() <= u32::MAX,
        mid.height * backend.factor() <= u32::MAX,
{
    let n: int = backend.factor() as int;
    let s = planned(target, backend.factor());
    let (w, h) = (source.width as int, source.height as int);
    let steps = lemma_steps(backend, blender, source, opts, done, mid);
    assert(steps[done as int] == mid);
    lemma_step(w, n, done);
    lemma_step(h, n, done);
    lemma_plan_is_found(target, backend.factor());
    lemma_reached(w, h, n, s.passes as nat, opts.tile as int, s.intermediate != s.target);
    scale::lemma_pow_grows(n, done + 1, s.passes as nat);
    let (p, q) = (pow(n, done + 1), pow(n, s.passes as nat));
    assert(w * p <= w * q && h * p <= h * q) by (nonlinear_arith)
        requires
            w >= 0,
            h >= 0,
            p <= q,
    ;
}

/// Where a target is within reach there is a plan for it.
proof fn lemma_plan_is_found(target: u32, native: u32)
    requires
        target >= 1,
        native >= 1,
        scale::plan_holds(target, native),
        scale::reachable(target, native),
    ensures
        planned(target, native).is_plan(),
        planned(target, native).target == target,
        planned(target, native).native == native,
{
    lemma_pow1(native as int);
    if native == 1 {
        law_plans_take_the_fewest_passes(target, native, 1);
    } else {
        lemma_plan_from(target, native, 1);
    }
}

/// The plan takes at least `passes` passes, where no fewer do.
proof fn lemma_plan_from(target: u32, native: u32, passes: nat)
    requires
        target >= 1,
        native >= 2,
        1 <= passes <= 6,
        scale::plan_holds(target, native),
        scale::reachable(target, native),
        passes > 1 ==> pow(native as int, (passes - 1) as nat) < target,
        pow(native as int, passes) <= u32::MAX,
    ensures
        planned(target, native).is_plan(),
        planned(target, native).target == target,
        planned(target, native).native == native,
    decreases 6 - passes,
{
    if pow(native as int, passes) >= target {
        law_plans_take_the_fewest_passes(target, native, passes);
    } else {
        lemma_plan_from(target, native, passes + 1);
    }
}

/// A run that stops at a tile leaves the sink untouched, unless the pass that stops is
/// the last and streamed into it; then it holds the rows that were settled.
pub proof fn law_stopped_runs_leave_the_sink<
    U: Upscaler,
    S: Copy,
    A: Fn(S, Rgba, Weight) -> S,
    R: Fn(S) -> Rgba,
    K: RowSink,
>(
    backend: U,
    blender: Blender<S, A, R>,
    s: ScaleStrategy,
    opts: UpscaleOptions,
    e: Error,
    before: K,
    sink: K,
    done: nat,
    mid: Raster,
    k: int,
    bytes: Seq<u8>,
)
    requires
        run_stops_at(backend, blender, s, opts, e, before, sink, done, mid, k, bytes),
    ensures
        done < s.passes,
        pass::stops_at(backend, blender, mid, opts, e, k, bytes),
        done + 1 < s.passes || s.intermediate != s.target ==> sink == before,
        done + 1 == s.passes && s.intermediate == s.target ==> {
            let g = pass::grid_for(mid, backend.factor(), opts);
            pass::sink_holds(before, sink, g, k / g.cols(), bytes)
        },
{
}

/// A single pass is not refused where its whole result can be held, and a band of it, one
/// tile high, at 20 bytes a pixel.
pub proof fn law_ordinary_passes_are_not_refused(
    width: int,
    height: int,
    factor: int,
    tile: int,
)
    requires
        0 <= width,
        0 <= height,
        factor >= 1,
        tile >= 1,
        width * factor <= u32::MAX,
        height * factor <= u32::MAX,
        4 * ((width * factor) * (height * factor)) <= isize::MAX,
        20 * ((width * factor) * (height * factor)) <= isize::MAX || 20 * ((width * factor) * (tile
            * factor)) <= isize::MAX,
    ensures
        tiled_holdable(width, height, factor, tile),
{
    pass::law_ordinary_passes_can_be_held(width, height, factor, tile);
}

/// What a sink that refuses has been handed by then: whole rows of tiles of the last
/// pass, in order from the top, where that is streamed; otherwise nothing, or all of a
/// result.
pub proof fn law_refusing_sinks_hold_whole_rows<
    U: Upscaler,
    S: Copy,
    A: Fn(S, Rgba, Weight) -> S,
    R: Fn(S) -> Rgba,
    K: RowSink,
>(
    backend: U,
    blender: Blender<S, A, R>,
    source: Raster,
    s: ScaleStrategy,
    opts: UpscaleOptions,
    before: K,
    at: K,
)
    requires
        handed_in_part(backend, blender, source, s, opts, before, at),
    ensures
        s.intermediate == s.target ==> exists|mid: Raster, n: int, bytes: Seq<u8>|
            {
                &&& #[trigger] chain_gives(
                    backend,
                    blender,
                    source,
                    opts,
                    (s.passes - 1) as nat,
                    mid,
                )
                &&& #[trigger] pass::part_gives(backend, blender, mid, opts, n, bytes)
                &&& at.written() == before.written() + bytes
                &&& at.calls().len() == before.calls().len() + n
                &&& at.closed() == before.closed()
            },
        s.intermediate != s.target ==> at == before || exists|out: Raster|
            {
                &&& #[trigger] run_gives(backend, blender, source, s.target, opts, out)
                &&& at.written() == before.written() + out.data
                &&& at.calls() == before.calls().push(SinkCall::Rows { bytes: out.data })
            },
{
}

} // verus!
