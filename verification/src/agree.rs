//! When a run can have only one result.
//!
//! A backend that makes one image of a tile, and a blender that gives one sum and one
//! pixel, leave no room: however the rows are handed over, the image is the same.

use vstd::prelude::*;

use crate::backend::Upscaler;
use crate::blend;
use crate::blend::{Blender, Sample};
use crate::pass;
use crate::pass::UpscaleOptions;
use crate::pipeline;
use crate::raster;
use crate::raster::{Raster, Rgba};
use crate::resize;
use crate::resize::Filter;
use crate::sink::RowSink;
use crate::tiling::Weight;

verus! {

/// Whether a backend makes no more than one image of a tile.
pub open spec fn one_image<U: Upscaler>(backend: U) -> bool {
    forall|tile: Raster, a: Raster, b: Raster|
        #[trigger] backend.gives(tile, Ok(a)) && #[trigger] backend.gives(tile, Ok(b)) ==> a == b
}

/// Whether a blender gives no more than one sum, and no more than one pixel for it.
pub open spec fn one_sum<S: Copy, A: Fn(S, Rgba, Weight) -> S, R: Fn(S) -> Rgba>(
    blender: Blender<S, A, R>,
) -> bool {
    &&& forall|before: S, sample: Sample, a: S, b: S|
        #[trigger] blender.adds(before, sample, a) && #[trigger] blender.adds(before, sample, b)
            ==> a == b
    &&& forall|sum: S, p: Rgba, q: Rgba|
        #[trigger] call_ensures(blender.resolve, (sum,), p) && #[trigger] call_ensures(
            blender.resolve,
            (sum,),
            q,
        ) ==> p == q
}

/// Whether resampling gives no more than one image of a size.
pub open spec fn one_resampling(filter: Filter) -> bool {
    forall|from: Raster, a: Raster, b: Raster|
        #[trigger] resize::resamples(filter, from, a) && #[trigger] resize::resamples(
            filter,
            from,
            b,
        ) && a.width == b.width && a.height == b.height ==> a == b
}

/// The same samples have the same sum.
proof fn lemma_sums_agree<S: Copy, A: Fn(S, Rgba, Weight) -> S, R: Fn(S) -> Rgba>(
    blender: Blender<S, A, R>,
    samples: Seq<Sample>,
    a: S,
    b: S,
)
    requires
        one_sum(blender),
        blender.sums(samples, a),
        blender.sums(samples, b),
    ensures
        a == b,
    decreases samples.len(),
{
    if samples.len() > 0 {
        let part = samples.drop_last();
        let x = choose|x: S|
            blender.sums(part, x) && #[trigger] blender.adds(x, samples.last(), a);
        let y = choose|y: S|
            blender.sums(part, y) && #[trigger] blender.adds(y, samples.last(), b);
        lemma_sums_agree(blender, part, x, y);
    }
}

/// The same samples mix to the same pixel.
proof fn lemma_mixes_agree<S: Copy, A: Fn(S, Rgba, Weight) -> S, R: Fn(S) -> Rgba>(
    blender: Blender<S, A, R>,
    samples: Seq<Sample>,
    p: Rgba,
    q: Rgba,
)
    requires
        one_sum(blender),
        blender.mixes(samples, p),
        blender.mixes(samples, q),
    ensures
        p == q,
{
    let a = choose|a: S|
        #[trigger] blender.sums(samples, a) && call_ensures(blender.resolve, (a,), p);
    let b = choose|b: S|
        #[trigger] blender.sums(samples, b) && call_ensures(blender.resolve, (b,), q);
    lemma_sums_agree(blender, samples, a, b);
}

/// A pass over an image has one result.
pub proof fn law_passes_agree<
    U: Upscaler,
    S: Copy,
    A: Fn(S, Rgba, Weight) -> S,
    R: Fn(S) -> Rgba,
>(
    backend: U,
    blender: Blender<S, A, R>,
    source: Raster,
    opts: UpscaleOptions,
    a: Raster,
    b: Raster,
)
    requires
        one_image(backend),
        one_sum(blender),
        pass::pass_gives(backend, blender, source, opts, a),
        pass::pass_gives(backend, blender, source, opts, b),
    ensures
        a == b,
{
    let tiles = pass::grid_for(source, backend.factor(), opts).tiles();
    let p = choose|p: Seq<Raster>| #[trigger]
        pass::all_rendered(backend, source, tiles, p) && pass::blended(blender, tiles, p, a);
    let q = choose|q: Seq<Raster>| #[trigger]
        pass::all_rendered(backend, source, tiles, q) && pass::blended(blender, tiles, q, b);
    assert forall|k: int| 0 <= k < tiles.len() implies #[trigger] p[k] == q[k] by {
        assert(pass::renders(backend, source, tiles[k], p[k]));
        assert(pass::renders(backend, source, tiles[k], q[k]));
    }
    assert(p =~= q);
    assert forall|x: int, y: int| 0 <= x < a.width && 0 <= y < a.height implies #[trigger] a.pixel(
        x,
        y,
    ) == b.pixel(x, y) by {
        lemma_mixes_agree(
            blender,
            blend::samples_at(tiles, p, tiles.len() as int, x, y),
            a.pixel(x, y),
            b.pixel(x, y),
        );
    }
    raster::lemma_same_pixels(a, b);
}

/// Chained passes over an image have one result.
proof fn lemma_chains_agree<
    U: Upscaler,
    S: Copy,
    A: Fn(S, Rgba, Weight) -> S,
    R: Fn(S) -> Rgba,
>(
    backend: U,
    blender: Blender<S, A, R>,
    source: Raster,
    opts: UpscaleOptions,
    passes: nat,
    a: Raster,
    b: Raster,
)
    requires
        one_image(backend),
        one_sum(blender),
        pipeline::chain_gives(backend, blender, source, opts, passes, a),
        pipeline::chain_gives(backend, blender, source, opts, passes, b),
    ensures
        a == b,
    decreases passes,
{
    if passes > 0 {
        let before: nat = (passes - 1) as nat;
        let x = choose|x: Raster|
            pipeline::chain_gives(backend, blender, source, opts, before, x)
                && #[trigger] pass::pass_gives(backend, blender, x, opts, a);
        let y = choose|y: Raster|
            pipeline::chain_gives(backend, blender, source, opts, before, y)
                && #[trigger] pass::pass_gives(backend, blender, y, opts, b);
        lemma_chains_agree(backend, blender, source, opts, before, x, y);
        law_passes_agree(backend, blender, x, opts, a, b);
    }
}

/// A run has one result, provided that, where it ends in resampling, resampling has
/// one as well.
pub proof fn law_runs_agree<
    U: Upscaler,
    S: Copy,
    A: Fn(S, Rgba, Weight) -> S,
    R: Fn(S) -> Rgba,
>(
    backend: U,
    blender: Blender<S, A, R>,
    source: Raster,
    target: u32,
    opts: UpscaleOptions,
    a: Raster,
    b: Raster,
)
    requires
        one_image(backend),
        one_sum(blender),
        pipeline::planned(target, backend.factor()).intermediate == target || one_resampling(
            Filter::Lanczos3,
        ),
        pipeline::run_gives(backend, blender, source, target, opts, a),
        pipeline::run_gives(backend, blender, source, target, opts, b),
    ensures
        a == b,
{
    let s = pipeline::planned(target, backend.factor());
    let passes: nat = s.passes as nat;
    if s.intermediate == target {
        lemma_chains_agree(backend, blender, source, opts, passes, a, b);
    } else {
        let x = choose|x: Raster| #[trigger]
            pipeline::chain_gives(backend, blender, source, opts, passes, x)
                && resize::resamples(Filter::Lanczos3, x, a);
        let y = choose|y: Raster| #[trigger]
            pipeline::chain_gives(backend, blender, source, opts, passes, y)
                && resize::resamples(Filter::Lanczos3, y, b);
        lemma_chains_agree(backend, blender, source, opts, passes, x, y);
    }
}

/// Streaming changes nothing: the bytes that a run hands to a sink are those of the
/// image that it returns when that is held in memory.
pub proof fn law_streamed_equals_in_memory<
    U: Upscaler,
    S: Copy,
    A: Fn(S, Rgba, Weight) -> S,
    R: Fn(S) -> Rgba,
    K: RowSink,
>(
    backend: U,
    blender: Blender<S, A, R>,
    source: Raster,
    target: u32,
    opts: UpscaleOptions,
    before: K,
    sink: K,
    out: Raster,
    in_memory: Raster,
)
    requires
        one_image(backend),
        one_sum(blender),
        pipeline::planned(target, backend.factor()).intermediate == target || one_resampling(
            Filter::Lanczos3,
        ),
        pipeline::run_gives(backend, blender, source, target, opts, out),
        pipeline::handed_over(
            before,
            sink,
            source,
            pipeline::planned(target, backend.factor()),
            opts,
            out,
        ),
        pipeline::run_gives(backend, blender, source, target, opts, in_memory),
    ensures
        sink.written() == before.written() + in_memory.data,
        pipeline::handed_over(
            before,
            sink,
            source,
            pipeline::planned(target, backend.factor()),
            opts,
            in_memory,
        ),
{
    law_runs_agree(backend, blender, source, target, opts, out, in_memory);
}

} // verus!
