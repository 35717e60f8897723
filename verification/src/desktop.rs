//! What a graphical front end decides on the user's behalf.

use vstd::arithmetic::div_mod::*;
use vstd::prelude::*;
use vstd::string::*;

use crate::backend::Upscaler;
use crate::blend::Blender;
use crate::models;
use crate::models::ModelEntry;
use crate::pass::{Error, Quiet, UpscaleOptions};
use crate::pipeline;
use crate::preview;
use crate::raster::{Raster, Rgba, RgbaImage};
use crate::resize;
use crate::resize::Filter;
use crate::scale;
use crate::scale::{ScaleError, ScaleStrategy};
use crate::text;
use crate::tiling::Weight;

verus! {

/// The tile that a backend wants.
pub open spec fn wanted_tile(limit: Option<u32>) -> u32 {
    match limit {
        Some(t) => t,
        None => 256,
    }
}

/// The tile and overlap that a backend wants.
pub open spec fn wanted_options(limit: Option<u32>) -> UpscaleOptions {
    let tile = wanted_tile(limit);
    UpscaleOptions {
        tile,
        overlap: if tile / 8 >= 8 {
            tile / 8
        } else {
            8
        },
    }
}

/// Tile and overlap a backend wants.
///
/// A model with a fixed input size dictates the tile, so the user is never asked
/// to work it out. An eighth of the tile is enough overlap to hide model edge
/// effects without inflating the work much.
pub fn options_for<U: Upscaler>(backend: &U) -> (opts: UpscaleOptions)
    ensures
        opts == wanted_options(backend.tile_limit()),
        backend.tile_limit() matches Some(t) ==> opts.tile == t,
        backend.tile_limit() is None ==> opts.tile == 256,
        opts.tile >= 64 ==> 8 * opts.overlap <= opts.tile < 8 * opts.overlap + 8,
        opts.tile < 64 ==> opts.overlap == 8,
{
    let tile: u32 = match backend.preferred_tile() {
        Some(t) => t,
        None => 256,
    };
    let overlap: u32 = if tile / 8 >= 8 {
        tile / 8
    } else {
        8
    };
    UpscaleOptions { tile, overlap }
}

/// What enlarges an image.
#[derive(Debug, PartialEq, Eq)]
pub enum Engine {
    /// A model.
    Model { entry: ModelEntry },
    /// Resampling, where no model is installed.
    Basic,
}

impl Engine {
    /// How the engine is described.
    pub open spec fn described(self) -> Seq<char> {
        match self {
            Engine::Model { entry } => entry.name@,
            Engine::Basic => "Basic enlargement"@,
        }
    }

    /// How the engine is described in an interface.
    pub fn label(&self) -> (s: String)
        ensures
            s@ == self.described(),
    {
        match self {
            Engine::Model { entry } => entry.name.clone(),
            Engine::Basic => "Basic enlargement".to_owned(),
        }
    }

    /// Whether detail is invented.
    pub fn is_neural(&self) -> (b: bool)
        ensures
            b == (self is Model),
    {
        match self {
            Engine::Model { .. } => true,
            Engine::Basic => false,
        }
    }
}

/// Choose the best engine for `style`, falling back when no model is installed.
pub fn choose_engine(installed: &Vec<ModelEntry>, style: &str) -> (e: Engine)
    ensures
        match e {
            Engine::Basic => installed@.len() == 0,
            Engine::Model { entry } => exists|k: int| #[trigger]
                models::is_best(installed@, models::hints_for(style@), k) && entry.same_as(
                    installed@[k],
                ),
        },
{
    match models::best_for(installed, style) {
        Some(entry) => Engine::Model { entry },
        None => Engine::Basic,
    }
}

/// Side, in source pixels, of the region that a comparison shows: about 1200
/// pixels once magnified, within bounds.
pub open spec fn comparison_px(scale: u32) -> int {
    let px: int = if scale >= 1 {
        1200int / (scale as int)
    } else {
        1200
    };
    if px < 64 {
        64
    } else if px > 512 {
        512
    } else {
        px
    }
}

/// Side, in source pixels, of the region that a comparison shows.
pub fn comparison_side(scale: u32) -> (px: u32)
    ensures
        px == comparison_px(scale),
        64 <= px <= 512,
        // About 1200 pixels once magnified.
        3 <= scale <= 18 ==> px * scale <= 1200 < (px + 1) * scale,
        scale < 3 ==> px == 512,
        scale > 18 ==> px == 64,
{
    proof {
        let s: int = scale as int;
        if s >= 1 {
            lemma_fundamental_div_mod(1200, s);
            let q: int = 1200int / s;
            assert(s * q == q * s && (q + 1) * s == q * s + s) by (nonlinear_arith);
            assert(3 <= s <= 18 ==> 64 <= q <= 400) by (nonlinear_arith)
                requires
                    q * s <= 1200 < q * s + s,
            ;
            assert(s < 3 ==> q >= 512) by (nonlinear_arith)
                requires
                    q * s <= 1200 < q * s + s,
                    s >= 1,
            ;
            assert(s > 18 ==> q < 64) by (nonlinear_arith)
                requires
                    q * s <= 1200 < q * s + s,
            ;
        }
    }
    let px: u32 = if scale >= 1 {
        1200 / scale
    } else {
        1200
    };
    if px < 64 {
        64
    } else if px > 512 {
        512
    } else {
        px
    }
}

/// Tiles between two reports of a job of `total` tiles.
pub open spec fn report_step(total: int) -> int {
    if total / 200 >= 1 {
        total / 200
    } else {
        1
    }
}

/// Whether the end of tile `done` is worth a report.
pub open spec fn reported(done: int, total: int) -> bool {
    done % report_step(total) == 0 || done == total
}

/// Whether to report that `done` of `total` tiles are finished.
///
/// Thousands of tiles would flood an interface, so this is said about 200 times
/// whatever the size of the job.
pub fn should_report(done: usize, total: usize) -> (b: bool)
    ensures
        b == reported(done as int, total as int),
        done == total ==> b,
        total < 400 ==> b,
        total >= 400 ==> (b <==> done == total || done as int % (total as int / 200) == 0),
{
    let step: usize = if total / 200 >= 1 {
        total / 200
    } else {
        1
    };
    done % step == 0 || done == total
}

/// How many of the tiles up to `done` are reported.
pub open spec fn reports_up_to(done: int, total: int) -> int
    decreases done,
{
    if done <= 0 {
        0
    } else {
        reports_up_to(done - 1, total) + (if reported(done, total) {
            1int
        } else {
            0
        })
    }
}

/// Up to the last tile, every step is reported and nothing else.
proof fn lemma_steps_reported(done: int, total: int)
    requires
        0 <= done < total,
    ensures
        reports_up_to(done, total) == done / report_step(total),
    decreases done,
{
    let s: int = report_step(total);
    if done > 0 {
        lemma_steps_reported(done - 1, total);
        lemma_fundamental_div_mod(done, s);
        lemma_fundamental_div_mod(done - 1, s);
        let (q, r) = (done / s, done % s);
        if r == 0 {
            assert((q - 1) * s + (s - 1) == done - 1) by (nonlinear_arith)
                requires
                    done == s * q + r,
                    r == 0,
            ;
            lemma_fundamental_div_mod_converse(done - 1, s, q - 1, s - 1);
        } else {
            assert(q * s + (r - 1) == done - 1) by (nonlinear_arith)
                requires
                    done == s * q + r,
            ;
            lemma_fundamental_div_mod_converse(done - 1, s, q, r - 1);
        }
    } else {
        assert(0int / s == 0) by (nonlinear_arith)
            requires
                s > 0,
        ;
    }
}

/// However large the job, at most 400 reports are made, and the last tile is always
/// among them.
pub proof fn law_reports_are_few(total: int)
    requires
        total > 0,
    ensures
        reports_up_to(total, total) <= 400,
        reported(total, total),
{
    let s: int = report_step(total);
    lemma_steps_reported(total - 1, total);
    assert((total - 1) / s <= 399) by (nonlinear_arith)
        requires
            total > 0,
            s >= 1,
            total < 400 * s,
    ;
}

/// Whether a result with the extension `ext` is written as PNG, row by row.
pub fn writes_png(ext: Option<&str>) -> (b: bool)
    ensures
        b == is_png(
            match ext {
                Some(e) => Some(e@),
                None => None,
            },
        ),
{
    match ext {
        Some(e) => text::same_ignoring_case(e, "png"),
        None => false,
    }
}

/// A result is written as PNG exactly where its extension is `png`, whatever its case.
pub proof fn law_png_goes_by_the_extension(ext: Option<Seq<char>>)
    ensures
        is_png(ext) <==> ext is Some && text::lowered(ext->0) == seq!['p', 'n', 'g'],
{
    reveal_strlit("png");
    assert(text::lowered("png"@) =~= seq!['p', 'n', 'g']);
}

/// Reports are spread over a job: the first `done` tiles bring at least one for every
/// two hundredth of it.
pub proof fn law_reports_are_many_enough(done: int, total: int)
    requires
        0 <= done < total,
        total >= 200,
    ensures
        (reports_up_to(done, total) + 1) * (total / 200) > done,
{
    lemma_steps_reported(done, total);
    let s: int = total / 200;
    lemma_fundamental_div_mod(done, s);
    assert(s * (done / s) == (done / s) * s && (done / s + 1) * s == (done / s) * s + s)
        by (nonlinear_arith);
}

/// One region before and after enlarging, both at full size.
#[derive(Debug, PartialEq, Eq)]
pub struct Comparison {
    pub before: RgbaImage,
    pub after: RgbaImage,
    /// Source pixels covered, so an interface can say what is being shown.
    pub source_px: u32,
}

/// The region that a comparison centred on (`cx`, `cy`) shows.
pub open spec fn compared(source: Raster, cx: u32, cy: u32, scale: u32) -> Raster {
    preview::region_of(source, cx, cy, comparison_px(scale) as u32)
}

/// Whether a region can be enlarged by plain resampling.
pub open spec fn resamplable(patch: Raster, scale: u32) -> bool {
    &&& patch.width * scale <= u32::MAX
    &&& patch.height * scale <= u32::MAX
    &&& resize::resizable(
        Filter::Lanczos3,
        patch.width as int,
        patch.height as int,
        patch.width * scale,
        patch.height * scale,
    )
}

/// Render a full-size before and after of one region.
///
/// Comparing whole images fitted to a window would shrink the result back down and
/// hide the very detail being judged, so the comparison happens at full size on a
/// region instead.
pub fn compare<U: Upscaler, S: Copy, A: Fn(S, Rgba, Weight) -> S, R: Fn(S) -> Rgba>(
    source: &RgbaImage,
    backend: &U,
    scale: u32,
    cx: u32,
    cy: u32,
    blender: &Blender<S, A, R>,
) -> (r: Result<Comparison, Error>)
    requires
        blender.total(),
        pipeline::gets_to_tiles(compared(source@, cx, cy, scale), scale, backend.factor())
            ==> wanted_tile(backend.tile_limit()) >= 1,
    ensures
        ({
            let patch = compared(source@, cx, cy, scale);
            let opts = wanted_options(backend.tile_limit());
            if !resamplable(patch, scale) {
                r == Err::<Comparison, Error>(Error::TooLarge)
            } else {
                &&& pipeline::target_refused(patch, scale, backend.factor(), opts) ==> r is Err
                &&& match r {
                    Err(e) => pipeline::target_fails(*backend, *blender, patch, scale, opts, e),
                    Ok(c) => {
                        &&& c.source_px == patch.width
                        &&& c.before@.width == patch.width * scale
                        &&& c.before@.height == patch.height * scale
                        &&& resize::resamples(Filter::Lanczos3, patch, c.before@)
                        &&& pipeline::run_gives(*backend, *blender, patch, scale, opts, c.after@)
                    },
                }
            }
        }),
{
    let patch = preview::region(source, cx, cy, comparison_side(scale));
    let (pw, ph) = patch.dimensions();
    let (bw, bh): (u32, u32) = match (pw.checked_mul(scale), ph.checked_mul(scale)) {
        (Some(bw), Some(bh)) => (bw, bh),
        _ => {
            return Err(Error::TooLarge);
        },
    };
    if !resize::can_resize(Filter::Lanczos3, pw, ph, bw, bh) {
        return Err(Error::TooLarge);
    }
    let before = resize::resize(&patch, bw, bh, Filter::Lanczos3);
    let opts = options_for(backend);
    let mut quiet = Quiet::new();
    match pipeline::upscale_to_target(&patch, backend, scale, opts, blender, &mut quiet) {
        Err(e) => Err(e),
        Ok(after) => Ok(Comparison { before, after, source_px: pw }),
    }
}

/// What is settled about a run before it starts.
#[derive(Debug, Clone, Copy, PartialEq, Eq, Structural)]
pub struct Job {
    pub out_width: u32,
    pub out_height: u32,
    pub strategy: ScaleStrategy,
    /// Rows go straight to disk, so output size is not bounded by memory.
    pub streamed: bool,
}

/// Whether `ext` is that of a PNG file.
pub open spec fn is_png(ext: Option<Seq<char>>) -> bool {
    ext matches Some(e) && text::lowered(e) == text::lowered("png"@)
}

/// Settle the size of the result of enlarging a `width` x `height` image, the plan
/// for reaching it, and whether it is streamed.
pub fn prepare(width: u32, height: u32, scale: u32, native: u32, ext: Option<&str>) -> (r: Result<
    Job,
    Error,
>)
    ensures
        if width * scale > u32::MAX || height * scale > u32::MAX {
            r == Err::<Job, Error>(Error::TooLarge)
        } else if scale == 0 {
            r == Err::<Job, Error>(Error::Scale(ScaleError::ZeroTarget))
        } else if native == 0 {
            r == Err::<Job, Error>(Error::Scale(ScaleError::ZeroNative))
        } else if !scale::plan_holds(scale, native) {
            r == Err::<Job, Error>(Error::TooLarge)
        } else if !scale::reachable(scale, native) {
            r == Err::<Job, Error>(Error::Scale(ScaleError::OutOfReach { target: scale, native }))
        } else {
            &&& r matches Ok(job)
            &&& job.out_width == width * scale
            &&& job.out_height == height * scale
            &&& job.strategy == pipeline::planned(scale, native)
            &&& job.strategy.is_plan()
            &&& job.streamed == is_png(
                match ext {
                    Some(e) => Some(e@),
                    None => None,
                },
            )
        },
{
    let (out_width, out_height): (u32, u32) = match (
        width.checked_mul(scale),
        height.checked_mul(scale),
    ) {
        (Some(w), Some(h)) => (w, h),
        _ => {
            return Err(Error::TooLarge);
        },
    };
    if scale == 0 {
        return Err(Error::Scale(ScaleError::ZeroTarget));
    }
    if native == 0 {
        return Err(Error::Scale(ScaleError::ZeroNative));
    }
    if !ScaleStrategy::can_plan(scale, native) {
        return Err(Error::TooLarge);
    }
    match ScaleStrategy::plan(scale, native) {
        Err(e) => Err(Error::Scale(e)),
        Ok(strategy) => {
            proof {
                let p = pipeline::planned(scale, native);
                assert(strategy.target == scale && strategy.native == native
                    && strategy.is_plan());
                scale::law_plan_is_unique(strategy, p);
            }
            Ok(Job { out_width, out_height, strategy, streamed: writes_png(ext) })
        },
    }
}

/// What is compared is the region of the source about the pixel that was asked for, whose
/// side is about 1200 pixels once magnified, but no less than 64 and no more than 512.
pub proof fn law_comparisons_show_a_region(
    source: Raster,
    cx: u32,
    cy: u32,
    scale: u32,
    px: u32,
)
    requires
        3 <= scale <= 18 ==> px * scale <= 1200 < (px + 1) * scale,
        scale < 3 ==> px == 512,
        scale > 18 ==> px == 64,
    ensures
        compared(source, cx, cy, scale) == preview::region_of(source, cx, cy, px),
{
    let s: int = scale as int;
    if s >= 1 {
        lemma_fundamental_div_mod(1200, s);
        let q: int = 1200int / s;
        let p: int = px as int;
        assert(s * q == q * s && (p + 1) * s == p * s + s) by (nonlinear_arith);
        assert(3 <= s <= 18 ==> 64 <= q <= 400 && p == q) by (nonlinear_arith)
            requires
                q * s <= 1200 < q * s + s,
                3 <= s <= 18 ==> p * s <= 1200 < p * s + s,
        ;
        assert(s < 3 ==> q >= 512) by (nonlinear_arith)
            requires
                q * s <= 1200 < q * s + s,
                s >= 1,
        ;
        assert(s > 18 ==> q < 64) by (nonlinear_arith)
            requires
                q * s <= 1200 < q * s + s,
        ;
    }
}

/// What is compared of a source with at least 512 pixels each way is a square of 64 to
/// 512 pixels.
pub proof fn law_comparisons_show_the_source(source: Raster, cx: u32, cy: u32, scale: u32)
    requires
        source.width >= 512,
        source.height >= 512,
    ensures
        ({
            let patch = compared(source, cx, cy, scale);
            &&& patch.width == patch.height
            &&& 64 <= patch.width <= 512
            &&& 3 <= scale <= 18 ==> patch.width * scale <= 1200 < (patch.width + 1) * scale
            &&& scale < 3 ==> patch.width == 512
            &&& scale > 18 ==> patch.width == 64
        }),
{
    let s: int = scale as int;
    if s >= 1 {
        lemma_fundamental_div_mod(1200, s);
        let q: int = 1200int / s;
        assert(s * q == q * s && (q + 1) * s == q * s + s) by (nonlinear_arith);
        assert(3 <= s <= 18 ==> 64 <= q <= 400) by (nonlinear_arith)
            requires
                q * s <= 1200 < q * s + s,
        ;
        assert(s < 3 ==> q >= 512) by (nonlinear_arith)
            requires
                q * s <= 1200 < q * s + s,
                s >= 1,
        ;
        assert(s > 18 ==> q < 64) by (nonlinear_arith)
            requires
                q * s <= 1200 < q * s + s,
        ;
    }
    preview::law_region_stays_inside(source, cx, cy, comparison_px(scale) as u32);
}

/// Regions that are to come out with sides of up to 2^22 can be compared, where the
/// result can be held at 16 bytes a pixel.
pub proof fn law_ordinary_regions_can_be_compared(patch: Raster, scale: u32)
    requires
        patch.width <= 4_194_304,
        patch.height <= 4_194_304,
        patch.width * scale <= 4_194_304,
        patch.height * scale <= 4_194_304,
        scale >= 1,
        16 * ((patch.width * scale) * (patch.height * scale)) <= isize::MAX,
    ensures
        resamplable(patch, scale),
{
    let (w, h) = (patch.width as int, patch.height as int);
    let (nw, nh) = (w * scale, h * scale);
    assert(0 <= nw && 0 <= nh && w <= nw) by (nonlinear_arith)
        requires
            nw == w * scale,
            nh == h * scale,
            scale >= 1,
            w >= 0,
            h >= 0,
    ;
    assert(0 <= w * nh <= nw * nh) by (nonlinear_arith)
        requires
            0 <= w <= nw,
            0 <= nh,
    ;
    resize::law_ordinary_images_can_be_resampled(Filter::Lanczos3, w, h, nw, nh);
}

/// The tile is what the backend wants, or else 256, and the overlap is an eighth of it,
/// but never less than 8.
pub proof fn law_options_suit_the_backend(limit: Option<u32>)
    ensures
        limit matches Some(t) ==> wanted_options(limit).tile == t && wanted_tile(limit) == t,
        limit is None ==> wanted_options(limit).tile == 256 && wanted_tile(limit) == 256,
        ({
            let o = wanted_options(limit);
            &&& o.overlap >= 8
            &&& o.tile >= 64 ==> 8 * o.overlap <= o.tile < 8 * o.overlap + 8
            &&& o.tile < 64 ==> o.overlap == 8
        }),
{
}

} // verus!
