use tessera::backend::{BackendError, ResampleBackend, Upscaler};
use tessera::blend::Blender;
use tessera::pass::{Error, Progress, Quiet, UpscaleOptions};
use tessera::pipeline::{accumulator_bytes, upscale_tiled, upscale_to_sink, upscale_to_target};
use tessera::resize::{resize, Filter};
use tessera::scale::ScaleError;
use tessera::sink::{MemorySink, RowSink, SinkError};
use tessera::tiling::{AxisWeight, Ramp, Weight};
use tessera::{Rgba, RgbaImage};

/// Premultiplied colour, alpha, and total weight.
type Sum = [f32; 5];

fn ramp(r: Option<Ramp>) -> f32 {
    match r {
        Some(r) => (r.step as f32 + 0.5) / r.width as f32,
        None => 1.0,
    }
}

fn axis(w: AxisWeight) -> f32 {
    (ramp(w.lead) * ramp(w.trail)).clamp(f32::MIN_POSITIVE, 1.0)
}

fn add(mut s: Sum, p: Rgba, weight: Weight) -> Sum {
    let w = axis(weight.x) * axis(weight.y);
    let a = p.a as f32 / 255.0;
    s[0] += p.r as f32 * a * w;
    s[1] += p.g as f32 * a * w;
    s[2] += p.b as f32 * a * w;
    s[3] += a * w;
    s[4] += w;
    s
}

fn resolve(s: Sum) -> Rgba {
    let total = s[4];
    if total <= 0.0 {
        return Rgba { r: 0, g: 0, b: 0, a: 0 };
    }
    let alpha = s[3] / total;
    if alpha <= 0.0 {
        return Rgba { r: 0, g: 0, b: 0, a: 0 };
    }
    let unmul = |v: f32| (v / total / alpha).round().clamp(0.0, 255.0) as u8;
    Rgba {
        r: unmul(s[0]),
        g: unmul(s[1]),
        b: unmul(s[2]),
        a: (alpha * 255.0).round().clamp(0.0, 255.0) as u8,
    }
}

fn blender() -> Blender<Sum, fn(Sum, Rgba, Weight) -> Sum, fn(Sum) -> Rgba> {
    Blender { zero: [0.0; 5], add, resolve }
}

/// Keeps every report.
struct Seen(Vec<(usize, usize)>);

impl Progress for Seen {
    fn report(&mut self, done: usize, total: usize) {
        self.0.push((done, total));
    }
}

fn image(w: u32, h: u32, f: impl Fn(u32, u32) -> [u8; 4]) -> RgbaImage {
    let mut data = Vec::new();
    for y in 0..h {
        for x in 0..w {
            data.extend_from_slice(&f(x, y));
        }
    }
    RgbaImage::from_raw(w, h, data).unwrap()
}

/// Deterministic, detailed test pattern. Flat colour would hide seams.
fn test_pattern(w: u32, h: u32) -> RgbaImage {
    image(w, h, |x, y| {
        [
            ((x * 7 + y * 3) % 256) as u8,
            ((x * x + y) % 256) as u8,
            ((x ^ (y * 5)) % 256) as u8,
            255,
        ]
    })
}

fn max_channel_diff(a: &RgbaImage, b: &RgbaImage) -> u8 {
    assert_eq!(a.dimensions(), b.dimensions());
    a.as_raw().iter().zip(b.as_raw()).map(|(p, q)| p.abs_diff(*q)).max().unwrap_or(0)
}

fn tiled(src: &RgbaImage, backend: &ResampleBackend, opts: UpscaleOptions) -> RgbaImage {
    upscale_tiled(src, backend, opts, &blender(), &mut Quiet::new()).unwrap()
}

/// The headline property. A single-tile run is the un-tiled reference; a heavily
/// tiled run of the same image must reproduce it. Any seam, weight bug, or
/// off-by-one in the blend shows up here as a large difference.
#[test]
fn tiling_reproduces_the_untiled_result() {
    let src = test_pattern(240, 176);
    let backend = ResampleBackend::new(2, "lanczos3").unwrap();

    let reference = tiled(&src, &backend, UpscaleOptions { tile: 4096, overlap: 0 });

    for (tile, overlap) in [(64, 32), (96, 24), (48, 16), (128, 48)] {
        let out = tiled(&src, &backend, UpscaleOptions { tile, overlap });
        assert_eq!(out.dimensions(), reference.dimensions());
        // Measured worst case is 1-4/255 across these configurations; 6 leaves
        // headroom for filter changes without letting a real seam by.
        let diff = max_channel_diff(&out, &reference);
        assert!(
            diff <= 6,
            "tile={tile} overlap={overlap}: max channel difference {diff} \
             against the untiled reference suggests a visible seam"
        );
    }
}

/// Banding must not change the result. If the carry-over between tile rows were
/// wrong, horizontal seams would appear here and nowhere else.
#[test]
fn banded_output_is_identical_regardless_of_band_count() {
    let src = test_pattern(200, 300);
    let backend = ResampleBackend::new(2, "lanczos3").unwrap();

    // One tall tile: a single band, nothing carried.
    let single = tiled(&src, &backend, UpscaleOptions { tile: 4096, overlap: 0 });

    // Small tiles force many bands and many carries.
    for tile in [32, 48, 64, 100] {
        let many = tiled(&src, &backend, UpscaleOptions { tile, overlap: 16 });
        assert_eq!(many.dimensions(), single.dimensions());
        assert!(
            max_channel_diff(&many, &single) <= 6,
            "tile={tile}: banding changed the result"
        );
    }
}

/// Smooth, wrap-free content, without row jumps that would swamp a seam.
fn smooth_pattern(w: u32, h: u32) -> RgbaImage {
    image(w, h, |x, y| {
        let (fx, fy) = (x as f32 / w as f32, y as f32 / h as f32);
        let ch = |v: f32| (128.0 + 100.0 * v).clamp(0.0, 255.0) as u8;
        [
            ch((fx * 6.0).sin() * (fy * 5.0).cos()),
            ch(((fx + fy) * 7.0).sin()),
            ch((fy * 9.0).cos()),
            255,
        ]
    })
}

/// A horizontal seam is a row-to-row jump at a band boundary. Rather than judge
/// that against an absolute threshold, which depends on the content, compare
/// against the same image produced in a single band.
#[test]
fn banding_adds_no_horizontal_seam() {
    let src = smooth_pattern(64, 200);
    let backend = ResampleBackend::new(2, "lanczos3").unwrap();

    let worst_row_step = |opts| {
        let out = tiled(&src, &backend, opts);
        let (w, h) = out.dimensions();
        (1..h)
            .map(|y| {
                (0..w)
                    .map(|x| {
                        let a = out.get_pixel(x, y);
                        let b = out.get_pixel(x, y - 1);
                        (a.r.abs_diff(b.r) as f32)
                            + (a.g.abs_diff(b.g) as f32)
                            + (a.b.abs_diff(b.b) as f32)
                    })
                    .sum::<f32>()
                    / w as f32
            })
            .fold(0.0_f32, f32::max)
    };

    let un_banded = worst_row_step(UpscaleOptions { tile: 4096, overlap: 0 });
    let banded = worst_row_step(UpscaleOptions { tile: 40, overlap: 12 });
    assert!(
        banded <= un_banded * 1.25 + 1.0,
        "worst row step {banded:.2} banded vs {un_banded:.2} un-banded: \
         banding introduced a seam"
    );
}

#[test]
fn output_dimensions_follow_the_scale_factor() {
    let src = test_pattern(100, 70);
    let backend = ResampleBackend::new(3, "catmullrom").unwrap();
    let out = tiled(&src, &backend, UpscaleOptions::default());
    assert_eq!(out.dimensions(), (300, 210));
}

#[test]
fn transparency_survives_the_blend() {
    let src = image(96, 96, |x, _| if x < 48 { [200, 40, 40, 255] } else { [0, 0, 0, 0] });
    let backend = ResampleBackend::new(2, "nearest").unwrap();
    let out = tiled(&src, &backend, UpscaleOptions { tile: 32, overlap: 8 });

    assert_eq!(out.get_pixel(10, 10).a, 255, "opaque side went transparent");
    assert_eq!(out.get_pixel(180, 10).a, 0, "transparent side gained alpha");
    // Premultiplied blending must not drag the opaque colour toward black.
    let px = out.get_pixel(10, 10);
    assert!(px.r > 190 && px.g < 60, "colour shifted: {px:?}");
}

#[test]
fn progress_reports_every_tile() {
    let src = test_pattern(200, 200);
    let backend = ResampleBackend::new(2, "triangle").unwrap();
    let mut seen = Seen(Vec::new());
    let opts = UpscaleOptions { tile: 64, overlap: 16 };
    let out = upscale_tiled(&src, &backend, opts, &blender(), &mut seen);
    assert!(out.is_ok());

    let seen = seen.0;
    let total = seen[0].1;
    assert_eq!(seen.len(), total);
    let mut counts: Vec<usize> = seen.iter().map(|&(n, _)| n).collect();
    counts.sort_unstable();
    assert_eq!(counts, (1..=total).collect::<Vec<_>>());
}

/// Whatever stop the user picks, the output is exactly that many times the input,
/// including factors the model has no native pass for.
#[test]
fn every_target_scale_lands_exactly() {
    let src = test_pattern(40, 28);
    // A 2x model must still deliver 3x, 5x, 7x and so on.
    let backend = ResampleBackend::new(2, "lanczos3").unwrap();
    for target in 1..=10u32 {
        let opts = UpscaleOptions { tile: 32, overlap: 8 };
        let out =
            upscale_to_target(&src, &backend, target, opts, &blender(), &mut Quiet::new()).unwrap();
        assert_eq!(
            out.dimensions(),
            (40 * target, 28 * target),
            "target {target}x produced the wrong size"
        );
    }
}

/// Progress must climb once to its total across all passes, not restart.
#[test]
fn progress_is_continuous_across_passes() {
    let src = test_pattern(64, 64);
    let backend = ResampleBackend::new(2, "triangle").unwrap();
    let mut seen = Seen(Vec::new());
    // 2x model, 7x target: three passes to 8x, then a resample down.
    let opts = UpscaleOptions { tile: 32, overlap: 8 };
    upscale_to_target(&src, &backend, 7, opts, &blender(), &mut seen).unwrap();

    let seen = seen.0;
    let total = seen[0].1;
    assert_eq!(seen.len(), total, "reported count must match the total");
    let mut counts: Vec<usize> = seen.iter().map(|&(n, _)| n).collect();
    counts.sort_unstable();
    assert_eq!(counts, (1..=total).collect::<Vec<_>>());
}

#[test]
fn unit_target_returns_the_original_size() {
    let src = test_pattern(50, 30);
    let backend = ResampleBackend::new(4, "lanczos3").unwrap();
    let out = upscale_to_target(
        &src,
        &backend,
        1,
        UpscaleOptions::default(),
        &blender(),
        &mut Quiet::new(),
    )
    .unwrap();
    assert_eq!(out.dimensions(), (50, 30));
}

/// Peak memory must not grow with output height, or nothing is gained.
#[test]
fn scratch_memory_is_independent_of_output_height() {
    let short = accumulator_bytes(80_000, 256, 4);
    let tall = accumulator_bytes(80_000, 256, 4);
    assert_eq!(short, tall);
    // A 20k-wide map at 4x should need a bounded band, not 128 GiB.
    assert!(
        accumulator_bytes(80_000, 256, 4) < 4 << 30,
        "band buffer should stay under 4 GiB"
    );
}

#[test]
fn scratch_memory_is_twenty_bytes_a_pixel_over_two_bands() {
    assert_eq!(accumulator_bytes(10, 3, 4), 10 * 24 * 20);
    assert_eq!(accumulator_bytes(0, 3, 4), 0);
}

#[test]
fn empty_source_is_an_error() {
    let backend = ResampleBackend::new(2, "nearest").unwrap();
    let empty = RgbaImage::from_raw(0, 0, Vec::new()).unwrap();
    assert!(upscale_tiled(
        &empty,
        &backend,
        UpscaleOptions::default(),
        &blender(),
        &mut Quiet::new()
    )
    .is_err());
}

/// A backend that repeats pixels, and so treats each alike wherever tiles end.
struct Repeat;

impl Upscaler for Repeat {
    fn name(&self) -> &str {
        "repeat"
    }

    fn scale_factor(&self) -> u32 {
        3
    }

    fn preferred_tile(&self) -> Option<u32> {
        None
    }

    fn upscale(&self, tile: &RgbaImage) -> Result<RgbaImage, BackendError> {
        let (w, h) = tile.dimensions();
        Ok(image(w * 3, h * 3, |x, y| {
            let p = tile.get_pixel(x / 3, y / 3);
            [p.r, p.g, p.b, p.a]
        }))
    }
}

#[test]
fn a_backend_that_ignores_tile_borders_is_reproduced_exactly() {
    let src = test_pattern(61, 47);
    let ideal = Repeat.upscale(&src).unwrap();
    for (tile, overlap) in [(64, 0), (16, 4), (16, 12), (20, 0), (7, 6)] {
        let opts = UpscaleOptions { tile, overlap };
        let out = upscale_tiled(&src, &Repeat, opts, &blender(), &mut Quiet::new()).unwrap();
        assert_eq!(out, ideal, "tile={tile} overlap={overlap}");
    }
}

#[test]
fn exact_powers_are_chained_passes() {
    let src = test_pattern(9, 6);
    let once = Repeat.upscale(&src).unwrap();
    let twice = Repeat.upscale(&once).unwrap();
    let opts = UpscaleOptions { tile: 5, overlap: 2 };
    let out =
        upscale_to_target(&src, &Repeat, 9, opts, &blender(), &mut Quiet::new()).unwrap();
    assert_eq!(out, twice);
}

#[test]
fn other_targets_overshoot_and_are_resampled() {
    let src = test_pattern(9, 6);
    let once = Repeat.upscale(&src).unwrap();
    let opts = UpscaleOptions { tile: 5, overlap: 2 };
    let out =
        upscale_to_target(&src, &Repeat, 2, opts, &blender(), &mut Quiet::new()).unwrap();
    assert_eq!(out, resize(&once, 18, 12, Filter::Lanczos3));
}

#[test]
fn streamed_rows_make_up_the_in_memory_result() {
    let src = test_pattern(40, 33);
    let backend = ResampleBackend::new(2, "lanczos3").unwrap();
    let opts = UpscaleOptions { tile: 16, overlap: 4 };
    let whole =
        upscale_to_target(&src, &backend, 2, opts, &blender(), &mut Quiet::new()).unwrap();
    let mut sink = MemorySink::new(80, 66);
    upscale_to_sink(&src, &backend, 2, opts, &blender(), &mut sink, &mut Quiet::new()).unwrap();
    assert_eq!(sink.into_image().unwrap(), whole);
}

/// Takes a number of writes, then fails.
struct Full(usize);

impl RowSink for Full {
    fn write_rows(&mut self, _rgba: &[u8]) -> Result<(), SinkError> {
        if self.0 == 0 {
            return Err(SinkError { message: "disk full".to_string() });
        }
        self.0 -= 1;
        Ok(())
    }

    fn finish(&mut self) -> Result<(), SinkError> {
        Ok(())
    }
}

#[test]
fn a_sink_that_fails_stops_the_run() {
    let src = test_pattern(30, 30);
    let opts = UpscaleOptions { tile: 10, overlap: 2 };
    let mut seen = Seen(Vec::new());
    let r = upscale_to_sink(&src, &Repeat, 3, opts, &blender(), &mut Full(1), &mut seen);
    assert_eq!(r, Err(Error::Sink(SinkError { message: "disk full".to_string() })));
    let r = upscale_to_sink(&src, &Repeat, 3, opts, &blender(), &mut Full(9), &mut seen);
    assert_eq!(r, Ok(()));
}

/// Fails on some tiles, or returns them at the wrong size.
struct Broken {
    wrong_size: bool,
}

impl Upscaler for Broken {
    fn name(&self) -> &str {
        "broken"
    }

    fn scale_factor(&self) -> u32 {
        2
    }

    fn preferred_tile(&self) -> Option<u32> {
        None
    }

    fn upscale(&self, tile: &RgbaImage) -> Result<RgbaImage, BackendError> {
        if self.wrong_size {
            Ok(tile.clone())
        } else {
            Err(BackendError::new("out of memory"))
        }
    }
}

#[test]
fn failures_of_the_backend_are_passed_on() {
    let src = test_pattern(8, 6);
    let opts = UpscaleOptions { tile: 16, overlap: 4 };
    let mut seen = Seen(Vec::new());
    let r = upscale_tiled(&src, &Broken { wrong_size: false }, opts, &blender(), &mut seen);
    assert_eq!(r, Err(Error::Backend(BackendError::new("out of memory"))));
    let r = upscale_tiled(&src, &Broken { wrong_size: true }, opts, &blender(), &mut seen);
    assert_eq!(
        r,
        Err(Error::WrongTileSize {
            backend: "broken".to_string(),
            got: (8, 6),
            tile: (8, 6),
            expected: (16, 12),
        })
    );
    assert!(seen.0.is_empty());
}

#[test]
fn the_tile_size_does_not_matter_before_tiles_are_cut() {
    let src = test_pattern(8, 6);
    let empty = RgbaImage::from_raw(4, 0, Vec::new()).unwrap();
    let opts = UpscaleOptions { tile: 0, overlap: 0 };
    let backend = ResampleBackend::new(2, "nearest").unwrap();
    let b = blender();
    let mut quiet = Quiet::new();
    assert_eq!(
        upscale_tiled(&empty, &backend, opts, &b, &mut quiet),
        Err(Error::EmptySource)
    );
    assert_eq!(
        upscale_to_target(&empty, &backend, 2, opts, &b, &mut quiet),
        Err(Error::EmptySource)
    );
    let mut run = |img: &RgbaImage, target| {
        upscale_to_sink(img, &backend, target, opts, &b, &mut Full(0), &mut quiet)
    };
    assert_eq!(run(&empty, 2), Err(Error::EmptySource));
    assert_eq!(run(&src, 0), Err(Error::Scale(ScaleError::ZeroTarget)));
    assert_eq!(
        run(&src, 65),
        Err(Error::Scale(ScaleError::OutOfReach { target: 65, native: 2 }))
    );
}

#[test]
fn runs_are_refused_before_they_start() {
    let src = test_pattern(8, 6);
    let empty = RgbaImage::from_raw(4, 0, Vec::new()).unwrap();
    let opts = UpscaleOptions { tile: 16, overlap: 4 };
    let backend = ResampleBackend::new(2, "nearest").unwrap();
    let mut seen = Seen(Vec::new());
    let b = blender();
    let mut run = |img: &RgbaImage, target| {
        upscale_to_sink(img, &backend, target, opts, &b, &mut Full(0), &mut seen)
    };
    assert_eq!(run(&empty, 2), Err(Error::EmptySource));
    assert_eq!(run(&src, 0), Err(Error::Scale(ScaleError::ZeroTarget)));
    assert_eq!(
        run(&src, 65),
        Err(Error::Scale(ScaleError::OutOfReach { target: 65, native: 2 }))
    );
    assert!(seen.0.is_empty());
    let huge = ResampleBackend::new(u32::MAX, "nearest").unwrap();
    assert_eq!(
        upscale_tiled(&src, &huge, opts, &b, &mut Quiet::new()),
        Err(Error::TooLarge)
    );
}

#[test]
fn each_error_says_what_went_wrong() {
    let text = |e: Error| e.message();
    assert_eq!(text(Error::EmptySource), "source image is empty");
    assert_eq!(text(Error::TooLarge), "the image is too large to be enlarged");
    assert_eq!(text(Error::Scale(ScaleError::ZeroTarget)), "target scale must be at least 1");
    assert_eq!(
        text(Error::Scale(ScaleError::ZeroNative)),
        "model scale factor must be at least 1"
    );
    assert_eq!(
        text(Error::Scale(ScaleError::OutOfReach { target: 65, native: 2 })),
        "cannot reach 65x with a 2x model in 6 passes"
    );
    assert_eq!(text(Error::Backend(BackendError::new("out of memory"))), "out of memory");
    assert_eq!(text(Error::Sink(SinkError { message: "disk full".to_string() })), "disk full");
    let wrong = Error::WrongTileSize {
        backend: "broken".to_string(),
        got: (8, 6),
        tile: (8, 6),
        expected: (16, 12),
    };
    assert_eq!(
        text(wrong),
        "backend broken returned (8, 6) for a 8x6 tile, expected 16x12"
    );
}

#[test]
fn an_image_in_one_tile_is_handed_over_whole() {
    let src = test_pattern(23, 17);
    let backend = ResampleBackend::new(2, "lanczos3").unwrap();
    let out = tiled(&src, &backend, UpscaleOptions { tile: 23, overlap: 8 });
    assert_eq!(out, backend.upscale(&src).unwrap());
}

/// Three tiles meet where 191 pixels are covered 100 at a time; blending divides by
/// the total weight, so nothing shows.
#[test]
fn pixels_under_three_tiles_are_kept() {
    let src = test_pattern(191, 3);
    let opts = UpscaleOptions { tile: 100, overlap: 10 };
    let out = upscale_tiled(&src, &Repeat, opts, &blender(), &mut Quiet::new()).unwrap();
    assert_eq!(out, Repeat.upscale(&src).unwrap());
}

/// Keeps every call.
#[derive(Default)]
struct Calls {
    rows: Vec<Vec<u8>>,
    finished: usize,
    late: bool,
    full_at: Option<usize>,
}

impl RowSink for Calls {
    fn write_rows(&mut self, rgba: &[u8]) -> Result<(), SinkError> {
        self.late |= self.finished > 0;
        if self.full_at == Some(self.rows.len()) {
            return Err(SinkError { message: "no space".to_string() });
        }
        self.rows.push(rgba.to_vec());
        Ok(())
    }

    fn finish(&mut self) -> Result<(), SinkError> {
        self.finished += 1;
        Ok(())
    }
}

#[test]
fn rows_go_out_once_per_row_of_tiles() {
    let src = test_pattern(20, 31);
    let opts = UpscaleOptions { tile: 10, overlap: 3 };
    let plan = tessera::TilePlan::new(20, 31, 3, 10, 3);
    let mut starts: Vec<u32> = plan.tiles.iter().map(|t| t.dst.y).collect();
    starts.dedup();
    starts.push(93);
    let mut sink = Calls::default();
    upscale_to_sink(&src, &Repeat, 3, opts, &blender(), &mut sink, &mut Quiet::new()).unwrap();
    let sizes: Vec<usize> = sink.rows.iter().map(|r| r.len()).collect();
    let want: Vec<usize> =
        starts.windows(2).map(|p| (p[1] - p[0]) as usize * 60 * 4).collect();
    assert_eq!(sizes, want);
    assert!(sizes.len() > 3);
    assert_eq!((sink.finished, sink.late), (1, false));
    assert_eq!(sink.rows.concat(), Repeat.upscale(&src).unwrap().into_raw());
}

#[test]
fn a_resampled_result_goes_out_at_once() {
    let src = test_pattern(9, 6);
    let opts = UpscaleOptions { tile: 5, overlap: 2 };
    let mut sink = Calls::default();
    upscale_to_sink(&src, &Repeat, 2, opts, &blender(), &mut sink, &mut Quiet::new()).unwrap();
    assert_eq!(sink.rows.len(), 1);
    assert_eq!(sink.rows[0].len(), 18 * 12 * 4);
    assert_eq!((sink.finished, sink.late), (1, false));
}

/// Repeats pixels, but fails on tiles that hold a marked one.
struct Picky;

impl Upscaler for Picky {
    fn name(&self) -> &str {
        "picky"
    }

    fn scale_factor(&self) -> u32 {
        3
    }

    fn preferred_tile(&self) -> Option<u32> {
        None
    }

    fn upscale(&self, tile: &RgbaImage) -> Result<RgbaImage, BackendError> {
        if tile.as_raw().chunks(4).any(|p| p == [1, 2, 3, 4]) {
            return Err(BackendError::new("marked"));
        }
        Repeat.upscale(tile)
    }
}

#[test]
fn a_failing_tile_leaves_whole_rows_and_an_open_sink() {
    let src = image(20, 31, |x, y| {
        if (x, y) == (12, 20) {
            [1, 2, 3, 4]
        } else {
            [x as u8, y as u8, 200, 255]
        }
    });
    let opts = UpscaleOptions { tile: 10, overlap: 3 };
    let plan = tessera::TilePlan::new(20, 31, 3, 10, 3);
    let k = plan.tiles.iter().position(|t| {
        t.src.x <= 12 && 12 < t.src.right() && t.src.y <= 20 && 20 < t.src.bottom()
    });
    let k = k.unwrap();
    let mut sink = Calls::default();
    let mut seen = Seen(Vec::new());
    let r = upscale_to_sink(&src, &Picky, 3, opts, &blender(), &mut sink, &mut seen);
    assert_eq!(r, Err(Error::Backend(BackendError::new("marked"))));
    assert_eq!(sink.finished, 0);
    let rows = plan.tiles[k].dst.y as usize;
    assert!(rows > 0 && rows < 93);
    assert_eq!(sink.rows.concat().len(), rows * 60 * 4);
    assert_eq!(seen.0.len(), k);
    // The rows that went out are those of the whole image.
    let whole = Repeat.upscale(&src).unwrap();
    assert_eq!(sink.rows.concat(), whole.as_raw()[..rows * 60 * 4]);
    // In an earlier pass, or before resampling, nothing goes out.
    for target in [9, 2] {
        let mut sink = Calls::default();
        let r =
            upscale_to_sink(&src, &Picky, target, opts, &blender(), &mut sink, &mut Quiet::new());
        assert!(r.is_err());
        assert_eq!((sink.rows.len(), sink.finished), (0, 0));
    }
}

#[test]
fn the_error_of_a_sink_is_its_own() {
    let src = test_pattern(20, 31);
    let opts = UpscaleOptions { tile: 10, overlap: 3 };
    let mut sink = Calls { full_at: Some(2), ..Calls::default() };
    let r = upscale_to_sink(&src, &Repeat, 3, opts, &blender(), &mut sink, &mut Quiet::new());
    assert_eq!(r, Err(Error::Sink(SinkError { message: "no space".to_string() })));
    assert_eq!((sink.rows.len(), sink.finished), (2, 0));
}

#[test]
fn clear_pixels_come_out_clear() {
    let src = image(30, 8, |x, y| if x < 15 { [200, 9, y as u8, 0] } else { [5, 6, 7, 255] });
    let opts = UpscaleOptions { tile: 8, overlap: 3 };
    let out = upscale_tiled(&src, &Repeat, opts, &blender(), &mut Quiet::new()).unwrap();
    let want = image(30, 8, |x, _| if x < 15 { [0, 0, 0, 0] } else { [5, 6, 7, 255] });
    assert_eq!(out, Repeat.upscale(&want).unwrap());
}

#[test]
fn two_runs_agree() {
    let src = test_pattern(50, 40);
    let backend = ResampleBackend::new(2, "catmullrom").unwrap();
    let opts = UpscaleOptions { tile: 16, overlap: 5 };
    let run = || upscale_to_target(&src, &backend, 4, opts, &blender(), &mut Quiet::new());
    assert_eq!(run(), run());
}
