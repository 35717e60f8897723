use tessera::backend::{BackendError, ResampleBackend, Upscaler};
use tessera::blend::Blender;
use tessera::desktop::{
    choose_engine, compare, comparison_side, options_for, prepare, should_report, writes_png,
    Engine,
};
use tessera::models::ModelEntry;
use tessera::pass::{Error, UpscaleOptions};
use tessera::preview::region;
use tessera::resize::{resize, Filter};
use tessera::scale::{ScaleError, ScaleStrategy};
use tessera::tiling::Weight;
use tessera::{Rgba, RgbaImage};

struct Fixed(u32);

impl Upscaler for Fixed {
    fn name(&self) -> &str {
        "fixed"
    }

    fn scale_factor(&self) -> u32 {
        2
    }

    fn preferred_tile(&self) -> Option<u32> {
        Some(self.0)
    }

    fn upscale(&self, _tile: &RgbaImage) -> Result<RgbaImage, BackendError> {
        Err(BackendError::new("not for use"))
    }
}

#[test]
fn a_fixed_input_dictates_the_tile() {
    let free = ResampleBackend::new(2, "lanczos3").unwrap();
    assert_eq!(options_for(&free), UpscaleOptions { tile: 256, overlap: 32 });
    assert_eq!(options_for(&Fixed(128)), UpscaleOptions { tile: 128, overlap: 16 });
    assert_eq!(options_for(&Fixed(40)), UpscaleOptions { tile: 40, overlap: 8 });
}

#[test]
fn options_have_sensible_defaults() {
    assert_eq!(UpscaleOptions::default(), UpscaleOptions { tile: 256, overlap: 32 });
}

#[test]
fn without_a_model_there_is_basic_enlargement() {
    let basic = choose_engine(&vec![], "maps");
    assert_eq!(basic.label(), "Basic enlargement");
    assert!(!basic.is_neural());
    let line = ModelEntry { path: "/m/line.onnx".to_string(), name: "line".to_string() };
    let chosen = choose_engine(&vec![line.clone()], "maps");
    assert_eq!(chosen, Engine::Model { entry: line });
    assert_eq!(chosen.label(), "line");
    assert!(chosen.is_neural());
}

#[test]
fn comparisons_are_about_as_large_at_any_scale() {
    assert_eq!(comparison_side(0), 512);
    assert_eq!(comparison_side(1), 512);
    assert_eq!(comparison_side(4), 300);
    assert_eq!(comparison_side(10), 120);
    assert_eq!(comparison_side(100), 64);
}

#[test]
fn large_jobs_report_no_more_than_small_ones() {
    for total in [1, 3, 199, 200, 399, 400, 12_345, 1_000_000] {
        let reports = (1..=total).filter(|&n| should_report(n, total)).count();
        assert!(reports >= 1 && reports <= 400, "{reports} of {total}");
        assert!(should_report(total, total));
    }
    assert_eq!((1..=100_000).filter(|&n| should_report(n, 100_000)).count(), 200);
}

#[test]
fn png_is_told_by_its_extension() {
    assert!(writes_png(Some("png")));
    assert!(writes_png(Some("PNG")));
    assert!(!writes_png(Some("jpg")));
    assert!(!writes_png(None));
}

#[test]
fn a_job_is_settled_before_it_starts() {
    let job = prepare(100, 50, 7, 4, Some("PNG")).unwrap();
    assert_eq!((job.out_width, job.out_height), (700, 350));
    assert_eq!(job.strategy, ScaleStrategy::plan(7, 4).unwrap());
    assert!(job.streamed);
    assert!(!prepare(100, 50, 7, 4, Some("tif")).unwrap().streamed);
    assert_eq!(prepare(1 << 31, 1, 2, 2, None), Err(Error::TooLarge));
    assert_eq!(prepare(1, 1, 0, 2, None), Err(Error::Scale(ScaleError::ZeroTarget)));
    assert_eq!(prepare(1, 1, 2, 0, None), Err(Error::Scale(ScaleError::ZeroNative)));
    assert_eq!(
        prepare(1, 1, 65, 2, None),
        Err(Error::Scale(ScaleError::OutOfReach { target: 65, native: 2 }))
    );
}

/// The last pixel wins.
fn last(_: Rgba, p: Rgba, _: Weight) -> Rgba {
    p
}

fn same(p: Rgba) -> Rgba {
    p
}

#[test]
fn a_comparison_shows_one_region_twice() {
    let data: Vec<u8> = (0..700 * 600 * 4).map(|i| (i * 7 % 251) as u8).collect();
    let source = RgbaImage::from_raw(700, 600, data).unwrap();
    let backend = ResampleBackend::new(4, "nearest").unwrap();
    let pick = Blender { zero: Rgba { r: 0, g: 0, b: 0, a: 0 }, add: last, resolve: same };
    let shown = compare(&source, &backend, 4, 690, 10, &pick).unwrap();
    assert_eq!(shown.source_px, 300);
    let patch = region(&source, 690, 10, 300);
    assert_eq!(shown.before, resize(&patch, 1200, 1200, Filter::Lanczos3));
    assert_eq!(shown.after, resize(&patch, 1200, 1200, Filter::Nearest));
    let empty = RgbaImage::from_raw(0, 0, Vec::new()).unwrap();
    assert_eq!(compare(&empty, &backend, 4, 0, 0, &pick), Err(Error::EmptySource));
}
