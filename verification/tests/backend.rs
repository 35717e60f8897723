use tessera::backend::{ResampleBackend, ResampleError, Upscaler};
use tessera::resize::{can_resize, resize, Filter};
use tessera::RgbaImage;

fn gradient(w: u32, h: u32) -> RgbaImage {
    let mut data = Vec::new();
    for y in 0..h {
        for x in 0..w {
            data.extend_from_slice(&[(x * 11) as u8, (y * 17) as u8, (x * y) as u8, 255]);
        }
    }
    RgbaImage::from_raw(w, h, data).unwrap()
}

#[test]
fn output_matches_the_declared_scale_factor() {
    let backend = ResampleBackend::new(4, "lanczos3").unwrap();
    let tile = RgbaImage::from_raw(16, 9, vec![0; 16 * 9 * 4]).unwrap();
    let out = backend.upscale(&tile).unwrap();
    assert_eq!(out.dimensions(), (64, 36));
}

#[test]
fn rejects_unknown_filters() {
    assert!(ResampleBackend::new(2, "bicubish").is_err());
}

#[test]
fn each_refusal_names_its_reason() {
    assert_eq!(
        ResampleBackend::new(0, "lanczos3").unwrap_err(),
        ResampleError::ZeroScale
    );
    assert_eq!(
        ResampleBackend::new(2, "BiCubish").unwrap_err(),
        ResampleError::UnknownFilter { name: "bicubish".to_string() }
    );
}

#[test]
fn filters_are_named_whatever_the_case() {
    for name in ["lanczos3", "CatmullRom", "GAUSSIAN", "triangle", "nearest"] {
        let backend = ResampleBackend::new(3, name).unwrap();
        assert_eq!(backend.name(), format!("resample:{}", name.to_lowercase()));
        assert_eq!(backend.scale_factor(), 3);
        assert_eq!(backend.preferred_tile(), None);
    }
}

#[test]
fn nearest_repeats_pixels() {
    let tile = gradient(5, 4);
    let out = ResampleBackend::new(2, "nearest").unwrap().upscale(&tile).unwrap();
    for y in 0..8 {
        for x in 0..10 {
            assert_eq!(out.get_pixel(x, y), tile.get_pixel(x / 2, y / 2));
        }
    }
}

#[test]
fn filters_are_those_of_the_image_crate() {
    let tile = gradient(12, 7);
    let kernels = [
        ("nearest", Filter::Nearest, image::imageops::FilterType::Nearest),
        ("triangle", Filter::Triangle, image::imageops::FilterType::Triangle),
        ("catmullrom", Filter::CatmullRom, image::imageops::FilterType::CatmullRom),
        ("gaussian", Filter::Gaussian, image::imageops::FilterType::Gaussian),
        ("lanczos3", Filter::Lanczos3, image::imageops::FilterType::Lanczos3),
    ];
    let plain = image::RgbaImage::from_raw(12, 7, tile.as_raw().clone()).unwrap();
    for (name, filter, kernel) in kernels {
        let want = image::imageops::resize(&plain, 24, 14, kernel).into_raw();
        let backend = ResampleBackend::new(2, name).unwrap();
        assert_eq!(backend.upscale(&tile).unwrap().into_raw(), want, "{name}");
        assert_eq!(resize(&tile, 24, 14, filter).into_raw(), want, "{name}");
    }
}

#[test]
fn resampling_to_the_same_size_changes_nothing() {
    let tile = gradient(12, 7);
    assert_eq!(resize(&tile, 12, 7, Filter::Lanczos3), tile);
}

#[test]
fn empty_and_oversized_tiles_are_refused() {
    let backend = ResampleBackend::new(2, "nearest").unwrap();
    let empty = RgbaImage::from_raw(0, 3, Vec::new()).unwrap();
    assert_eq!(
        backend.upscale(&empty).unwrap_err().message,
        "cannot upscale a zero-sized tile"
    );
    let huge = ResampleBackend::new(u32::MAX, "nearest").unwrap();
    assert_eq!(
        huge.upscale(&gradient(2, 2)).unwrap_err().message,
        "the tile is too large to enlarge"
    );
    assert!(can_resize(Filter::Lanczos3, 10, 10, 20, 20));
}

#[test]
fn sides_are_resampled_as_far_as_positions_can_be_told() {
    let can = |filter, side, new_side| can_resize(filter, side, 1, new_side, 1);
    assert!(can(Filter::Nearest, 100_000_000, 100_000_001));
    assert!(can(Filter::Lanczos3, 4_194_304, 1_000_000_000));
    assert!(can(Filter::Lanczos3, 8_388_608, 8_388_607));
    assert!(can(Filter::Lanczos3, 600_000 * 16, 600_000 * 7));
    assert!(can(Filter::Lanczos3, 16_777_216, 8_388_608));
    assert!(can(Filter::Lanczos3, 12_000_000, 9_000_000));
    assert!(can(Filter::CatmullRom, 12_000_000, 9_000_000));
    assert!(!can(Filter::Triangle, 12_000_000, 9_000_000));
    assert!(can(Filter::Lanczos3, 15_750_000, 15_000_000));
    assert!(!can(Filter::Lanczos3, 15_750_000, 15_000_001));
    assert!(!can(Filter::Triangle, 16_777_216, 8_388_609));
    assert!(can(Filter::Gaussian, 33_554_432, 67_108_864));
    assert!(!can(Filter::Gaussian, 33_554_433, 67_108_864));
    assert!(can(Filter::Lanczos3, 524_288 * 1400, 1400));
    assert!(!can(Filter::Lanczos3, 524_288 * 1400 + 1, 1400));
    assert!(!can(Filter::Lanczos3, 524_288 * 1400, 65_537));
    assert!(can(Filter::Triangle, u32::MAX, 0));
    assert!(!can(Filter::Lanczos3, 4_194_305, 8_388_609));
    assert!(!can(Filter::Triangle, 9_844_300, 9_844_301));
    assert!(!can_resize(Filter::Nearest, u32::MAX, 1, u32::MAX, u32::MAX));
}

#[test]
fn long_strips_are_resampled() {
    let strip = RgbaImage::from_raw(600_000, 1, vec![90; 600_000 * 4]).unwrap();
    let long = resize(&strip, 600_000 * 16, 1, Filter::Triangle);
    assert_eq!(long.dimensions(), (9_600_000, 1));
    let back = resize(&long, 600_000 * 7, 1, Filter::Triangle);
    assert_eq!(back.dimensions(), (4_200_000, 1));
    assert!(back.as_raw().iter().all(|&b| b == 90));
}

#[test]
fn long_strips_are_shrunk() {
    let strip = RgbaImage::from_raw(12_000_000, 1, vec![90; 48_000_000]).unwrap();
    let less = resize(&strip, 9_000_000, 1, Filter::CatmullRom);
    assert_eq!(less.dimensions(), (9_000_000, 1));
    assert!(less.as_raw().iter().all(|&b| b == 90));
}

#[test]
fn very_long_strips_are_shrunk_to_a_few_pixels() {
    let strip = RgbaImage::from_raw(17_000_000, 1, vec![90; 68_000_000]).unwrap();
    let few = resize(&strip, 1000, 1, Filter::Triangle);
    assert_eq!(few.dimensions(), (1000, 1));
    assert!(few.as_raw().iter().all(|&b| (89..=91).contains(&b)));
}

#[test]
fn images_without_pixels_are_resampled_whatever_their_width() {
    let wide = RgbaImage::from_raw(1 << 20, 0, Vec::new()).unwrap();
    assert_eq!(resize(&wide, 2, 1, Filter::Lanczos3).as_raw(), &vec![0; 8]);
    let row = RgbaImage::from_raw(2, 1, vec![7; 8]).unwrap();
    assert_eq!(resize(&row, 1 << 20, 0, Filter::Lanczos3).dimensions(), (1 << 20, 0));
    let rows_fit = 4 * (1u128 << 30) <= isize::MAX as u128;
    assert_eq!(can_resize(Filter::Lanczos3, 1 << 30, 0, 2, 1), rows_fit);
    assert_eq!(can_resize(Filter::Lanczos3, 2, 1, 1 << 30, 0), rows_fit);
}
