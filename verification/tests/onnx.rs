use tessera::backend::{BackendError, Upscaler};
use tessera::onnx::{
    assemble, expect_model_file, infer_scale, model_input_size, read_shapes, Device, FixedInput,
    OnnxBackend,
};
use tessera::planes::{from_nchw, is_opaque, pad_replicate, reattach_alpha, to_nchw};
use tessera::{Rgba, RgbaImage};

fn image(w: u32, h: u32, f: impl Fn(u32, u32) -> [u8; 4]) -> RgbaImage {
    let mut data = Vec::new();
    for y in 0..h {
        for x in 0..w {
            data.extend_from_slice(&f(x, y));
        }
    }
    RgbaImage::from_raw(w, h, data).unwrap()
}

fn rgba(p: [u8; 4]) -> Rgba {
    Rgba { r: p[0], g: p[1], b: p[2], a: p[3] }
}

fn encode(b: u8) -> f32 {
    b as f32 / 255.0
}

fn decode(v: f32) -> u8 {
    (v.clamp(0.0, 1.0) * 255.0).round() as u8
}

#[test]
fn scale_is_read_from_static_shapes() {
    assert_eq!(infer_scale(&[1, 3, 128, 128], &[1, 3, 512, 512]), Some(4));
    assert_eq!(infer_scale(&[1, 3, 64, 64], &[1, 3, 128, 128]), Some(2));
}

#[test]
fn dynamic_shapes_yield_no_scale() {
    assert_eq!(infer_scale(&[1, 3, -1, -1], &[1, 3, -1, -1]), None);
}

#[test]
fn anisotropic_and_fractional_scales_are_declined() {
    assert_eq!(infer_scale(&[1, 3, 100, 100], &[1, 3, 200, 400]), None);
    assert_eq!(infer_scale(&[1, 3, 100, 100], &[1, 3, 150, 150]), None);
}

#[test]
fn replicate_padding_extends_edges() {
    let src = image(2, 2, |x, y| [(x * 10) as u8, (y * 20) as u8, 0, 255]);
    let padded = pad_replicate(&src, 4, 4);
    assert_eq!(padded.get_pixel(3, 3), rgba([10, 20, 0, 255]));
    assert_eq!(padded.get_pixel(0, 3), rgba([0, 20, 0, 255]));
    // No black border: padding must never introduce a colour the tile lacks.
    assert!(padded.as_raw().chunks(4).all(|p| p[3] == 255));
}

#[test]
fn nchw_round_trips() {
    let src = image(5, 3, |x, y| {
        [(x * 40) as u8, (y * 60) as u8, ((x + y) * 20) as u8, 255]
    });
    let restored = from_nchw(&to_nchw(&src, &encode), 5, 3, &decode);
    assert_eq!(restored, src);
}

#[test]
fn planes_stand_one_after_the_other() {
    let src = image(2, 1, |x, _| [1 + x as u8, 3 + x as u8, 5 + x as u8, 9]);
    let double = |b: u8| b as u16 * 2;
    assert_eq!(to_nchw(&src, &double), vec![2, 4, 6, 8, 10, 12]);
}

#[test]
fn opaque_tiles_keep_full_alpha() {
    let original = image(4, 4, |_, _| [1, 2, 3, 255]);
    let rgb = image(8, 8, |_, _| [9, 9, 9, 255]);
    let out = reattach_alpha(rgb, &original, 2);
    assert!(out.as_raw().chunks(4).all(|p| p[3] == 255));
    assert!(is_opaque(&out));
}

#[test]
fn transparency_is_carried_across() {
    let original = image(8, 8, |x, _| [0, 0, 0, if x < 4 { 255 } else { 0 }]);
    let rgb = image(16, 16, |_, _| [9, 9, 9, 255]);
    let out = reattach_alpha(rgb, &original, 2);
    assert_eq!(out.get_pixel(1, 1).a, 255);
    assert_eq!(out.get_pixel(14, 1).a, 0);
    assert_eq!(out.get_pixel(14, 1).r, 9);
    assert!(!is_opaque(&original));
}

#[test]
fn alpha_is_resampled_by_the_image_crate() {
    let original = image(6, 5, |x, y| [0, 0, 0, (x * 40 + y * 3) as u8]);
    let plane: Vec<u8> = original.as_raw().chunks(4).map(|p| p[3]).collect();
    let gray = image::GrayImage::from_raw(6, 5, plane).unwrap();
    let want = image::imageops::resize(&gray, 12, 10, image::imageops::FilterType::Lanczos3);
    let rgb = image(12, 10, |_, _| [9, 9, 9, 255]);
    let out = reattach_alpha(rgb, &original, 2);
    let got: Vec<u8> = out.as_raw().chunks(4).map(|p| p[3]).collect();
    assert_eq!(got, want.into_raw());
}

#[test]
fn missing_model_file_is_reported_clearly() {
    let path = "/nonexistent/model.onnx";
    let err = match expect_model_file(path, std::path::Path::new(path).is_file()) {
        Err(e) => e.message,
        Ok(_) => panic!("loading a missing model should fail"),
    };
    assert!(err.contains("no model file"), "unhelpful error: {err}");
    assert!(err.contains(path));
    assert!(expect_model_file("model.onnx", true).is_ok());
}

#[test]
fn the_device_is_chosen_by_the_runtime_unless_told() {
    assert_eq!(Device::default(), Device::Auto);
}

#[test]
fn shapes_are_read_or_refused() {
    let fixed = FixedInput { width: 128, height: 64 };
    assert_eq!(
        read_shapes(&[1, 3, 64, 128], &[1, 3, 256, 512], None),
        Ok((Some(fixed), 4))
    );
    assert_eq!(read_shapes(&[1, -1, -1, -1], &[1, 3, -1, -1], Some(2)), Ok((None, 2)));
    let refused = |i: &[i64], o: &[i64], s| read_shapes(i, o, s).unwrap_err().message;
    assert_eq!(
        refused(&[3, 64, -1], &[1, 3, 64, 64], None),
        "expected 4-D NCHW tensors, got input [3, 64, -1] and output [1, 3, 64, 64]"
    );
    assert_eq!(
        refused(&[1, 1, 64, 64], &[1, 3, 64, 64], None),
        "expected a 3-channel RGB input, got 1 channels"
    );
    assert_eq!(
        refused(&[1, 3, 64, 64], &[1, 3, 128, 128], Some(4)),
        "model scales by 2x but 4x was requested"
    );
    assert_eq!(
        refused(&[1, 3, -1, -1], &[1, 3, -1, -1], None),
        "model has dynamic input and output shapes, so its scale factor \
         cannot be read from the graph; pass --scale explicitly"
    );
    assert_eq!(
        refused(&[1, 3, -1, -1], &[1, 3, -1, -1], Some(0)),
        "model scale factor must be >= 1, got 0"
    );
    assert_eq!(
        refused(&[i64::MIN], &[], None),
        "expected 4-D NCHW tensors, got input [-9223372036854775808] and output []"
    );
}

#[test]
fn tiles_are_fitted_to_a_fixed_input() {
    let fixed = Some(FixedInput { width: 128, height: 64 });
    assert_eq!(model_input_size(None, 5, 7), Ok((5, 7)));
    assert_eq!(model_input_size(fixed, 5, 7), Ok((128, 64)));
    assert_eq!(
        model_input_size(fixed, 100, 65).unwrap_err().message,
        "model accepts at most 128x64 pixels but the tile is 100x65; rerun with --tile 64"
    );
}

#[test]
fn replies_are_assembled_or_refused() {
    let tile = image(2, 1, |x, _| [0, 0, 0, if x == 0 { 255 } else { 128 }]);
    let opaque = image(2, 1, |_, _| [0, 0, 0, 255]);
    let same = |b: u8| b;
    let refused = |dims: Vec<i64>, data: Vec<u8>| {
        assemble(&opaque, 2, &dims, &data, &same).unwrap_err().message
    };
    assert_eq!(
        refused(vec![1, 3, 2], vec![]),
        "expected a 4-D output tensor, got shape [1, 3, 2]"
    );
    assert_eq!(
        refused(vec![1, 3, 2, 3], vec![0; 18]),
        "model returned 3x2, too small for a 4x2 result"
    );
    assert_eq!(
        refused(vec![1, 3, 2, 4], vec![0; 23]),
        "model returned too few values for 4x2"
    );
    assert_eq!(
        assemble(&opaque, u32::MAX, &vec![1, 3, 2, 4], &vec![0u8; 24], &same)
            .unwrap_err()
            .message,
        "the tile is too large to enlarge"
    );
    // Padding to the right and below is cut off.
    let data: Vec<u8> = (0..3 * 5 * 3).map(|i| i as u8).collect();
    let out = assemble(&opaque, 2, &vec![1, 3, 3, 5], &data, &same).unwrap();
    assert_eq!(out.dimensions(), (4, 2));
    assert_eq!(out.get_pixel(3, 1), rgba([8, 23, 38, 255]));
    let out = assemble(&tile, 1, &vec![1, 3, 3, 5], &data, &same).unwrap();
    assert_eq!(out.get_pixel(1, 0), rgba([1, 16, 31, 128]));
}

/// A model that repeats every value.
fn repeat(planes: Vec<f32>, w: u32, h: u32) -> Result<(Vec<i64>, Vec<f32>), BackendError> {
    let (w, h) = (w as usize, h as usize);
    let mut out = Vec::new();
    for c in 0..3 {
        for y in 0..2 * h {
            for x in 0..2 * w {
                out.push(planes[c * w * h + y / 2 * w + x / 2]);
            }
        }
    }
    Ok((vec![1, 3, 2 * h as i64, 2 * w as i64], out))
}

#[test]
fn a_model_is_run_on_the_padded_tile() {
    let model = OnnxBackend::new(
        Some("repeat-x2"),
        &[1, 3, 8, 16],
        &[1, 3, 16, 32],
        None,
        encode,
        repeat,
        decode,
    )
    .unwrap();
    assert_eq!(model.name(), "onnx:repeat-x2");
    assert_eq!(model.scale_factor(), 2);
    assert_eq!(model.preferred_tile(), Some(8));
    let tile = image(5, 3, |x, y| [(x * 40) as u8, (y * 60) as u8, 7, 255]);
    let out = model.upscale(&tile).unwrap();
    assert_eq!(out.dimensions(), (10, 6));
    for y in 0..6 {
        for x in 0..10 {
            assert_eq!(out.get_pixel(x, y), tile.get_pixel(x / 2, y / 2));
        }
    }
    let wide = image(17, 3, |_, _| [0, 0, 0, 255]);
    assert!(model.upscale(&wide).is_err());
    let empty = RgbaImage::from_raw(0, 0, Vec::new()).unwrap();
    assert_eq!(
        model.upscale(&empty).unwrap_err().message,
        "cannot upscale a zero-sized tile"
    );
}

#[test]
fn failures_of_the_model_are_passed_on() {
    let fail = |_: Vec<f32>, _: u32, _: u32| -> Result<(Vec<i64>, Vec<f32>), BackendError> {
        Err(BackendError::new("inference failed"))
    };
    let model =
        OnnxBackend::new(None, &[1, 3, -1, -1], &[1, 3, -1, -1], Some(4), encode, fail, decode)
            .unwrap();
    assert_eq!(model.name(), "onnx:model");
    assert_eq!(model.preferred_tile(), None);
    let tile = image(2, 2, |_, _| [0, 0, 0, 255]);
    assert_eq!(model.upscale(&tile).unwrap_err().message, "inference failed");
}

#[test]
fn padding_leaves_no_trace() {
    let keep = |planes: Vec<f32>, w: u32, h: u32| -> Result<(Vec<i64>, Vec<f32>), BackendError> {
        Ok((vec![1, 3, h as i64, w as i64], planes))
    };
    let shape = [1, 3, 9, 11];
    let model = OnnxBackend::new(None, &shape, &shape, None, encode, keep, decode).unwrap();
    for (w, h) in [(11, 9), (4, 7), (1, 1)] {
        let tile = image(w, h, |x, y| [(x * 20) as u8, (y * 25) as u8, (x + y) as u8, 255]);
        assert_eq!(model.upscale(&tile).unwrap(), tile);
        assert_eq!(pad_replicate(&tile, w, h), tile);
    }
}

#[test]
fn colours_survive_the_planes_and_alpha_does_not() {
    let src = image(3, 2, |x, y| [(x * 40) as u8, (y * 60) as u8, 9, (x * 100) as u8]);
    let want = image(3, 2, |x, y| [(x * 40) as u8, (y * 60) as u8, 9, 255]);
    assert_eq!(from_nchw(&to_nchw(&src, &encode), 3, 2, &decode), want);
}

#[test]
fn long_tiles_with_alpha_are_assembled() {
    let (w, s) = (2_097_153u32, 4u32);
    let tile = image(w, 1, |x, _| [0, 0, 0, if x == 0 { 254 } else { 255 }]);
    let dims = vec![1, 3, s as i64, (w * s) as i64];
    let data = vec![7u8; (3 * s * w * s) as usize];
    let out = assemble(&tile, s, &dims, &data, &|b: u8| b).unwrap();
    assert_eq!(out.dimensions(), (w * s, s));
    assert_eq!(out.get_pixel(w * s - 1, 3), rgba([7, 7, 7, 255]));
}
