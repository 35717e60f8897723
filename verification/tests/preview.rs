use base64::Engine;
use tessera::preview::{fit, region, to_data_url, url_of, PreviewError};
use tessera::RgbaImage;

fn img(w: u32, h: u32) -> RgbaImage {
    let mut data = Vec::new();
    for y in 0..h {
        for x in 0..w {
            data.extend_from_slice(&[(x % 256) as u8, (y % 256) as u8, 0, 255]);
        }
    }
    RgbaImage::from_raw(w, h, data).unwrap()
}

fn side(length: u32, max: u32, longest: u32) -> u32 {
    let factor = (max as f32 / longest as f32).min(1.0);
    (length as f32 * factor).round() as u32
}

fn at(c: f32, length: u32) -> u32 {
    (c.clamp(0.0, 1.0) * length as f32) as u32
}

fn region_at(src: &RgbaImage, cx: f32, cy: f32, size: u32) -> RgbaImage {
    let (w, h) = src.dimensions();
    region(src, at(cx, w), at(cy, h), size)
}

#[test]
fn fit_leaves_small_images_untouched() {
    let src = img(100, 80);
    assert_eq!(fit(&src, 400, &side).unwrap().dimensions(), (100, 80));
    assert_eq!(fit(&src, 400, &side).unwrap(), src);
}

#[test]
fn fit_preserves_aspect_ratio() {
    let out = fit(&img(1000, 500), 200, &side).unwrap();
    assert_eq!(out.dimensions(), (200, 100));
}

#[test]
fn fit_never_loses_a_side() {
    assert_eq!(fit(&img(1000, 1), 10, &side).unwrap().dimensions(), (10, 1));
}

#[test]
fn region_stays_inside_the_image() {
    let src = img(300, 200);
    // Ask for a region hanging off the bottom-right corner.
    let r = region_at(&src, 1.0, 1.0, 128);
    assert_eq!(r.dimensions(), (128, 128));
    assert_eq!(r.get_pixel(127, 127), src.get_pixel(299, 199));
}

#[test]
fn region_shrinks_to_fit_a_small_image() {
    let r = region_at(&img(60, 40), 0.5, 0.5, 256);
    assert_eq!(r.dimensions(), (40, 40), "region cannot exceed the image");
}

#[test]
fn region_is_centred_where_it_can_be() {
    let src = img(100, 100);
    let r = region(&src, 50, 40, 10);
    assert_eq!(r.get_pixel(0, 0), src.get_pixel(45, 35));
    assert_eq!(region(&src, 2, 2, 10).get_pixel(0, 0), src.get_pixel(0, 0));
    let empty = RgbaImage::from_raw(0, 5, Vec::new()).unwrap();
    assert_eq!(region(&empty, 0, 5, 10).dimensions(), (0, 1));
}

#[test]
fn data_url_is_a_png() {
    let url = to_data_url(&img(4, 4)).unwrap();
    assert!(url.starts_with("data:image/png;base64,"));
    assert!(url.len() > 40);
}

#[test]
fn data_url_shows_the_image() {
    let src = img(7, 5);
    let url = to_data_url(&src).unwrap();
    let text = url.strip_prefix("data:image/png;base64,").unwrap();
    let bytes = base64::engine::general_purpose::STANDARD.decode(text).unwrap();
    assert_eq!(&bytes[1..4], b"PNG");
    let back = image::load_from_memory(&bytes).unwrap().to_rgba8();
    assert_eq!(back.dimensions(), (7, 5));
    assert_eq!(&back.into_raw(), src.as_raw());
}

#[test]
fn an_empty_image_has_no_data_url() {
    let empty = RgbaImage::from_raw(0, 3, Vec::new()).unwrap();
    assert_eq!(to_data_url(&empty), Err(PreviewError::Encoding));
    let long = RgbaImage::from_raw(1 << 30, 0, Vec::new()).unwrap();
    assert_eq!(to_data_url(&long), Err(PreviewError::TooLarge));
}

#[test]
fn bytes_are_written_in_base_64() {
    let text = |bytes: &[u8]| url_of(&bytes.to_vec()).unwrap()[22..].to_string();
    assert_eq!(text(b""), "");
    assert_eq!(text(b"f"), "Zg==");
    assert_eq!(text(b"fo"), "Zm8=");
    assert_eq!(text(b"foo"), "Zm9v");
    assert_eq!(text(b"foob"), "Zm9vYg==");
    assert_eq!(text(&[0, 16, 131, 251, 255, 255]), "ABCD+///");
}
