use tessera::raster::Canvas;
use tessera::{Rgba, RgbaImage};

fn numbered(w: u32, h: u32) -> RgbaImage {
    RgbaImage::from_raw(w, h, (0..w * h * 4).map(|i| i as u8).collect()).unwrap()
}

#[test]
fn pixels_are_read_row_by_row() {
    let img = numbered(3, 2);
    assert_eq!(img.dimensions(), (3, 2));
    assert_eq!((img.width(), img.height()), (3, 2));
    assert_eq!(img.get_pixel(0, 0), Rgba { r: 0, g: 1, b: 2, a: 3 });
    assert_eq!(img.get_pixel(2, 1), Rgba { r: 20, g: 21, b: 22, a: 23 });
}

#[test]
fn bytes_must_match_the_size() {
    assert!(RgbaImage::from_raw(2, 2, vec![0; 15]).is_none());
    assert!(RgbaImage::from_raw(2, 2, vec![0; 17]).is_none());
    assert!(RgbaImage::from_raw(u32::MAX, u32::MAX, vec![0; 4]).is_none());
}

#[test]
fn a_part_keeps_its_pixels() {
    let img = numbered(4, 3);
    let part = img.crop(1, 1, 2, 2);
    assert_eq!(part.dimensions(), (2, 2));
    for y in 0..2 {
        for x in 0..2 {
            assert_eq!(part.get_pixel(x, y), img.get_pixel(x + 1, y + 1));
        }
    }
}

#[test]
fn images_are_made_pixel_by_pixel() {
    let mut canvas = Canvas::new();
    let p = Rgba { r: 1, g: 2, b: 3, a: 4 };
    let q = Rgba { r: 5, g: 6, b: 7, a: 8 };
    canvas.push(p);
    canvas.push(q);
    let img = canvas.into_image(1, 2);
    assert_eq!(img.get_pixel(0, 1), q);
    assert_eq!(img.clone().into_raw(), vec![1, 2, 3, 4, 5, 6, 7, 8]);
}
