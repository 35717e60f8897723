use tessera::sink::{IncompleteImage, MemorySink, RowSink};
use tessera::Rgba;

#[test]
fn memory_sink_assembles_rows_in_order() {
    let mut sink = MemorySink::new(2, 2);
    sink.write_rows(&[1, 2, 3, 4, 5, 6, 7, 8]).unwrap();
    sink.write_rows(&[9, 10, 11, 12, 13, 14, 15, 16]).unwrap();
    sink.finish().unwrap();
    let img = sink.into_image().unwrap();
    assert_eq!(img.get_pixel(0, 0), Rgba { r: 1, g: 2, b: 3, a: 4 });
    assert_eq!(img.get_pixel(1, 1), Rgba { r: 13, g: 14, b: 15, a: 16 });
}

#[test]
fn memory_sink_rejects_a_short_image() {
    let mut sink = MemorySink::new(4, 4);
    sink.write_rows(&[0; 16]).unwrap();
    assert!(sink.into_image().is_err(), "must not pad a partial image");
}

#[test]
fn a_short_image_says_what_is_missing() {
    let mut sink = MemorySink::new(4, 4);
    sink.write_rows(&[0; 16]).unwrap();
    let missing = sink.into_image().unwrap_err();
    assert_eq!(missing, IncompleteImage { held: 16, width: 4, height: 4, needed: 64 });
    assert_eq!(missing.message(), "sink holds 16 bytes but 4x4 needs 64");
}

#[test]
fn memory_sink_rejects_a_long_image() {
    let mut sink = MemorySink::new(1, 1);
    sink.write_rows(&[0; 8]).unwrap();
    assert!(sink.into_image().is_err());
}
