use tessera::sidecar::{first_present, sidecar_candidates, sidecar_extensions};
use tessera::world::{Arithmetic, WorldError, WorldFile};

const SAMPLE: &str = "2.0\n0.0\n0.0\n-2.0\n500000.0\n4649000.0\n";

fn number(line: &str) -> Option<f64> {
    line.parse::<f64>().ok()
}

fn show(v: f64) -> String {
    format!("{v:.12}")
}

fn parse(text: &str) -> Result<WorldFile<f64>, WorldError> {
    WorldFile::parse(text, &number)
}

fn scaled(w: WorldFile<f64>, scale: u32) -> WorldFile<f64> {
    let ops = Arithmetic {
        two: 2.0,
        add: |x: f64, y: f64| x + y,
        sub: |x: f64, y: f64| x - y,
        div: |x: f64, y: f64| x / y,
    };
    w.scaled(scale as f64, &ops)
}

#[test]
fn parses_line_order() {
    let w = parse(SAMPLE).unwrap();
    assert_eq!(w.a, 2.0);
    assert_eq!(w.e, -2.0);
    assert_eq!(w.c, 500000.0);
    assert_eq!(w.f, 4649000.0);
}

#[test]
fn round_trips_through_text() {
    let w = parse(SAMPLE).unwrap();
    assert_eq!(parse(&w.to_text(&show)).unwrap(), w);
}

#[test]
fn rejects_short_files() {
    assert!(parse("1.0\n2.0\n").is_err());
}

#[test]
fn scaling_shrinks_pixels() {
    let w = scaled(parse(SAMPLE).unwrap(), 4);
    assert_eq!(w.a, 0.5);
    assert_eq!(w.e, -0.5);
}

/// The invariant that matters: the outer corner of the image must not move, or the
/// upscaled map lands offset from where it was.
#[test]
fn scaling_keeps_the_image_corner_fixed() {
    let original = parse("2.0\n0.0\n0.0\n-2.0\n500000.0\n4649000.0\n").unwrap();
    let corner = |w: &WorldFile<f64>| (w.c - (w.a + w.b) / 2.0, w.f - (w.d + w.e) / 2.0);
    for scale in [2, 3, 4, 8] {
        let (x0, y0) = corner(&original);
        let (x1, y1) = corner(&scaled(original, scale));
        assert!(
            (x0 - x1).abs() < 1e-9 && (y0 - y1).abs() < 1e-9,
            "corner moved at scale {scale}: ({x0}, {y0}) -> ({x1}, {y1})"
        );
    }
}

/// Rotated/skewed world files are rare but legal; scaling must not drop the
/// rotation terms.
#[test]
fn scaling_preserves_rotation_terms() {
    let w = scaled(parse("2.0\n0.5\n0.25\n-2.0\n1000.0\n2000.0\n").unwrap(), 2);
    assert_eq!(w.d, 0.25);
    assert_eq!(w.b, 0.125);
}

#[test]
fn scaling_moves_the_first_pixel_inward() {
    let w = scaled(parse(SAMPLE).unwrap(), 4);
    // Half a pixel of two, less half a pixel of a half.
    assert_eq!(w.c, 500000.0 - 1.0 + 0.25);
    assert_eq!(w.f, 4649000.0 + 1.0 - 0.25);
}

#[test]
fn sidecar_naming_follows_convention() {
    let names = |p: &str| {
        sidecar_candidates(p)
            .iter()
            .filter_map(|c| {
                std::path::Path::new(c).extension().and_then(|e| e.to_str()).map(str::to_owned)
            })
            .collect::<Vec<_>>()
    };
    assert_eq!(names("/m/scan.tif")[0], "tfw");
    assert_eq!(names("/m/scan.png")[0], "pgw");
    assert_eq!(names("/m/scan.jpg")[0], "jgw");
    assert!(names("/m/scan.tif").contains(&"wld".to_string()));
}

#[test]
fn sidecars_stand_beside_the_image() {
    assert_eq!(
        sidecar_candidates("/m/scan.TIF"),
        vec!["/m/scan.tfw", "/m/scan.TFW", "/m/scan.tifw", "/m/scan.wld"]
    );
    assert_eq!(
        sidecar_candidates("../a..b/scan.png"),
        vec!["../a..b/scan.pgw", "../a..b/scan.PGW", "../a..b/scan.pngw", "../a..b/scan.wld"]
    );
    assert_eq!(sidecar_candidates("/m/scan"), vec!["/m/scan.wld"]);
    assert_eq!(sidecar_candidates("/m/scan.z"), vec!["/m/scan.zw", "/m/scan.wld"]);
    assert_eq!(sidecar_extensions(Some("")), vec!["w", "wld"]);
    assert_eq!(sidecar_extensions(None), vec!["wld"]);
}

#[test]
fn blank_lines_and_white_space_are_skipped() {
    let text = "\n 1 \r\n\t2\n\n\u{3000}3\u{a0}\n4\n5\n6\n7";
    let w = parse(text).unwrap();
    assert_eq!((w.a, w.d, w.b, w.e, w.c, w.f), (1.0, 2.0, 3.0, 4.0, 5.0, 6.0));
}

#[test]
fn trimming_agrees_with_the_standard_library() {
    for n in 0..0x11000u32 {
        let Some(c) = char::from_u32(n) else { continue };
        if c == '\n' {
            continue;
        }
        let text = format!("{c}x\n");
        let trimmed = c.is_whitespace();
        match WorldFile::<f64>::parse(&text, &|_: &str| None) {
            Err(WorldError::BadNumber { line }) => {
                assert_eq!(line == "x", trimmed, "U+{n:04X}")
            }
            other => panic!("{other:?}"),
        }
    }
}

#[test]
fn each_bad_file_says_why() {
    assert_eq!(parse("1\n2\n3\n4\n5\n"), Err(WorldError::TooFew { found: 5 }));
    assert_eq!(parse(""), Err(WorldError::TooFew { found: 0 }));
    // A bad number counts before a shortage, and the first one is told.
    assert_eq!(
        parse("1\n  two \nthree\n"),
        Err(WorldError::BadNumber { line: "two".to_string() })
    );
    assert_eq!(
        parse("1\n2\n3\n4\n5\n6\nlast"),
        Err(WorldError::BadNumber { line: "last".to_string() })
    );
}

#[test]
fn text_has_one_number_a_line() {
    let w = WorldFile { a: 1, d: 2, b: 3, e: 4, c: 5, f: 6 };
    assert_eq!(w.to_text(&|v: i32| format!("{v}")), "1\n2\n3\n4\n5\n6\n");
}

#[test]
fn the_first_sidecar_that_is_there_counts() {
    assert_eq!(first_present(&vec![false, true, true]), Some(1));
    assert_eq!(first_present(&vec![true]), Some(0));
    assert_eq!(first_present(&vec![false, false]), None);
    assert_eq!(first_present(&vec![]), None);
}

#[test]
fn numbers_come_back_to_twelve_digits() {
    let third = 1.0 / 3.0;
    let w = WorldFile { a: third, d: -third, b: 1e-13, e: 0.1, c: 1e6 * third, f: 7.0 };
    let back = parse(&w.to_text(&show)).unwrap();
    for (v, b) in [(w.a, back.a), (w.d, back.d), (w.b, back.b), (w.e, back.e), (w.c, back.c)] {
        let (v, b): (f64, f64) = (v, b);
        assert!((v - b).abs() <= 1e-12, "{v} -> {b}");
    }
    assert_eq!(back.b, 0.0);
    assert_eq!(back.f, 7.0);
}
