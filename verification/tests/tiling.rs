use tessera::axis::axis_spans;
use tessera::tiling::{AxisWeight, Feather, Ramp, Rect, Tile, TilePlan, Weight};

const CASES: [(u32, u32, u32, u32); 5] = [
    (500, 300, 128, 16),
    (77, 91, 32, 8),
    (1024, 1024, 256, 64),
    (1000, 40, 64, 32),
    (313, 257, 100, 37),
];

fn ramp(r: Option<Ramp>) -> f32 {
    match r {
        Some(r) => (r.step as f32 + 0.5) / r.width as f32,
        None => 1.0,
    }
}

fn axis(w: AxisWeight) -> f32 {
    (ramp(w.lead) * ramp(w.trail)).clamp(f32::MIN_POSITIVE, 1.0)
}

fn weight(w: Weight) -> f32 {
    axis(w.x) * axis(w.y)
}

#[test]
fn single_tile_when_image_fits() {
    let plan = TilePlan::new(100, 100, 2, 256, 32);
    assert_eq!(plan.tiles.len(), 1);
    assert_eq!(plan.tiles[0].feather, Feather::default());
    assert_eq!(plan.tiles[0].dst, Rect { x: 0, y: 0, w: 200, h: 200 });
}

#[test]
fn tiles_cover_every_source_pixel() {
    for (w, h, tile, overlap) in CASES {
        let plan = TilePlan::new(w, h, 1, tile, overlap);
        let mut covered = vec![false; (w * h) as usize];
        for t in &plan.tiles {
            for y in t.src.y..t.src.bottom() {
                for x in t.src.x..t.src.right() {
                    covered[(y * w + x) as usize] = true;
                }
            }
        }
        assert!(covered.iter().all(|&c| c), "gap in coverage for {w}x{h}");
    }
}

#[test]
fn tiles_stay_inside_the_source() {
    for (w, h, tile, overlap) in CASES {
        let plan = TilePlan::new(w, h, 3, tile, overlap);
        for t in &plan.tiles {
            assert!(t.src.right() <= w && t.src.bottom() <= h);
            assert!(t.dst.right() <= plan.out_width() && t.dst.bottom() <= plan.out_height());
        }
    }
}

#[test]
fn every_output_pixel_has_weight() {
    for (w, h, tile, overlap) in CASES {
        let plan = TilePlan::new(w, h, 2, tile, overlap);
        let mut acc = vec![0.0_f32; (plan.out_width() * plan.out_height()) as usize];
        for t in &plan.tiles {
            for v in 0..t.dst.h {
                for u in 0..t.dst.w {
                    let idx = ((t.dst.y + v) * plan.out_width() + t.dst.x + u) as usize;
                    acc[idx] += weight(t.weight_at(u, v));
                }
            }
        }
        assert!(acc.iter().all(|&x| x > 0.0), "zero total weight somewhere in {w}x{h}");
    }
}

#[test]
fn feathers_agree_between_neighbours() {
    let spans = axis_spans(1000, 128, 24);
    for pair in spans.windows(2) {
        assert_eq!(
            pair[0].trail_overlap, pair[1].lead_overlap,
            "cross-fade must be symmetric or the pair will not sum to 1"
        );
    }
}

#[test]
fn actual_overlap_is_never_less_than_requested() {
    let spans = axis_spans(1000, 128, 24);
    for pair in spans.windows(2) {
        assert!(pair[0].trail_overlap >= 24, "overlap shrank below the request");
    }
}

#[test]
fn overlap_is_clamped_below_tile_size() {
    // Would divide by a zero step if the clamp were missing.
    let plan = TilePlan::new(300, 40, 1, 64, 999);
    assert!(plan.tiles.len() > 1);
}

#[test]
fn zero_sized_image_plans_nothing() {
    assert!(TilePlan::new(0, 0, 2, 64, 8).tiles.is_empty());
}

#[test]
fn spans_are_spread_evenly() {
    // 1000 pixels, 128 at a time, 24 shared: nine spans of step 104 reach 960.
    let spans = axis_spans(1000, 128, 24);
    assert_eq!(spans.len(), 10);
    assert_eq!(spans[0].origin, 0);
    assert_eq!(spans[0].lead_overlap, 0);
    assert_eq!(spans[9].origin + spans[9].extent, 1000);
    assert_eq!(spans[9].trail_overlap, 0);
    let steps: Vec<u32> = spans.windows(2).map(|p| p[1].origin - p[0].origin).collect();
    let (low, high) = (steps.iter().min().unwrap(), steps.iter().max().unwrap());
    assert!(high - low <= 1, "{steps:?}");
}

#[test]
fn weights_of_two_overlapping_tiles_sum_to_one() {
    let plan = TilePlan::new(100, 20, 2, 64, 16);
    assert_eq!(plan.tiles.len(), 2);
    let (a, b) = (plan.tiles[0], plan.tiles[1]);
    assert_eq!(a.feather.right, b.feather.left);
    for x in b.dst.x..a.dst.right() {
        let wa = a.weight_at(x - a.dst.x, 0);
        let wb = b.weight_at(x - b.dst.x, 0);
        let (ra, rb) = (wa.x.trail.unwrap(), wb.x.lead.unwrap());
        assert_eq!(ra.width, rb.width);
        // (step + 1/2) / width on either side.
        assert_eq!((2 * ra.step + 1) + (2 * rb.step + 1), 2 * ra.width);
    }
}

#[test]
fn weight_is_full_away_from_the_fades() {
    let tile = Tile {
        src: Rect { x: 0, y: 0, w: 10, h: 10 },
        dst: Rect { x: 0, y: 0, w: 20, h: 20 },
        feather: Feather { left: 4, top: 0, right: 6, bottom: 2 },
    };
    let full = AxisWeight { lead: None, trail: None };
    assert_eq!(tile.weight_at(4, 17), Weight { x: full, y: full });
    assert_eq!(tile.weight_at(3, 0).x.lead, Some(Ramp { step: 3, width: 4 }));
    assert_eq!(tile.weight_at(14, 0).x.trail, Some(Ramp { step: 5, width: 6 }));
    assert_eq!(tile.weight_at(0, 19).y.trail, Some(Ramp { step: 0, width: 2 }));
    assert_eq!(weight(tile.weight_at(3, 19)), 0.875 * 0.25);
}

/// No three tiles meet exactly where what each shares with its neighbours is no more
/// than its length.
#[test]
fn fades_stay_apart_or_three_tiles_meet() {
    for (extent, tile, overlap) in [(1000, 128, 24), (191, 100, 10), (100, 10, 6), (64, 64, 8)] {
        let spans = axis_spans(extent, tile, overlap);
        let apart = spans.iter().all(|s| s.lead_overlap + s.trail_overlap <= s.extent);
        let most = (0..extent)
            .map(|x| spans.iter().filter(|s| s.origin <= x && x < s.origin + s.extent).count())
            .max();
        assert_eq!(apart, most <= Some(2), "{extent} {tile} {overlap}");
    }
}
