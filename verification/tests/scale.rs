use tessera::scale::{ScaleError, ScaleStrategy};

#[test]
fn exact_multiples_need_no_resample() {
    let s = ScaleStrategy::plan(4, 4).unwrap();
    assert_eq!((s.passes, s.intermediate), (1, 4));
    assert!(!s.needs_resample());

    let s = ScaleStrategy::plan(16, 4).unwrap();
    assert_eq!((s.passes, s.intermediate), (2, 16));
    assert!(!s.needs_resample());
}

#[test]
fn every_slider_stop_is_reachable_by_overshoot() {
    for native in [2, 3, 4] {
        for target in 1..=10 {
            let s = ScaleStrategy::plan(target, native).unwrap();
            assert!(
                s.intermediate >= target,
                "{native}x model undershot {target}x (reached {})",
                s.intermediate
            );
            assert!(s.passes >= 1);
        }
    }
}

#[test]
fn uses_the_fewest_passes_that_clear_the_target() {
    // 4^1 = 4 < 7 <= 16 = 4^2, so two passes and no more.
    let s = ScaleStrategy::plan(7, 4).unwrap();
    assert_eq!(s.passes, 2);
    assert_eq!(s.intermediate, 16);

    // 4 already clears 3, so one pass is enough.
    assert_eq!(ScaleStrategy::plan(3, 4).unwrap().passes, 1);
}

#[test]
fn unit_scale_still_runs_the_model() {
    let s = ScaleStrategy::plan(1, 4).unwrap();
    assert_eq!(s.passes, 1);
    assert_eq!(s.intermediate, 4);
    assert!(s.needs_resample(), "must shrink back to the original size");
}

#[test]
fn a_unit_model_falls_back_to_resampling() {
    let s = ScaleStrategy::plan(4, 1).unwrap();
    assert_eq!((s.passes, s.intermediate), (1, 1));
    assert!(s.needs_resample());
}

#[test]
fn rejects_nonsense_input() {
    assert!(ScaleStrategy::plan(0, 4).is_err());
    assert!(ScaleStrategy::plan(4, 0).is_err());
}

#[test]
fn descriptions_read_sensibly() {
    assert_eq!(ScaleStrategy::plan(4, 4).unwrap().describe(), "1 model pass at 4x");
    assert!(ScaleStrategy::plan(7, 4).unwrap().describe().contains("2 model passes to 16x"));
}

#[test]
fn each_description_has_its_own_wording() {
    let text = |target, native| ScaleStrategy::plan(target, native).unwrap().describe();
    assert_eq!(text(3, 4), "1 model pass at 4x, then resample to 3x");
    assert_eq!(text(16, 4), "2 model passes at 4x");
    assert_eq!(text(7, 4), "2 model passes to 16x, then resample to 7x");
}

#[test]
fn each_refusal_says_why() {
    assert_eq!(ScaleStrategy::plan(0, 4), Err(ScaleError::ZeroTarget));
    assert_eq!(ScaleStrategy::plan(4, 0), Err(ScaleError::ZeroNative));
    assert_eq!(
        ScaleStrategy::plan(65, 2),
        Err(ScaleError::OutOfReach { target: 65, native: 2 })
    );
    assert_eq!(ScaleStrategy::plan(64, 2).unwrap().passes, 6);
}

#[test]
fn plans_that_cannot_be_counted_are_told_apart() {
    assert!(ScaleStrategy::can_plan(10, 4));
    assert!(!ScaleStrategy::can_plan(u32::MAX, 65_536));
}
