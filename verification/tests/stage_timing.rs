use squishi::stage_timing::{Duration, StageTimings};

#[test]
fn accumulate_sums_each_stage_independently() {
    let mut totals = StageTimings::default();
    totals.accumulate(&StageTimings {
        tokenize: Duration::from_millis(1),
        build_tensors: Duration::from_millis(2),
        forward: Duration::from_millis(3),
        postprocess: Duration::from_millis(4),
    });
    totals.accumulate(&StageTimings {
        tokenize: Duration::from_millis(10),
        build_tensors: Duration::from_millis(20),
        forward: Duration::from_millis(30),
        postprocess: Duration::from_millis(40),
    });
    assert_eq!(totals.tokenize, Duration::from_millis(11));
    assert_eq!(totals.build_tensors, Duration::from_millis(22));
    assert_eq!(totals.forward, Duration::from_millis(33));
    assert_eq!(totals.postprocess, Duration::from_millis(44));
}

#[test]
fn total_sums_all_four_stages() {
    let totals = StageTimings {
        tokenize: Duration::from_millis(1),
        build_tensors: Duration::from_millis(2),
        forward: Duration::from_millis(3),
        postprocess: Duration::from_millis(4),
    };
    assert_eq!(totals.total(), Duration::from_millis(10));
}

#[test]
fn default_is_all_zero() {
    let totals = StageTimings::default();
    assert_eq!(totals.total(), Duration::zero());
}
