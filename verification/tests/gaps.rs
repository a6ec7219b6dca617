use sismokaos::decimation::{decimate, decimated_count};
use sismokaos::gaps::{count_flagged, interior_gaps, interpolation_mask, GapSpan};

fn sine(n: usize, amp: f64) -> Vec<f64> {
    (0..n)
        .map(|i| (i as f64 / n as f64 * 4.0 * std::f64::consts::PI).sin() * amp)
        .collect()
}

fn missing(data: &[f64]) -> Vec<bool> {
    data.iter().map(|v| v.is_nan()).collect()
}

#[test]
fn interior_gaps_are_reported_as_interpolated() {
    let mut data = sine(1000, 100.0);
    for v in data.iter_mut().take(320).skip(300) {
        *v = f64::NAN;
    }
    let mask = decimate(&interpolation_mask(&missing(&data)), 0, 1);
    assert_eq!(mask.len(), data.len());
    assert!(mask[300..320].iter().all(|&b| b), "every filled sample should be flagged");
    assert_eq!(
        mask.iter().filter(|&&b| b).count(),
        20,
        "nothing outside the gap should be flagged"
    );
}

#[test]
fn edge_gaps_are_not_counted_as_interpolated() {
    let mut data = sine(1000, 100.0);
    for v in data.iter_mut().take(5) {
        *v = f64::NAN;
    }
    for v in data.iter_mut().skip(995) {
        *v = f64::NAN;
    }
    let miss = missing(&data);
    let mask = interpolation_mask(&miss);
    assert!(mask.iter().all(|&b| !b), "edge gaps are not interpolated");
    // Nothing bridges them, so they stay missing.
    assert!(interior_gaps(&miss).is_empty(), "edge gaps stay NaN");
}

#[test]
fn clean_data_reports_no_interpolation() {
    let data = sine(1000, 100.0);
    let mask = interpolation_mask(&missing(&data));
    assert_eq!(mask.len(), data.len());
    assert!(mask.iter().all(|&b| !b));
}

#[test]
fn mask_survives_decimation_in_alignment() {
    for (factor, skip) in [(1usize, 0usize), (5, 0), (5, 7), (20, 13)] {
        let mut data = sine(1000, 100.0);
        for v in data.iter_mut().take(520).skip(500) {
            *v = f64::NAN;
        }
        let mask = interpolation_mask(&missing(&data));
        let out = decimate(&data, skip, factor);
        let out_mask = decimate(&mask, skip, factor);
        assert_eq!(out.len(), out_mask.len(), "factor={factor} skip={skip}");
        for (i, &flagged) in out_mask.iter().enumerate() {
            let src = skip + i * factor;
            assert_eq!(
                flagged,
                (500..520).contains(&src),
                "factor={factor} skip={skip} out_idx={i} src={src}"
            );
        }
    }
}

#[test]
fn edge_gaps_are_left_as_nan() {
    let mut data = sine(100, 10.0);
    data[0] = f64::NAN;
    data[1] = f64::NAN;
    data[99] = f64::NAN;
    let miss = missing(&data);
    // No gap is bridged: 0, 1 and 99 stay missing and nothing is flagged.
    assert!(interior_gaps(&miss).is_empty());
    assert!(interpolation_mask(&miss).iter().all(|&b| !b));
}

#[test]
fn interior_gaps_are_maximal_runs_with_anchors() {
    // present, missing x2, present, missing, present, missing (edge)
    let miss = [false, true, true, false, true, false, true];
    let gaps = interior_gaps(&miss);
    assert_eq!(gaps, vec![GapSpan { left: 0, right: 3 }, GapSpan { left: 3, right: 5 }]);
    let mask = interpolation_mask(&miss);
    assert_eq!(mask, vec![false, true, true, false, true, false, false]);
}

#[test]
fn gaps_one_sample_apart_are_both_flagged() {
    // a, NaN, b, NaN, c: both gaps are interior, so both are filled.
    let miss = [false, true, false, true, false];
    assert_eq!(interior_gaps(&miss).len(), 2);
    assert_eq!(interpolation_mask(&miss), vec![false, true, false, true, false]);

    let mut data = sine(1000, 100.0);
    data[500] = f64::NAN;
    data[502] = f64::NAN;
    let mask = interpolation_mask(&missing(&data));
    assert!(mask[500] && mask[502]);
    assert_eq!(mask.iter().filter(|&&b| b).count(), 2);
}

#[test]
fn gap_next_to_an_edge_gap_is_flagged() {
    // Sample 0 is an edge gap and stays missing; sample 2 is interior.
    let miss = [true, false, true, false, false];
    assert_eq!(interpolation_mask(&miss), vec![false, false, true, false, false]);
    let miss = [false, true, false];
    assert_eq!(interpolation_mask(&miss), vec![false, true, false]);
}

#[test]
fn all_missing_trace_has_no_interior_gap() {
    let miss = [true; 6];
    assert!(interior_gaps(&miss).is_empty());
    assert_eq!(interpolation_mask(&miss), vec![false; 6]);
}

#[test]
fn empty_trace_has_empty_mask() {
    let miss: [bool; 0] = [];
    assert!(interior_gaps(&miss).is_empty());
    assert!(interpolation_mask(&miss).is_empty());
}

#[test]
fn flagged_samples_in_a_window_are_counted() {
    let mask = [false, true, true, false, true, false];
    assert_eq!(count_flagged(&mask, 0, 6), 3);
    assert_eq!(count_flagged(&mask, 1, 2), 2);
    assert_eq!(count_flagged(&mask, 3, 0), 0);
    assert_eq!(count_flagged(&mask, 3, 3), 1);
}

#[test]
fn decimated_count_matches_decimate() {
    let data: Vec<u32> = (0..23).collect();
    for factor in 1..7usize {
        for skip in 0..30usize {
            let out = decimate(&data, skip, factor);
            assert_eq!(out.len(), decimated_count(data.len(), skip, factor));
            for (i, &v) in out.iter().enumerate() {
                assert_eq!(v as usize, skip.min(data.len()) + i * factor);
            }
        }
    }
    // The all-missing shortcut: 1000 samples, skip 13, factor 20.
    assert_eq!(decimated_count(1000, 13, 20), 50);
    assert_eq!(decimated_count(10, 12, 3), 0);
}
