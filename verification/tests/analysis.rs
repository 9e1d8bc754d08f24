use breaky::analysis::median::median;
use breaky::analysis::onset::{detect_onsets, frame_count, window_median, FFT_SIZE, HOP_SIZE};
use breaky::analysis::slicer::{
    is_zero_crossing, make_slices, snap_to_nearest_onset, snap_to_zero_crossing, Slice,
};
use breaky::analysis::tempo::{fold_tempo, median_interval, DEFAULT_TEMPO};

fn bits(values: &[f32]) -> Vec<u32> {
    values.iter().map(|v| v.to_bits()).collect()
}

fn ones(n: usize) -> Vec<u32> {
    bits(&vec![1.0; n])
}

#[test]
fn zero_crossings() {
    let crosses = |a: f32, b: f32| is_zero_crossing(a.to_bits(), b.to_bits());
    assert!(crosses(-0.5, 0.5));
    assert!(crosses(0.5, -0.5));
    assert!(crosses(0.0, 0.1));
    assert!(crosses(-0.0, -0.1));
    assert!(!crosses(0.5, 0.0));
    assert!(!crosses(0.1, 0.2));
    assert!(!crosses(f32::NAN, 1.0));
}

#[test]
fn snapping_to_the_nearest_crossing() {
    let mut values = vec![1.0f32; 200];
    for v in values.iter_mut().skip(90).take(20) {
        *v = -1.0;
    }
    let samples = bits(&values);
    assert_eq!(snap_to_zero_crossing(95, &samples), 90);
    assert_eq!(snap_to_zero_crossing(105, &samples), 110);
    assert_eq!(snap_to_zero_crossing(100, &samples), 90);
    assert_eq!(snap_to_zero_crossing(0, &samples), 0);
    assert_eq!(snap_to_zero_crossing(199, &samples), 199);
    assert_eq!(snap_to_zero_crossing(7, &[]), 7);
}

#[test]
fn snapping_to_the_nearest_onset() {
    let onsets = [0, 100, 250];
    assert_eq!(snap_to_nearest_onset(100, &onsets, 0), 100);
    assert_eq!(snap_to_nearest_onset(120, &onsets, 30), 100);
    assert_eq!(snap_to_nearest_onset(120, &onsets, 10), 120);
    assert_eq!(snap_to_nearest_onset(175, &onsets, 75), 100);
    assert_eq!(snap_to_nearest_onset(176, &onsets, 75), 250);
    assert_eq!(snap_to_nearest_onset(300, &onsets, 50), 250);
    assert_eq!(snap_to_nearest_onset(5, &[], 50), 5);
}

#[test]
fn equal_slices_where_nothing_snaps() {
    let slices = make_slices(&[0], &ones(1600), 1);
    assert_eq!(slices.len(), 16);
    for (i, s) in slices.iter().enumerate() {
        assert_eq!(*s, Slice { start: i * 100, end: (i + 1) * 100 });
    }
}

#[test]
fn two_banks_have_thirty_two_slices() {
    let slices = make_slices(&[0], &ones(3200), 2);
    assert_eq!(slices.len(), 32);
    assert_eq!(slices[31], Slice { start: 3100, end: 3200 });
}

#[test]
fn boundaries_snap_to_onsets_in_reach() {
    let slices = make_slices(&[0, 110, 260], &ones(1600), 1);
    assert_eq!(slices[0], Slice { start: 0, end: 110 });
    assert_eq!(slices[1], Slice { start: 110, end: 200 });
    // 300 is exactly two fifths of a slice from 260.
    assert_eq!(slices[2], Slice { start: 200, end: 260 });
    assert_eq!(slices[3], Slice { start: 260, end: 400 });
}

#[test]
fn ideal_positions_are_rounded_half_up() {
    // 24 samples in 16 parts: 1.5, 3, 4.5, ...
    let slices = make_slices(&[0], &ones(24), 1);
    assert_eq!(slices[0], Slice { start: 0, end: 2 });
    assert_eq!(slices[1], Slice { start: 2, end: 3 });
    assert_eq!(slices[2], Slice { start: 3, end: 5 });
}

#[test]
fn few_samples_give_few_slices() {
    assert!(make_slices(&[0], &[], 1).is_empty());
    let slices = make_slices(&[0], &ones(3), 1);
    assert_eq!(
        slices,
        vec![
            Slice { start: 0, end: 1 },
            Slice { start: 1, end: 2 },
            Slice { start: 2, end: 3 },
        ]
    );
    assert_eq!(make_slices(&[0], &ones(5), 0), vec![Slice { start: 0, end: 5 }]);
}

#[test]
fn slices_follow_one_another_and_cover_all() {
    let mut values = Vec::new();
    for i in 0..5000 {
        values.push(((i as f32) * 0.13).sin());
    }
    let slices = make_slices(&[0, 333, 900, 1500, 2222, 4096], &bits(&values), 1);
    assert_eq!(slices[0].start, 0);
    assert_eq!(slices[slices.len() - 1].end, 5000);
    assert!(slices.len() <= 16);
    for pair in slices.windows(2) {
        assert_eq!(pair[0].end, pair[1].start);
    }
}

#[test]
fn medians() {
    assert_eq!(median(&mut vec![3, 1, 2]), 2);
    assert_eq!(median(&mut vec![4, 1, 3, 2]), 3);
    assert_eq!(median(&mut vec![9]), 9);
}

#[test]
fn frames_of_a_buffer() {
    assert_eq!(frame_count(0), 0);
    assert_eq!(frame_count(FFT_SIZE - 1), 0);
    assert_eq!(frame_count(FFT_SIZE), 1);
    assert_eq!(frame_count(FFT_SIZE + HOP_SIZE), 2);
    assert_eq!(frame_count(44100), (44100 - 1024) / 512 + 1);
}

#[test]
fn the_running_median_is_cut_off_at_the_ends() {
    let flux: Vec<f32> = (0..20).map(|i| i as f32).collect();
    let flux = bits(&flux);
    let at = |i: usize| f32::from_bits(window_median(&flux, i));
    assert_eq!(at(0), 3.0);
    assert_eq!(at(5), 5.0);
    assert_eq!(at(10), 10.0);
    assert_eq!(at(19), 17.0);
}

#[test]
fn onsets_are_peaks_far_enough_apart() {
    let flux = bits(&[0.0, 5.0, 1.0, 6.0, 7.0, 0.0, 0.0, 9.0]);
    let threshold = bits(&[2.0; 8]);
    assert_eq!(detect_onsets(&flux, &threshold, 0), vec![0, 512, 3 * 512, 4 * 512, 7 * 512]);
    assert_eq!(detect_onsets(&flux, &threshold, 3), vec![0, 512, 4 * 512, 7 * 512]);
    assert_eq!(detect_onsets(&flux, &threshold, 6), vec![0, 512, 7 * 512]);
}

#[test]
fn sample_zero_is_always_an_onset() {
    assert_eq!(detect_onsets(&[], &[], 4), vec![0]);
    assert_eq!(detect_onsets(&bits(&[1.0, 0.5]), &bits(&[0.0, 0.0]), 4), vec![0]);
}

#[test]
fn the_median_interval() {
    assert_eq!(median_interval(&[]), None);
    assert_eq!(median_interval(&[0]), None);
    assert_eq!(median_interval(&[5, 5]), None);
    assert_eq!(median_interval(&[0, 100, 300, 350]), Some(100));
    assert_eq!(median_interval(&[0, 10, 30]), Some(20));
}

#[test]
fn tempos_are_folded_into_range() {
    let fold = |bpm: f64| f64::from_bits(fold_tempo(bpm.to_bits()));
    assert_eq!(fold(136.5), 136.5);
    assert_eq!(fold(60.0), 60.0);
    assert_eq!(fold(200.0), 200.0);
    assert_eq!(fold(200.5), 100.25);
    assert_eq!(fold(1000.0), 125.0);
    assert_eq!(fold(59.0), 118.0);
    assert_eq!(fold(1.0), 64.0);
    assert_eq!(f64::from_bits(DEFAULT_TEMPO), 120.0);
}

#[test]
fn folding_agrees_with_halving_and_doubling() {
    for i in 1..2000 {
        let start = i as f64 * 0.7319;
        let mut bpm = start;
        while bpm > 200.0 {
            bpm /= 2.0;
        }
        while bpm < 60.0 {
            bpm *= 2.0;
        }
        assert_eq!(f64::from_bits(fold_tempo(start.to_bits())), bpm);
    }
}

#[test]
fn a_late_first_onset_adds_no_slice() {
    let slices = make_slices(&[2, 30], &ones(160), 1);
    assert_eq!(slices.len(), 16);
    for (i, s) in slices.iter().enumerate() {
        assert_eq!(*s, Slice { start: i * 10, end: (i + 1) * 10 });
    }
    let two = make_slices(&[3, 40], &ones(320), 2);
    assert_eq!(two.len(), 32);
    assert_eq!(two[0], Slice { start: 0, end: 10 });
}

#[test]
fn a_late_first_boundary_has_a_slice_before_it() {
    // The wave crosses zero once, at sample 3, and every boundary is drawn there.
    let mut values = vec![-1.0f32; 3];
    values.resize(40, 1.0);
    assert_eq!(
        make_slices(&[1, 39], &bits(&values), 1),
        vec![Slice { start: 0, end: 3 }, Slice { start: 3, end: 40 }]
    );
}

#[test]
fn ideal_positions_are_those_of_double_precision() {
    // 120 times 245 / 240 lies just below 122.5.
    let slices = make_slices(&[0], &ones(245), 15);
    assert!(slices.iter().any(|s| s.start == 122 && s.end == 124));
    assert!(slices.iter().all(|s| s.start != 123));
    for banks in [1usize, 2, 3, 7, 11, 15, 20] {
        for total in (1usize..700).step_by(17) {
            let len = total as f64 / (16 * banks) as f64;
            let mut starts: Vec<usize> = Vec::new();
            for i in 0..16 * banks {
                let pos = (i as f64 * len).round() as usize;
                if starts.is_empty() || pos > starts[starts.len() - 1] {
                    starts.push(pos);
                }
            }
            starts.retain(|&pos| pos < total);
            let made: Vec<usize> =
                make_slices(&[0], &ones(total), banks).iter().map(|s| s.start).collect();
            assert_eq!(made, starts, "{} samples, {} banks", total, banks);
        }
    }
}

#[test]
fn the_reach_of_onsets_is_that_of_double_precision() {
    for total in (40usize..4000).step_by(97) {
        let len = total as f64 / 16.0;
        let reach = (len * 0.4) as usize;
        let pos = (8.0 * len).round() as usize;
        let near = make_slices(&[0, pos + reach], &ones(total), 1);
        assert!(near.iter().any(|s| s.start == pos + reach), "{}", total);
        let far = make_slices(&[0, pos + reach + 1], &ones(total), 1);
        assert!(far.iter().any(|s| s.start == pos), "{}", total);
    }
}
