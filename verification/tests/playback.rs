use breaky::analysis::slicer::Slice;
use breaky::audio::playback::{
    filter_reset, slice_bounds, slice_progress, speed_of, FilterReset, Frame, Speed, Voice,
};
use breaky::engine::effects::StepEffects;
use breaky::engine::state::PlayMode;

fn voice(mode: PlayMode) -> Voice {
    Voice {
        mode,
        reverse: false,
        speed: Speed::Normal,
        slice: Slice { start: 10, end: 14 },
        total: 20,
        stutter_start: 0,
        stutter_len: 0,
    }
}

/// The samples that are read from `pos` on until playing stops.
fn heard(v: &Voice, mut pos: usize) -> Vec<Option<usize>> {
    let mut read = Vec::new();
    while let Frame::Read { index, next } = v.fetch(pos) {
        read.push(index);
        pos = next;
    }
    read
}

#[test]
fn a_slice_is_played_to_its_end() {
    assert_eq!(heard(&voice(PlayMode::Slice), 10), vec![Some(10), Some(11), Some(12), Some(13)]);
    assert_eq!(voice(PlayMode::Slice).fetch(14), Frame::Stop);
}

#[test]
fn free_running_goes_on_to_the_end_of_the_audio() {
    let read = heard(&voice(PlayMode::FreeRun), 10);
    assert_eq!(read, (10..20).map(Some).collect::<Vec<_>>());
}

#[test]
fn reverse_goes_back() {
    let back = Voice { reverse: true, ..voice(PlayMode::FreeRun) };
    assert_eq!(heard(&back, 13), (1..=13).rev().map(Some).collect::<Vec<_>>());
    assert_eq!(back.fetch(0), Frame::Stop);
    let slice = Voice { reverse: true, ..voice(PlayMode::Slice) };
    assert_eq!(heard(&slice, 13), vec![Some(13), Some(12), Some(11)]);
}

#[test]
fn a_stutter_repeats_until_the_audio_ends() {
    let v = Voice { stutter_start: 15, stutter_len: 2, ..voice(PlayMode::Stutter) };
    assert_eq!(heard(&v, 15), vec![Some(15), Some(16), Some(15), Some(16), Some(15)]);
    let none = Voice { stutter_len: 0, ..v };
    assert_eq!(none.fetch(15), Frame::Stop);
    let long = Voice { stutter_start: 18, stutter_len: 5, ..v };
    assert_eq!(heard(&long, 18), vec![Some(18), Some(19)]);
}

#[test]
fn other_speeds_blend() {
    let v = Voice { speed: Speed::Half, ..voice(PlayMode::Slice) };
    assert_eq!(v.fetch(10), Frame::Blend);
    assert_eq!(v.fetch(14), Frame::Stop);
    assert_eq!(v.neighbours(13), (Some(13), Some(14)));
    assert_eq!(v.neighbours(19), (Some(19), Some(19)));
    assert_eq!(v.neighbours(20), (None, None));
    let back = Voice { reverse: true, ..v };
    assert_eq!(back.neighbours(13), (Some(13), Some(12)));
    assert_eq!(back.neighbours(0), (Some(0), Some(0)));
}

#[test]
fn moving_on() {
    let v = voice(PlayMode::Slice);
    assert_eq!(v.moved(10, 2), 12);
    let back = Voice { reverse: true, ..v };
    assert_eq!(back.moved(10, 2), 8);
    assert_eq!(back.moved(1, 2), 0);
}

#[test]
fn places_that_playing_reaches() {
    let v = voice(PlayMode::Slice);
    assert!(v.reaches(10) && v.reaches(99));
    let beyond = Voice { slice: Slice { start: 10, end: 30 }, ..v };
    assert!(!beyond.reaches(25));
    let stutter = Voice { stutter_start: 15, stutter_len: 2, ..voice(PlayMode::Stutter) };
    assert!(stutter.reaches(15) && !stutter.reaches(14));
    let back = Voice { reverse: true, ..voice(PlayMode::FreeRun) };
    assert!(back.reaches(19) && !back.reaches(20));
}

#[test]
fn speeds_asked_for() {
    let mut e = StepEffects::default();
    assert_eq!(speed_of(&e), Speed::Normal);
    e.double_speed = true;
    assert_eq!(speed_of(&e), Speed::Double);
    e.half_speed = true;
    assert_eq!(speed_of(&e), Speed::Half);
    e.pitch_cents = -200;
    assert_eq!(speed_of(&e), Speed::Cents(-200));
}

#[test]
fn filters_start_anew_when_switched() {
    let off = StepEffects::default();
    let on = StepEffects { lowpass: true, ..off };
    assert_eq!(filter_reset(&off, &on), FilterReset { lowpass: true, highpass: false });
    assert_eq!(filter_reset(&on, &on), FilterReset { lowpass: false, highpass: false });
    let both = StepEffects { highpass: true, ..off };
    assert_eq!(filter_reset(&on, &both), FilterReset { lowpass: true, highpass: true });
}

#[test]
fn the_bounds_of_a_slice() {
    let slices = [Slice { start: 0, end: 5 }, Slice { start: 5, end: 9 }];
    assert_eq!(slice_bounds(&slices, 1, 20), Slice { start: 5, end: 9 });
    assert_eq!(slice_bounds(&slices, 2, 20), Slice { start: 0, end: 20 });
    assert_eq!(slice_progress(7, slices[1]), (2, 4));
    assert_eq!(slice_progress(3, slices[1]), (0, 4));
    assert_eq!(slice_progress(50, slices[1]), (45, 4));
}
