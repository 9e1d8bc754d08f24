use breaky::analysis::slicer::Slice;
use breaky::engine::state::{PlayMode, PlaybackState};
use breaky::sequencer::{lower_bits, recompute_sequence, SequencerState};

fn lines(v: &[&str]) -> Vec<String> {
    v.iter().map(|s| s.to_string()).collect()
}

fn slices(n: usize) -> Vec<Slice> {
    (0..n).map(|i| Slice { start: i * 100, end: (i + 1) * 100 }).collect()
}

fn sequencer(v: &[&str]) -> SequencerState {
    SequencerState::new(lines(v), 10, 1600, 16, 0)
}

/// Let the sequencer run for `n` steps, and note which slice sounds at each.
fn run(seq: &mut SequencerState, from: u128, n: usize) -> Vec<Option<u8>> {
    let all = slices(64);
    let mut state = PlaybackState::new();
    let mut heard = Vec::new();
    for i in 0..n {
        let now = from + 10 * (i as u128 + 1);
        assert!(seq.advance_step(now, &mut state, &all, all.len()));
        let sounds = state.retrigger;
        heard.push(if sounds { Some(state.get_active_slice()) } else { None });
        state.retrigger = false;
    }
    heard
}

#[test]
fn the_default_pattern_plays_all_slices_in_order() {
    let pads = recompute_sequence(&lines(&["qwertyuiasdfghjk"]));
    assert_eq!(pads, (0..16).map(Some).collect::<Vec<_>>());
}

#[test]
fn the_pads_of_a_pattern() {
    let pads = recompute_sequence(&lines(&["q_k", "", "a:RR"]));
    assert_eq!(pads, vec![Some(0), None, Some(15), Some(8)]);
}

#[test]
fn a_new_sequencer_plays_from_the_start() {
    let s = sequencer(&["qw", "er"]);
    assert_eq!((s.total_steps, s.current_step), (4, 0));
    assert!(s.playing && !s.dirty && s.stop_at_step.is_none());
    assert_eq!(s.stutter_len, 100);
    assert_eq!((s.last_step, s.step_duration), (0, 10));
}

#[test]
fn a_step_is_played_when_it_is_due() {
    let mut s = sequencer(&["qw"]);
    let all = slices(16);
    let mut state = PlaybackState::new();
    assert!(!s.advance_step(9, &mut state, &all, 16));
    assert_eq!(state, PlaybackState::new());
    assert!(s.advance_step(10, &mut state, &all, 16));
    assert_eq!((state.get_active_slice(), state.position), (0, 0));
    assert_eq!(state.get_mode(), PlayMode::FreeRun);
    assert_eq!((s.current_step, s.last_step), (1, 10));
}

#[test]
fn the_pattern_loops() {
    let mut s = sequencer(&["qw", "_e"]);
    let heard = run(&mut s, 0, 9);
    let round = [Some(0), Some(1), None, Some(2)];
    assert_eq!(&heard[0..4], &round);
    assert_eq!(&heard[4..8], &round);
    assert_eq!(heard[8], Some(0));
}

#[test]
fn a_late_sequencer_catches_up() {
    let mut s = sequencer(&["qwer"]);
    let all = slices(16);
    let mut state = PlaybackState::new();
    for _ in 0..3 {
        assert!(s.advance_step(35, &mut state, &all, 16));
    }
    assert!(!s.advance_step(35, &mut state, &all, 16));
    assert_eq!((s.current_step, s.last_step), (3, 30));
}

#[test]
fn a_reversed_step_starts_at_the_end_of_its_slice() {
    let mut s = sequencer(&["w:R"]);
    let all = slices(16);
    let mut state = PlaybackState::new();
    s.advance_step(10, &mut state, &all, 16);
    assert_eq!(state.position, 199);
    assert!(state.get_effects().reverse);
}

#[test]
fn a_stuttered_step_repeats_its_start() {
    let mut s = sequencer(&["w:~"]);
    let all = slices(16);
    let mut state = PlaybackState::new();
    s.advance_step(10, &mut state, &all, 16);
    assert_eq!((state.position, state.stutter_start, state.stutter_len), (100, 100, 100));
    assert_eq!(state.get_mode(), PlayMode::Stutter);
}

#[test]
fn a_bank_digit_selects_the_bank() {
    let mut s = sequencer(&["w:2"]);
    assert_eq!(run(&mut s, 0, 1), vec![Some(33)]);
}

#[test]
fn a_step_without_its_slice_is_silent() {
    let mut s = sequencer(&["k"]);
    let all = slices(4);
    let mut state = PlaybackState::new();
    state.trigger_slice(0, 0, PlayMode::Slice);
    s.advance_step(10, &mut state, &all, 4);
    assert!(!state.is_playing());
}

#[test]
fn only_the_line_is_played() {
    let mut s = sequencer(&["qw", "er", "ty"]);
    s.play_line(1, 100);
    assert_eq!(run(&mut s, 100, 2), vec![Some(2), Some(3)]);
    assert!(!s.playing);
    assert_eq!(s.stop_at_step, None);
}

#[test]
fn the_last_line_stops_too() {
    let mut s = sequencer(&["qw", "er"]);
    s.play_line(1, 0);
    assert_eq!(run(&mut s, 0, 2), vec![Some(2), Some(3)]);
    assert!(!s.playing);
}

#[test]
fn a_line_without_steps_plays_nothing() {
    let mut s = sequencer(&["qw", ":R"]);
    s.play_line(1, 0);
    assert!(!s.playing);
    assert!(s.current_step < s.total_steps);
}

#[test]
fn restarting_and_toggling() {
    let mut s = sequencer(&["qwer"]);
    run(&mut s, 0, 2);
    let mut state = PlaybackState::new();
    state.trigger_slice(0, 0, PlayMode::Slice);
    s.toggle(&mut state, 50);
    assert!(!s.playing && !state.is_playing());
    assert_eq!(s.current_step, 2);
    s.toggle(&mut state, 60);
    assert!(s.playing);
    assert_eq!((s.current_step, s.last_step), (2, 60));
    s.restart(70);
    assert_eq!((s.current_step, s.last_step), (0, 70));
}

#[test]
fn a_shorter_pattern_starts_over() {
    let mut s = sequencer(&["qwertyui"]);
    run(&mut s, 0, 5);
    s.beats = lines(&["qw"]);
    s.rebuild_sequences();
    assert_eq!((s.total_steps, s.current_step), (2, 0));
}

#[test]
fn a_new_line_of_dashes() {
    let mut s = sequencer(&["q"]);
    s.append_empty_line();
    assert_eq!(s.beats, lines(&["q", "----------------"]));
    assert_eq!(s.total_steps, 17);
    assert!(s.dirty);
}

#[test]
fn timing_follows_the_tempo() {
    let mut s = sequencer(&["q"]);
    s.update_timing(25, 3200, 8);
    assert_eq!((s.step_duration, s.stutter_len), (25, 400));
}

#[test]
fn positions_keep_their_lower_bits() {
    assert_eq!(lower_bits(77), 77);
    assert_eq!(lower_bits(0xFFFF_FFFF), 0xFFFF_FFFF);
}
