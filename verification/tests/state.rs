use breaky::engine::effects::StepEffects;
use breaky::engine::state::{PlayMode, PlaybackState};

#[test]
fn modes_and_numbers() {
    for m in [PlayMode::Slice, PlayMode::FreeRun, PlayMode::Stutter] {
        assert_eq!(PlayMode::from_u8(m.to_u8()), m);
    }
    assert_eq!(PlayMode::from_u8(1), PlayMode::FreeRun);
    assert_eq!(PlayMode::from_u8(2), PlayMode::Stutter);
    assert_eq!(PlayMode::from_u8(77), PlayMode::Slice);
}

#[test]
fn a_new_state_is_silent() {
    let s = PlaybackState::new();
    assert!(!s.is_playing());
    assert_eq!(s.get_active_slice(), 0);
    assert_eq!(s.get_mode(), PlayMode::Slice);
    assert_eq!((s.position, s.stutter_len, s.stutter_start, s.retrigger), (0, 0, 0, false));
    assert_eq!(s.effect_flags, 0);
}

#[test]
fn a_triggered_slice_plays_until_stopped() {
    let mut s = PlaybackState::new();
    s.trigger_slice(5, 4410, PlayMode::FreeRun);
    assert!(s.is_playing() && s.retrigger);
    assert_eq!((s.get_active_slice(), s.position, s.get_mode()), (5, 4410, PlayMode::FreeRun));
    s.stop();
    assert!(!s.is_playing());
    assert_eq!((s.get_active_slice(), s.position), (5, 4410));
}

#[test]
fn a_stutter_starts_where_playing_is() {
    let mut s = PlaybackState::new();
    s.trigger_slice(1, 100, PlayMode::Slice);
    s.position = 150;
    s.trigger_stutter(30);
    assert_eq!((s.stutter_start, s.stutter_len, s.get_mode()), (150, 30, PlayMode::Stutter));
    assert_eq!(s.position, 150);
    assert!(s.is_playing());
}

#[test]
fn effects_pass_through_the_state() {
    let mut s = PlaybackState::new();
    let e = StepEffects { reverse: true, pitch_cents: -900, ..StepEffects::default() };
    s.set_effects(&e);
    assert!(s.get_effects().reverse);
    assert_eq!(s.get_effects().pitch_cents, -900);
}
