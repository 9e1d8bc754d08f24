//! What the engine is playing: the state that the interface sets and the audio output follows.

use vstd::prelude::*;

use super::effects::{packed, unpacked, StepEffects};

verus! {

/// Play modes for the engine.
#[derive(Debug, Clone, Copy, PartialEq, Eq, Structural)]
pub enum PlayMode {
    /// Play a single slice, stop at its boundary.
    Slice,
    /// Free-run: play from slice start to end of buffer.
    FreeRun,
    /// Stutter: rapid re-trigger within the slice.
    Stutter,
}

impl PlayMode {
    /// The number that stands for the mode.
    pub open spec fn number(self) -> u8 {
        match self {
            PlayMode::Slice => 0,
            PlayMode::FreeRun => 1,
            PlayMode::Stutter => 2,
        }
    }

    /// The mode that a number stands for; a number of no mode stands for `Slice`.
    pub open spec fn numbered(v: u8) -> PlayMode {
        if v == 1 {
            PlayMode::FreeRun
        } else if v == 2 {
            PlayMode::Stutter
        } else {
            PlayMode::Slice
        }
    }

    /// The mode that a number stands for; a number of no mode stands for `Slice`.
    pub fn from_u8(v: u8) -> (m: Self)
        ensures
            m == PlayMode::numbered(v),
    {
        match v {
            1 => PlayMode::FreeRun,
            2 => PlayMode::Stutter,
            _ => PlayMode::Slice,
        }
    }

    /// The number that stands for the mode.
    pub fn to_u8(self) -> (v: u8)
        ensures
            v == self.number(),
    {
        match self {
            PlayMode::Slice => 0,
            PlayMode::FreeRun => 1,
            PlayMode::Stutter => 2,
        }
    }
}

/// A mode's number stands for that mode.
pub proof fn lemma_mode_round_trip(m: PlayMode)
    ensures
        PlayMode::numbered(m.number()) == m,
{
}

/// Playback state as the interface and the audio output exchange it.
#[derive(Debug, Clone, Copy, PartialEq, Eq, Structural)]
pub struct PlaybackState {
    /// Whether audio is currently playing.
    pub playing: bool,
    /// Index of the currently active slice.
    pub active_slice: u8,
    /// Current playback position (sample index within the buffer).
    pub position: u32,
    /// The number of the current play mode.
    pub mode: u8,
    /// Stutter loop length in samples.
    pub stutter_len: u32,
    /// Stutter loop start position.
    pub stutter_start: u32,
    /// Set to true to trigger a new slice play.
    pub retrigger: bool,
    /// Packed effect flags for the current step.
    pub effect_flags: u64,
    /// Low-pass cutoff in Hz, as the bits of a single-precision number.
    pub lp_cutoff: u32,
    /// High-pass cutoff in Hz, as the bits of a single-precision number.
    pub hp_cutoff: u32,
    /// Distortion amount, as the bits of a single-precision number.
    pub dist_amount: u32,
    /// Fade point within a slice, as the bits of a single-precision number.
    pub fade_point: u32,
    /// Speed ratio of half speed, as the bits of a single-precision number.
    pub slow_ratio: u32,
    /// Speed ratio of double speed, as the bits of a single-precision number.
    pub fast_ratio: u32,
}

impl PlaybackState {
    /// Nothing playing, no effect, nothing tuned.
    pub open spec fn silent() -> PlaybackState {
        PlaybackState {
            playing: false,
            active_slice: 0,
            position: 0,
            mode: 0,
            stutter_len: 0,
            stutter_start: 0,
            retrigger: false,
            effect_flags: 0,
            lp_cutoff: 0,
            hp_cutoff: 0,
            dist_amount: 0,
            fade_point: 0,
            slow_ratio: 0,
            fast_ratio: 0,
        }
    }

    /// The state after a slice has been triggered.
    pub open spec fn triggered(self, slice_index: u8, start_pos: u32, mode: PlayMode) -> PlaybackState {
        PlaybackState {
            active_slice: slice_index,
            position: start_pos,
            mode: mode.number(),
            playing: true,
            retrigger: true,
            ..self
        }
    }

    /// The state after a stutter from the current position on has been triggered.
    pub open spec fn stuttered(self, stutter_length: u32) -> PlaybackState {
        PlaybackState {
            stutter_start: self.position,
            stutter_len: stutter_length,
            mode: PlayMode::Stutter.number(),
            ..self
        }
    }

    /// The state after playback has been stopped.
    pub open spec fn stopped(self) -> PlaybackState {
        PlaybackState { playing: false, ..self }
    }

    /// The state with the given step effects.
    pub open spec fn with_effects(self, effects: StepEffects) -> PlaybackState {
        PlaybackState { effect_flags: packed(effects), ..self }
    }

    /// Nothing playing, no effect, nothing tuned.
    pub fn new() -> (s: Self)
        ensures
            s == PlaybackState::silent(),
    {
        PlaybackState {
            playing: false,
            active_slice: 0,
            position: 0,
            mode: PlayMode::Slice.to_u8(),
            stutter_len: 0,
            stutter_start: 0,
            retrigger: false,
            effect_flags: 0,
            lp_cutoff: 0,
            hp_cutoff: 0,
            dist_amount: 0,
            fade_point: 0,
            slow_ratio: 0,
            fast_ratio: 0,
        }
    }

    /// Start playing a slice from the given position.
    pub fn trigger_slice(&mut self, slice_index: u8, start_pos: u32, mode: PlayMode)
        ensures
            *final(self) == old(self).triggered(slice_index, start_pos, mode),
    {
        self.active_slice = slice_index;
        self.position = start_pos;
        self.mode = mode.to_u8();
        self.playing = true;
        self.retrigger = true;
    }

    /// Stutter from the current position on.
    pub fn trigger_stutter(&mut self, stutter_length: u32)
        ensures
            *final(self) == old(self).stuttered(stutter_length),
    {
        let pos = self.position;
        self.stutter_start = pos;
        self.stutter_len = stutter_length;
        self.mode = PlayMode::Stutter.to_u8();
    }

    /// Stop playing.
    pub fn stop(&mut self)
        ensures
            *final(self) == old(self).stopped(),
    {
        self.playing = false;
    }

    /// Whether audio is currently playing.
    pub fn is_playing(&self) -> (r: bool)
        ensures
            r == self.playing,
    {
        self.playing
    }

    /// Index of the currently active slice.
    pub fn get_active_slice(&self) -> (r: u8)
        ensures
            r == self.active_slice,
    {
        self.active_slice
    }

    /// The current play mode.
    pub fn get_mode(&self) -> (m: PlayMode)
        ensures
            m == PlayMode::numbered(self.mode),
    {
        PlayMode::from_u8(self.mode)
    }

    /// Set the effects of the current step.
    pub fn set_effects(&mut self, effects: &StepEffects)
        requires
            effects.defined(),
        ensures
            *final(self) == old(self).with_effects(*effects),
    {
        self.effect_flags = effects.pack();
    }

    /// The effects of the current step.
    pub fn get_effects(&self) -> (e: StepEffects)
        ensures
            e == unpacked(self.effect_flags),
    {
        StepEffects::unpack(self.effect_flags)
    }
}

/// A triggered slice plays, in the mode and from the position asked for; stopping it leaves all
/// else as it was.
pub proof fn lemma_trigger_then_stop(s: PlaybackState, slice_index: u8, start_pos: u32, mode: PlayMode)
    ensures
        ({
            let t = s.triggered(slice_index, start_pos, mode);
            &&& t.playing && t.retrigger
            &&& t.active_slice == slice_index
            &&& t.position == start_pos
            &&& PlayMode::numbered(t.mode) == mode
            &&& t.effect_flags == s.effect_flags
            &&& !t.stopped().playing
            &&& t.stopped() == (PlaybackState { playing: false, ..t })
        }),
{
}

/// The audio output reads the effects that were set, each level rounded down to a 255th.
pub proof fn lemma_effects_transfer(s: PlaybackState, e: StepEffects)
    requires
        e.defined(),
        -32768 <= e.pitch_cents < 32768,
    ensures
        unpacked(s.with_effects(e).effect_flags) == e.rounded(),
{
    super::effects::lemma_unpack_of_pack(e);
}

/// The modes are numbered 0, 1 and 2; any other number stands for the first.
pub proof fn lemma_mode_numbers(v: u8)
    ensures
        PlayMode::Slice.number() == 0,
        PlayMode::FreeRun.number() == 1,
        PlayMode::Stutter.number() == 2,
        v != 1 && v != 2 ==> PlayMode::numbered(v) == PlayMode::Slice,
{
}

/// At first nothing plays, and no effect is on.
pub proof fn lemma_silent_at_first()
    ensures
        ({
            let s = PlaybackState::silent();
            &&& !s.playing && !s.retrigger
            &&& s.active_slice == 0 && s.position == 0
            &&& PlayMode::numbered(s.mode) == PlayMode::Slice
            &&& s.stutter_len == 0 && s.stutter_start == 0
            &&& s.effect_flags == 0
        }),
{
}

/// A stutter goes round from the position that playing has come to, for the length asked for; it
/// neither starts nor stops playing, and moves nothing else.
pub proof fn lemma_stutter_from_here(s: PlaybackState, stutter_length: u32)
    ensures
        ({
            let t = s.stuttered(stutter_length);
            &&& PlayMode::numbered(t.mode) == PlayMode::Stutter
            &&& t.stutter_start == s.position
            &&& t.stutter_len == stutter_length
            &&& t.playing == s.playing && t.position == s.position
            &&& t.active_slice == s.active_slice && t.retrigger == s.retrigger
            &&& t.effect_flags == s.effect_flags
        }),
{
}

/// Triggering, stopping and setting effects leave the tuning alone, and setting effects leaves what
/// is played alone.
pub proof fn lemma_tuning_stays(
    s: PlaybackState,
    slice_index: u8,
    start_pos: u32,
    mode: PlayMode,
    e: StepEffects,
)
    ensures
        ({
            let t = s.triggered(slice_index, start_pos, mode);
            &&& t.lp_cutoff == s.lp_cutoff && t.hp_cutoff == s.hp_cutoff
            &&& t.dist_amount == s.dist_amount && t.fade_point == s.fade_point
            &&& t.slow_ratio == s.slow_ratio && t.fast_ratio == s.fast_ratio
            &&& t.stutter_len == s.stutter_len && t.stutter_start == s.stutter_start
        }),
        s.stopped() == (PlaybackState { playing: false, ..s }),
        s.with_effects(e) == (PlaybackState { effect_flags: packed(e), ..s }),
{
}

} // verus!
