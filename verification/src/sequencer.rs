//! The step sequencer: the pattern, where it is being played, and when the next step is due.
//!
//! Times are in nanoseconds since a moment that the caller keeps.

use vstd::prelude::*;

use crate::analysis::slicer::{Slice, SLICES_PER_BANK};
use crate::config::{char_to_slice, line_of, pad_of, ParsedBeatLine};
use crate::engine::effects::{
    compute_effect_sequence, effects_of, lemma_line_effects_len, line_effects, packed, StepEffects,
};
use crate::engine::state::{PlayMode, PlaybackState};
use crate::text::lines_of;

verus! {

/// The pads of a note segment; `None` is silence.
pub open spec fn pads_of_notes(notes: Seq<char>) -> Seq<Option<usize>> {
    notes.map_values(|c: char| pad_of(c))
}

/// The pads of all steps of a pattern, line after line.
pub open spec fn pads_of(lines: Seq<Seq<char>>) -> Seq<Option<usize>>
    decreases lines.len(),
{
    if lines.len() == 0 {
        Seq::empty()
    } else {
        pads_of(lines.drop_last()) + pads_of_notes(line_of(lines.last()).notes)
    }
}

/// The slice index of every step of the pattern, or None for silence.
pub fn recompute_sequence(beats: &[String]) -> (r: Vec<Option<usize>>)
    ensures
        r@ == pads_of(lines_of(beats@)),
{
    let mut r: Vec<Option<usize>> = Vec::new();
    let n = beats.len();
    let ghost lines = lines_of(beats@);
    for i in 0..n
        invariant
            n == beats@.len(),
            lines == lines_of(beats@),
            r@ == pads_of(lines.take(i as int)),
    {
        let parsed = ParsedBeatLine::parse(beats[i].as_str());
        let m = parsed.notes.len();
        let ghost before = r@;
        let ghost pads = pads_of_notes(parsed@.notes);
        for j in 0..m
            invariant
                m == parsed.notes@.len(),
                pads == pads_of_notes(parsed@.notes),
                r@ == before + pads.take(j as int),
        {
            r.push(char_to_slice(parsed.notes[j]));
            assert(r@ =~= before + pads.take(j + 1));
        }
        assert(pads.take(m as int) =~= pads);
        assert(lines.take(i + 1).drop_last() =~= lines.take(i as int));
    }
    assert(lines.take(n as int) =~= lines);
    r
}

/// What a sequencer holds.
#[verifier::ext_equal]
pub struct Sequencer {
    pub lines: Seq<Seq<char>>,
    pub beat_sequence: Seq<Option<usize>>,
    pub effect_sequence: Seq<StepEffects>,
    pub total_steps: int,
    pub current_step: int,
    pub playing: bool,
    pub stop_at_step: Option<int>,
    pub last_step: int,
    pub step_duration: int,
    pub stutter_len: u32,
    pub dirty: bool,
}

/// The lower 32 bits of a position.
pub open spec fn low32(p: int) -> u32 {
    (p % 0x1_0000_0000) as u32
}

impl Sequencer {
    /// The step sequences are those of the lines.
    pub open spec fn in_sync(self) -> bool {
        &&& self.beat_sequence == pads_of(self.lines)
        &&& self.effect_sequence == effects_of(self.lines)
        &&& self.total_steps == self.beat_sequence.len()
    }

    /// The current step is one of the pattern, unless the pattern has none.
    pub open spec fn on_a_step(self) -> bool {
        0 <= self.current_step && (self.total_steps > 0 ==> self.current_step < self.total_steps)
    }

    /// The step sequences computed anew from the lines.
    pub open spec fn rebuilt(self) -> Sequencer {
        let total = pads_of(self.lines).len() as int;
        Sequencer {
            beat_sequence: pads_of(self.lines),
            effect_sequence: effects_of(self.lines),
            total_steps: total,
            current_step: if self.current_step >= total && total > 0 {
                0
            } else {
                self.current_step
            },
            ..self
        }
    }

    /// A step is due at the time `now`.
    pub open spec fn is_due(self, now: int) -> bool {
        self.playing && self.total_steps > 0 && (if now >= self.last_step {
            now - self.last_step
        } else {
            0
        }) >= self.step_duration
    }

    /// The slice that the current step plays, where it plays any.
    pub open spec fn step_slice(self) -> Option<int> {
        match self.beat_sequence[self.current_step] {
            Some(pad) => Some(
                pad + self.effect_sequence[self.current_step].bank * SLICES_PER_BANK,
            ),
            None => None,
        }
    }

    /// What playing the current step makes of the playback state.
    pub open spec fn sounded(self, state: PlaybackState, slices: Seq<Slice>, num_slices: int) -> PlaybackState {
        let fx = self.effect_sequence[self.current_step];
        let tuned = state.with_effects(fx);
        match self.step_slice() {
            Some(idx) => if idx < num_slices {
                if fx.reverse {
                    tuned.triggered(idx as u8, low32(slices[idx].end - 1), PlayMode::FreeRun)
                } else if fx.stutter {
                    tuned.triggered(
                        idx as u8,
                        low32(slices[idx].start as int),
                        PlayMode::FreeRun,
                    ).stuttered(self.stutter_len)
                } else {
                    tuned.triggered(idx as u8, low32(slices[idx].start as int), PlayMode::FreeRun)
                }
            } else {
                tuned.stopped()
            },
            None => tuned.stopped(),
        }
    }

    /// The step that comes after the current one; the first comes after the last.
    pub open spec fn following(self) -> int {
        (self.current_step + 1) % self.total_steps
    }

    /// Whether playing ends with the current step.
    pub open spec fn ends_here(self) -> bool {
        self.stop_at_step == Some(self.following())
    }

    /// The sequencer after the current step.
    pub open spec fn advanced(self) -> Sequencer {
        Sequencer {
            current_step: self.following(),
            playing: self.playing && !self.ends_here(),
            stop_at_step: if self.ends_here() {
                None
            } else {
                self.stop_at_step
            },
            last_step: self.last_step + self.step_duration,
            ..self
        }
    }

    /// The steps of the lines before line `k`.
    pub open spec fn steps_before(self, k: int) -> int {
        pads_of(self.lines.take(k)).len() as int
    }

    /// The steps of line `k`.
    pub open spec fn steps_in(self, k: int) -> int {
        line_of(self.lines[k]).notes.len() as int
    }

    /// The sequencer set to play line `k` and then stop; a line without steps plays nothing.
    pub open spec fn at_line(self, k: int, now: int) -> Sequencer {
        let start = self.steps_before(k);
        let count = self.steps_in(k);
        Sequencer {
            current_step: if start < self.total_steps {
                start
            } else {
                0
            },
            stop_at_step: if count > 0 {
                Some((start + count) % self.total_steps)
            } else {
                None
            },
            playing: count > 0,
            last_step: now,
            ..self
        }
    }

    /// The sequencer at its first step, playing.
    pub open spec fn restarted(self, now: int) -> Sequencer {
        Sequencer {
            current_step: 0,
            stop_at_step: None,
            playing: true,
            last_step: now,
            ..self
        }
    }

    /// The sequencer playing if it was not, and paused if it was.
    pub open spec fn toggled(self, now: int) -> Sequencer {
        Sequencer {
            playing: !self.playing,
            stop_at_step: None,
            last_step: if self.playing {
                self.last_step
            } else {
                now
            },
            ..self
        }
    }

    /// The sequencer with other lines, its sequences those of the new lines.
    pub open spec fn with_lines(self, lines: Seq<Seq<char>>) -> Sequencer {
        Sequencer { lines, ..self }.rebuilt()
    }

    /// The sequencer with unsaved changes.
    pub open spec fn changed(self) -> Sequencer {
        Sequencer { dirty: true, ..self }
    }
}

/// The pattern and where it is being played.
pub struct SequencerState {
    pub beats: Vec<String>,
    pub beat_sequence: Vec<Option<usize>>,
    pub effect_sequence: Vec<StepEffects>,
    pub total_steps: usize,
    pub current_step: usize,
    pub playing: bool,
    pub stop_at_step: Option<usize>,
    /// When the last step was due, in nanoseconds.
    pub last_step: u128,
    /// From one step to the next, in nanoseconds.
    pub step_duration: u128,
    pub stutter_len: u32,
    pub dirty: bool,
}

impl View for SequencerState {
    type V = Sequencer;

    open spec fn view(&self) -> Sequencer {
        Sequencer {
            lines: lines_of(self.beats@),
            beat_sequence: self.beat_sequence@,
            effect_sequence: self.effect_sequence@,
            total_steps: self.total_steps as int,
            current_step: self.current_step as int,
            playing: self.playing,
            stop_at_step: match self.stop_at_step {
                Some(s) => Some(s as int),
                None => None,
            },
            last_step: self.last_step as int,
            step_duration: self.step_duration as int,
            stutter_len: self.stutter_len,
            dirty: self.dirty,
        }
    }
}

/// The slices can be played: as many as counted, none ending before it begins.
pub open spec fn playable(slices: Seq<Slice>, num_slices: int) -> bool {
    &&& num_slices <= slices.len()
    &&& forall|i: int| 0 <= i < num_slices ==> 0 < (#[trigger] slices[i]).end
}

impl SequencerState {
    /// A sequencer at the first step of `beats`, playing from the time `now` on. A beat lasts
    /// `beat_samples` samples; a stutter lasts one of `stutter_divs` parts of it.
    pub fn new(
        beats: Vec<String>,
        step_duration: u128,
        beat_samples: u32,
        stutter_divs: u32,
        now: u128,
    ) -> (s: Self)
        requires
            stutter_divs > 0,
        ensures
            s@ == (Sequencer {
                lines: lines_of(beats@),
                beat_sequence: pads_of(lines_of(beats@)),
                effect_sequence: effects_of(lines_of(beats@)),
                total_steps: pads_of(lines_of(beats@)).len() as int,
                current_step: 0,
                playing: true,
                stop_at_step: None,
                last_step: now as int,
                step_duration: step_duration as int,
                stutter_len: beat_samples / stutter_divs,
                dirty: false,
            }),
            s@.in_sync(),
            s@.on_a_step(),
    {
        let beat_sequence = recompute_sequence(&beats);
        let effect_sequence = compute_effect_sequence(&beats);
        let total_steps = beat_sequence.len();
        SequencerState {
            beats,
            beat_sequence,
            effect_sequence,
            total_steps,
            current_step: 0,
            playing: true,
            stop_at_step: None,
            last_step: now,
            step_duration,
            stutter_len: beat_samples / stutter_divs,
            dirty: false,
        }
    }

    /// Recompute beat_sequence, effect_sequence, total_steps from current beats.
    pub fn rebuild_sequences(&mut self)
        ensures
            final(self)@ == old(self)@.rebuilt(),
            final(self)@.in_sync(),
            final(self)@.on_a_step(),
    {
        self.beat_sequence = recompute_sequence(&self.beats);
        self.effect_sequence = compute_effect_sequence(&self.beats);
        self.total_steps = self.beat_sequence.len();
        if self.current_step >= self.total_steps && self.total_steps > 0 {
            self.current_step = 0;
        }
    }

    /// Update timing when BPM or stutter changes.
    pub fn update_timing(&mut self, step_duration: u128, beat_samples: u32, stutter_divs: u32)
        requires
            stutter_divs > 0,
        ensures
            final(self)@ == (Sequencer {
                step_duration: step_duration as int,
                stutter_len: beat_samples / stutter_divs,
                ..old(self)@
            }),
    {
        self.step_duration = step_duration;
        self.stutter_len = beat_samples / stutter_divs;
    }

    /// Whether a step is due.
    fn due(&self, now: u128) -> (r: bool)
        ensures
            r == self@.is_due(now as int),
    {
        let elapsed: u128 = if now >= self.last_step {
            now - self.last_step
        } else {
            0
        };
        self.playing && self.total_steps > 0 && elapsed >= self.step_duration
    }

    /// Sound the current step.
    fn sound_step(&self, state: &mut PlaybackState, slices: &[Slice], num_slices: usize)
        requires
            self@.in_sync(),
            0 <= self@.current_step < self@.total_steps,
            playable(slices@, num_slices as int),
        ensures
            *final(state) == self@.sounded(*old(state), slices@, num_slices as int),
    {
        proof {
            lemma_sequences(self@.lines);
            lemma_pads(self@.lines, self@.current_step);
            crate::engine::effects::lemma_effects_in_range(self@.lines, self@.current_step);
        }
        let fx = self.effect_sequence[self.current_step];
        state.set_effects(&fx);
        match self.beat_sequence[self.current_step] {
            Some(base_idx) => {
                let idx = base_idx + (fx.bank as usize * SLICES_PER_BANK);
                if idx < num_slices {
                    let slice = slices[idx];
                    if fx.reverse {
                        state.trigger_slice(
                            idx as u8,
                            lower_bits(slice.end - 1),
                            PlayMode::FreeRun,
                        );
                    } else if fx.stutter {
                        state.trigger_slice(idx as u8, lower_bits(slice.start), PlayMode::FreeRun);
                        state.trigger_stutter(self.stutter_len);
                    } else {
                        state.trigger_slice(idx as u8, lower_bits(slice.start), PlayMode::FreeRun);
                    }
                } else {
                    state.stop();
                }
            },
            None => {
                state.stop();
            },
        }
    }

    /// Advance the sequencer by one step, triggering audio. Returns true if a step was advanced.
    pub fn advance_step(
        &mut self,
        now: u128,
        state: &mut PlaybackState,
        slices: &[Slice],
        num_slices: usize,
    ) -> (stepped: bool)
        requires
            old(self)@.in_sync(),
            old(self)@.is_due(now as int) ==> old(self)@.on_a_step(),
            playable(slices@, num_slices as int),
        ensures
            stepped == old(self)@.is_due(now as int),
            !stepped ==> final(self)@ == old(self)@ && *final(state) == *old(state),
            stepped ==> final(self)@ == old(self)@.advanced(),
            stepped ==> *final(state) == ({
                let sounded = old(self)@.sounded(*old(state), slices@, num_slices as int);
                if old(self)@.ends_here() {
                    sounded.stopped()
                } else {
                    sounded
                }
            }),
    {
        if !self.due(now) {
            return false;
        }
        self.sound_step(state, slices, num_slices);
        self.current_step = (self.current_step + 1) % self.total_steps;
        let ends = match self.stop_at_step {
            Some(s) => s == self.current_step,
            None => false,
        };
        if ends {
            self.playing = false;
            self.stop_at_step = None;
            state.stop();
        }
        self.last_step = self.last_step + self.step_duration;
        true
    }

    /// Play only the line at line_idx, then stop.
    pub fn play_line(&mut self, line_idx: usize, now: u128)
        requires
            old(self)@.in_sync(),
            line_idx < old(self)@.lines.len(),
        ensures
            final(self)@ == old(self)@.at_line(line_idx as int, now as int),
    {
        let ghost lines = self@.lines;
        let mut line_start: usize = 0;
        for i in 0..line_idx
            invariant
                line_idx < self.beats@.len(),
                lines == lines_of(self.beats@),
                pads_of(lines).len() <= usize::MAX,
                line_start == pads_of(lines.take(i as int)).len(),
        {
            let p = ParsedBeatLine::parse(self.beats[i].as_str());
            proof {
                assert(lines.take(i + 1).drop_last() =~= lines.take(i as int));
                lemma_pads_prefix(lines, i + 1);
            }
            line_start = line_start + p.step_count();
        }
        let p = ParsedBeatLine::parse(self.beats[line_idx].as_str());
        let count = p.step_count();
        proof {
            assert(lines.take(line_idx + 1).drop_last() =~= lines.take(line_idx as int));
            lemma_pads_prefix(lines, line_idx + 1);
        }
        self.current_step = if line_start < self.total_steps {
            line_start
        } else {
            0
        };
        self.stop_at_step = if count > 0 {
            Some((line_start + count) % self.total_steps)
        } else {
            None
        };
        self.playing = count > 0;
        self.last_step = now;
    }

    /// Restart from beginning.
    pub fn restart(&mut self, now: u128)
        ensures
            final(self)@ == old(self)@.restarted(now as int),
    {
        self.current_step = 0;
        self.stop_at_step = None;
        self.playing = true;
        self.last_step = now;
    }

    /// Toggle play/pause.
    pub fn toggle(&mut self, state: &mut PlaybackState, now: u128)
        ensures
            final(self)@ == old(self)@.toggled(now as int),
            *final(state) == (if old(self)@.playing {
                old(state).stopped()
            } else {
                *old(state)
            }),
    {
        self.playing = !self.playing;
        self.stop_at_step = None;
        if self.playing {
            self.last_step = now;
        } else {
            state.stop();
        }
    }

    /// Add an empty line of sixteen steps behind the last.
    pub fn append_empty_line(&mut self)
        ensures
            final(self)@ == old(self)@.with_lines(
                old(self)@.lines.push("----------------"@),
            ).changed(),
    {
        let ghost before = self@.lines;
        self.beats.push("----------------".to_string());
        assert(self@.lines =~= before.push("----------------"@));
        self.rebuild_sequences();
        self.dirty = true;
    }
}

/// The lower 32 bits of a position.
pub fn lower_bits(p: usize) -> (r: u32)
    ensures
        r == low32(p as int),
{
    (p as u64 % 0x1_0000_0000) as u32
}

/// A pattern has one pad and one set of effects for each of its steps.
pub proof fn lemma_sequences(lines: Seq<Seq<char>>)
    ensures
        pads_of(lines).len() == effects_of(lines).len(),
    decreases lines.len(),
{
    if lines.len() > 0 {
        lemma_sequences(lines.drop_last());
        lemma_line_effects_len(line_of(lines.last()));
    }
}

/// Every step of every pattern plays one of the sixteen pads or none.
pub proof fn lemma_pads(lines: Seq<Seq<char>>, s: int)
    requires
        0 <= s < pads_of(lines).len(),
    ensures
        pads_of(lines)[s] matches Some(pad) ==> pad < 16,
    decreases lines.len(),
{
    let head = pads_of(lines.drop_last());
    if s < head.len() {
        lemma_pads(lines.drop_last(), s);
    } else {
        let notes = line_of(lines.last()).notes;
        assert(pads_of(lines)[s] == pad_of(notes[s - head.len()]));
    }
}

/// The steps of the first lines are the first steps of the pattern.
pub proof fn lemma_pads_prefix(lines: Seq<Seq<char>>, k: int)
    requires
        0 <= k <= lines.len(),
    ensures
        pads_of(lines.take(k)).len() <= pads_of(lines).len(),
        pads_of(lines.take(k)) == pads_of(lines).take(pads_of(lines.take(k)).len() as int),
    decreases lines.len() - k,
{
    if k == lines.len() {
        assert(lines.take(k) =~= lines);
        assert(pads_of(lines).take(pads_of(lines).len() as int) =~= pads_of(lines));
    } else {
        lemma_pads_prefix(lines, k + 1);
        assert(lines.take(k + 1).drop_last() =~= lines.take(k));
        let longer = pads_of(lines.take(k + 1));
        let shorter = pads_of(lines.take(k));
        assert(longer.take(shorter.len() as int) =~= shorter);
        assert(pads_of(lines).take(shorter.len() as int) =~= shorter);
    }
}

/// Playing keeps the step sequences and stays on the steps of the pattern.
pub proof fn lemma_playing_keeps_sync(s: Sequencer, k: int, now: int)
    requires
        s.in_sync(),
        s.on_a_step(),
    ensures
        s.total_steps > 0 ==> s.advanced().in_sync() && s.advanced().on_a_step(),
        s.restarted(now).in_sync() && s.restarted(now).on_a_step(),
        s.toggled(now).in_sync() && s.toggled(now).on_a_step(),
        0 <= k < s.lines.len() ==> s.at_line(k, now).in_sync() && s.at_line(k, now).on_a_step(),
{
}

/// The sequencer after `n` more steps.
pub open spec fn after_steps(s: Sequencer, n: nat) -> Sequencer
    decreases n,
{
    if n == 0 {
        s
    } else {
        after_steps(s, (n - 1) as nat).advanced()
    }
}

/// Playing changes neither the pattern nor its sequences.
pub proof fn lemma_steps_keep_pattern(s: Sequencer, n: nat)
    ensures
        after_steps(s, n).lines == s.lines,
        after_steps(s, n).beat_sequence == s.beat_sequence,
        after_steps(s, n).effect_sequence == s.effect_sequence,
        after_steps(s, n).total_steps == s.total_steps,
        after_steps(s, n).dirty == s.dirty,
    decreases n,
{
    if n > 0 {
        lemma_steps_keep_pattern(s, (n - 1) as nat);
    }
}

/// The beat does not drift: however late the steps are played, they are due at equal distances.
pub proof fn lemma_steps_keep_time(s: Sequencer, n: nat)
    ensures
        after_steps(s, n).last_step == s.last_step + n * s.step_duration,
        after_steps(s, n).step_duration == s.step_duration,
    decreases n,
{
    if n > 0 {
        lemma_steps_keep_time(s, (n - 1) as nat);
        assert(n * s.step_duration == (n - 1) * s.step_duration + s.step_duration)
            by (nonlinear_arith);
    } else {
        assert(0 * s.step_duration == 0) by (nonlinear_arith);
    }
}

/// Pausing and going on keeps the place in the pattern.
pub proof fn lemma_pause_keeps_place(s: Sequencer, now: int, later: int)
    requires
        s.playing,
    ensures
        !s.toggled(now).playing,
        s.toggled(now).toggled(later) == (Sequencer {
            stop_at_step: None,
            last_step: later,
            ..s
        }),
{
}

/// Playing a line plays the steps of that line in order, and stops after the last of them.
pub proof fn lemma_plays_only_the_line(s: Sequencer, k: int, now: int, j: nat)
    requires
        s.in_sync(),
        0 <= k < s.lines.len(),
        s.steps_in(k) > 0,
        j <= s.steps_in(k),
    ensures
        ({
            let t = after_steps(s.at_line(k, now), j);
            &&& j < s.steps_in(k) ==> t.playing && t.current_step == s.steps_before(k) + j
            &&& j < s.steps_in(k) ==> t.beat_sequence[t.current_step] == pad_of(
                line_of(s.lines[k]).notes[j as int],
            )
            &&& j == s.steps_in(k) ==> !t.playing && t.stop_at_step is None
            &&& t.in_sync()
        }),
    decreases j,
{
    let start = s.steps_before(k);
    let count = s.steps_in(k);
    let total = s.total_steps;
    assert(s.lines.take(k + 1).drop_last() =~= s.lines.take(k));
    lemma_pads_prefix(s.lines, k + 1);
    let upto = pads_of(s.lines.take(k + 1));
    assert(upto == pads_of(s.lines.take(k)) + pads_of_notes(line_of(s.lines[k]).notes));
    assert(start + count <= total);
    lemma_steps_keep_pattern(s.at_line(k, now), j);
    if j < count {
        assert(upto[start + j] == pads_of_notes(line_of(s.lines[k]).notes)[j as int]);
        assert(s.beat_sequence[start + j] == upto[start + j]);
    }
    if j > 0 {
        lemma_plays_only_the_line(s, k, now, (j - 1) as nat);
        let before = after_steps(s.at_line(k, now), (j - 1) as nat);
        lemma_steps_keep_stop(s, k, now, (j - 1) as nat);
        assert(before.current_step == start + j - 1);
        if start + j < total {
            vstd::arithmetic::div_mod::lemma_small_mod((start + j) as nat, total as nat);
        } else {
            vstd::arithmetic::div_mod::lemma_mod_self_0(total);
        }
        if start + count < total {
            vstd::arithmetic::div_mod::lemma_small_mod((start + count) as nat, total as nat);
        } else {
            vstd::arithmetic::div_mod::lemma_mod_self_0(total);
        }
    }
}

/// Until the line has been played, the sequencer still knows where to stop.
proof fn lemma_steps_keep_stop(s: Sequencer, k: int, now: int, j: nat)
    requires
        s.in_sync(),
        0 <= k < s.lines.len(),
        s.steps_in(k) > 0,
        j < s.steps_in(k),
    ensures
        ({
            let t = after_steps(s.at_line(k, now), j);
            &&& t.stop_at_step == Some((s.steps_before(k) + s.steps_in(k)) % s.total_steps)
            &&& t.total_steps == s.total_steps
            &&& t.current_step == s.steps_before(k) + j
        }),
    decreases j,
{
    let start = s.steps_before(k);
    let count = s.steps_in(k);
    let total = s.total_steps;
    assert(s.lines.take(k + 1).drop_last() =~= s.lines.take(k));
    lemma_pads_prefix(s.lines, k + 1);
    if j > 0 {
        lemma_steps_keep_stop(s, k, now, (j - 1) as nat);
        vstd::arithmetic::div_mod::lemma_small_mod((start + j) as nat, total as nat);
        if start + count < total {
            vstd::arithmetic::div_mod::lemma_small_mod((start + count) as nat, total as nat);
        } else {
            vstd::arithmetic::div_mod::lemma_mod_self_0(total);
        }
    }
}

/// The sequencer goes round: after as many steps as the pattern has, it is where it began.
pub proof fn lemma_pattern_loops(s: Sequencer, n: nat)
    requires
        s.in_sync(),
        s.on_a_step(),
        s.total_steps > 0,
        s.stop_at_step is None,
    ensures
        after_steps(s, n).current_step == (s.current_step + n) % s.total_steps,
        after_steps(s, n).playing == s.playing,
        after_steps(s, n).stop_at_step is None,
        after_steps(s, n).total_steps == s.total_steps,
        n == s.total_steps ==> after_steps(s, n).current_step == s.current_step,
    decreases n,
{
    let total = s.total_steps;
    if n == 0 {
        vstd::arithmetic::div_mod::lemma_small_mod(s.current_step as nat, total as nat);
    } else {
        lemma_pattern_loops(s, (n - 1) as nat);
        vstd::arithmetic::div_mod::lemma_add_mod_noop(s.current_step + n - 1, 1, total);
        vstd::arithmetic::div_mod::lemma_mod_twice(s.current_step + n - 1, total);
        vstd::arithmetic::div_mod::lemma_add_mod_noop(
            (s.current_step + n - 1) % total,
            1,
            total,
        );
        if n == total {
            vstd::arithmetic::div_mod::lemma_mod_add_multiples_vanish(s.current_step, total);
            vstd::arithmetic::div_mod::lemma_small_mod(s.current_step as nat, total as nat);
        }
    }
}

/// A line replaced by one with the same notes and the same effects leaves both sequences alone.
pub proof fn lemma_same_line(lines: Seq<Seq<char>>, k: int, raw: Seq<char>)
    requires
        0 <= k < lines.len(),
        line_of(raw).notes == line_of(lines[k]).notes,
        line_effects(line_of(raw)) == line_effects(line_of(lines[k])),
    ensures
        pads_of(lines.update(k, raw)) == pads_of(lines),
        effects_of(lines.update(k, raw)) == effects_of(lines),
    decreases lines.len(),
{
    let new = lines.update(k, raw);
    let init = lines.drop_last();
    if k == lines.len() - 1 {
        assert(new.drop_last() =~= init);
    } else {
        lemma_same_line(init, k, raw);
        assert(new.drop_last() =~= init.update(k, raw));
    }
}

/// A step of a line plays, in the whole pattern, what the line says it plays, with the effects that
/// the line gives it.
pub proof fn lemma_step_of_line(lines: Seq<Seq<char>>, k: int, step: int)
    requires
        0 <= k < lines.len(),
        0 <= step < line_of(lines[k]).notes.len(),
    ensures
        ({
            let at = pads_of(lines.take(k)).len() + step;
            &&& at < pads_of(lines).len()
            &&& pads_of(lines)[at] == pad_of(line_of(lines[k]).notes[step])
            &&& effects_of(lines)[at] == line_effects(line_of(lines[k]))[step]
        }),
    decreases lines.len(),
{
    let init = lines.drop_last();
    lemma_sequences(init);
    lemma_line_effects_len(line_of(lines.last()));
    if k == lines.len() - 1 {
        assert(lines.take(k) =~= init);
    } else {
        lemma_step_of_line(init, k, step);
        assert(init.take(k) =~= lines.take(k));
    }
}

/// The default pattern plays all sixteen slices in order.
pub proof fn lemma_default_plays_in_order(i: int)
    requires
        0 <= i < 16,
    ensures
        pads_of(seq!["qwertyuiasdfghjk"@]).len() == 16,
        pads_of(seq!["qwertyuiasdfghjk"@])[i] == Some(i as usize),
{
    let keys = "qwertyuiasdfghjk"@;
    let lines = seq![keys];
    reveal_strlit("qwertyuiasdfghjk");
    assert(keys.len() == 16);
    crate::config::lemma_line_without_separator(keys);
    assert(lines.drop_last() =~= Seq::empty());
    assert(lines.last() == keys);
    assert(pads_of(lines.drop_last()) =~= Seq::empty());
    assert(pads_of(lines) =~= pads_of_notes(keys));
    crate::config::lemma_pad_keys_in_order(i);
}

/// What a step plays. A note that is no pad is silence, and so is a pad whose slice is not there: what
/// was playing stops. A pad plays the slice of its number in the bank of its effects: from its last
/// sample backwards where the step is reversed, else from its first, and round and round where it
/// stutters. The step's effects are set in any case, and the tuning stays.
pub proof fn lemma_what_a_step_plays(
    s: Sequencer,
    state: PlaybackState,
    slices: Seq<Slice>,
    num_slices: int,
)
    requires
        playable(slices, num_slices),
        0 <= s.current_step < s.beat_sequence.len(),
    ensures
        ({
            let r = s.sounded(state, slices, num_slices);
            let fx = s.effect_sequence[s.current_step];
            &&& r.effect_flags == packed(fx)
            &&& r.lp_cutoff == state.lp_cutoff && r.hp_cutoff == state.hp_cutoff
            &&& r.dist_amount == state.dist_amount && r.fade_point == state.fade_point
            &&& r.slow_ratio == state.slow_ratio && r.fast_ratio == state.fast_ratio
            &&& match s.beat_sequence[s.current_step] {
                None => !r.playing && r.active_slice == state.active_slice && r.position
                    == state.position,
                Some(pad) => {
                    let idx = pad + 16 * fx.bank;
                    &&& r.playing <==> idx < num_slices
                    &&& idx < num_slices ==> {
                        let at = if fx.reverse {
                            slices[idx].end - 1
                        } else {
                            slices[idx].start as int
                        };
                        &&& r.retrigger
                        &&& idx < 256 ==> r.active_slice == idx
                        &&& at < 0x1_0000_0000 ==> r.position == at
                        &&& PlayMode::numbered(r.mode) == if fx.stutter && !fx.reverse {
                            PlayMode::Stutter
                        } else {
                            PlayMode::FreeRun
                        }
                        &&& fx.stutter && !fx.reverse ==> r.stutter_start == r.position
                            && r.stutter_len == s.stutter_len
                    }
                },
            }
        }),
{
}

/// Whatever was playing before, nothing plays once a rest was sounded.
pub proof fn lemma_rests_are_silent(
    s: Sequencer,
    state: PlaybackState,
    slices: Seq<Slice>,
    num_slices: int,
)
    requires
        s.in_sync(),
        0 <= s.current_step < s.total_steps,
        pads_of(s.lines)[s.current_step] is None,
    ensures
        !s.sounded(state, slices, num_slices).playing,
        !s.sounded(state, slices, num_slices).stopped().playing,
{
}

/// The step after the current one is the next of the pattern, and the first after the last; playing
/// ends where it was to stop there, and the next step is due one step later.
pub proof fn lemma_the_next_step(s: Sequencer)
    requires
        0 <= s.current_step < s.total_steps,
    ensures
        ({
            let t = s.advanced();
            let next = if s.current_step + 1 == s.total_steps {
                0
            } else {
                s.current_step + 1
            };
            &&& t.current_step == next
            &&& s.ends_here() <==> s.stop_at_step == Some(next)
            &&& t.playing <==> s.playing && s.stop_at_step != Some(next)
            &&& t.stop_at_step == if s.stop_at_step == Some(next) {
                None
            } else {
                s.stop_at_step
            }
            &&& t.last_step == s.last_step + s.step_duration
            &&& t.step_duration == s.step_duration && t.stutter_len == s.stutter_len
        }),
{
    if s.current_step + 1 == s.total_steps {
        vstd::arithmetic::div_mod::lemma_mod_self_0(s.total_steps);
    } else {
        vstd::arithmetic::div_mod::lemma_small_mod(
            (s.current_step + 1) as nat,
            s.total_steps as nat,
        );
    }
}

/// A step is due as soon as a step's time has passed since the last was due, while playing a pattern
/// that has steps, and not before.
pub proof fn lemma_when_a_step_is_due(s: Sequencer, now: int)
    requires
        s.step_duration > 0,
    ensures
        s.is_due(now) <==> s.playing && s.total_steps > 0 && now >= s.last_step + s.step_duration,
{
}

/// Restarting goes to the first step and plays on from there; starting goes on where it was.
pub proof fn lemma_restart_and_start(s: Sequencer, now: int)
    ensures
        s.restarted(now).current_step == 0,
        s.restarted(now).playing,
        s.restarted(now).stop_at_step is None,
        s.restarted(now).last_step == now,
        s.restarted(now).lines == s.lines && s.restarted(now).dirty == s.dirty,
        !s.playing ==> s.toggled(now) == (Sequencer {
            playing: true,
            stop_at_step: None,
            last_step: now,
            ..s
        }),
        s.playing ==> s.toggled(now).current_step == s.current_step && s.toggled(now).last_step
            == s.last_step,
{
}

/// Each line adds as many steps as it has notes, behind those of the lines before, and each step
/// plays the pad of its note.
pub proof fn lemma_lines_follow_one_another(lines: Seq<Seq<char>>, raw: Seq<char>, i: int)
    ensures
        ({
            let notes = line_of(raw).notes;
            let before = pads_of(lines);
            let after = pads_of(lines.push(raw));
            &&& after.len() == before.len() + notes.len()
            &&& 0 <= i < before.len() ==> after[i] == before[i]
            &&& 0 <= i < notes.len() ==> after[before.len() + i] == pad_of(notes[i])
        }),
        pads_of(Seq::empty()).len() == 0,
{
    assert(lines.push(raw).drop_last() =~= lines);
}

/// With other lines the sequences are those of the new lines, and the current step stays where it
/// was if the pattern still has it; else it is the first.
pub proof fn lemma_other_lines(s: Sequencer, lines: Seq<Seq<char>>)
    requires
        s.current_step >= 0,
    ensures
        ({
            let t = s.with_lines(lines);
            &&& t.lines == lines
            &&& t.in_sync() && t.on_a_step()
            &&& s.current_step < pads_of(lines).len() ==> t.current_step == s.current_step
            &&& s.current_step >= pads_of(lines).len() > 0 ==> t.current_step == 0
            &&& t.playing == s.playing && t.stop_at_step == s.stop_at_step
            &&& t.last_step == s.last_step && t.step_duration == s.step_duration
            &&& t.dirty == s.dirty
            &&& t.changed().dirty && t.changed().lines == lines
        }),
{
}

/// A line without steps plays nothing, and a line is played from its first step at the time given.
pub proof fn lemma_playing_a_line(s: Sequencer, k: int, now: int)
    requires
        s.in_sync(),
        0 <= k < s.lines.len(),
    ensures
        s.at_line(k, now).playing <==> line_of(s.lines[k]).notes.len() > 0,
        s.at_line(k, now).last_step == now,
        line_of(s.lines[k]).notes.len() > 0 ==> s.at_line(k, now).current_step == pads_of(
            s.lines.take(k),
        ).len(),
        s.at_line(k, now).lines == s.lines && s.at_line(k, now).dirty == s.dirty,
        s.at_line(k, now).step_duration == s.step_duration,
{
    assert(s.lines.take(k + 1).drop_last() =~= s.lines.take(k));
    lemma_pads_prefix(s.lines, k + 1);
}

/// What it is for the step sequences to be those of the lines, for the current step to be one of the
/// pattern, and for slices to be playable.
pub proof fn lemma_what_sync_means(s: Sequencer, slices: Seq<Slice>, num_slices: int)
    ensures
        s.in_sync() <==> s.beat_sequence == pads_of(s.lines) && s.effect_sequence == effects_of(s.lines)
            && s.total_steps == pads_of(s.lines).len(),
        s.on_a_step() && s.total_steps > 0 ==> 0 <= s.current_step < s.total_steps,
        0 <= s.current_step < s.total_steps ==> s.on_a_step(),
        playable(slices, num_slices) ==> num_slices <= slices.len() && forall|i: int|
            0 <= i < num_slices ==> (#[trigger] slices[i]).end > 0,
{
}

} // verus!
