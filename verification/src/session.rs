//! A session: what every key does, in command mode, in edit mode and otherwise.

use vstd::prelude::*;

use crate::analysis::slicer::{ascending, Slice, SLICES_PER_BANK};
use crate::audio::buffer::{AudioBuffer, Sound};
use crate::banks::{
    banks_of, lemma_load_keeps_order, load_bank, Bank, BankEntry, BankError, Library,
};
use crate::commands::{
    bank_end, banks_ok, behind, command_run, copy_lines, do_reload, do_save, execute_command,
    has_word, path_view, save_words, CommandState, Console, PendingAction, Ran, Request, Work,
};
use crate::config::{BreakConfig, Config};
use crate::editor::{
    edit_key_ready, handle_edit_key, key_ok, lemma_keys_keep_sync, Edit, Editor, EditorState,
};
use crate::engine::state::{PlayMode, PlaybackState};
use crate::number::{at_most64, le64, Num64, Shown64};
use crate::sequencer::{low32, lower_bits, playable, Sequencer, SequencerState};
use crate::text::{chars_of, decimal, decimal_of, spells, starts_with, trim, trimmed};
use crate::ui::app::{App, Screen};
use crate::ui::input::{is_shift, key_to_slice, pad_of_key, Key, Modifiers};
use crate::variables::{tuned, Reading, Settings, Variables, ONE_DOUBLE};

verus! {

/// The whole tempos next to the current one, above and below.
pub struct TempoSteps {
    pub up: Num64,
    pub down: Num64,
}

/// The whole tempos next to the current one, above and below.
#[verifier::ext_equal]
pub struct Tempos {
    pub up: Shown64,
    pub down: Shown64,
}

impl View for TempoSteps {
    type V = Tempos;

    open spec fn view(&self) -> Tempos {
        Tempos { up: self.up@, down: self.down@ }
    }
}

/// What a key asks for that is done outside.
#[derive(Debug, Clone, Copy, PartialEq, Eq, Structural)]
pub enum Action {
    Nothing,
    /// A command was run: do what it requests, tune the playback state, compute the timing anew,
    /// and load the audio file that it names, where it names one.
    Run(Request),
    /// Read the configuration, tune the playback state, and compute the timing anew.
    Reload,
    /// Compute the timing anew.
    Retime,
}

/// What a session is at.
#[verifier::ext_equal]
pub struct Live {
    pub seq: Sequencer,
    pub editor: Editor,
    pub console: Console,
    pub vars: Settings,
    pub playback: PlaybackState,
    pub slices: Seq<Slice>,
    pub num_slices: int,
    pub banks: Seq<Bank>,
    pub load_path: Option<Seq<char>>,
    pub quit: bool,
}

/// All that the keys work on.
pub struct Session {
    pub seq: SequencerState,
    pub editor: EditorState,
    pub commands: CommandState,
    pub vars: Variables,
    pub playback: PlaybackState,
    pub slices: Vec<Slice>,
    pub num_slices: usize,
    pub bank_entries: Vec<BankEntry>,
    /// The audio file that is to be loaded next.
    pub bank_load_path: Option<String>,
    pub should_quit: bool,
}

impl View for Session {
    type V = Live;

    open spec fn view(&self) -> Live {
        Live {
            seq: self.seq@,
            editor: self.editor@,
            console: self.commands@,
            vars: self.vars@,
            playback: self.playback,
            slices: self.slices@,
            num_slices: self.num_slices as int,
            banks: banks_of(self.bank_entries@),
            load_path: path_view(self.bank_load_path),
            quit: self.should_quit,
        }
    }
}

impl Live {
    /// What every key keeps: the step sequences are those of the pattern, the current step is one
    /// of it, a recalled command is one of the history, and the slices can be played.
    pub open spec fn well_formed(self) -> bool {
        &&& self.seq.in_sync()
        &&& self.seq.on_a_step()
        &&& self.console.recalls()
        &&& playable(self.slices, self.num_slices)
        &&& 0 <= self.num_slices
        &&& 0 <= self.editor.cursor_line
    }

    /// Whether a key can be pressed: what it looks at is there.
    pub open spec fn takes(self, key: Key, modifiers: Modifiers) -> bool {
        if self.console.active {
            key == Key::Enter ==> banks_ok(self.banks, trimmed(self.console.buffer))
        } else if self.console.pending_action is Some {
            true
        } else if key == Key::Enter {
            self.editor.edit_mode ==> self.editor.cursor_line < self.seq.lines.len()
        } else if (key == Key::Char(':') && !modifiers.control) || key == Key::Char('+') || key
            == Key::Char('=') {
            true
        } else if self.editor.edit_mode {
            key_ok(self.editor, self.seq.lines, key, modifiers.control)
        } else {
            true
        }
    }

    /// The session once the command on the command line was run, and what it requests.
    pub open spec fn ran(self, reading: Reading, now: int) -> (Live, Action) {
        let after = command_run(
            trimmed(self.console.buffer),
            reading,
            self.seq.dirty,
            self.banks,
            Ran {
                console: self.console.submitted(),
                vars: self.vars,
                load_path: self.load_path,
                quit: self.quit,
                request: Request::Nothing,
            },
            now,
        );
        (
            Live {
                console: after.console,
                vars: after.vars,
                load_path: after.load_path,
                quit: after.quit,
                ..self
            },
            Action::Run(after.request),
        )
    }

    /// What a key does to the command line.
    pub open spec fn on_command_line(self, key: Key, reading: Reading, now: int) -> (Live, Action) {
        match key {
            Key::Esc => (Live { console: self.console.cancelled(), ..self }, Action::Nothing),
            Key::Enter => self.ran(reading, now),
            Key::Up => (Live { console: self.console.up(), ..self }, Action::Nothing),
            Key::Down => (Live { console: self.console.down(), ..self }, Action::Nothing),
            Key::Backspace => (
                Live { console: self.console.without_last(), ..self },
                Action::Nothing,
            ),
            Key::Char(c) => (Live { console: self.console.with_char(c), ..self }, Action::Nothing),
            _ => (self, Action::Nothing),
        }
    }

    /// What a key does while a confirmation is asked for: `y` confirms, all others refuse.
    pub open spec fn on_question(self, key: Key) -> (Live, Action) {
        let settled = Live { console: self.console.answered(), ..self };
        if key == Key::Char('y') || key == Key::Char('Y') {
            if self.console.pending_action == Some(PendingAction::Quit) {
                (Live { quit: true, ..settled }, Action::Nothing)
            } else {
                (settled, Action::Reload)
            }
        } else {
            (settled, Action::Nothing)
        }
    }

    /// What a key does in the pattern editor.
    pub open spec fn on_pattern(self, key: Key, control: bool, now: int) -> Live {
        let after = (Edit {
            editor: self.editor,
            seq: self.seq,
            state: self.playback,
        }).pressed(key, control, self.slices, self.num_slices, now);
        Live { editor: after.editor, seq: after.seq, playback: after.state, ..self }
    }

    /// The slice that a pad key plays in the current bank, where it plays one.
    pub open spec fn slice_of_key(self, key: Key) -> Option<int> {
        match pad_of_key(key) {
            Some(pad) => {
                let idx = pad + self.editor.current_bank * SLICES_PER_BANK;
                if idx < self.num_slices {
                    Some(idx)
                } else {
                    None
                }
            },
            None => None,
        }
    }

    /// The session once a pad key was pressed, with Shift or without.
    pub open spec fn with_pad(self, key: Key, shift: bool) -> Live {
        match self.slice_of_key(key) {
            Some(idx) => Live {
                playback: self.playback.triggered(
                    idx as u8,
                    low32(self.slices[idx].start as int),
                    if shift {
                        PlayMode::FreeRun
                    } else {
                        PlayMode::Slice
                    },
                ),
                ..self
            },
            None => self,
        }
    }

    /// What a key does outside command mode and edit mode.
    pub open spec fn on_pads(self, key: Key, modifiers: Modifiers, now: int) -> Live {
        match key {
            Key::Esc => Live { quit: true, ..self },
            Key::Down => Live { editor: self.editor.entered(), ..self },
            Key::Tab => if self.playback.playing {
                Live { playback: self.playback.stuttered(self.seq.stutter_len), ..self }
            } else {
                self
            },
            Key::Char(c) => if c == 'c' && modifiers.control {
                Live { quit: true, ..self }
            } else if c == ' ' {
                Live {
                    seq: self.seq.toggled(now),
                    playback: if self.seq.playing {
                        self.playback.stopped()
                    } else {
                        self.playback
                    },
                    ..self
                }
            } else if c == 'n' && modifiers.control {
                Live {
                    seq: self.seq.with_lines(
                        self.seq.lines.push("----------------"@),
                    ).changed(),
                    ..self
                }
            } else if '0' <= c <= '9' {
                Live {
                    editor: Editor { current_bank: (c as int - 48) as u8, ..self.editor },
                    ..self
                }
            } else {
                self.with_pad(key, modifiers.shift)
            },
            _ => self,
        }
    }

    /// The session with the outcome of reading the configuration.
    pub open spec fn with_config(
        self,
        path: Seq<char>,
        outcome: Result<Config, Seq<char>>,
        now: int,
    ) -> Live {
        match outcome {
            Ok(config) => {
                let after = (Work {
                    seq: self.seq,
                    editor: self.editor,
                    vars: self.vars,
                }).reloaded(config);
                Live {
                    seq: after.seq,
                    editor: after.editor,
                    vars: after.vars,
                    console: self.console.showing("Reloaded: "@ + path, now),
                    ..self
                }
            },
            Err(e) => Live {
                console: self.console.showing("Error reloading: "@ + e, now),
                ..self
            },
        }
    }

    /// What is loaded, together with its audio.
    pub open spec fn library(self, sound: Sound) -> Library {
        Library { sound, slices: self.slices, banks: self.banks }
    }

    /// What the screen is to show.
    pub open spec fn screen_of(
        self,
        file_name: Seq<char>,
        sample_rate: u32,
        duration: Seq<char>,
        bpm: Seq<char>,
    ) -> Screen {
        Screen {
            file_name,
            sample_rate,
            duration,
            bpm,
            num_slices: self.num_slices,
            state: self.playback,
            lines: self.seq.lines,
            current_step: self.seq.current_step,
            total_steps: self.seq.total_steps,
            sequencer_playing: self.seq.playing,
            edit_mode: self.editor.edit_mode,
            insert_mode: self.editor.insert_mode,
            cursor_line: self.editor.cursor_line,
            cursor_col: self.editor.cursor_col,
            command_mode: self.console.active,
            command_buffer: self.console.buffer,
            status_message: self.console.status_message,
            confirm_prompt: self.console.confirm_prompt,
            dirty: self.seq.dirty,
            current_bank: self.editor.current_bank,
        }
    }

    /// The session at the time `now`, with the step played that is due.
    pub open spec fn ticked(self, now: int) -> Live {
        if self.seq.is_due(now) {
            let sounded = self.seq.sounded(self.playback, self.slices, self.num_slices);
            Live {
                seq: self.seq.advanced(),
                playback: if self.seq.ends_here() {
                    sounded.stopped()
                } else {
                    sounded
                },
                ..self
            }
        } else {
            self
        }
    }

    /// What a key does, and what it asks for.
    pub open spec fn pressed(
        self,
        key: Key,
        modifiers: Modifiers,
        tempos: Tempos,
        reading: Reading,
        now: int,
    ) -> (Live, Action) {
        let live = Live { console: self.console.cleared(), ..self };
        if live.console.active {
            live.on_command_line(key, reading, now)
        } else if live.console.pending_action is Some {
            live.on_question(key)
        } else if key == Key::Enter {
            (
                Live {
                    seq: if live.editor.edit_mode {
                        live.seq.at_line(live.editor.cursor_line, now)
                    } else {
                        live.seq.restarted(now)
                    },
                    ..live
                },
                Action::Nothing,
            )
        } else if key == Key::Char(':') && !modifiers.control {
            (Live { console: live.console.entered(), ..live }, Action::Nothing)
        } else if key == Key::Char('+') || key == Key::Char('=') {
            (Live { vars: Settings { bpm: tempos.up, ..live.vars }, ..live }, Action::Retime)
        } else if key == Key::Char('-') && !live.editor.edit_mode {
            if at_most64(ONE_DOUBLE, tempos.down.bits) {
                (Live { vars: Settings { bpm: tempos.down, ..live.vars }, ..live }, Action::Retime)
            } else {
                (live, Action::Nothing)
            }
        } else if live.editor.edit_mode {
            (live.on_pattern(key, modifiers.control, now), Action::Nothing)
        } else {
            (live.on_pads(key, modifiers, now), Action::Nothing)
        }
    }
}

/// Running a command keeps the history as it is.
proof fn lemma_command_keeps_history(
    cmd: Seq<char>,
    reading: Reading,
    dirty: bool,
    banks: Seq<Bank>,
    ran: Ran,
    now: int,
)
    ensures
        ({
            let after = command_run(cmd, reading, dirty, banks, ran, now).console;
            &&& after.history == ran.console.history
            &&& after.history_index == ran.console.history_index
        }),
{
}

/// Whether the numbers of the banks can be computed with for a command.
fn banks_ready(entries: &[BankEntry], line: &str) -> (r: bool)
    ensures
        r == banks_ok(banks_of(entries@), trimmed(line@)),
{
    let cmd = trim(&chars_of(line));
    proof {
        reveal_strlit("bank");
        reveal_strlit("bank ");
    }
    let named = spells(&cmd, "bank") || starts_with(&cmd, "bank ");
    let listing = named && {
        let tail = crate::text::part_of(&cmd, 4, cmd.len());
        assert(tail@ =~= cmd@.skip(4));
        trim(&tail).len() == 0
    };
    let ghost banks = banks_of(entries@);
    let n = entries.len();
    for i in 0..n
        invariant
            n == entries@.len(),
            banks == banks_of(entries@),
            cmd@ == trimmed(line@),
            listing == (has_word(cmd@, "bank"@, "bank "@) && behind(cmd@, 4).len() == 0),
            forall|j: int| 0 <= j < i ==> bank_end(#[trigger] banks[j]) <= usize::MAX,
            listing ==> forall|j: int| 0 <= j < i ==> bank_end(#[trigger] banks[j]) >= 1,
    {
        assert(banks[i as int] == entries@[i as int]@);
        let end: u128 = entries[i].start_slice as u128 + entries[i].slice_count as u128;
        if end > usize::MAX as u128 || (listing && end == 0) {
            assert(bank_end(banks[i as int]) == end);
            return false;
        }
    }
    true
}

impl Session {
    /// A session on a pattern, with the slices of its one bank.
    pub fn new(
        seq: SequencerState,
        vars: Variables,
        slices: Vec<Slice>,
        file_name: &str,
    ) -> (s: Self)
        requires
            seq@.in_sync(),
            seq@.on_a_step(),
            playable(slices@, slices@.len() as int),
        ensures
            s@.seq == seq@,
            s@.editor == (Editor {
                edit_mode: false,
                insert_mode: false,
                cursor_line: 0,
                cursor_col: 0,
                paste_buffer: None,
                current_bank: 0,
            }),
            s@.console == Console::blank(),
            s@.vars == vars@,
            s@.playback == tuned(vars@, PlaybackState::silent()),
            s@.slices == slices@,
            s@.num_slices == slices@.len(),
            s@.banks == seq![
                (Bank {
                    file_name: file_name@,
                    start_slice: 0,
                    slice_count: slices@.len() as int,
                }),
            ],
            s@.load_path is None,
            !s@.quit,
            s@.well_formed(),
    {
        let num_slices = slices.len();
        let mut playback = PlaybackState::new();
        vars.sync_to_state(&mut playback);
        let mut bank_entries: Vec<BankEntry> = Vec::new();
        let entry = BankEntry {
            file_name: file_name.to_owned(),
            start_slice: 0,
            slice_count: num_slices,
        };
        let ghost bank = entry@;
        bank_entries.push(entry);
        assert(banks_of(bank_entries@) =~= seq![bank]);
        Session {
            seq,
            editor: EditorState::new(),
            commands: CommandState::new(),
            vars,
            playback,
            slices,
            num_slices,
            bank_entries,
            bank_load_path: None,
            should_quit: false,
        }
    }

    /// Whether a key can be pressed: what it looks at is there.
    pub fn is_ready(&self, key: Key, modifiers: Modifiers) -> (r: bool)
        ensures
            r == self@.takes(key, modifiers),
    {
        let lines = self.seq.beats.len();
        assert(self@.seq.lines.len() == lines);
        if self.commands.active {
            key != Key::Enter || banks_ready(&self.bank_entries, self.commands.buffer.as_str())
        } else if self.commands.pending_action.is_some() {
            true
        } else if key == Key::Enter {
            !self.editor.edit_mode || self.editor.cursor_line < lines
        } else if (key == Key::Char(':') && !modifiers.control) || key == Key::Char('+') || key
            == Key::Char('=') {
            true
        } else if self.editor.edit_mode {
            edit_key_ready(&self.editor, &self.seq.beats, key, modifiers.control)
        } else {
            true
        }
    }

    /// Handle a key press on the command line.
    fn press_on_command_line(&mut self, key: Key, reading: &Reading, now: u128) -> (a: Action)
        requires
            old(self)@.well_formed(),
            key == Key::Enter ==> banks_ok(
                old(self)@.banks,
                trimmed(old(self)@.console.buffer),
            ),
        ensures
            (final(self)@, a) == old(self)@.on_command_line(key, *reading, now as int),
            final(self)@.console.recalls(),
    {
        match key {
            Key::Esc => {
                self.commands.cancel();
                Action::Nothing
            },
            Key::Enter => {
                let cmd = self.commands.submit();
                let ghost ran = Ran {
                    console: self.commands@,
                    vars: self.vars@,
                    load_path: path_view(self.bank_load_path),
                    quit: self.should_quit,
                    request: Request::Nothing,
                };
                let request = execute_command(
                    cmd.as_str(),
                    reading,
                    &mut self.vars,
                    self.seq.dirty,
                    &mut self.commands,
                    &self.bank_entries,
                    &mut self.bank_load_path,
                    &mut self.should_quit,
                    now,
                );
                proof {
                    lemma_command_keeps_history(
                        trimmed(cmd@),
                        *reading,
                        self.seq.dirty,
                        banks_of(self.bank_entries@),
                        ran,
                        now as int,
                    );
                }
                Action::Run(request)
            },
            Key::Up => {
                self.commands.history_up();
                Action::Nothing
            },
            Key::Down => {
                self.commands.history_down();
                Action::Nothing
            },
            Key::Backspace => {
                self.commands.erase_char();
                Action::Nothing
            },
            Key::Char(c) => {
                self.commands.type_char(c);
                Action::Nothing
            },
            _ => Action::Nothing,
        }
    }

    /// Handle a key press while a confirmation is asked for.
    fn press_on_question(&mut self, key: Key) -> (a: Action)
        requires
            old(self)@.console.pending_action is Some,
        ensures
            (final(self)@, a) == old(self)@.on_question(key),
    {
        let mut action = Action::Nothing;
        if key == Key::Char('y') || key == Key::Char('Y') {
            match self.commands.pending_action {
                Some(PendingAction::Quit) => {
                    self.should_quit = true;
                },
                _ => {
                    action = Action::Reload;
                },
            }
        }
        self.commands.settle();
        action
    }

    /// Handle a key press in the pattern editor.
    fn press_on_pattern(&mut self, key: Key, control: bool, now: u128)
        requires
            old(self)@.well_formed(),
            key_ok(old(self)@.editor, old(self)@.seq.lines, key, control),
        ensures
            final(self)@ == old(self)@.on_pattern(key, control, now as int),
            final(self)@.well_formed(),
    {
        let ghost before = Edit { editor: self.editor@, seq: self.seq@, state: self.playback };
        handle_edit_key(
            key,
            control,
            &mut self.editor,
            &mut self.seq,
            &self.slices,
            self.num_slices,
            &mut self.playback,
            now,
        );
        proof {
            lemma_keys_keep_sync(
                before,
                key,
                control,
                self.slices@,
                self.num_slices as int,
                now as int,
            );
        }
    }

    /// Handle a key press outside command mode and edit mode.
    fn press_on_pads(&mut self, key: Key, modifiers: Modifiers, now: u128)
        requires
            old(self)@.well_formed(),
        ensures
            final(self)@ == old(self)@.on_pads(key, modifiers, now as int),
            final(self)@.well_formed(),
    {
        match key {
            Key::Esc => {
                self.should_quit = true;
            },
            Key::Down => {
                self.editor.enter();
            },
            Key::Tab => {
                if self.playback.is_playing() {
                    self.playback.trigger_stutter(self.seq.stutter_len);
                }
            },
            Key::Char(c) => {
                if c == 'c' && modifiers.control {
                    self.should_quit = true;
                } else if c == ' ' {
                    self.seq.toggle(&mut self.playback, now);
                } else if c == 'n' && modifiers.control {
                    self.seq.append_empty_line();
                } else if '0' <= c && c <= '9' {
                    self.editor.current_bank = (c as u32 - 48) as u8;
                } else if let Some(base_idx) = key_to_slice(key) {
                    let idx = base_idx + (self.editor.current_bank as usize * SLICES_PER_BANK);
                    if idx < self.num_slices {
                        let slice = self.slices[idx];
                        let mode = if is_shift(modifiers) {
                            PlayMode::FreeRun
                        } else {
                            PlayMode::Slice
                        };
                        self.playback.trigger_slice(idx as u8, lower_bits(slice.start), mode);
                    }
                }
            },
            _ => {},
        }
    }

    /// Handle a key press. `tempos` are the whole tempos next to the current one, and `reading`
    /// is how the value on the command line reads as a number.
    pub fn press(
        &mut self,
        key: Key,
        modifiers: Modifiers,
        tempos: &TempoSteps,
        reading: &Reading,
        now: u128,
    ) -> (a: Action)
        requires
            old(self)@.well_formed(),
            old(self)@.takes(key, modifiers),
        ensures
            (final(self)@, a) == old(self)@.pressed(
                key,
                modifiers,
                tempos@,
                *reading,
                now as int,
            ),
            final(self)@.well_formed(),
    {
        self.commands.clear_status();
        if self.commands.active {
            return self.press_on_command_line(key, reading, now);
        }
        if self.commands.pending_action.is_some() {
            return self.press_on_question(key);
        }
        if key == Key::Enter {
            if self.editor.edit_mode {
                self.seq.play_line(self.editor.cursor_line, now);
            } else {
                self.seq.restart(now);
            }
            return Action::Nothing;
        }
        if key == Key::Char(':') && !modifiers.control {
            self.commands.enter();
            return Action::Nothing;
        }
        if key == Key::Char('+') || key == Key::Char('=') {
            self.vars.bpm = tempos.up.clone();
            return Action::Retime;
        }
        if key == Key::Char('-') && !self.editor.edit_mode {
            if le64(ONE_DOUBLE, tempos.down.bits) {
                self.vars.bpm = tempos.down.clone();
                return Action::Retime;
            }
            return Action::Nothing;
        }
        if self.editor.edit_mode {
            self.press_on_pattern(key, modifiers.control, now);
        } else {
            self.press_on_pads(key, modifiers, now);
        }
        Action::Nothing
    }

    /// Go on with the pattern where a step is due. Returns true if a step was played.
    pub fn tick(&mut self, now: u128) -> (stepped: bool)
        requires
            old(self)@.well_formed(),
        ensures
            stepped == old(self)@.seq.is_due(now as int),
            final(self)@ == old(self)@.ticked(now as int),
            final(self)@.well_formed(),
    {
        self.seq.advance_step(now, &mut self.playback, &self.slices, self.num_slices)
    }

    /// Tune the playback state to the variables.
    pub fn tune(&mut self)
        ensures
            final(self)@ == (Live { playback: tuned(old(self)@.vars, old(self)@.playback), ..old(self)@ }),
    {
        self.vars.sync_to_state(&mut self.playback);
    }

    /// Take over a new timing: from one step to the next in nanoseconds, and the samples of a
    /// beat.
    pub fn retime(&mut self, step_duration: u128, beat_samples: u32)
        requires
            old(self)@.vars.stutter > 0,
        ensures
            final(self)@ == (Live {
                seq: Sequencer {
                    step_duration: step_duration as int,
                    stutter_len: beat_samples / old(self)@.vars.stutter,
                    ..old(self)@.seq
                },
                ..old(self)@
            }),
    {
        self.seq.update_timing(step_duration, beat_samples, self.vars.stutter);
    }

    /// Take note of the outcome of writing the configuration.
    pub fn saved(&mut self, path: &str, outcome: &Result<(), String>, now: u128)
        ensures
            final(self)@ == (Live {
                console: old(self)@.console.showing(save_words(path@, *outcome), now as int),
                seq: Sequencer {
                    dirty: old(self)@.seq.dirty && outcome is Err,
                    ..old(self)@.seq
                },
                ..old(self)@
            }),
    {
        do_save(path, outcome, &mut self.seq.dirty, &mut self.commands, now);
    }

    /// Take the outcome of reading the configuration.
    pub fn reloaded(&mut self, path: &str, outcome: Result<BreakConfig, String>, now: u128)
        requires
            old(self)@.well_formed(),
        ensures
            final(self)@ == old(self)@.with_config(
                path@,
                match outcome {
                    Ok(c) => Ok(c@),
                    Err(e) => Err(e@),
                },
                now as int,
            ),
            final(self)@.well_formed(),
    {
        do_reload(
            path,
            outcome,
            &mut self.seq,
            &mut self.editor,
            &mut self.commands,
            &mut self.vars,
            now,
        );
    }

    /// Load the audio of a file into the next available bank slots. `new_buf` is that audio, at
    /// the sample rate of what is loaded already, and `onsets` are the onsets detected in it.
    pub fn load(&mut self, new_buf: &AudioBuffer, onsets: &[usize], audio_buf: &mut AudioBuffer) -> (
    r: Result<usize, BankError>)
        requires
            ascending(onsets@),
            forall|i: int|
                0 <= i < onsets@.len() ==> #[trigger] onsets@[i] <= new_buf.samples@.len(),
            old(audio_buf).samples@.len() + new_buf.samples@.len() <= usize::MAX,
        ensures
            ({
                let before = old(self)@.library(old(audio_buf)@);
                let after = before.with_file(new_buf@, onsets@);
                &&& r == before.outcome(new_buf@, onsets@)
                &&& final(audio_buf)@ == after.sound
                &&& final(self)@ == (Live {
                    slices: after.slices,
                    banks: after.banks,
                    num_slices: if r is Ok {
                        after.slices.len() as int
                    } else {
                        old(self)@.num_slices
                    },
                    ..old(self)@
                })
            }),
            r matches Ok(n) ==> n <= SLICES_PER_BANK,
    {
        let r = load_bank(new_buf, onsets, audio_buf, &mut self.slices, &mut self.bank_entries);
        if r.is_ok() {
            self.num_slices = self.slices.len();
        }
        r
    }

    /// Report a file that was loaded, with `added` slices, and whether the audio output could be
    /// started again with them.
    pub fn report_loaded(
        &mut self,
        path: &str,
        added: usize,
        restarted: &Result<(), String>,
        now: u128,
    )
        ensures
            final(self)@ == (Live {
                console: old(self)@.console.showing(
                    loaded_words(path@, added as int, *restarted),
                    now as int,
                ),
                ..old(self)@
            }),
    {
        let msg = match restarted {
            Ok(()) => {
                let mut msg = "Loaded ".to_string();
                msg.append(path);
                msg.append(" (");
                msg.append(decimal_of(added as u128).as_str());
                msg.append(" slices)");
                msg
            },
            Err(e) => {
                let mut msg = "Failed to restart audio: ".to_string();
                msg.append(e.as_str());
                msg
            },
        };
        self.commands.set_status(msg, now);
    }

    /// Report a file that was not loaded, and why.
    pub fn report_not_loaded(&mut self, why: &str, now: u128)
        ensures
            final(self)@ == (Live {
                console: old(self)@.console.showing("Failed to load: "@ + why@, now as int),
                ..old(self)@
            }),
    {
        let mut msg = "Failed to load: ".to_string();
        msg.append(why);
        self.commands.set_status(msg, now);
    }

    /// What the screen is to show of the session.
    pub fn screen(&self, file_name: &str, sample_rate: u32, duration: String, bpm: String) -> (
    app: App)
        ensures
            app@ == self@.screen_of(file_name@, sample_rate, duration@, bpm@),
    {
        App {
            file_name: file_name.to_owned(),
            sample_rate,
            duration,
            bpm,
            num_slices: self.num_slices,
            state: self.playback,
            beats: copy_lines(&self.seq.beats),
            current_step: self.seq.current_step,
            total_steps: self.seq.total_steps,
            sequencer_playing: self.seq.playing,
            edit_mode: self.editor.edit_mode,
            insert_mode: self.editor.insert_mode,
            cursor_line: self.editor.cursor_line,
            cursor_col: self.editor.cursor_col,
            command_mode: self.commands.active,
            command_buffer: self.commands.buffer.clone(),
            status_message: self.commands.status_message.clone(),
            confirm_prompt: self.commands.confirm_prompt.clone(),
            dirty: self.seq.dirty,
            current_bank: self.editor.current_bank,
        }
    }
}

/// What is said of a file that was loaded.
pub open spec fn loaded_words(
    path: Seq<char>,
    added: int,
    restarted: Result<(), String>,
) -> Seq<char> {
    match restarted {
        Ok(()) => "Loaded "@ + path + " ("@ + decimal(added as nat) + " slices)"@,
        Err(e) => "Failed to restart audio: "@ + e@,
    }
}

/// A file that was loaded leaves the session as sound as it was.
pub proof fn lemma_load_keeps_session(
    live: Live,
    sound: Sound,
    new: Sound,
    onsets: Seq<usize>,
)
    requires
        live.well_formed(),
        live.library(sound).sound_enough(),
        live.library(sound).banked(),
        sound.samples.len() + new.samples.len() <= usize::MAX,
        forall|i: int| 0 <= i < onsets.len() ==> #[trigger] onsets[i] <= new.samples.len(),
    ensures
        ({
            let after = live.library(sound).with_file(new, onsets);
            &&& after.sound_enough()
            &&& after.banked()
            &&& (Live {
                slices: after.slices,
                banks: after.banks,
                num_slices: after.slices.len() as int,
                ..live
            }).well_formed()
        }),
{
    lemma_load_keeps_order(live.library(sound), new, onsets);
    let after = live.library(sound).with_file(new, onsets);
    assert forall|i: int| 0 <= i < after.slices.len() implies 0 < (#[trigger] after.slices[i]).end by {
        assert(after.slices[i].start < after.slices[i].end);
    }
}

/// Only a command, a confirmed question, or, in normal mode, Esc and Ctrl-C end the session.
pub proof fn lemma_what_quits(
    live: Live,
    key: Key,
    modifiers: Modifiers,
    tempos: Tempos,
    reading: Reading,
    now: int,
)
    requires
        !live.quit,
        live.pressed(key, modifiers, tempos, reading, now).0.quit,
    ensures
        if live.console.active {
            key == Key::Enter
        } else if live.console.pending_action is Some {
            live.console.pending_action == Some(PendingAction::Quit) && (key == Key::Char('y')
                || key == Key::Char('Y'))
        } else {
            !live.editor.edit_mode && (key == Key::Esc || (key == Key::Char('c')
                && modifiers.control))
        },
{
}

/// A key that is typed into a command changes nothing but the command line.
pub proof fn lemma_typing_changes_command_only(
    live: Live,
    key: Key,
    modifiers: Modifiers,
    tempos: Tempos,
    reading: Reading,
    now: int,
)
    requires
        live.console.active,
        key != Key::Enter,
    ensures
        ({
            let (after, action) = live.pressed(key, modifiers, tempos, reading, now);
            &&& action == Action::Nothing
            &&& after == (Live { console: after.console, ..live })
        }),
{
}

/// A pad key plays the slice of its number in the current bank: to its end, or on to the end of
/// the audio where Shift is held.
pub proof fn lemma_pad_keys_play(
    live: Live,
    key: Key,
    modifiers: Modifiers,
    tempos: Tempos,
    reading: Reading,
    now: int,
)
    requires
        !live.console.active,
        live.console.pending_action is None,
        !live.editor.edit_mode,
        !modifiers.control,
        live.slice_of_key(key) is Some,
    ensures
        ({
            let after = live.pressed(key, modifiers, tempos, reading, now).0;
            let idx = live.slice_of_key(key)->0;
            &&& after.playback == live.playback.triggered(
                idx as u8,
                low32(live.slices[idx].start as int),
                if modifiers.shift {
                    PlayMode::FreeRun
                } else {
                    PlayMode::Slice
                },
            )
            &&& after.seq == live.seq
            &&& after.editor == live.editor
        }),
{
}

/// On the command line a character goes to the end of the command, Backspace takes the last one off,
/// the arrows recall, and Esc drops the command; the message that was shown is gone.
pub proof fn lemma_keys_on_the_command_line(
    live: Live,
    c: char,
    modifiers: Modifiers,
    tempos: Tempos,
    reading: Reading,
    now: int,
)
    requires
        live.console.active,
    ensures
        ({
            let typed = live.pressed(Key::Char(c), modifiers, tempos, reading, now).0.console;
            let erased = live.pressed(Key::Backspace, modifiers, tempos, reading, now).0.console;
            let dropped = live.pressed(Key::Esc, modifiers, tempos, reading, now).0.console;
            let up = live.pressed(Key::Up, modifiers, tempos, reading, now).0.console;
            let down = live.pressed(Key::Down, modifiers, tempos, reading, now).0.console;
            &&& typed.active && typed.buffer == live.console.buffer.push(c)
            &&& erased.active && (live.console.buffer.len() > 0 ==> erased.buffer
                == live.console.buffer.drop_last())
            &&& !dropped.active && dropped.buffer.len() == 0 && dropped.history == live.console.history
            &&& up == live.console.cleared().up() && down == live.console.cleared().down()
            &&& typed.status_time is None && erased.status_time is None && dropped.status_time is None
        }),
{
}

/// Enter runs the command that was typed, without white space around it, and puts it into the history:
/// `w` and `wq` have the pattern written, `e!` has it read, `wq` and `q!` end the session; `q` and `e`
/// do so where nothing is unsaved, and else ask.
pub proof fn lemma_entered_commands(
    live: Live,
    modifiers: Modifiers,
    tempos: Tempos,
    reading: Reading,
    now: int,
)
    requires
        live.console.active,
        !live.quit,
    ensures
        ({
            let cmd = trimmed(live.console.buffer);
            let (after, action) = live.pressed(Key::Enter, modifiers, tempos, reading, now);
            &&& cmd == "w"@ ==> action == Action::Run(Request::Save) && !after.quit
            &&& cmd == "wq"@ ==> action == Action::Run(Request::Save) && after.quit
            &&& cmd == "q!"@ ==> action == Action::Run(Request::Nothing) && after.quit
            &&& cmd == "e!"@ ==> action == Action::Run(Request::Reload) && !after.quit
            &&& cmd == "q"@ ==> after.quit == !live.seq.dirty && (live.seq.dirty
                ==> after.console.pending_action == Some(PendingAction::Quit))
            &&& cmd == "e"@ ==> !after.quit && (live.seq.dirty ==> action == Action::Run(
                Request::Nothing,
            ) && after.console.pending_action == Some(PendingAction::Reload)) && (!live.seq.dirty
                ==> action == Action::Run(Request::Reload))
            &&& !after.console.active && after.console.buffer.len() == 0
            &&& live.console.buffer.len() > 0 ==> after.console.history.len() > 0
                && after.console.history.last() == live.console.buffer
            &&& after.seq == live.seq && after.editor == live.editor && after.playback == live.playback
        }),
{
    let ran = Ran {
        console: live.console.cleared().submitted(),
        vars: live.vars,
        load_path: live.load_path,
        quit: live.quit,
        request: Request::Nothing,
    };
    crate::commands::lemma_commands_on_files(reading, live.seq.dirty, live.banks, ran, now);
    lemma_command_keeps_history(
        trimmed(live.console.buffer),
        reading,
        live.seq.dirty,
        live.banks,
        ran,
        now,
    );
    lemma_command_ends_typing(
        trimmed(live.console.buffer),
        reading,
        live.seq.dirty,
        live.banks,
        ran,
        now,
    );
}

proof fn lemma_command_ends_typing(
    cmd: Seq<char>,
    reading: Reading,
    dirty: bool,
    banks: Seq<Bank>,
    ran: Ran,
    now: int,
)
    ensures
        ({
            let after = command_run(cmd, reading, dirty, banks, ran, now).console;
            &&& after.active == ran.console.active
            &&& after.buffer == ran.console.buffer
        }),
{
}

/// A question is answered by any key: `y`, small or capital, does what was asked about, and every other
/// key does nothing; the question is gone.
pub proof fn lemma_answers(
    live: Live,
    key: Key,
    modifiers: Modifiers,
    tempos: Tempos,
    reading: Reading,
    now: int,
)
    requires
        !live.console.active,
        live.console.pending_action is Some,
    ensures
        ({
            let (after, action) = live.pressed(key, modifiers, tempos, reading, now);
            let yes = key == Key::Char('y') || key == Key::Char('Y');
            let to_quit = live.console.pending_action == Some(PendingAction::Quit);
            &&& after.console.pending_action is None && after.console.confirm_prompt.len() == 0
            &&& after.quit == (live.quit || (yes && to_quit))
            &&& action == if yes && !to_quit {
                Action::Reload
            } else {
                Action::Nothing
            }
            &&& after == (Live { console: after.console, quit: after.quit, ..live })
        }),
{
}

/// Neither typing a command nor being asked.
pub open spec fn at_ease(live: Live) -> bool {
    !live.console.active && live.console.pending_action is None
}

/// Keys that mean the same with and without the editor: Enter plays the line of the cursor in the
/// editor and else the pattern from its start; `:` begins a command; `+` and `=` take the next whole
/// tempo up.
pub proof fn lemma_keys_everywhere(
    live: Live,
    modifiers: Modifiers,
    tempos: Tempos,
    reading: Reading,
    now: int,
)
    requires
        at_ease(live),
    ensures
        ({
            let (enter, a) = live.pressed(Key::Enter, modifiers, tempos, reading, now);
            let (colon, b) = live.pressed(Key::Char(':'), modifiers, tempos, reading, now);
            let (plus, c) = live.pressed(Key::Char('+'), modifiers, tempos, reading, now);
            let (equals, d) = live.pressed(Key::Char('='), modifiers, tempos, reading, now);
            &&& a == Action::Nothing && enter.playback == live.playback
            &&& live.editor.edit_mode ==> enter.seq == live.seq.at_line(live.editor.cursor_line, now)
            &&& !live.editor.edit_mode ==> enter.seq.current_step == 0 && enter.seq.playing
                && enter.seq.last_step == now
            &&& !modifiers.control ==> b == Action::Nothing && colon.console.active
                && colon.console.buffer.len() == 0 && colon.seq == live.seq
            &&& c == Action::Retime && plus.vars == (Settings { bpm: tempos.up, ..live.vars })
            &&& plus.seq == live.seq && plus.editor == live.editor && plus.playback == live.playback
            &&& equals == plus && d == c
        }),
{
}

/// `-` takes the next whole tempo down, as long as that is at least 1; in the editor it is a command
/// like any other.
pub proof fn lemma_key_for_slower(
    live: Live,
    modifiers: Modifiers,
    tempos: Tempos,
    reading: Reading,
    now: int,
)
    requires
        at_ease(live),
        !live.editor.edit_mode,
    ensures
        ({
            let (after, action) = live.pressed(Key::Char('-'), modifiers, tempos, reading, now);
            let slower = at_most64(0x3FF0_0000_0000_0000, tempos.down.bits);
            &&& slower ==> action == Action::Retime && after.vars == (Settings {
                bpm: tempos.down,
                ..live.vars
            })
            &&& !slower ==> action == Action::Nothing && after.vars == live.vars
            &&& after.seq == live.seq && after.editor == live.editor && after.playback == live.playback
        }),
{
}

/// In the editor every other key goes to the editor, on the pattern as it stands, and touches nothing
/// else.
pub proof fn lemma_keys_in_the_editor(
    live: Live,
    key: Key,
    modifiers: Modifiers,
    tempos: Tempos,
    reading: Reading,
    now: int,
)
    requires
        at_ease(live),
        live.editor.edit_mode,
        key != Key::Enter && key != Key::Char('+') && key != Key::Char('='),
        key == Key::Char(':') ==> modifiers.control,
    ensures
        ({
            let (after, action) = live.pressed(key, modifiers, tempos, reading, now);
            let edit = Edit { editor: live.editor, seq: live.seq, state: live.playback };
            let done = edit.pressed(key, modifiers.control, live.slices, live.num_slices, now);
            &&& action == Action::Nothing
            &&& after.editor == done.editor && after.seq == done.seq && after.playback == done.state
            &&& after.vars == live.vars && after.quit == live.quit && after.slices == live.slices
            &&& after.console == live.console.cleared()
        }),
{
}

/// Outside the editor Esc and Ctrl-C end the session, Down enters the editor at the start of the
/// pattern, Tab stutters what is playing, the blank starts and stops the pattern, Ctrl-N puts a line of
/// sixteen rests behind the pattern, and a digit chooses the bank.
pub proof fn lemma_keys_outside_the_editor(
    live: Live,
    modifiers: Modifiers,
    tempos: Tempos,
    reading: Reading,
    now: int,
    d: char,
)
    requires
        at_ease(live),
        !live.editor.edit_mode,
        '0' <= d <= '9',
    ensures
        ({
            let esc = live.pressed(Key::Esc, modifiers, tempos, reading, now).0;
            let down = live.pressed(Key::Down, modifiers, tempos, reading, now).0;
            let tab = live.pressed(Key::Tab, modifiers, tempos, reading, now).0;
            let blank = live.pressed(Key::Char(' '), modifiers, tempos, reading, now).0;
            let c = live.pressed(Key::Char('c'), modifiers, tempos, reading, now).0;
            let n = live.pressed(Key::Char('n'), modifiers, tempos, reading, now).0;
            let digit = live.pressed(Key::Char(d), modifiers, tempos, reading, now).0;
            &&& esc.quit && esc.seq == live.seq
            &&& modifiers.control ==> c.quit
            &&& down.editor.edit_mode && down.editor.cursor_line == 0 && down.editor.cursor_col == 0
            &&& down.seq == live.seq && down.playback == live.playback
            &&& live.playback.playing ==> tab.playback == live.playback.stuttered(live.seq.stutter_len)
            &&& !live.playback.playing ==> tab.playback == live.playback
            &&& tab.seq == live.seq && tab.editor == live.editor
            &&& blank.seq == live.seq.toggled(now) && blank.seq.playing == !live.seq.playing
            &&& live.seq.playing ==> !blank.playback.playing
            &&& !live.seq.playing ==> blank.playback == live.playback
            &&& modifiers.control ==> n.seq.lines == live.seq.lines.push(
                seq!['-', '-', '-', '-', '-', '-', '-', '-', '-', '-', '-', '-', '-', '-', '-', '-'],
            ) && n.seq.in_sync() && n.seq.dirty
            &&& digit.editor == (Editor { current_bank: (d as int - '0' as int) as u8, ..live.editor })
            &&& digit.seq == live.seq && digit.playback == live.playback
        }),
{
    reveal_strlit("----------------");
    assert("----------------"@ =~= seq![
        '-', '-', '-', '-', '-', '-', '-', '-', '-', '-', '-', '-', '-', '-', '-', '-',
    ]);
}

/// A pad key plays the slice of its number in the bank that was chosen: from its start, to its end or,
/// with Shift, on to the end of all samples. Where that bank has no such slice, nothing changes.
pub proof fn lemma_what_pad_keys_play(
    live: Live,
    i: int,
    key: Key,
    modifiers: Modifiers,
    tempos: Tempos,
    reading: Reading,
    now: int,
)
    requires
        at_ease(live),
        !live.editor.edit_mode,
        pad_of_key(key) == Some(i as usize),
        0 <= i < 16,
    ensures
        ({
            let (after, action) = live.pressed(key, modifiers, tempos, reading, now);
            let idx = i + 16 * live.editor.current_bank;
            &&& action == Action::Nothing
            &&& after.seq == live.seq && after.editor == live.editor && after.vars == live.vars
            &&& idx >= live.num_slices ==> after.playback == live.playback
            &&& idx < live.num_slices ==> {
                &&& after.playback.playing && after.playback.retrigger
                &&& idx < 256 ==> after.playback.active_slice == idx
                &&& after.playback.position == live.slices[idx].start as int % 0x1_0000_0000
                &&& PlayMode::numbered(after.playback.mode) == if modifiers.shift {
                    PlayMode::FreeRun
                } else {
                    PlayMode::Slice
                }
                &&& after.playback.effect_flags == live.playback.effect_flags
            }
        }),
{
}

/// As time goes by nothing changes until a step is due; that step is then played and is over. A rest
/// stops what was playing, and the last step of a line that was to be played alone stops as well.
pub proof fn lemma_as_time_goes_by(live: Live, now: int)
    requires
        live.well_formed(),
    ensures
        ({
            let after = live.ticked(now);
            &&& !live.seq.is_due(now) ==> after == live
            &&& live.seq.is_due(now) ==> {
                let fx = live.seq.effect_sequence[live.seq.current_step];
                &&& after.seq == live.seq.advanced()
                &&& after.playback.playing <==> !live.seq.ends_here() && (
                live.seq.beat_sequence[live.seq.current_step] matches Some(pad) && pad + 16 * fx.bank
                    < live.num_slices)
                &&& after == (Live { seq: after.seq, playback: after.playback, ..live })
            }
        }),
{
}

/// A configuration that was read takes the place of the pattern, the variables and the cursor; one
/// that was not changes nothing. Either way it is said.
pub proof fn lemma_reading_a_configuration(
    live: Live,
    path: Seq<char>,
    config: Config,
    e: Seq<char>,
    now: int,
)
    ensures
        ({
            let read = live.with_config(path, Ok(config), now);
            let failed = live.with_config(path, Err(e), now);
            &&& read.seq.lines == config.lines && read.seq.in_sync() && !read.seq.dirty
            &&& read.editor.cursor_line == 0 && read.editor.cursor_col == 0
            &&& read.vars == crate::variables::settings_of(config)
            &&& read.console.status_message == "Reloaded: "@ + path
            &&& read.console.status_time == Some(now)
            &&& failed == (Live { console: failed.console, ..live })
            &&& failed.console.status_message == "Error reloading: "@ + e
        }),
{
}

/// The screen is drawn from the session as it is.
pub proof fn lemma_what_the_screen_is_drawn_from(
    live: Live,
    file_name: Seq<char>,
    sample_rate: u32,
    duration: Seq<char>,
    bpm: Seq<char>,
)
    ensures
        ({
            let s = live.screen_of(file_name, sample_rate, duration, bpm);
            &&& s.file_name == file_name && s.sample_rate == sample_rate
            &&& s.duration == duration && s.bpm == bpm
            &&& s.num_slices == live.num_slices && s.state == live.playback
            &&& s.lines == live.seq.lines && s.dirty == live.seq.dirty
            &&& s.current_step == live.seq.current_step && s.total_steps == live.seq.total_steps
            &&& s.sequencer_playing == live.seq.playing
            &&& s.edit_mode == live.editor.edit_mode && s.insert_mode == live.editor.insert_mode
            &&& s.cursor_line == live.editor.cursor_line && s.cursor_col == live.editor.cursor_col
            &&& s.current_bank == live.editor.current_bank
            &&& s.command_mode == live.console.active && s.command_buffer == live.console.buffer
            &&& s.status_message == live.console.status_message
            &&& s.confirm_prompt == live.console.confirm_prompt
        }),
{
}

/// What is said of a file that was loaded: how many slices it gave.
pub proof fn lemma_words_of_loading(path: Seq<char>, added: nat, e: String)
    ensures
        loaded_words(path, added as int, Ok(())) == "Loaded "@ + path + " ("@ + decimal(added)
            + " slices)"@,
        loaded_words(path, added as int, Err(e)) == "Failed to restart audio: "@ + e@,
{
}

/// A key that has no meaning where it is pressed does nothing but take the message away.
pub proof fn lemma_keys_without_any_meaning(
    live: Live,
    key: Key,
    modifiers: Modifiers,
    tempos: Tempos,
    reading: Reading,
    now: int,
)
    requires
        live.console.active ==> key == Key::Left || key == Key::Right || key == Key::Insert || key
            == Key::Tab || key == Key::Other,
        !live.console.active ==> live.console.pending_action is None && !live.editor.edit_mode && (key
            == Key::Up || key == Key::Left || key == Key::Right || key == Key::Insert || key
            == Key::Backspace || key == Key::Other || (key is Char && pad_of_key(key) is None && key
            != Key::Char(':') && key != Key::Char('+') && key != Key::Char('=') && key != Key::Char('-')
            && key != Key::Char(' ') && key != Key::Char('c') && key != Key::Char('n') && !('0'
            <= key->Char_0 <= '9'))),
    ensures
        live.pressed(key, modifiers, tempos, reading, now) == (
            Live { console: live.console.cleared(), ..live },
            Action::Nothing,
        ),
{
}

/// Without Ctrl, `c` and `n` mean nothing outside the editor, and `:` with Ctrl means nothing either.
pub proof fn lemma_letters_that_need_control(
    live: Live,
    modifiers: Modifiers,
    tempos: Tempos,
    reading: Reading,
    now: int,
)
    requires
        at_ease(live),
        !live.editor.edit_mode,
    ensures
        ({
            let same = (Live { console: live.console.cleared(), ..live }, Action::Nothing);
            &&& !modifiers.control ==> live.pressed(Key::Char('c'), modifiers, tempos, reading, now)
                == same
            &&& !modifiers.control ==> live.pressed(Key::Char('n'), modifiers, tempos, reading, now)
                == same
            &&& modifiers.control ==> live.pressed(Key::Char(':'), modifiers, tempos, reading, now)
                == same
        }),
{
}

/// What every session keeps.
pub proof fn lemma_what_well_formed_means(live: Live)
    requires
        live.well_formed(),
    ensures
        live.seq.in_sync() && live.seq.on_a_step(),
        live.console.history_index matches Some(i) ==> 0 <= i < live.console.history.len(),
        playable(live.slices, live.num_slices),
{
}

} // verus!
