//! The pattern editor: a cursor in the beat lines, and what each key does there.

use vstd::arithmetic::div_mod::lemma_fundamental_div_mod_converse;
use vstd::prelude::*;

use crate::analysis::slicer::{Slice, SLICES_PER_BANK};
use crate::config::{
    char_to_slice, is_command, lemma_fits, lemma_width, line_of, pad_of, segment_step_to_visual_col,
    visual_col_to_segment_step, BeatLine, ParsedBeatLine,
};
use crate::engine::effects::{all_dashes, without_dashes};
use crate::engine::state::{PlayMode, PlaybackState};
use crate::sequencer::{low32, lower_bits, Sequencer, SequencerState};
use crate::text::{copy_chars, digit_char, lines_of, rows_of};
use crate::ui::input::{beat_of_key, command_of_key, key_to_beat_char, key_to_command_char, Key};

verus! {

/// What an editor holds.
#[verifier::ext_equal]
pub struct Editor {
    pub edit_mode: bool,
    pub insert_mode: bool,
    pub cursor_line: int,
    pub cursor_col: int,
    pub paste_buffer: Option<Seq<char>>,
    pub current_bank: u8,
}

impl Editor {
    /// The editor switched on, at the start of the pattern.
    pub open spec fn entered(self) -> Editor {
        Editor { edit_mode: true, cursor_line: 0, cursor_col: 0, ..self }
    }

    /// The editor switched off.
    pub open spec fn exited(self) -> Editor {
        Editor { edit_mode: false, insert_mode: false, ..self }
    }

    /// The editor with its cursor elsewhere.
    pub open spec fn at(self, line: int, col: int) -> Editor {
        Editor { cursor_line: line, cursor_col: col, ..self }
    }
}

/// The cursor, the modes and the paste buffer of the pattern editor.
pub struct EditorState {
    pub edit_mode: bool,
    pub insert_mode: bool,
    pub cursor_line: usize,
    pub cursor_col: usize,
    pub paste_buffer: Option<String>,
    pub current_bank: u8,
}

impl View for EditorState {
    type V = Editor;

    open spec fn view(&self) -> Editor {
        Editor {
            edit_mode: self.edit_mode,
            insert_mode: self.insert_mode,
            cursor_line: self.cursor_line as int,
            cursor_col: self.cursor_col as int,
            paste_buffer: match self.paste_buffer {
                Some(s) => Some(s@),
                None => None,
            },
            current_bank: self.current_bank,
        }
    }
}

impl EditorState {
    /// An editor switched off, at the start of the pattern, with nothing to paste.
    pub fn new() -> (e: Self)
        ensures
            e@ == (Editor {
                edit_mode: false,
                insert_mode: false,
                cursor_line: 0,
                cursor_col: 0,
                paste_buffer: None,
                current_bank: 0,
            }),
    {
        EditorState {
            edit_mode: false,
            insert_mode: false,
            cursor_line: 0,
            cursor_col: 0,
            paste_buffer: None,
            current_bank: 0,
        }
    }

    /// Switch the editor on, at the start of the pattern.
    pub fn enter(&mut self)
        ensures
            final(self)@ == old(self)@.entered(),
    {
        self.edit_mode = true;
        self.cursor_line = 0;
        self.cursor_col = 0;
    }

    /// Switch the editor off.
    pub fn exit(&mut self)
        ensures
            final(self)@ == old(self)@.exited(),
    {
        self.edit_mode = false;
        self.insert_mode = false;
    }
}

/// The last column of a line.
pub open spec fn last_col(line: BeatLine) -> int {
    if line.width() > 0 {
        line.width() - 1
    } else {
        0
    }
}

/// A column moved off a separator: to the next column, or the one before at the end.
pub open spec fn off_separator(line: BeatLine, col: int) -> int {
    if line.cell_at(col) is Some {
        col
    } else if col < last_col(line) {
        col + 1
    } else if col > 0 {
        col - 1
    } else {
        col
    }
}

/// Where the cursor comes to stand on a line that it enters at column `col`.
pub open spec fn landing(line: BeatLine, col: int) -> int {
    off_separator(
        line,
        if col < last_col(line) {
            col
        } else {
            last_col(line)
        },
    )
}

/// The column to the right of `col`, separators skipped.
pub open spec fn right_of(line: BeatLine, col: int) -> int {
    if line.cell_at(col + 1) is None && col + 1 < last_col(line) {
        col + 2
    } else {
        col + 1
    }
}

/// The column to the left of `col`, separators skipped.
pub open spec fn left_of(line: BeatLine, col: int) -> int {
    if line.cell_at(col - 1) is None && col - 1 > 0 {
        col - 2
    } else {
        col - 1
    }
}

/// The editor one column further in `lines`: on the same line, or at the start of the next.
pub open spec fn one_right(e: Editor, lines: Seq<Seq<char>>) -> Editor {
    let line = line_of(lines[e.cursor_line]);
    if e.cursor_col < last_col(line) {
        e.at(e.cursor_line, right_of(line, e.cursor_col))
    } else if e.cursor_line + 1 < lines.len() {
        e.at(e.cursor_line + 1, 0)
    } else {
        e
    }
}

/// The editor one column back in `lines`: on the same line, or at the end of the one before.
pub open spec fn one_left(e: Editor, lines: Seq<Seq<char>>) -> Editor {
    let line = line_of(lines[e.cursor_line]);
    if e.cursor_col > 0 {
        e.at(e.cursor_line, left_of(line, e.cursor_col))
    } else if e.cursor_line > 0 {
        e.at(e.cursor_line - 1, last_col(line_of(lines[e.cursor_line - 1])))
    } else {
        e
    }
}

/// The editor at the start of its segment, or of the segment before.
pub open spec fn segment_left(e: Editor, lines: Seq<Seq<char>>) -> Editor {
    let line = line_of(lines[e.cursor_line]);
    match line.cell_at(e.cursor_col) {
        Some((seg, _)) => if e.cursor_col > line.column_of(seg, 0) {
            e.at(e.cursor_line, line.column_of(seg, 0))
        } else if seg > 0 {
            e.at(e.cursor_line, line.column_of(seg - 1, 0))
        } else {
            e
        },
        None => e,
    }
}

/// The editor at the end of its segment, or of the segment behind.
pub open spec fn segment_right(e: Editor, lines: Seq<Seq<char>>) -> Editor {
    let line = line_of(lines[e.cursor_line]);
    let last = line.notes.len() - 1;
    match line.cell_at(e.cursor_col) {
        Some((seg, _)) => if e.cursor_col < line.column_of(seg, last) {
            e.at(e.cursor_line, line.column_of(seg, last))
        } else if seg + 1 < line.segments() {
            e.at(e.cursor_line, line.column_of(seg + 1, last))
        } else {
            e
        },
        None => e,
    }
}

/// The editor one line up; from the first line it is switched off.
pub open spec fn one_up(e: Editor, lines: Seq<Seq<char>>) -> Editor {
    if e.cursor_line == 0 {
        e.exited()
    } else {
        e.at(e.cursor_line - 1, landing(line_of(lines[e.cursor_line - 1]), e.cursor_col))
    }
}

/// The editor one line down, where there is one.
pub open spec fn one_down(e: Editor, lines: Seq<Seq<char>>) -> Editor {
    if e.cursor_line + 1 < lines.len() {
        e.at(e.cursor_line + 1, landing(line_of(lines[e.cursor_line + 1]), e.cursor_col))
    } else {
        e
    }
}

/// `n` dashes.
pub open spec fn dashes(n: nat) -> Seq<char> {
    Seq::new(n, |i: int| '-')
}

/// The line with a command segment of dashes behind the others.
pub open spec fn with_dashes(line: BeatLine) -> BeatLine {
    BeatLine { notes: line.notes, commands: line.commands.push(dashes(line.notes.len())) }
}

/// The line without its command segments of dashes alone.
pub open spec fn without_empty(line: BeatLine) -> BeatLine {
    BeatLine { notes: line.notes, commands: without_dashes(line.commands) }
}

/// The digit that selects a bank; banks have one digit.
pub open spec fn bank_char(bank: u8) -> char {
    if bank < 10 {
        digit_char(bank as int)
    } else {
        '0'
    }
}

/// The line with a note written at a step; a bank other than the first is written as a command
/// of the first command segment.
pub open spec fn with_note(line: BeatLine, step: int, ch: char, bank: u8) -> BeatLine {
    let notes = line.notes.update(step, ch);
    let commands = if bank == 0 {
        line.commands
    } else {
        let present = if line.commands.len() == 0 {
            seq![dashes(line.notes.len())]
        } else {
            line.commands
        };
        present.update(0, present[0].update(step, bank_char(bank)))
    };
    BeatLine { notes, commands }
}

/// The line with a command written at a step of a command segment.
pub open spec fn with_command(line: BeatLine, cmd: int, step: int, ch: char) -> BeatLine {
    BeatLine {
        notes: line.notes,
        commands: line.commands.update(cmd, line.commands[cmd].update(step, ch)),
    }
}

/// What writing a note sounds like: the note's slice, or silence.
pub open spec fn previewed(
    state: PlaybackState,
    ch: char,
    bank: u8,
    slices: Seq<Slice>,
    num_slices: int,
) -> PlaybackState {
    match pad_of(ch) {
        Some(pad) => {
            let idx = pad + bank * SLICES_PER_BANK;
            if idx < num_slices {
                state.triggered(
                    (idx % 256) as u8,
                    low32(slices[idx].start as int),
                    PlayMode::Slice,
                )
            } else {
                state
            }
        },
        None => state.stopped(),
    }
}

/// The line that a key writes at the cursor, where it writes any.
pub open spec fn written(e: Editor, lines: Seq<Seq<char>>, key: Key) -> Option<BeatLine> {
    let line = line_of(lines[e.cursor_line]);
    match line.cell_at(e.cursor_col) {
        Some((seg, step)) => if seg == 0 {
            match beat_of_key(key) {
                Some(ch) => Some(with_note(line, step, ch, e.current_bank)),
                None => None,
            }
        } else {
            match command_of_key(key) {
                Some(ch) => if step < line.commands[seg - 1].len() {
                    Some(with_command(line, seg - 1, step, ch))
                } else {
                    None
                },
                None => None,
            }
        },
        None => None,
    }
}

/// Whether the cursor is in the note segment.
pub open spec fn on_note(e: Editor, lines: Seq<Seq<char>>) -> bool {
    match line_of(lines[e.cursor_line]).cell_at(e.cursor_col) {
        Some((seg, _)) => seg == 0,
        None => false,
    }
}

/// The editor, the sequencer and the playback state, which an edit changes together.
#[verifier::ext_equal]
pub struct Edit {
    pub editor: Editor,
    pub seq: Sequencer,
    pub state: PlaybackState,
}

impl Edit {
    /// The current line replaced, the sequences left as they are.
    pub open spec fn with_line(self, line: BeatLine) -> Edit {
        Edit {
            seq: Sequencer {
                lines: self.seq.lines.update(self.editor.cursor_line, line.raw()),
                dirty: true,
                ..self.seq
            },
            ..self
        }
    }

    /// A line put behind the current one, with the cursor at its start.
    pub open spec fn with_new_line(self, raw: Seq<char>) -> Edit {
        Edit {
            editor: self.editor.at(self.editor.cursor_line + 1, 0),
            seq: self.seq.with_lines(
                self.seq.lines.insert(self.editor.cursor_line + 1, raw),
            ).changed(),
            ..self
        }
    }

    /// What a key that writes into the pattern does.
    pub open spec fn typed(self, key: Key, slices: Seq<Slice>, num_slices: int) -> Edit {
        match written(self.editor, self.seq.lines, key) {
            Some(line) => {
                let lines = self.seq.lines.update(self.editor.cursor_line, line.raw());
                Edit {
                    editor: if self.editor.insert_mode {
                        one_right(self.editor, lines)
                    } else {
                        self.editor
                    },
                    seq: self.seq.with_lines(lines).changed(),
                    state: if on_note(self.editor, self.seq.lines) {
                        previewed(
                            self.state,
                            beat_of_key(key)->0,
                            self.editor.current_bank,
                            slices,
                            num_slices,
                        )
                    } else {
                        self.state
                    },
                }
            },
            None => self,
        }
    }

    /// What a key held with Ctrl does, where it does something of its own.
    pub open spec fn with_control(self, key: Key) -> Option<Edit> {
        let lines = self.seq.lines;
        let line = line_of(lines[self.editor.cursor_line]);
        match key {
            Key::Left => Some(Edit { editor: segment_left(self.editor, lines), ..self }),
            Key::Right => Some(Edit { editor: segment_right(self.editor, lines), ..self }),
            Key::Char('c') => Some(
                Edit {
                    editor: Editor {
                        paste_buffer: Some(lines[self.editor.cursor_line]),
                        ..self.editor
                    },
                    ..self
                },
            ),
            Key::Char('v') => match self.editor.paste_buffer {
                Some(raw) => Some(self.with_new_line(raw)),
                None => Some(self),
            },
            Key::Char('n') => Some(self.with_new_line("--------"@)),
            Key::Char('u') => Some(self.with_line(with_dashes(line))),
            Key::Char('i') => {
                let after = self.with_line(without_empty(line));
                Some(
                    Edit {
                        editor: after.editor.at(
                            after.editor.cursor_line,
                            landing(
                                line_of(without_empty(line).raw()),
                                after.editor.cursor_col,
                            ),
                        ),
                        ..after
                    },
                )
            },
            _ => None,
        }
    }

    /// What a key does whether Ctrl is held or not.
    pub open spec fn plain(self, key: Key, slices: Seq<Slice>, num_slices: int, now: int) -> Edit {
        let lines = self.seq.lines;
        match key {
            Key::Esc => Edit { editor: self.editor.exited(), ..self },
            Key::Up => Edit { editor: one_up(self.editor, lines), ..self },
            Key::Down => Edit { editor: one_down(self.editor, lines), ..self },
            Key::Left => Edit { editor: one_left(self.editor, lines), ..self },
            Key::Right => Edit { editor: one_right(self.editor, lines), ..self },
            Key::Insert => Edit {
                editor: Editor { insert_mode: !self.editor.insert_mode, ..self.editor },
                ..self
            },
            Key::Tab => if self.state.playing {
                Edit { state: self.state.stuttered(self.seq.stutter_len), ..self }
            } else {
                self
            },
            Key::Char(c) => if c == ' ' {
                Edit {
                    seq: self.seq.toggled(now),
                    state: if self.seq.playing {
                        self.state.stopped()
                    } else {
                        self.state
                    },
                    ..self
                }
            } else if '0' <= c <= '9' {
                Edit {
                    editor: Editor { current_bank: (c as int - 48) as u8, ..self.editor },
                    ..self
                }
            } else {
                self.typed(key, slices, num_slices)
            },
            _ => self,
        }
    }

    /// What a key does in the editor.
    pub open spec fn pressed(
        self,
        key: Key,
        control: bool,
        slices: Seq<Slice>,
        num_slices: int,
        now: int,
    ) -> Edit {
        if control && self.with_control(key) is Some {
            self.with_control(key)->0
        } else {
            self.plain(key, slices, num_slices, now)
        }
    }
}

/// A line whose columns fit a machine word even with one more segment.
pub open spec fn roomy(line: BeatLine) -> bool {
    line.stride() * (line.segments() + 1) <= usize::MAX
}

/// The cursor is on a line, and the columns of that line can be counted.
pub open spec fn cursor_ok(e: Editor, lines: Seq<Seq<char>>) -> bool {
    e.cursor_line < lines.len() && roomy(line_of(lines[e.cursor_line]))
}

/// A bank digit that a note would write has its place in the first command segment.
pub open spec fn bank_ok(e: Editor, lines: Seq<Seq<char>>, key: Key) -> bool {
    let line = line_of(lines[e.cursor_line]);
    match line.cell_at(e.cursor_col) {
        Some((seg, step)) => seg == 0 && beat_of_key(key) is Some && e.current_bank != 0
            && line.commands.len() > 0 ==> step < line.commands[0].len(),
        None => true,
    }
}

/// A key can be pressed: the lines that it looks at exist, and their columns can be counted.
pub open spec fn key_ok(e: Editor, lines: Seq<Seq<char>>, key: Key, control: bool) -> bool {
    match key {
        Key::Esc | Key::Insert | Key::Tab => true,
        Key::Up => e.cursor_line == 0 || (e.cursor_line - 1 < lines.len() && roomy(
            line_of(lines[e.cursor_line - 1]),
        )),
        Key::Down => e.cursor_line < usize::MAX && (e.cursor_line + 1 < lines.len() ==> roomy(
            line_of(lines[e.cursor_line + 1]),
        )),
        Key::Left => cursor_ok(e, lines) && (!control && e.cursor_col == 0 && e.cursor_line > 0
            ==> roomy(line_of(lines[e.cursor_line - 1]))),
        Key::Right => cursor_ok(e, lines),
        Key::Char(c) => if control && c == 'v' {
            e.paste_buffer is Some ==> e.cursor_line < lines.len()
        } else if control && (c == 'n' || c == 'c') {
            e.cursor_line < lines.len()
        } else if control && (c == 'u' || c == 'i') {
            cursor_ok(e, lines)
        } else if c == ' ' || '0' <= c <= '9' {
            true
        } else {
            cursor_ok(e, lines) && bank_ok(e, lines, key)
        },
        _ => cursor_ok(e, lines),
    }
}

proof fn lemma_roomy_fits(line: BeatLine)
    requires
        roomy(line),
    ensures
        line.fits(),
        with_dashes(line).fits(),
{
    assert(line.stride() * (line.segments() + 1) >= line.stride() * line.segments())
        by (nonlinear_arith)
        requires
            line.stride() >= 0,
    ;
}

/// The last column of a line.
fn last_column(parsed: &ParsedBeatLine) -> (c: usize)
    requires
        parsed@.fits(),
    ensures
        c == last_col(parsed@),
{
    let width = parsed.display_width();
    if width > 0 {
        width - 1
    } else {
        0
    }
}

/// If cursor_col is on a ':' separator, nudge it to the next valid position.
pub fn snap_off_separator(parsed: &ParsedBeatLine, cursor_col: &mut usize)
    requires
        parsed@.fits(),
    ensures
        *final(cursor_col) == off_separator(parsed@, *old(cursor_col) as int),
{
    if visual_col_to_segment_step(parsed, *cursor_col).is_none() {
        let max = last_column(parsed);
        if *cursor_col < max {
            *cursor_col = *cursor_col + 1;
        } else if *cursor_col > 0 {
            *cursor_col = *cursor_col - 1;
        }
    }
}

/// Where the cursor comes to stand on a line that it enters at column `col`.
fn land(parsed: &ParsedBeatLine, col: usize) -> (c: usize)
    requires
        parsed@.fits(),
    ensures
        c == landing(parsed@, col as int),
{
    let max = last_column(parsed);
    let mut c = if col < max {
        col
    } else {
        max
    };
    snap_off_separator(parsed, &mut c);
    c
}

/// Move the cursor to the line above, or leave the editor from the first.
fn move_up(editor: &mut EditorState, beats: &[String])
    requires
        key_ok(old(editor)@, lines_of(beats@), Key::Up, false),
    ensures
        final(editor)@ == one_up(old(editor)@, lines_of(beats@)),
{
    if editor.cursor_line == 0 {
        editor.exit();
    } else {
        editor.cursor_line = editor.cursor_line - 1;
        let parsed = ParsedBeatLine::parse(beats[editor.cursor_line].as_str());
        proof {
            lemma_roomy_fits(parsed@);
        }
        editor.cursor_col = land(&parsed, editor.cursor_col);
    }
}

/// Move the cursor to the line below, where there is one.
fn move_down(editor: &mut EditorState, beats: &[String])
    requires
        key_ok(old(editor)@, lines_of(beats@), Key::Down, false),
    ensures
        final(editor)@ == one_down(old(editor)@, lines_of(beats@)),
{
    if editor.cursor_line + 1 < beats.len() {
        editor.cursor_line = editor.cursor_line + 1;
        let parsed = ParsedBeatLine::parse(beats[editor.cursor_line].as_str());
        proof {
            lemma_roomy_fits(parsed@);
        }
        editor.cursor_col = land(&parsed, editor.cursor_col);
    }
}

/// Move the cursor one column to the right.
fn move_right(editor: &mut EditorState, beats: &[String])
    requires
        old(editor)@.cursor_line < beats@.len(),
        line_of(lines_of(beats@)[old(editor)@.cursor_line]).fits(),
    ensures
        final(editor)@ == one_right(old(editor)@, lines_of(beats@)),
{
    let parsed = ParsedBeatLine::parse(beats[editor.cursor_line].as_str());
    let max = last_column(&parsed);
    if editor.cursor_col < max {
        editor.cursor_col = editor.cursor_col + 1;
        if visual_col_to_segment_step(&parsed, editor.cursor_col).is_none() && editor.cursor_col
            < max {
            editor.cursor_col = editor.cursor_col + 1;
        }
    } else if editor.cursor_line < beats.len() - 1 {
        editor.cursor_line = editor.cursor_line + 1;
        editor.cursor_col = 0;
    }
}

/// Move the cursor one column to the left.
fn move_left(editor: &mut EditorState, beats: &[String])
    requires
        key_ok(old(editor)@, lines_of(beats@), Key::Left, false),
    ensures
        final(editor)@ == one_left(old(editor)@, lines_of(beats@)),
{
    let parsed = ParsedBeatLine::parse(beats[editor.cursor_line].as_str());
    proof {
        lemma_roomy_fits(parsed@);
    }
    if editor.cursor_col > 0 {
        editor.cursor_col = editor.cursor_col - 1;
        if visual_col_to_segment_step(&parsed, editor.cursor_col).is_none() && editor.cursor_col
            > 0 {
            editor.cursor_col = editor.cursor_col - 1;
        }
    } else if editor.cursor_line > 0 {
        editor.cursor_line = editor.cursor_line - 1;
        let prev_parsed = ParsedBeatLine::parse(beats[editor.cursor_line].as_str());
        proof {
            lemma_roomy_fits(prev_parsed@);
        }
        editor.cursor_col = last_column(&prev_parsed);
    }
}

/// Move the cursor to the start of its segment, or of the segment before.
fn move_segment_left(editor: &mut EditorState, beats: &[String])
    requires
        cursor_ok(old(editor)@, lines_of(beats@)),
    ensures
        final(editor)@ == segment_left(old(editor)@, lines_of(beats@)),
{
    let parsed = ParsedBeatLine::parse(beats[editor.cursor_line].as_str());
    proof {
        lemma_roomy_fits(parsed@);
        lemma_fits(parsed@);
    }
    if let Some((seg_idx, step)) = visual_col_to_segment_step(&parsed, editor.cursor_col) {
        proof {
            crate::config::lemma_cell_round_trip(parsed@, editor.cursor_col as int);
            crate::config::lemma_column_round_trip(parsed@, seg_idx as int, 0);
            if seg_idx > 0 {
                crate::config::lemma_column_round_trip(parsed@, seg_idx - 1, 0);
            }
        }
        let seg_start = segment_step_to_visual_col(&parsed, seg_idx, 0);
        if editor.cursor_col > seg_start {
            editor.cursor_col = seg_start;
        } else if seg_idx > 0 {
            editor.cursor_col = segment_step_to_visual_col(&parsed, seg_idx - 1, 0);
        }
    }
}

/// Move the cursor to the end of its segment, or of the segment behind.
fn move_segment_right(editor: &mut EditorState, beats: &[String])
    requires
        cursor_ok(old(editor)@, lines_of(beats@)),
    ensures
        final(editor)@ == segment_right(old(editor)@, lines_of(beats@)),
{
    let parsed = ParsedBeatLine::parse(beats[editor.cursor_line].as_str());
    proof {
        lemma_roomy_fits(parsed@);
        lemma_fits(parsed@);
    }
    if let Some((seg_idx, step)) = visual_col_to_segment_step(&parsed, editor.cursor_col) {
        let step_count = parsed.step_count();
        proof {
            crate::config::lemma_cell_round_trip(parsed@, editor.cursor_col as int);
            crate::config::lemma_column_round_trip(parsed@, seg_idx as int, step_count - 1);
            if seg_idx + 1 < parsed@.segments() {
                crate::config::lemma_column_round_trip(parsed@, seg_idx + 1, step_count - 1);
            }
        }
        let seg_end = segment_step_to_visual_col(&parsed, seg_idx, step_count - 1);
        if editor.cursor_col < seg_end {
            editor.cursor_col = seg_end;
        } else if seg_idx < parsed.segment_count() - 1 {
            editor.cursor_col = segment_step_to_visual_col(&parsed, seg_idx + 1, step_count - 1);
        }
    }
}

/// A vector of `n` dashes.
fn dash_row(n: usize) -> (v: Vec<char>)
    ensures
        v@ == dashes(n as nat),
{
    let mut v: Vec<char> = Vec::new();
    for i in 0..n
        invariant
            v@ == dashes(i as nat),
    {
        v.push('-');
        assert(v@ =~= dashes((i + 1) as nat));
    }
    v
}

/// Whether a segment is made of `-` alone.
fn is_all_dashes(cmd: &Vec<char>) -> (r: bool)
    ensures
        r == all_dashes(cmd@),
{
    let n = cmd.len();
    for i in 0..n
        invariant
            n == cmd@.len(),
            forall|j: int| 0 <= j < i ==> #[trigger] cmd@[j] == '-',
    {
        if cmd[i] != '-' {
            assert(cmd@[i as int] != '-');
            return false;
        }
    }
    true
}

/// The line without its command segments of dashes alone.
fn drop_empty_segments(parsed: &ParsedBeatLine) -> (r: ParsedBeatLine)
    ensures
        r@ == without_empty(parsed@),
{
    let copy = parsed.clone();
    let mut commands: Vec<Vec<char>> = Vec::new();
    let n = parsed.commands.len();
    let ghost all = parsed@.commands;
    assert(rows_of(commands@) =~= without_dashes(all.take(0)));
    for i in 0..n
        invariant
            n == parsed.commands@.len(),
            all == parsed@.commands,
            rows_of(commands@) == without_dashes(all.take(i as int)),
    {
        let ghost kept = rows_of(commands@);
        assert(all.take(i + 1).drop_last() =~= all.take(i as int));
        assert(all.take(i + 1).last() == parsed.commands@[i as int]@);
        if !is_all_dashes(&parsed.commands[i]) {
            let row = copy_chars(&parsed.commands[i]);
            let ghost added = row@;
            commands.push(row);
            assert(rows_of(commands@) =~= kept.push(added));
        }
    }
    assert(all.take(n as int) =~= all);
    ParsedBeatLine { notes: copy.notes, commands }
}

/// Put a line behind the current one and move the cursor to its start.
fn insert_line(editor: &mut EditorState, seq: &mut SequencerState, raw: String)
    requires
        old(editor)@.cursor_line < old(seq)@.lines.len(),
    ensures
        ({
            let before = Edit {
                editor: old(editor)@,
                seq: old(seq)@,
                state: PlaybackState::silent(),
            };
            &&& final(editor)@ == before.with_new_line(raw@).editor
            &&& final(seq)@ == before.with_new_line(raw@).seq
            &&& final(seq)@.in_sync()
        }),
{
    let ghost lines = seq@.lines;
    let ghost text = raw@;
    let count = seq.beats.len();
    assert(editor.cursor_line < count);
    seq.beats.insert(editor.cursor_line + 1, raw);
    assert(seq@.lines =~= lines.insert(editor@.cursor_line + 1, text));
    editor.cursor_line = editor.cursor_line + 1;
    editor.cursor_col = 0;
    seq.rebuild_sequences();
    seq.dirty = true;
}

/// Replace the current line.
fn replace_line(seq: &mut SequencerState, at: usize, line: &ParsedBeatLine)
    requires
        at < old(seq)@.lines.len(),
    ensures
        final(seq)@ == (Sequencer {
            lines: old(seq)@.lines.update(at as int, line@.raw()),
            dirty: true,
            ..old(seq)@
        }),
{
    let ghost lines = seq@.lines;
    let raw = line.to_raw();
    seq.beats.set(at, raw);
    assert(seq@.lines =~= lines.update(at as int, line@.raw()));
    seq.dirty = true;
}

/// The line with a note written at a step.
fn write_note(parsed: &ParsedBeatLine, step: usize, ch: char, bank: u8) -> (r: ParsedBeatLine)
    requires
        step < parsed@.notes.len(),
        bank != 0 && parsed@.commands.len() > 0 ==> step < parsed@.commands[0].len(),
    ensures
        r@ == with_note(parsed@, step as int, ch, bank),
{
    let mut new_parsed = parsed.clone();
    new_parsed.notes.set(step, ch);
    if bank != 0 {
        if new_parsed.commands.len() == 0 {
            new_parsed.commands.push(dash_row(new_parsed.notes.len()));
            assert(rows_of(new_parsed.commands@) =~= seq![dashes(parsed@.notes.len())]);
        }
        let ghost present = rows_of(new_parsed.commands@);
        let c: char = if bank < 10 {
            (48 + bank) as char
        } else {
            '0'
        };
        assert(present[0] == new_parsed.commands@[0]@);
        let mut row = copy_chars(&new_parsed.commands[0]);
        row.set(step, c);
        let ghost written_row = row@;
        new_parsed.commands.set(0, row);
        assert(rows_of(new_parsed.commands@) =~= present.update(0, written_row));
    }
    new_parsed
}

/// The line with a command written at a step of a command segment.
fn write_command(parsed: &ParsedBeatLine, cmd: usize, step: usize, ch: char) -> (r: ParsedBeatLine)
    requires
        cmd < parsed@.commands.len(),
        step < parsed@.commands[cmd as int].len(),
    ensures
        r@ == with_command(parsed@, cmd as int, step as int, ch),
{
    let mut new_parsed = parsed.clone();
    let ghost present = rows_of(new_parsed.commands@);
    assert(present[cmd as int] == new_parsed.commands@[cmd as int]@);
    let mut row = copy_chars(&new_parsed.commands[cmd]);
    row.set(step, ch);
    let ghost written_row = row@;
    new_parsed.commands.set(cmd, row);
    assert(rows_of(new_parsed.commands@) =~= present.update(cmd as int, written_row));
    new_parsed
}

/// Sound a note that has been written.
fn preview(state: &mut PlaybackState, ch: char, bank: u8, slices: &[Slice], num_slices: usize)
    requires
        num_slices <= slices@.len(),
    ensures
        *final(state) == previewed(*old(state), ch, bank, slices@, num_slices as int),
{
    if let Some(base_idx) = char_to_slice(ch) {
        let idx = base_idx + (bank as usize * SLICES_PER_BANK);
        if idx < num_slices {
            state.trigger_slice((idx % 256) as u8, lower_bits(slices[idx].start), PlayMode::Slice);
        }
    } else {
        state.stop();
    }
}

proof fn lemma_update_free(s: Seq<char>, i: int, c: char)
    requires
        !s.contains(':'),
        0 <= i < s.len(),
        c != ':',
    ensures
        !s.update(i, c).contains(':'),
{
    assert forall|j: int| 0 <= j < s.len() implies s.update(i, c)[j] != ':' by {
        assert(s.contains(s[j]));
    }
}

/// No key writes a separator: the line that a key writes reads back as it was written.
pub proof fn lemma_written_reads_back(e: Editor, lines: Seq<Seq<char>>, key: Key)
    requires
        0 <= e.cursor_line < lines.len(),
        0 <= e.cursor_col,
        bank_ok(e, lines, key),
        written(e, lines, key) is Some,
    ensures
        line_of((written(e, lines, key)->0).raw()) == written(e, lines, key)->0,
        (written(e, lines, key)->0).notes.len() == line_of(lines[e.cursor_line]).notes.len(),
        roomy(line_of(lines[e.cursor_line])) ==> (written(e, lines, key)->0).fits(),
{
    let line = line_of(lines[e.cursor_line]);
    let new = written(e, lines, key)->0;
    if roomy(line) {
        lemma_roomy_fits(line);
    }
    crate::config::lemma_parsed_separator_free(lines[e.cursor_line]);
    crate::config::lemma_cell_round_trip(line, e.cursor_col);
    crate::ui::input::lemma_note_keys(key);
    let (seg, step) = line.cell_at(e.cursor_col)->0;
    assert(line.parts()[0] == line.notes);
    assert forall|i: int| 0 <= i < line.commands.len() implies !(
    #[trigger] line.commands[i]).contains(':') by {
        assert(line.parts()[i + 1] == line.commands[i]);
    }
    if seg == 0 {
        lemma_update_free(line.notes, step, beat_of_key(key)->0);
        if e.current_bank != 0 {
            let plain = dashes(line.notes.len());
            assert(!plain.contains(':'));
            if line.commands.len() == 0 {
                lemma_update_free(plain, step, bank_char(e.current_bank));
            } else {
                lemma_update_free(line.commands[0], step, bank_char(e.current_bank));
            }
        }
    } else {
        lemma_update_free(line.commands[seg - 1], step, command_of_key(key)->0);
    }
    assert forall|i: int| 0 <= i < new.parts().len() implies !(#[trigger] new.parts()[i]).contains(
        ':',
    ) by {
        if i > 0 {
            assert(new.parts()[i] == new.commands[i - 1]);
            if i - 1 < line.commands.len() {
                assert(!line.commands[i - 1].contains(':'));
            }
        }
    }
    crate::config::lemma_parsed_of_raw(new);
}

/// Write the character of a key at the cursor, where it writes any.
fn type_key(
    key: Key,
    editor: &mut EditorState,
    seq: &mut SequencerState,
    slices: &[Slice],
    num_slices: usize,
    state: &mut PlaybackState,
)
    requires
        cursor_ok(old(editor)@, old(seq)@.lines),
        bank_ok(old(editor)@, old(seq)@.lines, key),
        num_slices <= slices@.len(),
    ensures
        (Edit { editor: final(editor)@, seq: final(seq)@, state: *final(state) }) == (Edit {
            editor: old(editor)@,
            seq: old(seq)@,
            state: *old(state),
        }).typed(key, slices@, num_slices as int),
        old(seq)@.in_sync() ==> final(seq)@.in_sync(),
{
    let ghost before = Edit { editor: editor@, seq: seq@, state: *state };
    let parsed = ParsedBeatLine::parse(seq.beats[editor.cursor_line].as_str());
    assert(parsed@ == line_of(seq@.lines[editor@.cursor_line]));
    proof {
        lemma_roomy_fits(parsed@);
    }
    if let Some((seg_idx, step_idx)) = visual_col_to_segment_step(&parsed, editor.cursor_col) {
        proof {
            crate::config::lemma_cell_round_trip(parsed@, editor.cursor_col as int);
        }
        let new_parsed = if seg_idx == 0 {
            match key_to_beat_char(key) {
                Some(ch) => {
                    preview(state, ch, editor.current_bank, slices, num_slices);
                    Some(write_note(&parsed, step_idx, ch, editor.current_bank))
                },
                None => None,
            }
        } else {
            match key_to_command_char(key) {
                Some(ch) => {
                    assert(parsed@.commands[seg_idx - 1] == parsed.commands@[seg_idx - 1]@);
                    if step_idx < parsed.commands[seg_idx - 1].len() {
                        Some(write_command(&parsed, seg_idx - 1, step_idx, ch))
                    } else {
                        None
                    }
                },
                None => None,
            }
        };
        if let Some(line) = new_parsed {
            proof {
                assert(written(before.editor, before.seq.lines, key) == Some(line@));
                lemma_written_reads_back(before.editor, before.seq.lines, key);
            }
            replace_line(seq, editor.cursor_line, &line);
            if editor.insert_mode {
                assert(lines_of(seq.beats@) == before.seq.lines.update(
                    before.editor.cursor_line,
                    line@.raw(),
                ));
                move_right(editor, &seq.beats);
            }
            seq.rebuild_sequences();
        }
    }
}

/// Handle a key that is held with Ctrl and means something of its own then.
fn handle_control_key(key: Key, editor: &mut EditorState, seq: &mut SequencerState) -> (handled: bool)
    requires
        key_ok(old(editor)@, old(seq)@.lines, key, true),
    ensures
        ({
            let before = Edit {
                editor: old(editor)@,
                seq: old(seq)@,
                state: PlaybackState::silent(),
            };
            let after = before.with_control(key);
            &&& handled == (after is Some)
            &&& !handled ==> final(editor)@ == old(editor)@ && final(seq)@ == old(seq)@
            &&& handled ==> final(editor)@ == (after->0).editor && final(seq)@ == (after->0).seq
        }),
{
    match key {
        Key::Left => {
            move_segment_left(editor, &seq.beats);
            true
        },
        Key::Right => {
            move_segment_right(editor, &seq.beats);
            true
        },
        Key::Char('c') => {
            editor.paste_buffer = Some(seq.beats[editor.cursor_line].clone());
            true
        },
        Key::Char('v') => {
            let line = match &editor.paste_buffer {
                Some(line) => Some(line.clone()),
                None => None,
            };
            if let Some(line) = line {
                insert_line(editor, seq, line);
            }
            true
        },
        Key::Char('n') => {
            insert_line(editor, seq, "--------".to_string());
            true
        },
        Key::Char('u') => {
            let mut parsed = ParsedBeatLine::parse(seq.beats[editor.cursor_line].as_str());
            let ghost line = parsed@;
            assert(line == line_of(seq@.lines[editor@.cursor_line]));
            let empty = dash_row(parsed.step_count());
            let ghost added = empty@;
            parsed.commands.push(empty);
            assert(parsed@.commands =~= line.commands.push(added));
            replace_line(seq, editor.cursor_line, &parsed);
            true
        },
        Key::Char('i') => {
            let parsed = ParsedBeatLine::parse(seq.beats[editor.cursor_line].as_str());
            assert(parsed@ == line_of(seq@.lines[editor@.cursor_line]));
            let kept = drop_empty_segments(&parsed);
            replace_line(seq, editor.cursor_line, &kept);
            assert(lines_of(seq.beats@).len() == seq.beats@.len());
            let new_parsed = ParsedBeatLine::parse(seq.beats[editor.cursor_line].as_str());
            proof {
                assert(seq@.lines[editor@.cursor_line] == kept@.raw());
                assert(new_parsed@ == line_of(seq@.lines[editor@.cursor_line]));
                lemma_kept_reads_back(seq@.lines[editor@.cursor_line], parsed@, old(seq)@.lines[
                    editor@.cursor_line
                ]);
            }
            editor.cursor_col = land(&new_parsed, editor.cursor_col);
            true
        },
        _ => false,
    }
}

proof fn lemma_without_dashes_len(commands: Seq<Seq<char>>)
    ensures
        without_dashes(commands).len() <= commands.len(),
        forall|i: int|
            0 <= i < without_dashes(commands).len() ==> commands.contains(
                #[trigger] without_dashes(commands)[i],
            ),
    decreases commands.len(),
{
    if commands.len() > 0 {
        let init = commands.drop_last();
        lemma_without_dashes_len(init);
        assert forall|i: int| 0 <= i < without_dashes(commands).len() implies commands.contains(
            #[trigger] without_dashes(commands)[i],
        ) by {
            if i < without_dashes(init).len() {
                assert(without_dashes(commands)[i] == without_dashes(init)[i]);
                let k = choose|k: int|
                    0 <= k < init.len() && init[k] == without_dashes(init)[i];
                assert(commands[k] == init[k]);
            } else {
                assert(commands[commands.len() - 1] == commands.last());
            }
        }
    }
}

/// A parsed line without its empty segments reads back as it is written, and fits where it did.
proof fn lemma_kept_reads_back(raw: Seq<char>, line: BeatLine, source: Seq<char>)
    requires
        line == line_of(source),
        raw == without_empty(line).raw(),
    ensures
        line_of(raw) == without_empty(line),
        roomy(line) ==> line_of(raw).fits(),
{
    let kept = without_empty(line);
    if roomy(line) {
        lemma_roomy_fits(line);
    }
    lemma_without_dashes_len(line.commands);
    crate::config::lemma_parsed_separator_free(source);
    assert forall|i: int| 0 <= i < kept.parts().len() implies !(#[trigger] kept.parts()[i]).contains(
        ':',
    ) by {
        if i == 0 {
            assert(line.parts()[0] == line.notes);
        } else {
            assert(kept.parts()[i] == without_dashes(line.commands)[i - 1]);
            let k = choose|k: int|
                0 <= k < line.commands.len() && line.commands[k] == without_dashes(
                    line.commands,
                )[i - 1];
            assert(line.parts()[k + 1] == line.commands[k]);
        }
    }
    crate::config::lemma_parsed_of_raw(kept);
    assert(kept.stride() * kept.segments() <= line.stride() * line.segments()) by (nonlinear_arith)
        requires
            kept.stride() == line.stride(),
            kept.segments() <= line.segments(),
            line.stride() >= 0,
    ;
}

/// Handle a key press in the pattern editor.
pub fn handle_edit_key(
    key: Key,
    is_ctrl: bool,
    editor: &mut EditorState,
    seq: &mut SequencerState,
    slices: &[Slice],
    num_slices: usize,
    state: &mut PlaybackState,
    now: u128,
)
    requires
        key_ok(old(editor)@, old(seq)@.lines, key, is_ctrl),
        num_slices <= slices@.len(),
    ensures
        (Edit { editor: final(editor)@, seq: final(seq)@, state: *final(state) }) == (Edit {
            editor: old(editor)@,
            seq: old(seq)@,
            state: *old(state),
        }).pressed(key, is_ctrl, slices@, num_slices as int, now as int),
{
    if is_ctrl && handle_control_key(key, editor, seq) {
        return ;
    }
    match key {
        Key::Esc => {
            editor.exit();
        },
        Key::Up => {
            move_up(editor, &seq.beats);
        },
        Key::Down => {
            move_down(editor, &seq.beats);
        },
        Key::Left => {
            move_left(editor, &seq.beats);
        },
        Key::Right => {
            proof {
                lemma_roomy_fits(line_of(seq@.lines[editor@.cursor_line]));
            }
            move_right(editor, &seq.beats);
        },
        Key::Insert => {
            editor.insert_mode = !editor.insert_mode;
        },
        Key::Tab => {
            if state.is_playing() {
                state.trigger_stutter(seq.stutter_len);
            }
        },
        Key::Char(c) => {
            if c == ' ' {
                seq.toggle(state, now);
            } else if '0' <= c && c <= '9' {
                editor.current_bank = (c as u32 - 48) as u8;
            } else {
                type_key(key, editor, seq, slices, num_slices, state);
            }
        },
        _ => {},
    }
}

/// Whether the columns of a line can be counted even with one more segment.
fn line_roomy(raw: &String) -> (r: bool)
    ensures
        r == roomy(line_of(raw@)),
{
    let parsed = ParsedBeatLine::parse(raw.as_str());
    let stride: u128 = parsed.notes.len() as u128 + 1;
    let segments: u128 = parsed.commands.len() as u128 + 2;
    let ghost max = usize::MAX as int;
    proof {
        let a = stride as int;
        let b = segments as int;
        vstd::arithmetic::div_mod::lemma_fundamental_div_mod(max, a);
        let q = max / a;
        if b <= q {
            assert(a * b <= a * q) by (nonlinear_arith)
                requires
                    b <= q,
                    a >= 0,
            ;
        } else {
            assert(a * b >= a * q + a) by (nonlinear_arith)
                requires
                    b >= q + 1,
                    a >= 0,
            ;
        }
    }
    segments <= usize::MAX as u128 / stride
}

/// Whether a key can be pressed: the lines that it looks at exist and can be laid out.
pub fn edit_key_ready(editor: &EditorState, beats: &[String], key: Key, control: bool) -> (r: bool)
    ensures
        r == key_ok(editor@, lines_of(beats@), key, control),
{
    let line = editor.cursor_line;
    let here = line < beats.len() && line_roomy(&beats[line]);
    match key {
        Key::Esc | Key::Insert | Key::Tab => true,
        Key::Up => line == 0 || (line - 1 < beats.len() && line_roomy(&beats[line - 1])),
        Key::Down => line < usize::MAX && (line + 1 >= beats.len() || line_roomy(
            &beats[line + 1],
        )),
        Key::Left => here && (control || editor.cursor_col > 0 || line == 0 || line_roomy(
            &beats[line - 1],
        )),
        Key::Right => here,
        Key::Char(c) => {
            if control && c == 'v' {
                editor.paste_buffer.is_none() || line < beats.len()
            } else if control && (c == 'n' || c == 'c') {
                line < beats.len()
            } else if control && (c == 'u' || c == 'i') {
                here
            } else if c == ' ' || ('0' <= c && c <= '9') {
                true
            } else {
                here && bank_ready(editor, beats, key)
            }
        },
        _ => here,
    }
}

/// Whether a bank digit that a note would write has its place in the first command segment.
fn bank_ready(editor: &EditorState, beats: &[String], key: Key) -> (r: bool)
    requires
        cursor_ok(editor@, lines_of(beats@)),
    ensures
        r == bank_ok(editor@, lines_of(beats@), key),
{
    let parsed = ParsedBeatLine::parse(beats[editor.cursor_line].as_str());
    proof {
        lemma_roomy_fits(parsed@);
    }
    match visual_col_to_segment_step(&parsed, editor.cursor_col) {
        Some((seg, step)) => {
            if seg == 0 && key_to_beat_char(key).is_some() && editor.current_bank != 0
                && parsed.commands.len() > 0 {
                assert(parsed@.commands[0] == parsed.commands@[0]@);
                step < parsed.commands[0].len()
            } else {
                true
            }
        },
        None => true,
    }
}

/// A line with a segment of dashes more reads back as it is written.
proof fn lemma_dashed_reads_back(source: Seq<char>)
    ensures
        line_of(with_dashes(line_of(source)).raw()) == with_dashes(line_of(source)),
{
    let line = line_of(source);
    let dashed = with_dashes(line);
    crate::config::lemma_parsed_separator_free(source);
    assert(!dashes(line.notes.len()).contains(':'));
    assert forall|i: int| 0 <= i < dashed.parts().len() implies !(
    #[trigger] dashed.parts()[i]).contains(':') by {
        if i < line.parts().len() {
            assert(dashed.parts()[i] == line.parts()[i]);
        }
    }
    crate::config::lemma_parsed_of_raw(dashed);
}

/// Whatever key is pressed, the step sequences stay those of the lines.
pub proof fn lemma_keys_keep_sync(
    e: Edit,
    key: Key,
    control: bool,
    slices: Seq<Slice>,
    num_slices: int,
    now: int,
)
    requires
        e.seq.in_sync(),
        0 <= e.editor.cursor_line,
        key_ok(e.editor, e.seq.lines, key, control),
    ensures
        e.pressed(key, control, slices, num_slices, now).seq.in_sync(),
{
    let lines = e.seq.lines;
    let k = e.editor.cursor_line;
    if control && (key == Key::Char('u') || key == Key::Char('i')) {
        let line = line_of(lines[k]);
        if key == Key::Char('u') {
            lemma_dashed_reads_back(lines[k]);
            crate::engine::effects::lemma_added_dashes(line, dashes(line.notes.len()));
            crate::sequencer::lemma_same_line(lines, k, with_dashes(line).raw());
        } else {
            lemma_kept_reads_back(without_empty(line).raw(), line, lines[k]);
            crate::engine::effects::lemma_removed_dashes(line);
            crate::sequencer::lemma_same_line(lines, k, without_empty(line).raw());
        }
    }
}

/// Whatever key is pressed, the cursor stays on a line of the pattern.
pub proof fn lemma_keys_keep_cursor_line(
    e: Edit,
    key: Key,
    control: bool,
    slices: Seq<Slice>,
    num_slices: int,
    now: int,
)
    requires
        0 <= e.editor.cursor_line < e.seq.lines.len(),
    ensures
        ({
            let after = e.pressed(key, control, slices, num_slices, now);
            0 <= after.editor.cursor_line < after.seq.lines.len()
        }),
{
}

/// A key that changes the pattern marks it as having unsaved changes.
pub proof fn lemma_changes_are_marked(
    e: Edit,
    key: Key,
    control: bool,
    slices: Seq<Slice>,
    num_slices: int,
    now: int,
)
    ensures
        ({
            let after = e.pressed(key, control, slices, num_slices, now);
            after.seq.lines != e.seq.lines || e.seq.dirty ==> after.seq.dirty
        }),
{
}

/// What is copied is pasted behind the current line, and the cursor follows.
pub proof fn lemma_copy_then_paste(
    e: Edit,
    slices: Seq<Slice>,
    num_slices: int,
    now: int,
)
    requires
        0 <= e.editor.cursor_line < e.seq.lines.len(),
    ensures
        ({
            let k = e.editor.cursor_line;
            let copied = e.pressed(Key::Char('c'), true, slices, num_slices, now);
            let pasted = copied.pressed(Key::Char('v'), true, slices, num_slices, now);
            &&& copied.seq == e.seq
            &&& pasted.seq.lines == e.seq.lines.insert(k + 1, e.seq.lines[k])
            &&& pasted.editor.cursor_line == k + 1
            &&& pasted.editor.cursor_col == 0
        }),
{
}

/// A command segment added and removed again leaves the line as it was, provided it had no
/// empty segment before.
pub proof fn lemma_add_then_remove_segment(line: BeatLine)
    requires
        forall|i: int|
            0 <= i < line.commands.len() ==> !all_dashes(#[trigger] line.commands[i]),
    ensures
        without_empty(with_dashes(line)) == line,
{
    let added = line.commands.push(dashes(line.notes.len()));
    assert(added.drop_last() =~= line.commands);
    assert(all_dashes(dashes(line.notes.len())));
    lemma_nothing_to_remove(line.commands);
}

proof fn lemma_nothing_to_remove(commands: Seq<Seq<char>>)
    requires
        forall|i: int| 0 <= i < commands.len() ==> !all_dashes(#[trigger] commands[i]),
    ensures
        without_dashes(commands) == commands,
    decreases commands.len(),
{
    if commands.len() > 0 {
        let init = commands.drop_last();
        assert forall|i: int| 0 <= i < init.len() implies !all_dashes(#[trigger] init[i]) by {
            assert(init[i] == commands[i]);
        }
        assert(!all_dashes(commands[commands.len() - 1]));
        lemma_nothing_to_remove(init);
        assert(init.push(commands.last()) =~= commands);
    }
}

/// The last column of a line with steps shows a step.
proof fn lemma_last_col_is_cell(line: BeatLine)
    requires
        line.notes.len() > 0,
    ensures
        line.cell_at(last_col(line)) is Some,
        last_col(line) == line.column_of(line.segments() - 1, line.notes.len() - 1),
{
    lemma_width(line);
    let seg = line.segments() - 1;
    let step = line.notes.len() - 1;
    assert(seg * line.stride() + step == line.stride() * line.segments() - 2) by (nonlinear_arith)
        requires
            seg == line.segments() - 1,
            step == line.stride() - 2,
    ;
    crate::config::lemma_column_round_trip(line, seg, step);
}

/// The column behind a separator shows a step.
proof fn lemma_after_separator(line: BeatLine, col: int)
    requires
        line.notes.len() > 0,
        0 <= col < last_col(line),
        line.cell_at(col) is None,
    ensures
        line.cell_at(col + 1) is Some,
        col > 0 && line.cell_at(col - 1) is Some,
{
    let stride = line.stride();
    let seg = col / stride;
    let within = col % stride;
    lemma_last_col_is_cell(line);
    lemma_width(line);
    vstd::arithmetic::div_mod::lemma_fundamental_div_mod(col, stride);
    vstd::arithmetic::div_mod::lemma_div_pos_is_pos(col, stride);
    assert(seg < line.segments()) by (nonlinear_arith)
        requires
            col == stride * seg + within,
            0 <= within < stride,
            col < stride * line.segments() - 2,
            stride >= 2,
    ;
    assert(within == line.notes.len());
    assert(seg + 1 < line.segments()) by (nonlinear_arith)
        requires
            col == stride * seg + within,
            within == stride - 1,
            col < stride * line.segments() - 2,
            stride >= 2,
            seg < line.segments(),
    ;
    assert((seg + 1) * stride == stride * seg + stride) by (nonlinear_arith);
    assert(seg * stride == stride * seg) by (nonlinear_arith);
    crate::config::lemma_column_round_trip(line, seg + 1, 0);
    crate::config::lemma_column_round_trip(line, seg, line.notes.len() - 1);
}

/// On a line with steps the cursor lands on a step.
pub proof fn lemma_landing_is_on_a_step(line: BeatLine, col: int)
    requires
        line.notes.len() > 0,
        col >= 0,
    ensures
        line.cell_at(landing(line, col)) is Some,
{
    let at = if col < last_col(line) {
        col
    } else {
        last_col(line)
    };
    lemma_last_col_is_cell(line);
    if line.cell_at(at) is None {
        lemma_after_separator(line, at);
    }
}

/// Moving right or left from a step skips separators: the cursor comes to a step again.
pub proof fn lemma_moves_skip_separators(line: BeatLine, col: int)
    requires
        line.notes.len() > 0,
        col >= 0,
        line.cell_at(col) is Some,
    ensures
        col < last_col(line) ==> line.cell_at(right_of(line, col)) is Some,
        col > 0 ==> line.cell_at(left_of(line, col)) is Some,
{
    lemma_last_col_is_cell(line);
    crate::config::lemma_cell_round_trip(line, col);
    if col < last_col(line) && line.cell_at(col + 1) is None {
        assert(col + 1 < last_col(line));
        lemma_after_separator(line, col + 1);
    }
    if col > 0 && line.cell_at(col - 1) is None {
        lemma_width(line);
        lemma_after_separator(line, col - 1);
    }
}

/// From a step, every key that moves the cursor brings it to a step or out of the editor, as long
/// as every line has steps.
pub proof fn lemma_cursor_stays_on_steps(e: Editor, lines: Seq<Seq<char>>)
    requires
        0 <= e.cursor_line < lines.len(),
        0 <= e.cursor_col,
        forall|i: int| 0 <= i < lines.len() ==> line_of(#[trigger] lines[i]).notes.len() > 0,
        line_of(lines[e.cursor_line]).cell_at(e.cursor_col) is Some,
    ensures
        on_a_step(one_right(e, lines), lines),
        on_a_step(one_left(e, lines), lines),
        on_a_step(one_down(e, lines), lines),
        on_a_step(one_up(e, lines), lines),
        on_a_step(segment_left(e, lines), lines),
        on_a_step(segment_right(e, lines), lines),
{
    let line = line_of(lines[e.cursor_line]);
    lemma_moves_skip_separators(line, e.cursor_col);
    crate::config::lemma_cell_round_trip(line, e.cursor_col);
    let (seg, step) = line.cell_at(e.cursor_col)->0;
    let last = line.notes.len() - 1;
    crate::config::lemma_column_round_trip(line, seg, 0);
    crate::config::lemma_column_round_trip(line, seg, last);
    if seg > 0 {
        crate::config::lemma_column_round_trip(line, seg - 1, 0);
    }
    if seg + 1 < line.segments() {
        crate::config::lemma_column_round_trip(line, seg + 1, last);
    }
    if e.cursor_line > 0 {
        let above = line_of(lines[e.cursor_line - 1]);
        lemma_last_col_is_cell(above);
        lemma_landing_is_on_a_step(above, e.cursor_col);
    }
    if e.cursor_line + 1 < lines.len() {
        let below = line_of(lines[e.cursor_line + 1]);
        lemma_landing_is_on_a_step(below, e.cursor_col);
        crate::config::lemma_column_round_trip(below, 0, 0);
        assert(0 * below.stride() == 0);
    }
}

/// The cursor is on a step.
pub open spec fn on_a_step(e: Editor, lines: Seq<Seq<char>>) -> bool {
    &&& 0 <= e.cursor_line < lines.len()
    &&& line_of(lines[e.cursor_line]).cell_at(e.cursor_col) is Some
}

/// A note that is typed is what its step plays from then on.
pub proof fn lemma_typed_note_is_played(
    e: Edit,
    key: Key,
    slices: Seq<Slice>,
    num_slices: int,
    step: int,
)
    requires
        0 <= e.editor.cursor_line,
        0 <= e.editor.cursor_col,
        cursor_ok(e.editor, e.seq.lines),
        bank_ok(e.editor, e.seq.lines, key),
        beat_of_key(key) is Some,
        line_of(e.seq.lines[e.editor.cursor_line]).cell_at(e.editor.cursor_col) == Some((0int, step)),
    ensures
        ({
            let after = e.typed(key, slices, num_slices).seq;
            let at = e.seq.steps_before(e.editor.cursor_line) + step;
            &&& 0 <= at < after.beat_sequence.len()
            &&& after.beat_sequence[at] == pad_of(beat_of_key(key)->0)
        }),
{
    let lines = e.seq.lines;
    let k = e.editor.cursor_line;
    let new = written(e.editor, lines, key)->0;
    lemma_written_reads_back(e.editor, lines, key);
    lemma_roomy_fits(line_of(lines[k]));
    crate::config::lemma_cell_round_trip(line_of(lines[k]), e.editor.cursor_col);
    let after = lines.update(k, new.raw());
    assert(after.take(k) =~= lines.take(k));
    crate::sequencer::lemma_step_of_line(after, k, step);
}

/// A line can be edited throughout: it has a note, and a command of every segment for each note.
pub open spec fn editable(line: BeatLine) -> bool {
    &&& line.notes.len() > 0
    &&& forall|i: int|
        0 <= i < line.commands.len() ==> (#[trigger] line.commands[i]).len() == line.notes.len()
}

/// Every line of the pattern can be edited throughout.
pub open spec fn all_editable(lines: Seq<Seq<char>>) -> bool {
    forall|i: int| 0 <= i < lines.len() ==> editable(line_of(#[trigger] lines[i]))
}

impl Edit {
    /// Every line of the pattern, and the copied one, can be edited throughout, and the cursor is
    /// on a step.
    pub open spec fn in_order(self) -> bool {
        &&& all_editable(self.seq.lines)
        &&& self.editor.paste_buffer matches Some(raw) ==> editable(line_of(raw))
        &&& 0 <= self.editor.cursor_col
        &&& on_a_step(self.editor, self.seq.lines)
    }
}

/// Whatever key is pressed, every line keeps a note and command segments as long as its notes, and
/// the cursor stays on a step.
pub proof fn lemma_keys_keep_order(
    e: Edit,
    key: Key,
    control: bool,
    slices: Seq<Slice>,
    num_slices: int,
    now: int,
)
    requires
        e.in_order(),
    ensures
        e.pressed(key, control, slices, num_slices, now).in_order(),
{
    let lines = e.seq.lines;
    let k = e.editor.cursor_line;
    let line = line_of(lines[k]);
    assert(editable(line));
    assert forall|i: int| 0 <= i < lines.len() implies line_of(#[trigger] lines[i]).notes.len()
        > 0 by {
        assert(editable(line_of(lines[i])));
    }
    lemma_cursor_stays_on_steps(e.editor, lines);
    lemma_moves_stay_right_of_start(e.editor, lines);
    match key {
        Key::Char(c) => {
            if control && c == 'v' {
                if let Some(raw) = e.editor.paste_buffer {
                    lemma_new_line_in_order(e, raw);
                }
            } else if control && c == 'n' {
                lemma_empty_line_editable();
                lemma_new_line_in_order(e, "--------"@);
            } else if control && c == 'u' {
                lemma_dashed_reads_back(lines[k]);
                lemma_line_in_order(e.editor, lines, with_dashes(line));
            } else if control && c == 'i' {
                let kept = without_empty(line);
                lemma_kept_reads_back(kept.raw(), line, lines[k]);
                lemma_kept_editable(line.commands, line.notes.len());
                lemma_landing_is_on_a_step(kept, e.editor.cursor_col);
                lemma_landing_not_negative(kept, e.editor.cursor_col);
                lemma_replaced_editable(lines, k, kept);
            } else if !(control && c == 'c') && c != ' ' && !('0' <= c <= '9') {
                lemma_typing_keeps_order(e, key, slices, num_slices);
            }
        },
        _ => {},
    }
}

/// No move takes the cursor left of the first column.
proof fn lemma_moves_stay_right_of_start(e: Editor, lines: Seq<Seq<char>>)
    requires
        0 <= e.cursor_line < lines.len(),
        0 <= e.cursor_col,
        forall|i: int| 0 <= i < lines.len() ==> line_of(#[trigger] lines[i]).notes.len() > 0,
        line_of(lines[e.cursor_line]).cell_at(e.cursor_col) is Some,
    ensures
        one_right(e, lines).cursor_col >= 0,
        one_left(e, lines).cursor_col >= 0,
        one_down(e, lines).cursor_col >= 0,
        one_up(e, lines).cursor_col >= 0,
        segment_left(e, lines).cursor_col >= 0,
        segment_right(e, lines).cursor_col >= 0,
{
    let line = line_of(lines[e.cursor_line]);
    crate::config::lemma_cell_round_trip(line, e.cursor_col);
    let (seg, step) = line.cell_at(e.cursor_col)->0;
    let last = line.notes.len() - 1;
    crate::config::lemma_column_round_trip(line, seg, 0);
    crate::config::lemma_column_round_trip(line, seg, last);
    if seg > 0 {
        crate::config::lemma_column_round_trip(line, seg - 1, 0);
    }
    if seg + 1 < line.segments() {
        crate::config::lemma_column_round_trip(line, seg + 1, last);
    }
    if e.cursor_line > 0 {
        lemma_landing_not_negative(line_of(lines[e.cursor_line - 1]), e.cursor_col);
    }
    if e.cursor_line + 1 < lines.len() {
        lemma_landing_not_negative(line_of(lines[e.cursor_line + 1]), e.cursor_col);
    }
}

proof fn lemma_landing_not_negative(line: BeatLine, col: int)
    requires
        col >= 0,
    ensures
        landing(line, col) >= 0,
{
}

/// A line replaced by an editable one leaves all lines editable.
proof fn lemma_replaced_editable(lines: Seq<Seq<char>>, k: int, new: BeatLine)
    requires
        0 <= k < lines.len(),
        all_editable(lines),
        editable(new),
        line_of(new.raw()) == new,
    ensures
        all_editable(lines.update(k, new.raw())),
{
    let after = lines.update(k, new.raw());
    assert forall|i: int| 0 <= i < after.len() implies editable(line_of(#[trigger] after[i])) by {
        if i != k {
            assert(editable(line_of(lines[i])));
        }
    }
}

/// A line replaced by an editable one with as many notes and no fewer segments leaves the cursor on
/// its step.
proof fn lemma_line_in_order(e: Editor, lines: Seq<Seq<char>>, new: BeatLine)
    requires
        all_editable(lines),
        0 <= e.cursor_col,
        on_a_step(e, lines),
        editable(new),
        line_of(new.raw()) == new,
        new.notes.len() == line_of(lines[e.cursor_line]).notes.len(),
        new.commands.len() >= line_of(lines[e.cursor_line]).commands.len(),
    ensures
        all_editable(lines.update(e.cursor_line, new.raw())),
        on_a_step(e, lines.update(e.cursor_line, new.raw())),
{
    lemma_replaced_editable(lines, e.cursor_line, new);
}

/// An editable line put behind the current one leaves all in order.
proof fn lemma_new_line_in_order(e: Edit, raw: Seq<char>)
    requires
        e.in_order(),
        editable(line_of(raw)),
    ensures
        e.with_new_line(raw).in_order(),
{
    let lines = e.seq.lines;
    let k = e.editor.cursor_line;
    let after = lines.insert(k + 1, raw);
    assert forall|i: int| 0 <= i < after.len() implies editable(line_of(#[trigger] after[i])) by {
        if i <= k {
            assert(after[i] == lines[i]);
        } else if i > k + 1 {
            assert(after[i] == lines[i - 1]);
        }
    }
    let new = line_of(raw);
    crate::config::lemma_column_round_trip(new, 0, 0);
    assert(0 * new.stride() == 0);
}

proof fn lemma_empty_line_editable()
    ensures
        editable(line_of("--------"@)),
{
    reveal_strlit("--------");
    crate::config::lemma_line_without_separator("--------"@);
}

/// What is left of command segments of one length has that length.
proof fn lemma_kept_editable(commands: Seq<Seq<char>>, n: nat)
    requires
        forall|i: int| 0 <= i < commands.len() ==> (#[trigger] commands[i]).len() == n,
    ensures
        forall|i: int|
            0 <= i < without_dashes(commands).len() ==> (#[trigger] without_dashes(
                commands,
            )[i]).len() == n,
    decreases commands.len(),
{
    if commands.len() > 0 {
        let init = commands.drop_last();
        assert forall|i: int| 0 <= i < init.len() implies (#[trigger] init[i]).len() == n by {
            assert(init[i] == commands[i]);
        }
        lemma_kept_editable(init, n);
        let before = without_dashes(init);
        let kept = without_dashes(commands);
        assert forall|i: int| 0 <= i < kept.len() implies (#[trigger] kept[i]).len() == n by {
            if i < before.len() {
                assert(kept[i] == before[i]);
            } else {
                assert(kept[i] == commands[commands.len() - 1]);
            }
        }
    }
}

/// A key that writes into the pattern leaves all in order.
proof fn lemma_typing_keeps_order(e: Edit, key: Key, slices: Seq<Slice>, num_slices: int)
    requires
        e.in_order(),
    ensures
        e.typed(key, slices, num_slices).in_order(),
{
    let lines = e.seq.lines;
    let k = e.editor.cursor_line;
    let line = line_of(lines[k]);
    assert(editable(line));
    crate::config::lemma_cell_round_trip(line, e.editor.cursor_col);
    if let Some(new) = written(e.editor, lines, key) {
        if line.commands.len() > 0 {
            assert(line.commands[0].len() == line.notes.len());
        }
        lemma_written_reads_back(e.editor, lines, key);
        assert forall|i: int| 0 <= i < new.commands.len() implies (
        #[trigger] new.commands[i]).len() == new.notes.len() by {
            if i < line.commands.len() {
                assert(line.commands[i].len() == line.notes.len());
            }
        }
        lemma_line_in_order(e.editor, lines, new);
        let after = lines.update(k, new.raw());
        assert forall|i: int| 0 <= i < after.len() implies line_of(#[trigger] after[i]).notes.len()
            > 0 by {
            assert(editable(line_of(after[i])));
        }
        lemma_cursor_stays_on_steps(e.editor, after);
        lemma_moves_stay_right_of_start(e.editor, after);
    }
}

/// The cursor shows step `step` of segment `seg` of line `k`.
pub open spec fn shows(e: Editor, lines: Seq<Seq<char>>, k: int, seg: int, step: int) -> bool {
    &&& 0 <= k < lines.len()
    &&& e.cursor_line == k
    &&& 0 <= seg <= line_of(lines[k]).commands.len()
    &&& 0 <= step < line_of(lines[k]).notes.len()
    &&& e.cursor_col == seg * (line_of(lines[k]).notes.len() + 1) + step
}

proof fn lemma_shown_cell(e: Editor, lines: Seq<Seq<char>>, k: int, seg: int, step: int)
    requires
        shows(e, lines, k, seg, step),
    ensures
        line_of(lines[k]).cell_at(e.cursor_col) == Some((seg, step)),
        0 <= e.cursor_col <= last_col(line_of(lines[k])),
        e.cursor_col == last_col(line_of(lines[k])) <==> seg == line_of(lines[k]).commands.len() && step
            == line_of(lines[k]).notes.len() - 1,
        e.cursor_col == 0 <==> seg == 0 && step == 0,
{
    let line = line_of(lines[k]);
    crate::config::lemma_column_round_trip(line, seg, step);
    lemma_last_col_is_cell(line);
    lemma_width(line);
    let n = line.notes.len() as int;
    let m = line.commands.len() as int;
    assert(e.cursor_col == m * (n + 1) + n - 1 <==> seg == m && step == n - 1) by (nonlinear_arith)
        requires
            e.cursor_col == seg * (n + 1) + step,
            0 <= seg <= m,
            0 <= step < n,
    ;
    assert(e.cursor_col == 0 <==> seg == 0 && step == 0) by (nonlinear_arith)
        requires
            e.cursor_col == seg * (n + 1) + step,
            0 <= seg,
            0 <= step < n,
    ;
}

/// Whether only the cursor has moved.
pub open spec fn only_moved(before: Edit, after: Edit) -> bool {
    &&& after.seq == before.seq && after.state == before.state
    &&& after.editor.edit_mode == before.editor.edit_mode
    &&& after.editor.insert_mode == before.editor.insert_mode
    &&& after.editor.paste_buffer == before.editor.paste_buffer
    &&& after.editor.current_bank == before.editor.current_bank
}

/// The right arrow goes to the next step: of the segment, then to the first of the next segment, then
/// to the first of the next line; at the very end it stays.
pub proof fn lemma_arrow_right(
    e: Edit,
    k: int,
    seg: int,
    step: int,
    slices: Seq<Slice>,
    num_slices: int,
    now: int,
)
    requires
        shows(e.editor, e.seq.lines, k, seg, step),
    ensures
        ({
            let after = e.pressed(Key::Right, false, slices, num_slices, now);
            let line = line_of(e.seq.lines[k]);
            &&& only_moved(e, after)
            &&& step + 1 < line.notes.len() ==> shows(after.editor, e.seq.lines, k, seg, step + 1)
            &&& step + 1 == line.notes.len() && seg < line.commands.len() ==> shows(
                after.editor,
                e.seq.lines,
                k,
                seg + 1,
                0,
            )
            &&& step + 1 == line.notes.len() && seg == line.commands.len() && k + 1 < e.seq.lines.len()
                ==> after.editor.cursor_line == k + 1 && after.editor.cursor_col == 0
            &&& step + 1 == line.notes.len() && seg == line.commands.len() && k + 1
                == e.seq.lines.len() ==> after.editor == e.editor
        }),
{
    let line = line_of(e.seq.lines[k]);
    let n = line.notes.len() as int;
    lemma_shown_cell(e.editor, e.seq.lines, k, seg, step);
    if step + 1 < n {
        crate::config::lemma_column_round_trip(line, seg, step + 1);
    } else if seg < line.commands.len() {
        assert((seg + 1) * (n + 1) == seg * (n + 1) + n + 1) by (nonlinear_arith);
        lemma_separator_column(line, seg);
        let next = Editor { cursor_col: e.editor.cursor_col + 2, ..e.editor };
        assert(shows(next, e.seq.lines, k, seg + 1, 0));
        lemma_shown_cell(next, e.seq.lines, k, seg + 1, 0);
    }
}

/// The column behind the last step of a segment is a separator.
proof fn lemma_separator_column(line: BeatLine, seg: int)
    requires
        0 <= seg,
        line.notes.len() > 0,
    ensures
        line.cell_at(seg * (line.notes.len() + 1) + line.notes.len()) is None,
{
    let n = line.notes.len() as int;
    lemma_fundamental_div_mod_converse(seg * (n + 1) + n, n + 1, seg, n);
}

/// The left arrow goes to the step before: of the segment, then to the last of the segment before,
/// then to the last column of the line before; at the very start it stays.
pub proof fn lemma_arrow_left(
    e: Edit,
    k: int,
    seg: int,
    step: int,
    slices: Seq<Slice>,
    num_slices: int,
    now: int,
)
    requires
        shows(e.editor, e.seq.lines, k, seg, step),
    ensures
        ({
            let after = e.pressed(Key::Left, false, slices, num_slices, now);
            let line = line_of(e.seq.lines[k]);
            &&& only_moved(e, after)
            &&& step > 0 ==> shows(after.editor, e.seq.lines, k, seg, step - 1)
            &&& step == 0 && seg > 0 ==> shows(
                after.editor,
                e.seq.lines,
                k,
                seg - 1,
                line.notes.len() - 1,
            )
            &&& step == 0 && seg == 0 && k > 0 && line_of(e.seq.lines[k - 1]).notes.len() > 0 ==> shows(
                after.editor,
                e.seq.lines,
                k - 1,
                line_of(e.seq.lines[k - 1]).commands.len() as int,
                line_of(e.seq.lines[k - 1]).notes.len() - 1,
            )
            &&& step == 0 && seg == 0 && k == 0 ==> after.editor == e.editor
        }),
{
    let line = line_of(e.seq.lines[k]);
    let n = line.notes.len() as int;
    lemma_shown_cell(e.editor, e.seq.lines, k, seg, step);
    if step > 0 {
        crate::config::lemma_column_round_trip(line, seg, step - 1);
    } else if seg > 0 {
        assert(seg * (n + 1) == (seg - 1) * (n + 1) + n + 1) by (nonlinear_arith);
        lemma_separator_column(line, seg - 1);
        assert((seg - 1) * (n + 1) >= 0) by (nonlinear_arith)
            requires
                seg > 0,
                n > 0,
        ;
    } else if k > 0 && line_of(e.seq.lines[k - 1]).notes.len() > 0 {
        lemma_last_col_is_cell(line_of(e.seq.lines[k - 1]));
    }
}

/// Up and Down keep the column where the other line shows a step there; a column beyond the line goes
/// to its last, and one on a separator to the step behind it. Up from the first line leaves the
/// editor, and Down from the last stays.
pub proof fn lemma_arrows_up_and_down(
    e: Edit,
    slices: Seq<Slice>,
    num_slices: int,
    now: int,
    control: bool,
)
    requires
        0 <= e.editor.cursor_line < e.seq.lines.len(),
        0 <= e.editor.cursor_col,
        forall|i: int|
            0 <= i < e.seq.lines.len() ==> line_of(#[trigger] e.seq.lines[i]).notes.len() > 0,
    ensures
        ({
            let k = e.editor.cursor_line;
            let up = e.pressed(Key::Up, control, slices, num_slices, now);
            let down = e.pressed(Key::Down, control, slices, num_slices, now);
            &&& k == 0 ==> !up.editor.edit_mode && !up.editor.insert_mode && up.editor.cursor_col
                == e.editor.cursor_col && up.seq == e.seq && up.state == e.state
            &&& k > 0 ==> only_moved(e, up) && up.editor.cursor_line == k - 1 && lands(
                line_of(e.seq.lines[k - 1]),
                e.editor.cursor_col,
                up.editor.cursor_col,
            )
            &&& k + 1 == e.seq.lines.len() ==> down == e
            &&& k + 1 < e.seq.lines.len() ==> only_moved(e, down) && down.editor.cursor_line == k + 1
                && lands(
                line_of(e.seq.lines[k + 1]),
                e.editor.cursor_col,
                down.editor.cursor_col,
            )
        }),
{
    let k = e.editor.cursor_line;
    if k > 0 {
        lemma_lands(line_of(e.seq.lines[k - 1]), e.editor.cursor_col);
    }
    if k + 1 < e.seq.lines.len() {
        lemma_lands(line_of(e.seq.lines[k + 1]), e.editor.cursor_col);
    }
}

/// Where a column of another line comes to stand on a line with steps.
pub open spec fn lands(line: BeatLine, col: int, at: int) -> bool {
    let width = line.notes.len() * (line.commands.len() + 1) + line.commands.len();
    &&& col >= width ==> at == width - 1
    &&& col < width && col % (line.notes.len() as int + 1) < line.notes.len() ==> at == col
    &&& col < width && col % (line.notes.len() as int + 1) == line.notes.len() ==> at == col + 1
}

proof fn lemma_lands(line: BeatLine, col: int)
    requires
        line.notes.len() > 0,
        0 <= col,
    ensures
        lands(line, col, landing(line, col)),
{
    let n = line.notes.len() as int;
    lemma_width(line);
    lemma_last_col_is_cell(line);
    vstd::arithmetic::div_mod::lemma_mod_bound(col, n + 1);
    vstd::arithmetic::div_mod::lemma_fundamental_div_mod(col, n + 1);
    if col < line.width() {
        let q = col / (n + 1);
        let m = line.segments();
        assert(q < m) by (nonlinear_arith)
            requires
                col == (n + 1) * q + col % (n + 1),
                col % (n + 1) >= 0,
                col < (n + 1) * m - 1,
                n > 0,
        ;
        if col == last_col(line) {
            assert(line.cell_at(col) is Some);
        }
    }
}

/// With Ctrl the arrows go by segments: left to the first step of the segment, or from there of the
/// one before; right to its last step, or from there to the last of the one behind.
pub proof fn lemma_arrows_by_segment(
    e: Edit,
    k: int,
    seg: int,
    step: int,
    slices: Seq<Slice>,
    num_slices: int,
    now: int,
)
    requires
        shows(e.editor, e.seq.lines, k, seg, step),
    ensures
        ({
            let left = e.pressed(Key::Left, true, slices, num_slices, now);
            let right = e.pressed(Key::Right, true, slices, num_slices, now);
            let line = line_of(e.seq.lines[k]);
            let last = line.notes.len() - 1;
            &&& only_moved(e, left) && only_moved(e, right)
            &&& step > 0 ==> shows(left.editor, e.seq.lines, k, seg, 0)
            &&& step == 0 && seg > 0 ==> shows(left.editor, e.seq.lines, k, seg - 1, 0)
            &&& step == 0 && seg == 0 ==> left == e
            &&& step < last ==> shows(right.editor, e.seq.lines, k, seg, last)
            &&& step == last && seg < line.commands.len() ==> shows(
                right.editor,
                e.seq.lines,
                k,
                seg + 1,
                last,
            )
            &&& step == last && seg == line.commands.len() ==> right == e
        }),
{
    lemma_shown_cell(e.editor, e.seq.lines, k, seg, step);
}

/// The keys that switch something: Insert the insert mode, Esc the editor, a digit the bank; Tab
/// stutters what is playing, and the blank starts and stops the pattern.
pub proof fn lemma_keys_that_switch(
    e: Edit,
    control: bool,
    slices: Seq<Slice>,
    num_slices: int,
    now: int,
    d: char,
)
    requires
        '0' <= d <= '9',
    ensures
        ({
            let insert = e.pressed(Key::Insert, control, slices, num_slices, now);
            let esc = e.pressed(Key::Esc, control, slices, num_slices, now);
            let bank = e.pressed(Key::Char(d), control, slices, num_slices, now);
            let tab = e.pressed(Key::Tab, control, slices, num_slices, now);
            let blank = e.pressed(Key::Char(' '), control, slices, num_slices, now);
            &&& insert == (Edit {
                editor: Editor { insert_mode: !e.editor.insert_mode, ..e.editor },
                ..e
            })
            &&& esc == (Edit {
                editor: Editor { edit_mode: false, insert_mode: false, ..e.editor },
                ..e
            })
            &&& bank == (Edit {
                editor: Editor { current_bank: (d as int - '0' as int) as u8, ..e.editor },
                ..e
            })
            &&& tab.editor == e.editor && tab.seq == e.seq
            &&& e.state.playing ==> tab.state == e.state.stuttered(e.seq.stutter_len)
            &&& !e.state.playing ==> tab.state == e.state
            &&& blank.editor == e.editor && blank.seq == e.seq.toggled(now)
            &&& e.seq.playing ==> !blank.seq.playing && !blank.state.playing
            &&& !e.seq.playing ==> blank.seq.playing && blank.state == e.state
        }),
{
}

/// The keys that change whole lines, held with Ctrl: `c` copies the line of the cursor and changes
/// nothing; `v` puts the copied line behind it, or does nothing where none was copied; `n` puts a line
/// of eight rests behind it.
pub proof fn lemma_keys_on_lines(e: Edit, slices: Seq<Slice>, num_slices: int, now: int)
    requires
        0 <= e.editor.cursor_line < e.seq.lines.len(),
    ensures
        ({
            let k = e.editor.cursor_line;
            let copy = e.pressed(Key::Char('c'), true, slices, num_slices, now);
            let paste = e.pressed(Key::Char('v'), true, slices, num_slices, now);
            let new = e.pressed(Key::Char('n'), true, slices, num_slices, now);
            &&& copy == (Edit {
                editor: Editor { paste_buffer: Some(e.seq.lines[k]), ..e.editor },
                ..e
            })
            &&& e.editor.paste_buffer is None ==> paste == e
            &&& e.editor.paste_buffer matches Some(raw) ==> {
                &&& paste.seq.lines == e.seq.lines.insert(k + 1, raw)
                &&& paste.editor == (Editor { cursor_line: k + 1, cursor_col: 0, ..e.editor })
                &&& paste.seq.in_sync() && paste.seq.dirty && paste.state == e.state
            }
            &&& new.seq.lines == e.seq.lines.insert(k + 1, seq!['-', '-', '-', '-', '-', '-', '-', '-'])
            &&& new.editor == (Editor { cursor_line: k + 1, cursor_col: 0, ..e.editor })
            &&& new.seq.in_sync() && new.seq.dirty && new.state == e.state
        }),
{
    reveal_strlit("--------");
    assert("--------"@ =~= seq!['-', '-', '-', '-', '-', '-', '-', '-']);
}

/// The keys that change the segments of the line, held with Ctrl: `u` puts a segment of dashes behind
/// the others, as long as the notes; `i` takes away the segments of dashes alone. All other lines stay,
/// and so does the playing.
pub proof fn lemma_keys_on_segments(
    e: Edit,
    slices: Seq<Slice>,
    num_slices: int,
    now: int,
    i: int,
)
    requires
        0 <= e.editor.cursor_line < e.seq.lines.len(),
    ensures
        ({
            let k = e.editor.cursor_line;
            let line = line_of(e.seq.lines[k]);
            let more = e.pressed(Key::Char('u'), true, slices, num_slices, now);
            let less = e.pressed(Key::Char('i'), true, slices, num_slices, now);
            let grown = line_of(more.seq.lines[k]);
            let kept = line_of(less.seq.lines[k]);
            &&& more.seq.dirty && less.seq.dirty
            &&& more.editor == e.editor && more.state == e.state && less.state == e.state
            &&& less.editor.cursor_line == k
            &&& grown.notes == line.notes && kept.notes == line.notes
            &&& grown.commands.len() == line.commands.len() + 1
            &&& grown.commands.drop_last() == line.commands
            &&& grown.commands.last().len() == line.notes.len()
            &&& 0 <= i < line.notes.len() ==> grown.commands.last()[i] == '-'
            &&& forall|c: Seq<char>| #[trigger]
                kept.commands.contains(c) <==> line.commands.contains(c) && exists|j: int|
                    0 <= j < c.len() && #[trigger] c[j] != '-'
            &&& i != k && 0 <= i < e.seq.lines.len() ==> more.seq.lines[i] == e.seq.lines[i]
                && less.seq.lines[i] == e.seq.lines[i]
            &&& more.seq.lines.len() == e.seq.lines.len() && less.seq.lines.len() == e.seq.lines.len()
        }),
{
    let k = e.editor.cursor_line;
    let line = line_of(e.seq.lines[k]);
    lemma_dashed_reads_back(e.seq.lines[k]);
    lemma_kept_reads_back(without_empty(line).raw(), line, e.seq.lines[k]);
    let grown = with_dashes(line);
    assert(grown.commands.drop_last() =~= line.commands);
    lemma_which_segments_stay(line.commands);
}

proof fn lemma_which_segments_stay(commands: Seq<Seq<char>>)
    ensures
        forall|c: Seq<char>| #[trigger]
            without_dashes(commands).contains(c) <==> commands.contains(c) && exists|j: int|
                0 <= j < c.len() && #[trigger] c[j] != '-',
    decreases commands.len(),
{
    if commands.len() > 0 {
        let init = commands.drop_last();
        let last = commands.last();
        lemma_which_segments_stay(init);
        let before = without_dashes(init);
        let kept = without_dashes(commands);
        assert(all_dashes(last) <==> !exists|j: int| 0 <= j < last.len() && #[trigger] last[j] != '-');
        assert forall|c: Seq<char>| #[trigger]
            kept.contains(c) <==> commands.contains(c) && exists|j: int|
                0 <= j < c.len() && #[trigger] c[j] != '-' by {
            assert(commands.contains(c) <==> init.contains(c) || c == last) by {
                if commands.contains(c) {
                    let i = choose|i: int| 0 <= i < commands.len() && commands[i] == c;
                    if i < init.len() {
                        assert(init[i] == c);
                    }
                }
                if init.contains(c) {
                    let i = choose|i: int| 0 <= i < init.len() && init[i] == c;
                    assert(commands[i] == c);
                }
                assert(commands[commands.len() - 1] == last);
            }
            if all_dashes(last) {
                assert(kept == before);
            } else {
                assert(kept == before.push(last));
                assert(kept.contains(c) <==> before.contains(c) || c == last) by {
                    if kept.contains(c) {
                        let i = choose|i: int| 0 <= i < kept.len() && kept[i] == c;
                        if i < before.len() {
                            assert(before[i] == c);
                        }
                    }
                    if before.contains(c) {
                        let i = choose|i: int| 0 <= i < before.len() && before[i] == c;
                        assert(kept[i] == c);
                    }
                    assert(kept[kept.len() - 1] == last);
                }
            }
        }
    }
}

/// What a note key does on a note: it writes its note at that step and nowhere else, with the digit of
/// the bank in the first segment of commands unless it is the first bank; the pattern is played as it
/// now stands and has unsaved changes. In insert mode the cursor goes on to the right.
pub proof fn lemma_typing_a_note(
    e: Edit,
    k: int,
    step: int,
    key: Key,
    ch: char,
    slices: Seq<Slice>,
    num_slices: int,
    now: int,
)
    requires
        shows(e.editor, e.seq.lines, k, 0, step),
        key is Char,
        key != Key::Char(' '),
        beat_of_key(key) == Some(ch),
        bank_ok(e.editor, e.seq.lines, key),
        e.editor.current_bank < 10,
    ensures
        ({
            let after = e.pressed(key, false, slices, num_slices, now);
            let line = line_of(e.seq.lines[k]);
            let new = line_of(after.seq.lines[k]);
            let bank = e.editor.current_bank;
            &&& after.seq.lines == e.seq.lines.update(k, after.seq.lines[k])
            &&& after.seq.in_sync() && after.seq.dirty
            &&& new.notes == line.notes.update(step, ch)
            &&& bank == 0 ==> new.commands == line.commands
            &&& bank > 0 ==> new.commands.len() > 0 && new.commands[0][step] as int == '0' as int + bank
            &&& bank > 0 && line.commands.len() > 0 ==> new.commands.skip(1) == line.commands.skip(1)
                && new.commands[0] == line.commands[0].update(step, new.commands[0][step])
            &&& bank > 0 && line.commands.len() == 0 ==> new.commands.len() == 1
                && new.commands[0].len() == line.notes.len()
            &&& !e.editor.insert_mode ==> after.editor == e.editor
            &&& e.editor.insert_mode && step + 1 < line.notes.len() ==> shows(
                after.editor,
                after.seq.lines,
                k,
                0,
                step + 1,
            )
            &&& e.editor.insert_mode ==> after.editor == (Edit { seq: after.seq, ..e }).pressed(
                Key::Right,
                false,
                slices,
                num_slices,
                now,
            ).editor
            &&& match pad_of(ch) {
                None => after.state == e.state.stopped() && !after.state.playing,
                Some(pad) => {
                    let idx = pad + 16 * bank;
                    &&& idx >= num_slices ==> after.state == e.state
                    &&& idx < num_slices ==> after.state.playing && (idx < 256
                        ==> after.state.active_slice == idx) && PlayMode::numbered(after.state.mode)
                        == PlayMode::Slice && after.state.position == slices[idx].start as int
                        % 0x1_0000_0000
                },
            }
        }),
{
    let lines = e.seq.lines;
    let line = line_of(lines[k]);
    lemma_shown_cell(e.editor, lines, k, 0, step);
    lemma_written_reads_back(e.editor, lines, key);
    let new = written(e.editor, lines, key)->0;
    let after = e.pressed(key, false, slices, num_slices, now);
    assert(!('0' <= key->Char_0 <= '9')) by {
        crate::config::lemma_other_letters(crate::ui::input::lower(key->Char_0));
    }
    assert(after == e.typed(key, slices, num_slices));
    assert(after.seq.lines =~= lines.update(k, new.raw()));
    if e.editor.current_bank > 0 && line.commands.len() > 0 {
        assert(new.commands.skip(1) =~= line.commands.skip(1));
    }
    if e.editor.insert_mode && step + 1 < line.notes.len() {
        let n = line.notes.len() as int;
        crate::config::lemma_column_round_trip(new, 0, step + 1);
        assert(0 * (n + 1) == 0);
        lemma_width(new);
        assert(last_col(new) >= n - 1);
    }
}

/// What a command key does in a segment of commands: it writes its character at that step of that
/// segment and nowhere else; nothing is sounded. A segment that is too short is left alone.
pub proof fn lemma_typing_a_command(
    e: Edit,
    k: int,
    seg: int,
    step: int,
    ch: char,
    slices: Seq<Slice>,
    num_slices: int,
    now: int,
)
    requires
        shows(e.editor, e.seq.lines, k, seg, step),
        seg > 0,
        is_command(ch),
        !('0' <= ch <= '9'),
    ensures
        ({
            let after = e.pressed(Key::Char(ch), false, slices, num_slices, now);
            let line = line_of(e.seq.lines[k]);
            let new = line_of(after.seq.lines[k]);
            &&& after.state == e.state
            &&& step >= line.commands[seg - 1].len() ==> after == e
            &&& step < line.commands[seg - 1].len() ==> {
                &&& after.seq.lines == e.seq.lines.update(k, after.seq.lines[k])
                &&& after.seq.in_sync() && after.seq.dirty
                &&& new.notes == line.notes
                &&& new.commands == line.commands.update(
                    seg - 1,
                    line.commands[seg - 1].update(step, ch),
                )
                &&& !e.editor.insert_mode ==> after.editor == e.editor
                &&& e.editor.insert_mode && step + 1 < line.notes.len() ==> shows(
                    after.editor,
                    after.seq.lines,
                    k,
                    seg,
                    step + 1,
                )
                &&& e.editor.insert_mode ==> after.editor == (Edit { seq: after.seq, ..e }).pressed(
                    Key::Right,
                    false,
                    slices,
                    num_slices,
                    now,
                ).editor
            }
        }),
{
    let lines = e.seq.lines;
    let line = line_of(lines[k]);
    let key = Key::Char(ch);
    lemma_shown_cell(e.editor, lines, k, seg, step);
    crate::config::lemma_what_is_a_command(ch);
    reveal_strlit("~\\/RLH*<>^()[]-");
    assert(ch != ' ') by {
        crate::config::lemma_other_letters(ch);
    }
    let after = e.pressed(key, false, slices, num_slices, now);
    assert(after == e.typed(key, slices, num_slices));
    if step < line.commands[seg - 1].len() {
        assert(bank_ok(e.editor, lines, key));
        lemma_written_reads_back(e.editor, lines, key);
        let new = written(e.editor, lines, key)->0;
        assert(after.seq.lines =~= lines.update(k, new.raw()));
        if e.editor.insert_mode && step + 1 < line.notes.len() {
            let n = line.notes.len() as int;
            crate::config::lemma_column_round_trip(new, seg, step + 1);
            lemma_width(new);
            lemma_last_col_is_cell(new);
        }
    }
}

/// A key that stands for nothing where the cursor is changes nothing.
pub proof fn lemma_keys_without_meaning(
    e: Edit,
    k: int,
    seg: int,
    step: int,
    key: Key,
    control: bool,
    slices: Seq<Slice>,
    num_slices: int,
    now: int,
)
    requires
        shows(e.editor, e.seq.lines, k, seg, step),
        key == Key::Enter || key == Key::Backspace || key == Key::Other || (key is Char && !control
            && key != Key::Char(' ') && !('0' <= key->Char_0 <= '9') && (seg == 0 ==> beat_of_key(key)
            is None) && (seg > 0 ==> command_of_key(key) is None)),
    ensures
        e.pressed(key, control, slices, num_slices, now) == e,
{
    lemma_shown_cell(e.editor, e.seq.lines, k, seg, step);
}

/// Entering goes to the start of the pattern; leaving keeps the place, and ends the insert mode.
pub proof fn lemma_entering_and_leaving(e: Editor)
    ensures
        e.entered().edit_mode && e.entered().cursor_line == 0 && e.entered().cursor_col == 0,
        e.entered().insert_mode == e.insert_mode && e.entered().paste_buffer == e.paste_buffer,
        e.entered().current_bank == e.current_bank,
        e.exited() == (Editor { edit_mode: false, insert_mode: false, ..e }),
{
}

/// A column on a separator or outside a line moves by one: to the right where the line goes on, else to
/// the left; a column that shows a step stays.
pub proof fn lemma_moved_off_separators(line: BeatLine, col: int)
    requires
        0 <= col,
    ensures
        ({
            let last = line.notes.len() * (line.commands.len() + 1) + line.commands.len() - 1;
            &&& line.cell_at(col) is Some ==> off_separator(line, col) == col
            &&& line.cell_at(col) is None && col < last ==> off_separator(line, col) == col + 1
            &&& line.cell_at(col) is None && col >= last && col > 0 ==> off_separator(line, col) == col - 1
            &&& line.cell_at(col) is None && col >= last && col == 0 ==> off_separator(line, col) == 0
        }),
{
}

/// Ctrl makes a difference only with the left and right arrows and with `c`, `v`, `n`, `u` and `i`.
pub proof fn lemma_where_control_matters(
    e: Edit,
    key: Key,
    slices: Seq<Slice>,
    num_slices: int,
    now: int,
)
    requires
        key != Key::Left && key != Key::Right && key != Key::Char('c') && key != Key::Char('v') && key
            != Key::Char('n') && key != Key::Char('u') && key != Key::Char('i'),
    ensures
        e.pressed(key, true, slices, num_slices, now) == e.pressed(key, false, slices, num_slices, now),
{
}

/// After Ctrl-I the cursor stays in its column, as far as the line still has it.
pub proof fn lemma_cursor_after_removal(e: Edit, slices: Seq<Slice>, num_slices: int, now: int)
    requires
        0 <= e.editor.cursor_line < e.seq.lines.len(),
        0 <= e.editor.cursor_col,
        line_of(e.seq.lines[e.editor.cursor_line]).notes.len() > 0,
    ensures
        ({
            let after = e.pressed(Key::Char('i'), true, slices, num_slices, now);
            lands(
                line_of(after.seq.lines[e.editor.cursor_line]),
                e.editor.cursor_col,
                after.editor.cursor_col,
            )
        }),
{
    let k = e.editor.cursor_line;
    let line = line_of(e.seq.lines[k]);
    lemma_kept_reads_back(without_empty(line).raw(), line, e.seq.lines[k]);
    lemma_lands(without_empty(line), e.editor.cursor_col);
}

/// Taking the segments of dashes away keeps the others in their order.
pub proof fn lemma_segments_keep_their_order(commands: Seq<Seq<char>>, cmd: Seq<char>)
    ensures
        (exists|j: int| 0 <= j < cmd.len() && #[trigger] cmd[j] != '-') ==> without_dashes(
            commands.push(cmd),
        ) == without_dashes(commands).push(cmd),
        (forall|j: int| 0 <= j < cmd.len() ==> #[trigger] cmd[j] == '-') ==> without_dashes(
            commands.push(cmd),
        ) == without_dashes(commands),
        without_dashes(Seq::empty()) == Seq::<Seq<char>>::empty(),
{
    assert(commands.push(cmd).drop_last() =~= commands);
}

} // verus!
