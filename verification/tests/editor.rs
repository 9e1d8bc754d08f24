use breaky::analysis::slicer::Slice;
use breaky::config::{visual_col_to_segment_step, ParsedBeatLine};
use breaky::editor::{edit_key_ready, handle_edit_key, snap_off_separator, EditorState};
use breaky::engine::state::{PlayMode, PlaybackState};
use breaky::sequencer::SequencerState;
use breaky::ui::input::Key;

struct Bench {
    editor: EditorState,
    seq: SequencerState,
    state: PlaybackState,
    slices: Vec<Slice>,
}

fn bench(v: &[&str]) -> Bench {
    let mut editor = EditorState::new();
    editor.enter();
    Bench {
        editor,
        seq: SequencerState::new(v.iter().map(|s| s.to_string()).collect(), 10, 1600, 16, 0),
        state: PlaybackState::new(),
        slices: (0..40).map(|i| Slice { start: i * 100, end: (i + 1) * 100 }).collect(),
    }
}

impl Bench {
    fn key(&mut self, key: Key, control: bool) {
        assert!(edit_key_ready(&self.editor, &self.seq.beats, key, control));
        handle_edit_key(
            key,
            control,
            &mut self.editor,
            &mut self.seq,
            &self.slices,
            self.slices.len(),
            &mut self.state,
            5,
        );
    }

    fn press(&mut self, key: Key) {
        self.key(key, false);
    }

    fn ctrl(&mut self, c: char) {
        self.key(Key::Char(c), true);
    }

    fn typed(&mut self, c: char) {
        self.key(Key::Char(c), false);
    }

    fn at(&self) -> (usize, usize) {
        (self.editor.cursor_line, self.editor.cursor_col)
    }
}

#[test]
fn entering_and_leaving() {
    let mut e = EditorState::new();
    assert!(!e.edit_mode && !e.insert_mode && e.paste_buffer.is_none());
    e.cursor_line = 3;
    e.cursor_col = 4;
    e.enter();
    assert!(e.edit_mode);
    assert_eq!((e.cursor_line, e.cursor_col), (0, 0));
    e.insert_mode = true;
    e.exit();
    assert!(!e.edit_mode && !e.insert_mode);
}

#[test]
fn escape_and_up_from_the_first_line_leave() {
    let mut b = bench(&["qwer"]);
    b.press(Key::Esc);
    assert!(!b.editor.edit_mode);
    let mut c = bench(&["qwer"]);
    c.press(Key::Up);
    assert!(!c.editor.edit_mode);
}

#[test]
fn the_cursor_moves_over_lines() {
    let mut b = bench(&["qwer", "as"]);
    b.editor.cursor_col = 3;
    b.press(Key::Down);
    assert_eq!(b.at(), (1, 1));
    b.press(Key::Down);
    assert_eq!(b.at(), (1, 1));
    b.press(Key::Up);
    assert_eq!(b.at(), (0, 1));
}

#[test]
fn the_cursor_skips_separators() {
    let mut b = bench(&["qw:--", "a"]);
    b.press(Key::Right);
    assert_eq!(b.at(), (0, 1));
    b.press(Key::Right);
    assert_eq!(b.at(), (0, 3));
    b.press(Key::Left);
    assert_eq!(b.at(), (0, 1));
    b.editor.cursor_col = 4;
    b.press(Key::Right);
    assert_eq!(b.at(), (1, 0));
    b.press(Key::Left);
    assert_eq!(b.at(), (0, 4));
}

#[test]
fn the_cursor_lands_beside_a_separator() {
    let mut b = bench(&["qwerty", "qw:--"]);
    b.editor.cursor_col = 2;
    b.press(Key::Down);
    assert_eq!(b.at(), (1, 3));
}

#[test]
fn control_moves_by_segments() {
    let mut b = bench(&["qwer:----:----"]);
    b.editor.cursor_col = 2;
    b.key(Key::Right, true);
    assert_eq!(b.at(), (0, 3));
    b.key(Key::Right, true);
    assert_eq!(b.at(), (0, 8));
    b.key(Key::Left, true);
    assert_eq!(b.at(), (0, 5));
    b.key(Key::Left, true);
    assert_eq!(b.at(), (0, 0));
}

#[test]
fn snapping_off_a_separator() {
    let line = ParsedBeatLine::parse("qw:--");
    let mut col = 2;
    snap_off_separator(&line, &mut col);
    assert_eq!(col, 3);
    let mut same = 1;
    snap_off_separator(&line, &mut same);
    assert_eq!(same, 1);
    let end = ParsedBeatLine::parse("");
    let mut out = 5;
    snap_off_separator(&end, &mut out);
    assert_eq!(out, 4);
}

#[test]
fn a_note_replaces_the_step_and_sounds() {
    let mut b = bench(&["qwer"]);
    b.editor.cursor_col = 2;
    b.typed('K');
    assert_eq!(b.seq.beats[0], "qwkr");
    assert_eq!(b.seq.beat_sequence[2], Some(15));
    assert!(b.seq.dirty);
    assert_eq!((b.state.get_active_slice(), b.state.position), (15, 1500));
    assert_eq!(b.state.get_mode(), PlayMode::Slice);
    assert_eq!(b.at(), (0, 2));
}

#[test]
fn silence_stops_the_sound() {
    let mut b = bench(&["qwer"]);
    b.typed('w');
    assert!(b.state.is_playing());
    b.typed('_');
    assert_eq!(b.seq.beats[0], "_wer");
    assert!(!b.state.is_playing());
}

#[test]
fn a_note_of_another_bank_writes_its_digit() {
    let mut b = bench(&["qwer"]);
    b.typed('2');
    assert_eq!(b.editor.current_bank, 2);
    b.editor.cursor_col = 1;
    b.typed('q');
    assert_eq!(b.seq.beats[0], "qqer:-2--");
    assert_eq!(b.state.get_active_slice(), 32);
    assert_eq!(b.seq.effect_sequence[1].bank, 2);
}

#[test]
fn a_command_is_written_into_its_segment() {
    let mut b = bench(&["qwer:----"]);
    b.editor.cursor_col = 6;
    b.typed('R');
    assert_eq!(b.seq.beats[0], "qwer:-R--");
    assert!(b.seq.effect_sequence[1].reverse);
    b.typed('Z');
    assert_eq!(b.seq.beats[0], "qwer:-R--");
}

#[test]
fn keys_that_write_nothing_change_nothing() {
    let mut b = bench(&["qwer"]);
    b.typed('z');
    b.press(Key::Backspace);
    b.press(Key::Other);
    assert_eq!(b.seq.beats[0], "qwer");
    assert!(!b.seq.dirty);
}

#[test]
fn insert_mode_goes_on_after_each_note() {
    let mut b = bench(&["qw", "er"]);
    b.press(Key::Insert);
    assert!(b.editor.insert_mode);
    b.typed('a');
    b.typed('s');
    assert_eq!(b.at(), (1, 0));
    b.typed('d');
    assert_eq!(b.seq.beats, vec!["as".to_string(), "dr".to_string()]);
    b.press(Key::Insert);
    assert!(!b.editor.insert_mode);
}

#[test]
fn a_line_is_copied_and_pasted() {
    let mut b = bench(&["qw:R-", "er"]);
    b.ctrl('c');
    assert!(!b.seq.dirty);
    b.press(Key::Down);
    b.ctrl('v');
    assert_eq!(b.seq.beats, vec!["qw:R-".to_string(), "er".to_string(), "qw:R-".to_string()]);
    assert_eq!(b.at(), (2, 0));
    assert_eq!(b.seq.total_steps, 6);
    assert!(b.seq.dirty);
}

#[test]
fn pasting_nothing_does_nothing() {
    let mut b = bench(&["qw"]);
    b.ctrl('v');
    assert_eq!(b.seq.beats.len(), 1);
    assert!(!b.seq.dirty);
}

#[test]
fn a_new_line_is_put_behind() {
    let mut b = bench(&["qw", "er"]);
    b.ctrl('n');
    assert_eq!(b.seq.beats, vec!["qw".to_string(), "--------".to_string(), "er".to_string()]);
    assert_eq!(b.at(), (1, 0));
    assert_eq!(b.seq.total_steps, 12);
}

#[test]
fn command_segments_are_added_and_removed() {
    let mut b = bench(&["qwer:-R--"]);
    let effects = b.seq.effect_sequence.clone();
    b.ctrl('u');
    assert_eq!(b.seq.beats[0], "qwer:-R--:----");
    assert_eq!(b.seq.effect_sequence, effects);
    b.editor.cursor_col = 13;
    b.ctrl('i');
    assert_eq!(b.seq.beats[0], "qwer:-R--");
    assert_eq!(b.at(), (0, 8));
    assert!(b.seq.dirty);
}

#[test]
fn space_and_tab_work_while_editing() {
    let mut b = bench(&["qwer"]);
    b.typed(' ');
    assert!(!b.seq.playing);
    b.press(Key::Tab);
    assert_eq!(b.state.get_mode(), PlayMode::Slice);
    b.state.trigger_slice(1, 100, PlayMode::Slice);
    b.press(Key::Tab);
    assert_eq!(b.state.get_mode(), PlayMode::Stutter);
    assert_eq!(b.state.stutter_len, 100);
}

#[test]
fn keys_off_the_pattern_are_not_ready() {
    let mut b = bench(&["qwer"]);
    b.editor.cursor_line = 1;
    assert!(!edit_key_ready(&b.editor, &b.seq.beats, Key::Right, false));
    assert!(edit_key_ready(&b.editor, &b.seq.beats, Key::Esc, false));
    assert!(edit_key_ready(&b.editor, &b.seq.beats, Key::Up, false));
    let empty: Vec<String> = Vec::new();
    assert!(!edit_key_ready(&EditorState::new(), &empty, Key::Char('q'), false));
}

#[test]
fn any_keys_leave_the_pattern_in_order() {
    let mut b = bench(&["qwer:-R--", "as"]);
    let keys = [
        (Key::Char('3'), false),
        (Key::Char('k'), false),
        (Key::Insert, false),
        (Key::Char('u'), true),
        (Key::Right, true),
        (Key::Char('L'), false),
        (Key::Char('c'), true),
        (Key::Down, false),
        (Key::Char('q'), false),
        (Key::Char('v'), true),
        (Key::Right, true),
        (Key::Right, true),
        (Key::Char('i'), true),
        (Key::Left, false),
        (Key::Char('n'), true),
        (Key::Left, false),
        (Key::Up, false),
        (Key::Left, true),
        (Key::Char('_'), false),
        (Key::Other, false),
    ];
    for round in 0..5 {
        for (key, control) in keys {
            b.key(key, control);
            for raw in &b.seq.beats {
                let line = ParsedBeatLine::parse(raw);
                assert!(!line.notes.is_empty());
                assert!(line.commands.iter().all(|c| c.len() == line.notes.len()));
            }
            let (line, col) = b.at();
            let current = ParsedBeatLine::parse(&b.seq.beats[line]);
            assert!(visual_col_to_segment_step(&current, col).is_some(), "round {}", round);
        }
    }
}
