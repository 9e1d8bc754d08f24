use breaky::analysis::slicer::{make_slices, Slice};
use breaky::audio::buffer::AudioBuffer;
use breaky::banks::BankError;
use breaky::commands::{config_to_save, PendingAction, Request};
use breaky::config::BreakConfig;
use breaky::engine::state::PlayMode;
use breaky::number::Num64;
use breaky::sequencer::SequencerState;
use breaky::session::{Action, Session, TempoSteps};
use breaky::ui::input::{Key, Modifiers};
use breaky::variables::{Reading, Variables};

fn num64(v: f64) -> Num64 {
    Num64 { bits: v.to_bits(), single: (v as f32).to_bits(), text: v.to_string() }
}

fn session(lines: &[&str]) -> Session {
    let beats = lines.iter().map(|s| s.to_string()).collect();
    let vars = Variables::from_config(&BreakConfig::default_for("amen.wav", num64(120.5)));
    let slices: Vec<Slice> =
        (0..32).map(|i| Slice { start: i * 100, end: (i + 1) * 100 }).collect();
    Session::new(SequencerState::new(beats, 10, 1600, 16, 0), vars, slices, "amen.wav")
}

fn held(s: &mut Session, key: Key, shift: bool, control: bool) -> Action {
    let modifiers = Modifiers { shift, control };
    assert!(s.is_ready(key, modifiers));
    let bpm = f64::from_bits(s.vars.bpm.bits);
    let tempos = TempoSteps {
        up: num64(bpm.floor() + 1.0),
        down: num64(bpm.floor() - if bpm == bpm.floor() { 1.0 } else { 0.0 }),
    };
    let reading = Reading { single: Err("no".to_string()), double: Ok(num64(99.0)) };
    s.press(key, modifiers, &tempos, &reading, 1000)
}

fn press(s: &mut Session, key: Key) -> Action {
    held(s, key, false, false)
}

fn command(s: &mut Session, text: &str) -> Action {
    press(s, Key::Char(':'));
    for c in text.chars() {
        assert_eq!(press(s, Key::Char(c)), Action::Nothing);
    }
    press(s, Key::Enter)
}

#[test]
fn a_new_session() {
    let s = session(&["qwer"]);
    assert!(!s.should_quit && !s.editor.edit_mode && !s.commands.active);
    assert_eq!(s.num_slices, 32);
    assert_eq!(s.bank_entries.len(), 1);
    assert_eq!((s.bank_entries[0].start_slice, s.bank_entries[0].slice_count), (0, 32));
    assert_eq!(s.playback.lp_cutoff, 800.0f32.to_bits());
    assert!(!s.playback.playing);
}

#[test]
fn pad_keys_play_slices() {
    let mut s = session(&["qwer"]);
    press(&mut s, Key::Char('a'));
    assert_eq!((s.playback.get_active_slice(), s.playback.position), (8, 800));
    assert_eq!(s.playback.get_mode(), PlayMode::Slice);
    held(&mut s, Key::Char('W'), true, false);
    assert_eq!((s.playback.get_active_slice(), s.playback.get_mode()), (1, PlayMode::FreeRun));
    press(&mut s, Key::Char('1'));
    press(&mut s, Key::Char('q'));
    assert_eq!(s.playback.get_active_slice(), 16);
    press(&mut s, Key::Char('2'));
    press(&mut s, Key::Char('w'));
    assert_eq!(s.playback.get_active_slice(), 16);
}

#[test]
fn normal_mode_keys() {
    let mut s = session(&["qwer"]);
    press(&mut s, Key::Char(' '));
    assert!(!s.seq.playing);
    press(&mut s, Key::Enter);
    assert!(s.seq.playing);
    assert_eq!((s.seq.current_step, s.seq.last_step), (0, 1000));
    held(&mut s, Key::Char('n'), false, true);
    assert_eq!(s.seq.beats.len(), 2);
    assert!(s.seq.dirty);
    press(&mut s, Key::Tab);
    assert_eq!(s.playback.get_mode(), PlayMode::Slice);
    press(&mut s, Key::Char('q'));
    press(&mut s, Key::Tab);
    assert_eq!(s.playback.get_mode(), PlayMode::Stutter);
    press(&mut s, Key::Down);
    assert!(s.editor.edit_mode);
    press(&mut s, Key::Esc);
    assert!(!s.editor.edit_mode && !s.should_quit);
    press(&mut s, Key::Esc);
    assert!(s.should_quit);
}

#[test]
fn control_c_quits_in_normal_mode() {
    let mut s = session(&["qwer"]);
    held(&mut s, Key::Char('c'), false, true);
    assert!(s.should_quit);
    let mut e = session(&["qwer"]);
    press(&mut e, Key::Down);
    held(&mut e, Key::Char('c'), false, true);
    assert!(!e.should_quit);
    assert_eq!(e.editor.paste_buffer.as_deref(), Some("qwer"));
}

#[test]
fn the_tempo_goes_by_whole_steps() {
    let mut s = session(&["qwer"]);
    assert_eq!(press(&mut s, Key::Char('+')), Action::Retime);
    assert_eq!(s.vars.bpm.text, "121");
    assert_eq!(press(&mut s, Key::Char('=')), Action::Retime);
    assert_eq!(s.vars.bpm.text, "122");
    assert_eq!(press(&mut s, Key::Char('-')), Action::Retime);
    assert_eq!(s.vars.bpm.text, "121");
    s.vars.bpm = num64(1.0);
    assert_eq!(press(&mut s, Key::Char('-')), Action::Nothing);
    assert_eq!(s.vars.bpm.text, "1");
    s.vars.bpm = num64(1.5);
    assert_eq!(press(&mut s, Key::Char('-')), Action::Retime);
    assert_eq!(s.vars.bpm.text, "1");
}

#[test]
fn a_dash_is_a_command_while_editing() {
    let mut s = session(&["qwer:RRRR"]);
    press(&mut s, Key::Down);
    s.editor.cursor_col = 5;
    assert_eq!(press(&mut s, Key::Char('-')), Action::Nothing);
    assert_eq!(s.seq.beats[0], "qwer:-RRR");
}

#[test]
fn enter_plays_the_line_while_editing() {
    let mut s = session(&["qw", "er", "ty"]);
    press(&mut s, Key::Down);
    press(&mut s, Key::Down);
    press(&mut s, Key::Enter);
    assert_eq!((s.seq.current_step, s.seq.stop_at_step), (2, Some(4)));
    assert!(s.tick(1010));
    assert!(s.tick(1020));
    assert!(!s.seq.playing && !s.playback.playing);
    assert!(!s.tick(1030));
}

#[test]
fn commands_are_run() {
    let mut s = session(&["qwer"]);
    assert_eq!(command(&mut s, "w"), Action::Run(Request::Save));
    assert!(!s.commands.active);
    assert_eq!(command(&mut s, "bpm=99"), Action::Run(Request::Nothing));
    assert_eq!(s.vars.bpm.text, "99");
    assert_eq!(s.commands.status_message, "bpm = 99");
    assert_eq!(command(&mut s, "bank load x.wav"), Action::Run(Request::Nothing));
    assert_eq!(s.bank_load_path.as_deref(), Some("x.wav"));
    assert_eq!(command(&mut s, "q"), Action::Run(Request::Nothing));
    assert!(s.should_quit);
}

#[test]
fn the_command_line_is_edited() {
    let mut s = session(&["qwer"]);
    command(&mut s, "vars");
    press(&mut s, Key::Char(':'));
    assert_eq!(s.commands.status_message, "");
    press(&mut s, Key::Up);
    assert_eq!(s.commands.buffer, "vars");
    press(&mut s, Key::Backspace);
    assert_eq!(s.commands.buffer, "var");
    press(&mut s, Key::Tab);
    held(&mut s, Key::Char('c'), false, true);
    assert_eq!(s.commands.buffer, "varc");
    press(&mut s, Key::Esc);
    assert!(!s.commands.active && !s.should_quit);
    let mut c = session(&["qwer"]);
    held(&mut c, Key::Char(':'), false, true);
    assert!(!c.commands.active);
}

#[test]
fn unsaved_changes_are_confirmed() {
    let mut s = session(&["qwer"]);
    s.seq.dirty = true;
    command(&mut s, "q");
    assert_eq!(s.commands.pending_action, Some(PendingAction::Quit));
    press(&mut s, Key::Enter);
    assert_eq!(s.commands.pending_action, None);
    assert!(!s.should_quit);
    command(&mut s, "q");
    press(&mut s, Key::Char('Y'));
    assert!(s.should_quit);
    let mut r = session(&["qwer"]);
    r.seq.dirty = true;
    command(&mut r, "e");
    assert_eq!(press(&mut r, Key::Char('y')), Action::Reload);
    assert_eq!(r.commands.confirm_prompt, "");
}

#[test]
fn saving_and_reading_back_keeps_the_pattern() {
    let mut s = session(&["qwer", "as:R-"]);
    s.vars.stutter = 4;
    s.seq.dirty = true;
    let config = config_to_save("amen.wav", &s.vars, &s.seq.beats);
    s.saved("a.yaml", &Ok(()), 5);
    assert!(!s.seq.dirty);
    assert_eq!(s.commands.status_message, "Written: a.yaml");
    s.seq.beats[0] = "____".to_string();
    s.seq.rebuild_sequences();
    s.vars.stutter = 9;
    s.reloaded("a.yaml", Ok(config), 6);
    assert_eq!(s.seq.beats, vec!["qwer".to_string(), "as:R-".to_string()]);
    assert_eq!(s.vars.stutter, 4);
    assert!(s.seq.effect_sequence[4].reverse);
    s.reloaded("a.yaml", Err("gone".to_string()), 7);
    assert_eq!(s.commands.status_message, "Error reloading: gone");
}

#[test]
fn tuning_and_timing() {
    let mut s = session(&["qwer"]);
    s.vars.stutter = 8;
    s.vars.lp.bits = 1.0f32.to_bits();
    s.tune();
    s.retime(77, 1600);
    assert_eq!(s.playback.lp_cutoff, 1.0f32.to_bits());
    assert_eq!((s.seq.step_duration, s.seq.stutter_len), (77, 200));
}

#[test]
fn banks_are_loaded_into_the_session() {
    let mut audio = AudioBuffer {
        samples: vec![1.0f32.to_bits(); 3200],
        sample_rate: 44100,
        file_name: "amen.wav".to_string(),
    };
    let mut s = session(&["qwer"]);
    s.slices = make_slices(&[0], &audio.samples, 2);
    let new = AudioBuffer {
        samples: vec![1.0f32.to_bits(); 1600],
        sample_rate: 44100,
        file_name: "think.wav".to_string(),
    };
    assert_eq!(s.load(&new, &[0], &mut audio), Ok(16));
    assert_eq!((s.num_slices, s.slices.len(), s.bank_entries.len()), (48, 48, 2));
    s.report_loaded("think.wav", 16, &Ok(()), 3);
    assert_eq!(s.commands.status_message, "Loaded think.wav (16 slices)");
    s.report_loaded("think.wav", 16, &Err("no device".to_string()), 3);
    assert_eq!(s.commands.status_message, "Failed to restart audio: no device");
    let empty = AudioBuffer { samples: Vec::new(), sample_rate: 44100, file_name: String::new() };
    assert_eq!(s.load(&empty, &[0], &mut audio), Err(BankError::NoSlices));
    assert_eq!(s.num_slices, 48);
    s.report_not_loaded(BankError::NoSlices.message(), 4);
    assert_eq!(
        s.commands.status_message,
        "Failed to load: No slices could be created from the audio file"
    );
}

#[test]
fn the_screen_of_a_session() {
    let mut s = session(&["qwer"]);
    press(&mut s, Key::Down);
    press(&mut s, Key::Insert);
    press(&mut s, Key::Char('k'));
    let app = s.screen("amen.wav", 44100, "7.1".to_string(), "120.5".to_string());
    assert_eq!(app.header_text(), "  breaky - amen.wav [+]  |  44100 Hz  |  7.1s");
    assert_eq!(app.sequencer_title(), " seq 1/4 EDIT INS ");
    assert_eq!(app.beats, vec!["kwer".to_string()]);
    assert_eq!(app.cursor_col, 1);
}

#[test]
fn keys_without_ground_are_not_ready() {
    let mut s = session(&["qwer"]);
    s.editor.edit_mode = true;
    s.editor.cursor_line = 9;
    let plain = Modifiers { shift: false, control: false };
    assert!(!s.is_ready(Key::Enter, plain));
    assert!(!s.is_ready(Key::Char('q'), plain));
    assert!(s.is_ready(Key::Char(':'), plain));
    let mut b = session(&["qwer"]);
    b.bank_entries[0].slice_count = 0;
    b.commands.enter();
    b.commands.buffer = "bank".to_string();
    assert!(!b.is_ready(Key::Enter, plain));
    b.commands.buffer = "vars".to_string();
    assert!(b.is_ready(Key::Enter, plain));
}
