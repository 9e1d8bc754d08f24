use breaky::banks::BankEntry;
use breaky::commands::{
    command_value, config_to_save, copy_lines, do_reload, do_save, execute_command,
    report_audio_files, CommandState, PendingAction, Request, STATUS_SPAN,
};
use breaky::config::BreakConfig;
use breaky::editor::EditorState;
use breaky::number::{Num32, Num64};
use breaky::sequencer::SequencerState;
use breaky::variables::{Reading, Variables};

fn num32(v: f32) -> Num32 {
    Num32 { bits: v.to_bits(), text: v.to_string() }
}

fn num64(v: f64) -> Num64 {
    Num64 { bits: v.to_bits(), single: (v as f32).to_bits(), text: v.to_string() }
}

fn variables() -> Variables {
    Variables::from_config(&BreakConfig::default_for("amen.wav", num64(136.5)))
}

fn entry(name: &str, start_slice: usize, slice_count: usize) -> BankEntry {
    BankEntry { file_name: name.to_string(), start_slice, slice_count }
}

struct Bench {
    state: CommandState,
    vars: Variables,
    dirty: bool,
    banks: Vec<BankEntry>,
    load_path: Option<String>,
    quit: bool,
}

fn bench() -> Bench {
    Bench {
        state: CommandState::new(),
        vars: variables(),
        dirty: false,
        banks: vec![entry("amen.wav", 0, 32)],
        load_path: None,
        quit: false,
    }
}

impl Bench {
    fn run(&mut self, cmd: &str) -> Request {
        let text = command_value(cmd).unwrap_or_default();
        let reading = Reading {
            single: text.parse::<f32>().map(num32).map_err(|e| e.to_string()),
            double: text.parse::<f64>().map(num64).map_err(|e| e.to_string()),
        };
        execute_command(
            cmd,
            &reading,
            &mut self.vars,
            self.dirty,
            &mut self.state,
            &self.banks,
            &mut self.load_path,
            &mut self.quit,
            7,
        )
    }

    fn said(&mut self, cmd: &str) -> String {
        assert_eq!(self.run(cmd), Request::Nothing);
        assert_eq!(self.state.status_time, Some(7));
        self.state.status_message.clone()
    }
}

fn type_in(state: &mut CommandState, text: &str) {
    state.enter();
    for c in text.chars() {
        state.type_char(c);
    }
}

#[test]
fn typing_a_command() {
    let mut s = CommandState::new();
    assert!(!s.active && s.buffer.is_empty() && s.history.is_empty());
    type_in(&mut s, "wqé");
    assert!(s.active);
    assert_eq!(s.buffer, "wqé");
    s.erase_char();
    assert_eq!(s.buffer, "wq");
    s.cancel();
    assert!(!s.active && s.buffer.is_empty());
    s.erase_char();
    assert_eq!(s.buffer, "");
}

#[test]
fn taking_a_command_remembers_it() {
    let mut s = CommandState::new();
    type_in(&mut s, "w");
    assert_eq!(s.submit(), "w");
    assert!(!s.active && s.buffer.is_empty());
    type_in(&mut s, "w");
    s.submit();
    type_in(&mut s, "");
    assert_eq!(s.submit(), "");
    type_in(&mut s, "q");
    s.submit();
    type_in(&mut s, "w");
    s.submit();
    assert_eq!(s.history, vec!["w".to_string(), "q".to_string(), "w".to_string()]);
}

#[test]
fn recalling_commands() {
    let mut s = CommandState::new();
    s.history_up();
    assert_eq!(s.history_index, None);
    for c in ["a", "b", "c"] {
        type_in(&mut s, c);
        s.submit();
    }
    s.enter();
    s.history_up();
    assert_eq!(s.buffer, "c");
    s.history_up();
    s.history_up();
    assert_eq!(s.buffer, "a");
    s.history_up();
    assert_eq!(s.buffer, "a");
    s.history_down();
    assert_eq!(s.buffer, "b");
    s.history_down();
    s.history_down();
    assert_eq!((s.buffer.as_str(), s.history_index), ("", None));
    s.history_down();
    assert_eq!(s.buffer, "");
}

#[test]
fn recalling_from_outside_the_history() {
    let mut s = CommandState::new();
    s.history_index = Some(7);
    s.history_up();
    assert_eq!(s.history_index, Some(7));
    s.buffer = "x".to_string();
    s.history_down();
    assert_eq!((s.buffer.as_str(), s.history_index), ("", None));
    s.history = vec!["a".to_string(), "b".to_string()];
    s.history_index = Some(2);
    s.history_up();
    assert_eq!((s.buffer.as_str(), s.history_index), ("b", Some(1)));
    s.history_index = Some(9);
    s.history_down();
    assert_eq!((s.buffer.as_str(), s.history_index), ("", None));
}

#[test]
fn typing_leaves_the_history() {
    let mut s = CommandState::new();
    type_in(&mut s, "vars");
    s.submit();
    s.enter();
    s.history_up();
    assert_eq!(s.history_index, Some(0));
    s.type_char('x');
    assert_eq!((s.buffer.as_str(), s.history_index), ("varsx", None));
    s.history_up();
    s.erase_char();
    assert_eq!((s.buffer.as_str(), s.history_index), ("var", None));
}

#[test]
fn a_status_message_stays_for_three_seconds() {
    let mut s = CommandState::new();
    s.set_status("hello".to_string(), 100);
    s.expire_status(100 + STATUS_SPAN);
    assert_eq!(s.status_message, "hello");
    s.expire_status(50);
    assert_eq!(s.status_message, "hello");
    s.expire_status(101 + STATUS_SPAN);
    assert_eq!((s.status_message.as_str(), s.status_time), ("", None));
    assert_eq!(STATUS_SPAN, 3_000_000_000);
}

#[test]
fn a_key_clears_the_status_message() {
    let mut s = CommandState::new();
    s.set_status("hello".to_string(), 100);
    s.clear_status();
    assert_eq!((s.status_message.as_str(), s.status_time), ("", None));
}

#[test]
fn saving_and_quitting() {
    let mut b = bench();
    b.dirty = true;
    assert_eq!(b.run("w"), Request::Save);
    assert!(!b.quit);
    assert_eq!(b.run(" wq "), Request::Save);
    assert!(b.quit);
    let mut c = bench();
    c.dirty = true;
    assert_eq!(c.run("q!"), Request::Nothing);
    assert!(c.quit);
}

#[test]
fn quitting_asks_where_changes_are_unsaved() {
    let mut b = bench();
    b.dirty = true;
    assert_eq!(b.run("q"), Request::Nothing);
    assert!(!b.quit);
    assert_eq!(b.state.confirm_prompt, "Unsaved changes! Quit anyway? (y/N)");
    assert_eq!(b.state.pending_action, Some(PendingAction::Quit));
    b.state.settle();
    assert_eq!((b.state.confirm_prompt.as_str(), b.state.pending_action), ("", None));
    let mut c = bench();
    c.run("q");
    assert!(c.quit);
}

#[test]
fn reloading_asks_where_changes_are_unsaved() {
    let mut b = bench();
    assert_eq!(b.run("e"), Request::Reload);
    b.dirty = true;
    assert_eq!(b.run("e"), Request::Nothing);
    assert_eq!(b.state.confirm_prompt, "Unsaved changes will be lost! Reload? (y/N)");
    assert_eq!(b.state.pending_action, Some(PendingAction::Reload));
    assert_eq!(b.run("e!"), Request::Reload);
}

#[test]
fn all_variables_are_listed() {
    let mut b = bench();
    assert_eq!(
        b.said("vars"),
        "bpm=136.5 lp=800 hp=2000 dist=0.2 fade=0.5 slow=0.5 fast=2 stutter=16"
    );
}

#[test]
fn variables_are_set_by_commands() {
    let mut b = bench();
    assert_eq!(b.said(" lp=440 "), "lp = 440 Hz");
    assert_eq!(b.vars.lp.bits, 440.0f32.to_bits());
    assert_eq!(b.said("stutter=1"), "stutter: must be 2-16");
    assert_eq!(b.said("bpm"), "bpm = 136.5");
}

#[test]
fn unknown_commands_are_named() {
    let mut b = bench();
    assert_eq!(b.said(" quit "), "Unknown command: quit");
    assert_eq!(b.said("banks"), "Unknown command: banks");
    assert_eq!(b.said(""), "Unknown command: ");
}

#[test]
fn banks_are_listed() {
    let mut b = bench();
    b.banks.push(entry("think.wav", 32, 16));
    assert_eq!(
        b.said("bank"),
        "48 slices total | Bank 0: amen.wav (0-31) | Bank 2: think.wav (32-47)"
    );
    b.banks.clear();
    assert_eq!(b.said("bank"), "0 slices total");
    assert_eq!(b.said("bank  drop x"), "Unknown bank command: drop x");
}

#[test]
fn a_bank_is_asked_for() {
    let mut b = bench();
    assert_eq!(b.said("bank load  my loop.wav "), "Loading my loop.wav...");
    assert_eq!(b.load_path.as_deref(), Some("my loop.wav"));
    assert_eq!(b.run("bank load"), Request::ListAudioFiles);
    assert_eq!(b.said("bank loads"), "Unknown bank command: loads");
    b.banks.push(entry("rest.wav", 32, 288));
    b.load_path = None;
    assert_eq!(b.said("bank load a.wav"), "No free banks available");
    assert_eq!(b.load_path, None);
}

#[test]
fn audio_files_are_reported() {
    let mut s = CommandState::new();
    report_audio_files(&[], &mut s, 1);
    assert_eq!(s.status_message, "No audio files found. Use :bank load <path>");
    report_audio_files(&["a.wav".to_string()], &mut s, 2);
    assert_eq!(s.status_message, "Files: a.wav. Use :bank load <file>");
    report_audio_files(&["a.wav".to_string(), "b.mp3".to_string()], &mut s, 3);
    assert_eq!(s.status_message, "Files: a.wav, b.mp3. Use :bank load <file>");
    assert_eq!(s.status_time, Some(3));
}

#[test]
fn the_value_of_a_command() {
    assert_eq!(command_value(" bpm= 9 ").as_deref(), Some("9"));
    assert_eq!(command_value("bpm"), None);
}

#[test]
fn what_is_saved() {
    let mut vars = variables();
    vars.hp = num32(1234.0);
    let beats = vec!["qw".to_string(), "er:R-".to_string()];
    let c = config_to_save("amen.wav", &vars, &beats);
    assert_eq!(c.sample, "amen.wav");
    assert_eq!(c.beats, beats);
    assert_eq!(c.bpm.bits, 136.5f64.to_bits());
    assert_eq!(c.hp.map(|n| n.bits), Some(1234.0f32.to_bits()));
    assert!(c.lp.is_none() && c.stutter.is_none());
    assert_eq!(copy_lines(&beats), beats);
}

#[test]
fn the_outcome_of_saving() {
    let mut s = CommandState::new();
    let mut dirty = true;
    do_save("amen.yaml", &Err("disk full".to_string()), &mut dirty, &mut s, 4);
    assert_eq!(s.status_message, "Error writing: disk full");
    assert!(dirty);
    do_save("amen.yaml", &Ok(()), &mut dirty, &mut s, 5);
    assert_eq!((s.status_message.as_str(), s.status_time), ("Written: amen.yaml", Some(5)));
    assert!(!dirty);
}

#[test]
fn the_outcome_of_reloading() {
    let mut s = CommandState::new();
    let mut seq = SequencerState::new(vec!["qwer".to_string()], 10, 1600, 16, 0);
    seq.dirty = true;
    let mut editor = EditorState::new();
    editor.cursor_line = 3;
    editor.cursor_col = 4;
    let mut vars = variables();
    vars.stutter = 3;
    let err = Err("gone".to_string());
    do_reload("a.yaml", err, &mut seq, &mut editor, &mut s, &mut vars, 8);
    assert_eq!(s.status_message, "Error reloading: gone");
    assert!(seq.dirty && vars.stutter == 3 && editor.cursor_line == 3);
    let config = config_to_save("amen.wav", &variables(), &["as".to_string(), "df".to_string()]);
    do_reload("a.yaml", Ok(config), &mut seq, &mut editor, &mut s, &mut vars, 9);
    assert_eq!(s.status_message, "Reloaded: a.yaml");
    assert_eq!(seq.beats, vec!["as".to_string(), "df".to_string()]);
    assert_eq!(seq.beat_sequence, vec![Some(8), Some(9), Some(10), Some(11)]);
    assert!(!seq.dirty && vars.stutter == 16);
    assert_eq!((editor.cursor_line, editor.cursor_col), (0, 0));
}
