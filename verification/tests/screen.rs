use breaky::engine::state::{PlayMode, PlaybackState};
use breaky::ui::app::{command_char_style, key_label, App, Color, Span, Style};

fn app(lines: &[&str]) -> App {
    App {
        file_name: "amen_break.wav".to_string(),
        sample_rate: 44100,
        duration: "7.1".to_string(),
        bpm: "136.5".to_string(),
        num_slices: 10,
        state: PlaybackState::new(),
        beats: lines.iter().map(|s| s.to_string()).collect(),
        current_step: 0,
        total_steps: 16,
        sequencer_playing: false,
        edit_mode: false,
        insert_mode: false,
        cursor_line: 0,
        cursor_col: 0,
        command_mode: false,
        command_buffer: String::new(),
        status_message: String::new(),
        confirm_prompt: String::new(),
        dirty: false,
        current_bank: 0,
    }
}

fn words(spans: &[Span]) -> String {
    spans.iter().map(|s| s.text.as_str()).collect()
}

fn colored(c: Color) -> Style {
    Style { fg: Some(c), bg: None, bold: false }
}

fn marked(c: Color) -> Style {
    Style { fg: Some(Color::Black), bg: Some(c), bold: true }
}

const PLAIN: Style = Style { fg: None, bg: None, bold: false };

#[test]
fn the_header() {
    let mut a = app(&[]);
    assert_eq!(a.header_text(), "  breaky - amen_break.wav  |  44100 Hz  |  7.1s");
    a.dirty = true;
    assert_eq!(a.header_text(), "  breaky - amen_break.wav [+]  |  44100 Hz  |  7.1s");
}

#[test]
fn the_info_line() {
    let mut a = app(&[]);
    assert_eq!(a.info_text(), "  BPM: 136.5    Beats: 10    Bank: 0    Mode: STOPPED");
    a.state.trigger_slice(1, 0, PlayMode::Slice);
    a.current_bank = 3;
    assert_eq!(a.info_text(), "  BPM: 136.5    Beats: 10    Bank: 3    Mode: SLICE");
    a.state.trigger_slice(1, 0, PlayMode::FreeRun);
    assert_eq!(a.info_text(), "  BPM: 136.5    Beats: 10    Bank: 3    Mode: FREE RUN");
    a.state.trigger_stutter(5);
    assert_eq!(a.info_text(), "  BPM: 136.5    Beats: 10    Bank: 3    Mode: STUTTER");
}

#[test]
fn the_pad_grid() {
    let mut a = app(&[]);
    a.state.trigger_slice(9, 0, PlayMode::Slice);
    let top = a.grid_row(0);
    assert_eq!(
        words(&top),
        "   [q]1    [w]2    [e]3    [r]4    [t]5    [y]6    [u]7    [i]8 "
    );
    assert!(top.iter().all(|s| s.style == colored(Color::Green)));
    let bottom = a.grid_row(1);
    assert_eq!(
        words(&bottom),
        "   [a]9   [s]10   [d]11   [f]12   [g]13   [h]14   [j]15   [k]16 "
    );
    assert_eq!(bottom[0].style, colored(Color::Green));
    assert_eq!(bottom[1].style, marked(Color::Yellow));
    assert_eq!(bottom[2].style, colored(Color::DarkGray));
    for (i, s) in top.iter().chain(bottom.iter()).enumerate() {
        assert_eq!(s.text, format!("  {:>5} ", key_label(i)));
    }
}

#[test]
fn a_pad_without_slice_is_not_marked() {
    let mut a = app(&[]);
    a.state.trigger_slice(12, 0, PlayMode::Slice);
    assert_eq!(a.grid_row(1)[4].style, colored(Color::DarkGray));
}

#[test]
fn the_title_of_the_pattern() {
    let mut a = app(&[]);
    a.insert_mode = true;
    assert_eq!(a.sequencer_title(), " seq 1/16 ");
    a.edit_mode = true;
    assert_eq!(a.sequencer_title(), " seq 1/16 EDIT INS ");
    a.insert_mode = false;
    a.current_step = 15;
    assert_eq!(a.sequencer_title(), " seq 16/16 EDIT ");
}

#[test]
fn rows_show_the_pattern_as_it_is() {
    let lines = ["qwer:-R--", "as__", "", "q::L"];
    let mut a = app(&lines);
    let rows = a.sequencer_rows();
    assert_eq!(words(&rows[0]), "  \u{23f8} qwer:-R--");
    for k in 1..4 {
        assert_eq!(words(&rows[k]), format!("    {}", lines[k]));
    }
    a.sequencer_playing = true;
    assert_eq!(words(&a.sequencer_rows()[0]), "  \u{25b6} qwer:-R--");
    assert_eq!(a.sequencer_rows()[0][0].style, colored(Color::Cyan));
    assert_eq!(a.sequencer_rows()[1][0].style, PLAIN);
}

#[test]
fn characters_have_their_colors() {
    let rows = app(&["q_-:L-q"]).sequencer_rows();
    let styles: Vec<Style> = rows[0].iter().skip(1).map(|s| s.style).collect();
    assert_eq!(
        styles,
        vec![
            colored(Color::White),
            colored(Color::DarkGray),
            colored(Color::DarkGray),
            colored(Color::DarkGray),
            colored(Color::Green),
            colored(Color::DarkGray),
            colored(Color::LightGreen),
        ]
    );
}

#[test]
fn the_playhead_is_magenta_in_every_segment() {
    let mut a = app(&["qw", "er:--"]);
    a.sequencer_playing = true;
    a.current_step = 3;
    let rows = a.sequencer_rows();
    assert!(rows[0].iter().all(|s| s.style.bg.is_none()));
    assert_eq!(rows[1][2].style, marked(Color::Magenta));
    assert_eq!(rows[1][5].style, marked(Color::Magenta));
    assert_eq!(rows[1][1].style, colored(Color::White));
    a.sequencer_playing = false;
    assert!(a.sequencer_rows()[1].iter().all(|s| s.style.bg.is_none()));
}

#[test]
fn the_cursor_is_cyan_and_its_step_is_shaded() {
    let mut a = app(&["qw:R-"]);
    a.edit_mode = true;
    a.cursor_col = 3;
    let rows = a.sequencer_rows();
    assert_eq!(rows[0][4].style, marked(Color::Cyan));
    assert_eq!(
        rows[0][1].style,
        Style { fg: Some(Color::White), bg: Some(Color::Indexed(236)), bold: false }
    );
    assert_eq!(rows[0][2].style, colored(Color::White));
    a.cursor_col = 2;
    let on_separator = a.sequencer_rows();
    assert_eq!(
        on_separator[0][3].style,
        Style { fg: Some(Color::DarkGray), bg: Some(Color::Cyan), bold: false }
    );
    a.edit_mode = false;
    assert!(a.sequencer_rows()[0].iter().all(|s| s.style.bg.is_none()));
}

#[test]
fn a_cursor_off_the_pattern_marks_nothing() {
    let mut a = app(&["qw"]);
    a.edit_mode = true;
    a.cursor_line = 5;
    assert!(a.sequencer_rows()[0].iter().all(|s| s.style.bg.is_none()));
}

#[test]
fn the_footer_in_command_mode() {
    let mut a = app(&[]);
    a.command_mode = true;
    a.command_buffer = "bpm=9".to_string();
    let lines = a.footer_lines();
    assert_eq!(lines.len(), 2);
    assert_eq!(words(&lines[0]), ":bpm=9\u{2588}");
    assert_eq!(lines[0][0].style, colored(Color::Yellow));
    assert_eq!(lines[0][1].style, PLAIN);
    assert!(lines[1].is_empty());
    assert_eq!(a.footer_base(), PLAIN);
}

#[test]
fn the_footer_asks() {
    let mut a = app(&[]);
    a.confirm_prompt = "Sure?".to_string();
    a.status_message = "hidden".to_string();
    let lines = a.footer_lines();
    assert_eq!(words(&lines[0]), "  Sure?");
    assert_eq!(lines[0][0].style, colored(Color::Yellow));
    assert!(lines[1].is_empty());
    assert_eq!(a.footer_base(), PLAIN);
}

#[test]
fn the_footer_helps() {
    let mut a = app(&[]);
    let lines = a.footer_lines();
    assert_eq!(words(&lines[0]), "  Key=play | Shift+key=free run | Tab=stutter");
    assert_eq!(words(&lines[1]), "  Space=seq | Down=edit | C-n=new | :=command | Esc=quit");
    assert_eq!(a.footer_base(), colored(Color::DarkGray));
    a.edit_mode = true;
    let edit = a.footer_lines();
    assert_eq!(words(&edit[0]), "  Note keys=edit | Arrows=move | Ins=toggle insert");
    assert_eq!(
        words(&edit[1]),
        "  C-c=copy | C-v=paste | C-n=new | C-u=cmd seq | :=cmd | Esc=exit"
    );
    a.status_message = "Written: a.yaml".to_string();
    let status = a.footer_lines();
    assert_eq!(words(&status[0]), "  Written: a.yaml");
    assert_eq!(status[0][0].style, colored(Color::Green));
    assert_eq!(words(&status[1]), words(&edit[1]));
}

#[test]
fn command_characters_have_their_colors() {
    assert_eq!(command_char_style('~'), colored(Color::Yellow));
    assert_eq!(command_char_style('\\'), colored(Color::Blue));
    assert_eq!(command_char_style('R'), colored(Color::Red));
    assert_eq!(command_char_style('H'), colored(Color::Green));
    assert_eq!(command_char_style('*'), colored(Color::Magenta));
    assert_eq!(command_char_style('^'), colored(Color::Cyan));
    assert_eq!(command_char_style('('), Style { fg: Some(Color::White), bg: None, bold: true });
    assert_eq!(command_char_style('7'), colored(Color::LightYellow));
    assert_eq!(command_char_style('p'), colored(Color::LightGreen));
    assert_eq!(command_char_style('l'), colored(Color::LightRed));
    assert_eq!(command_char_style('?'), colored(Color::DarkGray));
}
