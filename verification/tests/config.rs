use breaky::config::{
    char_to_slice, command_to_pitch_cents, is_valid_command_char, segment_step_to_visual_col,
    visual_col_to_segment_step, BreakConfig, ParsedBeatLine,
};
use breaky::number::Num64;

fn text(chars: &[char]) -> String {
    chars.iter().collect()
}

#[test]
fn a_line_is_cut_at_its_separators() {
    let line = ParsedBeatLine::parse("qwertyui:--*^----:--R----R");
    assert_eq!(text(&line.notes), "qwertyui");
    assert_eq!(line.commands.len(), 2);
    assert_eq!(text(&line.commands[0]), "--*^----");
    assert_eq!(text(&line.commands[1]), "--R----R");
    assert_eq!(line.step_count(), 8);
    assert_eq!(line.segment_count(), 3);
    assert_eq!(line.display_width(), 26);
}

#[test]
fn a_line_without_separator_is_all_notes() {
    let line = ParsedBeatLine::parse("asdf");
    assert_eq!(text(&line.notes), "asdf");
    assert!(line.commands.is_empty());
    assert_eq!(line.segment_count(), 1);
    assert_eq!(line.display_width(), 4);
}

#[test]
fn empty_segments_are_kept() {
    let empty = ParsedBeatLine::parse("");
    assert_eq!((empty.notes.len(), empty.commands.len()), (0, 0));
    let bare = ParsedBeatLine::parse("::");
    assert_eq!((bare.notes.len(), bare.commands.len()), (0, 2));
    assert_eq!(bare.to_raw(), "::");
}

#[test]
fn raw_text_survives_parsing() {
    for raw in ["", "q", "qwertyui", "qwer:----", "qw:-:R-L:", ":", "a:b:c", "q_:▶"] {
        assert_eq!(ParsedBeatLine::parse(raw).to_raw(), raw);
    }
}

#[test]
fn a_line_is_copied_whole() {
    let line = ParsedBeatLine::parse("qwer:-L--:R---");
    assert_eq!(line.clone().to_raw(), "qwer:-L--:R---");
}

#[test]
fn columns_and_steps() {
    let line = ParsedBeatLine::parse("qwer:----:----");
    assert_eq!(visual_col_to_segment_step(&line, 0), Some((0, 0)));
    assert_eq!(visual_col_to_segment_step(&line, 3), Some((0, 3)));
    assert_eq!(visual_col_to_segment_step(&line, 4), None);
    assert_eq!(visual_col_to_segment_step(&line, 5), Some((1, 0)));
    assert_eq!(visual_col_to_segment_step(&line, 13), Some((2, 3)));
    assert_eq!(visual_col_to_segment_step(&line, 14), None);
    assert_eq!(visual_col_to_segment_step(&line, 15), None);
    assert_eq!(segment_step_to_visual_col(&line, 2, 3), 13);
}

#[test]
fn a_line_without_notes_has_no_steps() {
    let line = ParsedBeatLine::parse(":--");
    assert_eq!(visual_col_to_segment_step(&line, 0), None);
    assert_eq!(line.display_width(), 1);
}

#[test]
fn columns_round_trip() {
    let line = ParsedBeatLine::parse("qwertyui:--------:--------");
    for seg in 0..3 {
        for step in 0..8 {
            let col = segment_step_to_visual_col(&line, seg, step);
            assert_eq!(visual_col_to_segment_step(&line, col), Some((seg, step)));
        }
    }
}

#[test]
fn pads_of_characters() {
    for (i, c) in "qwertyuiasdfghjk".chars().enumerate() {
        assert_eq!(char_to_slice(c), Some(i));
    }
    for c in ['_', '-', 'Q', 'p', 'o', 'l', '1', ' '] {
        assert_eq!(char_to_slice(c), None);
    }
}

#[test]
fn pitch_letters_are_semitones() {
    for (i, c) in "qwertyuiop".chars().enumerate() {
        assert_eq!(command_to_pitch_cents(c), 100 * (i as i32 + 1));
    }
    for (i, c) in "asdfghjkl".chars().enumerate() {
        assert_eq!(command_to_pitch_cents(c), -100 * (i as i32 + 1));
    }
    for c in ['-', 'L', '~', 'z', '3'] {
        assert_eq!(command_to_pitch_cents(c), 0);
    }
}

#[test]
fn command_characters() {
    for c in "~\\/RLH*-<>^()[]0123456789qwertyuiopasdfghjkl".chars() {
        assert!(is_valid_command_char(c), "{}", c);
    }
    for c in [':', '_', 'Q', 'z', ' ', 'l'.to_ascii_uppercase()] {
        assert_eq!(is_valid_command_char(c), c == 'L', "{}", c);
    }
}

#[test]
fn the_default_config_has_one_line_of_all_pads() {
    let bpm = Num64 { bits: 136.5f64.to_bits(), single: 136.5f32.to_bits(), text: "136.5".to_string() };
    let config = BreakConfig::default_for("amen_break.wav", bpm);
    assert_eq!(config.sample, "amen_break.wav");
    assert_eq!(config.bpm.bits, 136.5f64.to_bits());
    assert_eq!(config.beats, vec!["qwertyuiasdfghjk".to_string()]);
    assert!(config.lp.is_none() && config.hp.is_none() && config.dist.is_none());
    assert!(config.fade.is_none() && config.slow.is_none() && config.fast.is_none());
    assert!(config.stutter.is_none());
}
