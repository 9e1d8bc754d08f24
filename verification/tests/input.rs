use breaky::ui::input::{
    is_shift, key_to_beat_char, key_to_command_char, key_to_slice, to_lower, Key, Modifiers,
};

#[test]
fn pad_keys_with_and_without_shift() {
    for (i, c) in "qwertyuiasdfghjk".chars().enumerate() {
        assert_eq!(key_to_slice(Key::Char(c)), Some(i));
        assert_eq!(key_to_slice(Key::Char(c.to_ascii_uppercase())), Some(i));
    }
    assert_eq!(key_to_slice(Key::Char('z')), None);
    assert_eq!(key_to_slice(Key::Tab), None);
}

#[test]
fn shift_is_held_or_not() {
    assert!(is_shift(Modifiers { shift: true, control: false }));
    assert!(!is_shift(Modifiers { shift: false, control: true }));
}

#[test]
fn note_keys_are_lower_case() {
    assert_eq!(key_to_beat_char(Key::Char('Q')), Some('q'));
    assert_eq!(key_to_beat_char(Key::Char('_')), Some('_'));
    assert_eq!(key_to_beat_char(Key::Char('p')), None);
    assert_eq!(key_to_beat_char(Key::Esc), None);
}

#[test]
fn command_keys_keep_their_case() {
    assert_eq!(key_to_command_char(Key::Char('R')), Some('R'));
    assert_eq!(key_to_command_char(Key::Char('r')), Some('r'));
    assert_eq!(key_to_command_char(Key::Char('Z')), None);
    assert_eq!(key_to_command_char(Key::Left), None);
}

#[test]
fn lower_case_of_ascii() {
    assert_eq!(to_lower('K'), 'k');
    assert_eq!(to_lower('k'), 'k');
    assert_eq!(to_lower('É'), 'É');
}
