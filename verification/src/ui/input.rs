//! Keys and what they stand for in a pattern.

use vstd::prelude::*;

use crate::config::{char_to_slice, is_command, is_valid_command_char, pad_of};

verus! {

/// A key press.
#[derive(Debug, Clone, Copy, PartialEq, Eq, Structural)]
pub enum Key {
    Esc,
    Enter,
    Up,
    Down,
    Left,
    Right,
    Insert,
    Tab,
    Backspace,
    Char(char),
    /// Any other key.
    Other,
}

/// The modifier keys held with a key.
#[derive(Debug, Clone, Copy, PartialEq, Eq, Structural)]
pub struct Modifiers {
    pub shift: bool,
    pub control: bool,
}

/// The lower-case form of an ASCII letter; any other character is its own.
pub open spec fn lower(c: char) -> char {
    if 'A' <= c <= 'Z' {
        (c as int + 32) as char
    } else {
        c
    }
}

/// The lower-case form of an ASCII letter; any other character is its own.
pub fn to_lower(c: char) -> (r: char)
    ensures
        r == lower(c),
{
    if 'A' <= c && c <= 'Z' {
        (c as u8 + 32) as char
    } else {
        c
    }
}

/// The pad of a key, whether Shift is held or not.
pub open spec fn pad_of_key(key: Key) -> Option<usize> {
    match key {
        Key::Char(c) => pad_of(lower(c)),
        _ => None,
    }
}

/// Map a key press to a slice index (0-15).
/// Row 1: q=0 w=1 e=2 r=3 t=4 y=5 u=6 i=7
/// Row 2: a=8 s=9 d=10 f=11 g=12 h=13 j=14 k=15
pub fn key_to_slice(key: Key) -> (r: Option<usize>)
    ensures
        r == pad_of_key(key),
{
    match key {
        Key::Char(c) => char_to_slice(to_lower(c)),
        _ => None,
    }
}

/// Check if Shift is held in the modifiers.
pub fn is_shift(modifiers: Modifiers) -> (r: bool)
    ensures
        r == modifiers.shift,
{
    modifiers.shift
}

/// The beat character of a key: a pad letter in lower case, or `_`.
pub open spec fn beat_of_key(key: Key) -> Option<char> {
    match key {
        Key::Char(c) => if pad_of(lower(c)) is Some || c == '_' {
            Some(lower(c))
        } else {
            None
        },
        _ => None,
    }
}

/// Map a key press to a beat-pattern character for inline editing.
/// Returns lowercase note char or '_' for silence. None for non-note keys.
pub fn key_to_beat_char(key: Key) -> (r: Option<char>)
    ensures
        r == beat_of_key(key),
{
    match key {
        Key::Char(c) => {
            let l = to_lower(c);
            if char_to_slice(l).is_some() || c == '_' {
                Some(l)
            } else {
                None
            }
        },
        _ => None,
    }
}

/// The command character of a key.
pub open spec fn command_of_key(key: Key) -> Option<char> {
    match key {
        Key::Char(c) => if is_command(c) {
            Some(c)
        } else {
            None
        },
        _ => None,
    }
}

/// Map a key press to a command-pattern character for inline editing.
/// Lowercase letters = pitch shift, uppercase R/L/H = effects.
pub fn key_to_command_char(key: Key) -> (r: Option<char>)
    ensures
        r == command_of_key(key),
{
    match key {
        Key::Char(c) => if is_valid_command_char(c) {
            Some(c)
        } else {
            None
        },
        _ => None,
    }
}

/// A key that plays a pad writes the character of that pad, and nothing else but `_` can be
/// written as a note.
pub proof fn lemma_note_keys(key: Key)
    ensures
        pad_of_key(key) is Some ==> beat_of_key(key) is Some && pad_of(beat_of_key(key)->0)
            == pad_of_key(key),
        beat_of_key(key) matches Some(c) ==> (pad_of_key(key) is Some || c == '_') && c != ':',
        command_of_key(key) matches Some(c) ==> c != ':',
{
}

/// A letter typed with Shift stands for the same pad and the same note as without; a command is typed
/// as it is.
pub proof fn lemma_keys_by_letter(c: char, i: int)
    ensures
        0 <= i < 16 && (c == "qwertyuiasdfghjk"@[i] || c == "QWERTYUIASDFGHJK"@[i]) ==> pad_of_key(
            Key::Char(c),
        ) == Some(i as usize) && beat_of_key(Key::Char(c)) == Some("qwertyuiasdfghjk"@[i]),
        beat_of_key(Key::Char('_')) == Some('_'),
        pad_of_key(Key::Char('_')) is None,
        'A' <= c <= 'Z' ==> lower(c) as int == c as int + 32,
        !('A' <= c <= 'Z') ==> lower(c) == c,
        command_of_key(Key::Char(c)) == if is_command(c) {
            Some(c)
        } else {
            None
        },
{
    reveal_strlit("qwertyuiasdfghjk");
    reveal_strlit("QWERTYUIASDFGHJK");
}

/// A key that is no character stands for nothing in a pattern.
pub proof fn lemma_other_keys_write_nothing(key: Key)
    requires
        !(key is Char),
    ensures
        pad_of_key(key) is None,
        beat_of_key(key) is None,
        command_of_key(key) is None,
{
}

} // verus!
