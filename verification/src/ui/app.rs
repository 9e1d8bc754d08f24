//! What the screen shows: every text and the style of every piece of it.

use vstd::prelude::*;

use crate::config::{line_of, pad_of, BeatLine, ParsedBeatLine};
use crate::engine::state::{PlayMode, PlaybackState};
use crate::sequencer::pads_of;
use crate::text::{decimal, decimal_of, has_text, lines_of};

verus! {

/// A color of the terminal.
#[derive(Debug, Clone, Copy, PartialEq, Eq, Structural)]
pub enum Color {
    Black,
    Red,
    Green,
    Yellow,
    Blue,
    Magenta,
    Cyan,
    White,
    DarkGray,
    LightRed,
    LightGreen,
    LightYellow,
    /// A color of the 256-color palette.
    Indexed(u8),
}

/// How a piece of text is shown; what is not given is the terminal's default.
#[derive(Debug, Clone, Copy, PartialEq, Eq, Structural)]
pub struct Style {
    pub fg: Option<Color>,
    pub bg: Option<Color>,
    pub bold: bool,
}

/// The terminal's default style.
pub open spec fn plain() -> Style {
    Style { fg: None, bg: None, bold: false }
}

/// Text in a color.
pub open spec fn colored(fg: Color) -> Style {
    Style { fg: Some(fg), bg: None, bold: false }
}

/// Bold black text on a color.
pub open spec fn marked(bg: Color) -> Style {
    Style { fg: Some(Color::Black), bg: Some(bg), bold: true }
}

/// A style on a color.
pub open spec fn on(style: Style, bg: Color) -> Style {
    Style { bg: Some(bg), ..style }
}

fn in_color(fg: Color) -> (s: Style)
    ensures
        s == colored(fg),
{
    Style { fg: Some(fg), bg: None, bold: false }
}

fn mark(bg: Color) -> (s: Style)
    ensures
        s == marked(bg),
{
    Style { fg: Some(Color::Black), bg: Some(bg), bold: true }
}

/// A text and its style.
#[verifier::ext_equal]
pub struct Piece {
    pub text: Seq<char>,
    pub style: Style,
}

/// A text and its style.
#[derive(Debug)]
pub struct Span {
    pub text: String,
    pub style: Style,
}

impl View for Span {
    type V = Piece;

    open spec fn view(&self) -> Piece {
        Piece { text: self.text@, style: self.style }
    }
}

/// The pieces of a line.
pub open spec fn pieces_of(v: Seq<Span>) -> Seq<Piece> {
    v.map_values(|s: Span| s@)
}

/// The pieces of several lines.
pub open spec fn rows_of_pieces(v: Seq<Vec<Span>>) -> Seq<Seq<Piece>> {
    v.map_values(|r: Vec<Span>| pieces_of(r@))
}

/// All that the screen is drawn from.
#[verifier::ext_equal]
pub struct Screen {
    pub file_name: Seq<char>,
    pub sample_rate: u32,
    pub duration: Seq<char>,
    pub bpm: Seq<char>,
    pub num_slices: int,
    pub state: PlaybackState,
    pub lines: Seq<Seq<char>>,
    pub current_step: int,
    pub total_steps: int,
    pub sequencer_playing: bool,
    pub edit_mode: bool,
    pub insert_mode: bool,
    pub cursor_line: int,
    pub cursor_col: int,
    pub command_mode: bool,
    pub command_buffer: Seq<char>,
    pub status_message: Seq<char>,
    pub confirm_prompt: Seq<char>,
    pub dirty: bool,
    pub current_bank: u8,
}

/// All that the screen is drawn from.
pub struct App {
    pub file_name: String,
    pub sample_rate: u32,
    /// The duration in seconds, as it is shown.
    pub duration: String,
    /// The tempo, as it is shown.
    pub bpm: String,
    pub num_slices: usize,
    pub state: PlaybackState,
    pub beats: Vec<String>,
    pub current_step: usize,
    pub total_steps: usize,
    pub sequencer_playing: bool,
    pub edit_mode: bool,
    pub insert_mode: bool,
    pub cursor_line: usize,
    pub cursor_col: usize,
    pub command_mode: bool,
    pub command_buffer: String,
    pub status_message: String,
    pub confirm_prompt: String,
    pub dirty: bool,
    pub current_bank: u8,
}

impl View for App {
    type V = Screen;

    open spec fn view(&self) -> Screen {
        Screen {
            file_name: self.file_name@,
            sample_rate: self.sample_rate,
            duration: self.duration@,
            bpm: self.bpm@,
            num_slices: self.num_slices as int,
            state: self.state,
            lines: lines_of(self.beats@),
            current_step: self.current_step as int,
            total_steps: self.total_steps as int,
            sequencer_playing: self.sequencer_playing,
            edit_mode: self.edit_mode,
            insert_mode: self.insert_mode,
            cursor_line: self.cursor_line as int,
            cursor_col: self.cursor_col as int,
            command_mode: self.command_mode,
            command_buffer: self.command_buffer@,
            status_message: self.status_message@,
            confirm_prompt: self.confirm_prompt@,
            dirty: self.dirty,
            current_bank: self.current_bank,
        }
    }
}

/// Color scheme for command characters in command segments.
pub open spec fn command_style(ch: char) -> Style {
    match ch {
        '-' => colored(Color::DarkGray),
        '~' => colored(Color::Yellow),
        '\\' | '/' => colored(Color::Blue),
        'R' => colored(Color::Red),
        'L' | 'H' => colored(Color::Green),
        '*' => colored(Color::Magenta),
        '>' | '<' | '^' => colored(Color::Cyan),
        '(' | ')' | '[' | ']' => Style { bold: true, ..colored(Color::White) },
        // Bank selection
        '0' | '1' | '2' | '3' | '4' | '5' | '6' | '7' | '8' | '9' => colored(Color::LightYellow),
        // Pitch up: q-p
        'q' | 'w' | 'e' | 'r' | 't' | 'y' | 'u' | 'i' | 'o' | 'p' => colored(Color::LightGreen),
        // Pitch down: a-l
        'a' | 's' | 'd' | 'f' | 'g' | 'h' | 'j' | 'k' | 'l' => colored(Color::LightRed),
        _ => colored(Color::DarkGray),
    }
}

/// Color scheme for command characters in command segments.
pub fn command_char_style(ch: char) -> (s: Style)
    ensures
        s == command_style(ch),
{
    match ch {
        '-' => in_color(Color::DarkGray),
        '~' => in_color(Color::Yellow),
        '\\' | '/' => in_color(Color::Blue),
        'R' => in_color(Color::Red),
        'L' | 'H' => in_color(Color::Green),
        '*' => in_color(Color::Magenta),
        '>' | '<' | '^' => in_color(Color::Cyan),
        '(' | ')' | '[' | ']' => Style { fg: Some(Color::White), bg: None, bold: true },
        // Bank selection
        '0' | '1' | '2' | '3' | '4' | '5' | '6' | '7' | '8' | '9' => in_color(Color::LightYellow),
        // Pitch up: q-p
        'q' | 'w' | 'e' | 'r' | 't' | 'y' | 'u' | 'i' | 'o' | 'p' => in_color(Color::LightGreen),
        // Pitch down: a-l
        'a' | 's' | 'd' | 'f' | 'g' | 'h' | 'j' | 'k' | 'l' => in_color(Color::LightRed),
        _ => in_color(Color::DarkGray),
    }
}

/// How a character of a segment is shown.
pub open spec fn char_style(seg: int, ch: char) -> Style {
    if seg == 0 {
        if ch == '_' || ch == '-' {
            colored(Color::DarkGray)
        } else {
            colored(Color::White)
        }
    } else {
        command_style(ch)
    }
}

fn style_of_char(in_notes: bool, ch: char) -> (s: Style)
    ensures
        s == char_style(
            if in_notes {
                0
            } else {
                1
            },
            ch,
        ),
{
    if in_notes {
        if ch == '_' || ch == '-' {
            in_color(Color::DarkGray)
        } else {
            in_color(Color::White)
        }
    } else {
        command_char_style(ch)
    }
}

/// The label of a pad: its key and its number.
pub open spec fn label_words(i: int) -> Seq<char> {
    if i == 0 {
        "[q]1"@
    } else if i == 1 {
        "[w]2"@
    } else if i == 2 {
        "[e]3"@
    } else if i == 3 {
        "[r]4"@
    } else if i == 4 {
        "[t]5"@
    } else if i == 5 {
        "[y]6"@
    } else if i == 6 {
        "[u]7"@
    } else if i == 7 {
        "[i]8"@
    } else if i == 8 {
        "[a]9"@
    } else if i == 9 {
        "[s]10"@
    } else if i == 10 {
        "[d]11"@
    } else if i == 11 {
        "[f]12"@
    } else if i == 12 {
        "[g]13"@
    } else if i == 13 {
        "[h]14"@
    } else if i == 14 {
        "[j]15"@
    } else {
        "[k]16"@
    }
}

/// The label of a pad.
pub fn key_label(i: usize) -> (s: &'static str)
    requires
        i < 16,
    ensures
        s@ == label_words(i as int),
{
    match i {
        0 => "[q]1",
        1 => "[w]2",
        2 => "[e]3",
        3 => "[r]4",
        4 => "[t]5",
        5 => "[y]6",
        6 => "[u]7",
        7 => "[i]8",
        8 => "[a]9",
        9 => "[s]10",
        10 => "[d]11",
        11 => "[f]12",
        12 => "[g]13",
        13 => "[h]14",
        14 => "[j]15",
        _ => "[k]16",
    }
}

/// The label of a pad as it stands in the grid, five characters wide.
pub open spec fn cell_words(i: int) -> Seq<char> {
    "  "@ + (if i < 9 {
        " "@
    } else {
        ""@
    }) + label_words(i) + " "@
}

impl Screen {
    /// The text of the header.
    pub open spec fn header(self) -> Seq<char> {
        "  breaky - "@ + self.file_name + (if self.dirty {
            " [+]"@
        } else {
            ""@
        }) + "  |  "@ + decimal(self.sample_rate as nat) + " Hz  |  "@ + self.duration + "s"@
    }

    /// What is playing how, in words.
    pub open spec fn mode_name(self) -> Seq<char> {
        if self.state.playing {
            match PlayMode::numbered(self.state.mode) {
                PlayMode::Slice => "SLICE"@,
                PlayMode::FreeRun => "FREE RUN"@,
                PlayMode::Stutter => "STUTTER"@,
            }
        } else {
            "STOPPED"@
        }
    }

    /// The text below the header.
    pub open spec fn info(self) -> Seq<char> {
        "  BPM: "@ + self.bpm + "    Beats: "@ + decimal(self.num_slices as nat) + "    Bank: "@
            + decimal(self.current_bank as nat) + "    Mode: "@ + self.mode_name()
    }

    /// Whether pad `i` is the one that sounds.
    pub open spec fn sounds(self, i: int) -> bool {
        self.state.playing && self.state.active_slice == i && i < self.num_slices
    }

    /// How pad `i` is shown.
    pub open spec fn pad(self, i: int) -> Piece {
        Piece {
            text: cell_words(i),
            style: if self.sounds(i) {
                marked(Color::Yellow)
            } else if i < self.num_slices {
                colored(Color::Green)
            } else {
                colored(Color::DarkGray)
            },
        }
    }

    /// The two rows of the pad grid.
    pub open spec fn pads(self, row: int) -> Seq<Piece> {
        Seq::new(8, |i: int| self.pad(8 * row + i))
    }

    /// The title of the pattern.
    pub open spec fn title(self) -> Seq<char> {
        " seq "@ + decimal((self.current_step + 1) as nat) + "/"@ + decimal(
            self.total_steps as nat,
        ) + " "@ + (if self.edit_mode {
            "EDIT "@ + (if self.insert_mode {
                "INS "@
            } else {
                ""@
            })
        } else {
            ""@
        })
    }

    /// The step that the cursor is on, where it is on one.
    pub open spec fn cursor_step(self) -> Option<int> {
        if self.edit_mode && self.cursor_line < self.lines.len() {
            match line_of(self.lines[self.cursor_line]).cell_at(self.cursor_col) {
                Some((seg, step)) => Some(step),
                None => None,
            }
        } else {
            None
        }
    }

    /// Whether line `k` is the one with the cursor.
    pub open spec fn has_cursor(self, k: int) -> bool {
        self.edit_mode && k == self.cursor_line
    }

    /// What stands in front of line `k`.
    pub open spec fn margin(self, k: int) -> Piece {
        if k == 0 {
            Piece {
                text: "  "@ + (if self.sequencer_playing {
                    "\u{25b6}"@
                } else {
                    "\u{23f8}"@
                }) + " "@,
                style: colored(Color::Cyan),
            }
        } else {
            Piece { text: "    "@, style: plain() }
        }
    }

    /// The separator in front of segment `seg` of line `k`.
    pub open spec fn separator(self, k: int, line: BeatLine, seg: int) -> Piece {
        Piece {
            text: seq![':'],
            style: if self.has_cursor(k) && seg * line.stride() - 1 == self.cursor_col {
                on(colored(Color::DarkGray), Color::Cyan)
            } else {
                colored(Color::DarkGray)
            },
        }
    }

    /// How character `ch`, step `step` of segment `seg` of line `k`, is shown, with `before`
    /// steps in the lines before.
    pub open spec fn cell(
        self,
        k: int,
        before: int,
        line: BeatLine,
        seg: int,
        step: int,
        ch: char,
    ) -> Piece {
        let at_cursor = self.has_cursor(k) && line.column_of(seg, step) == self.cursor_col;
        Piece {
            text: seq![ch],
            style: if at_cursor {
                marked(Color::Cyan)
            } else if self.has_cursor(k) && self.cursor_step() == Some(step) {
                on(char_style(seg, ch), Color::Indexed(236))
            } else if before + step == self.current_step && self.sequencer_playing {
                marked(Color::Magenta)
            } else {
                char_style(seg, ch)
            },
        }
    }

    /// Segment `seg` of line `k`, with the separator in front of it.
    pub open spec fn segment(self, k: int, before: int, line: BeatLine, seg: int) -> Seq<Piece> {
        let part = line.parts()[seg];
        let cells = Seq::new(
            part.len(),
            |step: int| self.cell(k, before, line, seg, step, part[step]),
        );
        if seg == 0 {
            cells
        } else {
            seq![self.separator(k, line, seg)] + cells
        }
    }

    /// The first `n` segments of line `k`.
    pub open spec fn segments(self, k: int, before: int, line: BeatLine, n: int) -> Seq<Piece>
        decreases n,
    {
        if n <= 0 {
            Seq::empty()
        } else {
            self.segments(k, before, line, n - 1) + self.segment(k, before, line, n - 1)
        }
    }

    /// Line `k` of the pattern.
    pub open spec fn row(self, k: int) -> Seq<Piece> {
        let line = line_of(self.lines[k]);
        seq![self.margin(k)] + self.segments(
            k,
            pads_of(self.lines.take(k)).len() as int,
            line,
            line.segments(),
        )
    }

    /// The lines of the pattern.
    pub open spec fn rows(self) -> Seq<Seq<Piece>> {
        Seq::new(self.lines.len(), |k: int| self.row(k))
    }

    /// The lines at the foot of the screen.
    pub open spec fn footer(self) -> Seq<Seq<Piece>> {
        if self.command_mode {
            seq![
                seq![
                    (Piece { text: ":"@, style: colored(Color::Yellow) }),
                    (Piece { text: self.command_buffer, style: plain() }),
                    (Piece { text: "\u{2588}"@, style: colored(Color::Yellow) }),
                ],
                Seq::empty(),
            ]
        } else if self.confirm_prompt.len() > 0 {
            seq![
                seq![
                    (Piece { text: "  "@ + self.confirm_prompt, style: colored(Color::Yellow) }),
                ],
                Seq::empty(),
            ]
        } else {
            let first = if self.status_message.len() > 0 {
                Piece { text: "  "@ + self.status_message, style: colored(Color::Green) }
            } else if self.edit_mode {
                Piece {
                    text: "  Note keys=edit | Arrows=move | Ins=toggle insert"@,
                    style: plain(),
                }
            } else {
                Piece {
                    text: "  Key=play | Shift+key=free run | Tab=stutter"@,
                    style: plain(),
                }
            };
            let second = Piece {
                text: if self.edit_mode {
                    "  C-c=copy | C-v=paste | C-n=new | C-u=cmd seq | :=cmd | Esc=exit"@
                } else {
                    "  Space=seq | Down=edit | C-n=new | :=command | Esc=quit"@
                },
                style: plain(),
            };
            seq![seq![first], seq![second]]
        }
    }

    /// The style that the foot of the screen starts from.
    pub open spec fn footer_style(self) -> Style {
        if self.command_mode || self.confirm_prompt.len() > 0 {
            plain()
        } else {
            colored(Color::DarkGray)
        }
    }
}

fn span(text: &str, style: Style) -> (s: Span)
    ensures
        s@ == (Piece { text: text@, style }),
{
    Span { text: text.to_owned(), style }
}

fn unstyled() -> (s: Style)
    ensures
        s == plain(),
{
    Style { fg: None, bg: None, bold: false }
}

/// One line with one piece.
fn line_with(text: String, style: Style) -> (v: Vec<Span>)
    ensures
        pieces_of(v@) == seq![(Piece { text: text@, style })],
{
    let mut v: Vec<Span> = Vec::new();
    let s = Span { text, style };
    let ghost piece = s@;
    v.push(s);
    assert(pieces_of(v@) =~= seq![piece]);
    v
}

/// Two lines.
fn two_lines(first: Vec<Span>, second: Vec<Span>) -> (v: Vec<Vec<Span>>)
    ensures
        rows_of_pieces(v@) == seq![pieces_of(first@), pieces_of(second@)],
{
    let ghost (a, b) = (pieces_of(first@), pieces_of(second@));
    let mut v: Vec<Vec<Span>> = Vec::new();
    v.push(first);
    v.push(second);
    assert(rows_of_pieces(v@) =~= seq![a, b]);
    v
}

/// A text of one character.
fn one_char(ch: char) -> (s: String)
    ensures
        s@ == seq![ch],
{
    let mut s = String::new();
    s.push(ch);
    assert(s@ =~= seq![ch]);
    s
}

/// The column of a step of a segment. The numbers are widened so that none is too large.
fn wide_column(steps: usize, seg: u128, step: usize) -> (col: u128)
    requires
        seg <= usize::MAX,
    ensures
        col == seg * (steps + 1) + step,
{
    assert(seg * (steps + 1) + step <= 0xFFFF_FFFF_FFFF_FFFF * 0x1_0000_0000_0000_0000
        + 0xFFFF_FFFF_FFFF_FFFF) by (nonlinear_arith)
        requires
            0 <= seg <= 0xFFFF_FFFF_FFFF_FFFF,
            0 <= steps <= 0xFFFF_FFFF_FFFF_FFFF,
            0 <= step <= 0xFFFF_FFFF_FFFF_FFFF,
    ;
    assert(0 <= seg * (steps + 1)) by (nonlinear_arith)
        requires
            0 <= seg,
            0 <= steps,
    ;
    seg * (steps as u128 + 1) + step as u128
}

impl App {
    /// The text of the header.
    pub fn header_text(&self) -> (s: String)
        ensures
            s@ == self@.header(),
    {
        let mut s = "  breaky - ".to_string();
        s.append(self.file_name.as_str());
        s.append(
            if self.dirty {
                " [+]"
            } else {
                ""
            },
        );
        s.append("  |  ");
        s.append(decimal_of(self.sample_rate as u128).as_str());
        s.append(" Hz  |  ");
        s.append(self.duration.as_str());
        s.append("s");
        s
    }

    /// The text below the header: the tempo, and what is playing how.
    pub fn info_text(&self) -> (s: String)
        ensures
            s@ == self@.info(),
    {
        let mode_str = if self.state.is_playing() {
            match self.state.get_mode() {
                PlayMode::Slice => "SLICE",
                PlayMode::FreeRun => "FREE RUN",
                PlayMode::Stutter => "STUTTER",
            }
        } else {
            "STOPPED"
        };
        let mut s = "  BPM: ".to_string();
        s.append(self.bpm.as_str());
        s.append("    Beats: ");
        s.append(decimal_of(self.num_slices as u128).as_str());
        s.append("    Bank: ");
        s.append(decimal_of(self.current_bank as u128).as_str());
        s.append("    Mode: ");
        s.append(mode_str);
        s
    }

    /// One pad of the grid.
    fn pad_span(&self, i: usize) -> (s: Span)
        requires
            i < 16,
        ensures
            s@ == self@.pad(i as int),
    {
        let active = self.state.is_playing() && self.state.get_active_slice() as usize == i;
        let style = if active && i < self.num_slices {
            mark(Color::Yellow)
        } else if i < self.num_slices {
            in_color(Color::Green)
        } else {
            in_color(Color::DarkGray)
        };
        let mut text = "  ".to_string();
        text.append(
            if i < 9 {
                " "
            } else {
                ""
            },
        );
        text.append(key_label(i));
        text.append(" ");
        Span { text, style }
    }

    /// One of the two rows of the pad grid.
    pub fn grid_row(&self, row: usize) -> (v: Vec<Span>)
        requires
            row < 2,
        ensures
            pieces_of(v@) == self@.pads(row as int),
    {
        let mut v: Vec<Span> = Vec::new();
        for i in 0..8usize
            invariant
                row < 2,
                v@.len() == i,
                forall|j: int| 0 <= j < i ==> (#[trigger] v@[j])@ == self@.pad(8 * row + j),
        {
            v.push(self.pad_span(8 * row + i));
        }
        assert(pieces_of(v@) =~= self@.pads(row as int));
        v
    }

    /// The title of the pattern.
    pub fn sequencer_title(&self) -> (s: String)
        ensures
            s@ == self@.title(),
    {
        let mut s = " seq ".to_string();
        s.append(decimal_of(self.current_step as u128 + 1).as_str());
        s.append("/");
        s.append(decimal_of(self.total_steps as u128).as_str());
        s.append(" ");
        let ghost head = s@;
        proof {
            reveal_strlit("");
        }
        if self.edit_mode {
            s.append("EDIT ");
            if self.insert_mode {
                s.append("INS ");
                assert(s@ =~= head + ("EDIT "@ + "INS "@));
            } else {
                assert(s@ =~= head + ("EDIT "@ + ""@));
            }
        } else {
            assert(s@ =~= head + ""@);
        }
        s
    }

    /// The step that the cursor is on, where it is on one.
    fn step_of_cursor(&self) -> (r: Option<usize>)
        ensures
            match r {
                Some(step) => self@.cursor_step() == Some(step as int),
                None => self@.cursor_step() is None,
            },
    {
        let n = self.beats.len();
        assert(self@.lines.len() == n);
        if !self.edit_mode || self.cursor_line >= n {
            return None;
        }
        assert(self@.lines[self.cursor_line as int] == self.beats@[self.cursor_line as int]@);
        let parsed = ParsedBeatLine::parse(self.beats[self.cursor_line].as_str());
        let steps = parsed.step_count();
        assert(parsed@.commands.len() == parsed.commands@.len());
        if steps == 0 {
            return None;
        }
        let stride: u128 = steps as u128 + 1;
        let seg: u128 = self.cursor_col as u128 / stride;
        let within: u128 = self.cursor_col as u128 % stride;
        if seg >= parsed.commands.len() as u128 + 1 || within >= steps as u128 {
            None
        } else {
            Some(within as usize)
        }
    }

    /// One character of the pattern.
    fn cell_span(
        &self,
        k: usize,
        before: u128,
        steps: usize,
        seg: u128,
        step: usize,
        ch: char,
        cursor_step: Option<usize>,
        Ghost(line): Ghost<BeatLine>,
    ) -> (s: Span)
        requires
            line.notes.len() == steps,
            seg <= usize::MAX,
            before + step <= u128::MAX,
            match cursor_step {
                Some(c) => self@.cursor_step() == Some(c as int),
                None => self@.cursor_step() is None,
            },
        ensures
            s@ == self@.cell(k as int, before as int, line, seg as int, step as int, ch),
    {
        let is_cursor_line = self.edit_mode && k == self.cursor_line;
        let is_cursor = is_cursor_line && wide_column(steps, seg, step) == self.cursor_col as u128;
        let is_col_highlight = is_cursor_line && match cursor_step {
            Some(c) => c == step,
            None => false,
        };
        let is_playhead = before + step as u128 == self.current_step as u128
            && self.sequencer_playing;
        let style = if is_cursor {
            mark(Color::Cyan)
        } else if is_col_highlight {
            // Column highlight: same step as cursor, lighter shade
            let base = style_of_char(seg == 0, ch);
            Style { fg: base.fg, bg: Some(Color::Indexed(236)), bold: base.bold }
        } else if is_playhead {
            mark(Color::Magenta)
        } else {
            style_of_char(seg == 0, ch)
        };
        Span { text: one_char(ch), style }
    }

    /// Add the characters of one segment to a line of the screen.
    fn add_cells(
        &self,
        spans: &mut Vec<Span>,
        k: usize,
        before: u128,
        parsed: &ParsedBeatLine,
        seg: u128,
        chars: &[char],
        cursor_step: Option<usize>,
    )
        requires
            seg <= usize::MAX,
            before + usize::MAX <= u128::MAX,
            match cursor_step {
                Some(c) => self@.cursor_step() == Some(c as int),
                None => self@.cursor_step() is None,
            },
        ensures
            pieces_of(final(spans)@) == pieces_of(old(spans)@) + Seq::new(
                chars@.len(),
                |step: int|
                    self@.cell(
                        k as int,
                        before as int,
                        parsed@,
                        seg as int,
                        step,
                        chars@[step],
                    ),
            ),
    {
        let ghost head = pieces_of(spans@);
        let ghost cells = Seq::new(
            chars@.len(),
            |step: int|
                self@.cell(k as int, before as int, parsed@, seg as int, step, chars@[step]),
        );
        let n = chars.len();
        assert(head + cells.take(0) =~= head);
        for step in 0..n
            invariant
                n == chars@.len(),
                seg <= usize::MAX,
                before + usize::MAX <= u128::MAX,
                match cursor_step {
                    Some(c) => self@.cursor_step() == Some(c as int),
                    None => self@.cursor_step() is None,
                },
                cells == Seq::new(
                    chars@.len(),
                    |step: int|
                        self@.cell(
                            k as int,
                            before as int,
                            parsed@,
                            seg as int,
                            step,
                            chars@[step],
                        ),
                ),
                pieces_of(spans@) == head + cells.take(step as int),
        {
            let ghost sofar = pieces_of(spans@);
            let s = self.cell_span(
                k,
                before,
                parsed.step_count(),
                seg,
                step,
                chars[step],
                cursor_step,
                Ghost(parsed@),
            );
            let ghost piece = s@;
            spans.push(s);
            assert(piece == cells[step as int]);
            assert(pieces_of(spans@) =~= sofar.push(piece));
            assert(pieces_of(spans@) =~= head + cells.take(step + 1));
        }
        assert(cells.take(n as int) =~= cells);
    }

    /// Line `k` of the pattern, with `before` steps in the lines before.
    fn pattern_row(
        &self,
        k: usize,
        before: u128,
        parsed: &ParsedBeatLine,
        cursor_step: Option<usize>,
    ) -> (spans: Vec<Span>)
        requires
            before + usize::MAX <= u128::MAX,
            match cursor_step {
                Some(c) => self@.cursor_step() == Some(c as int),
                None => self@.cursor_step() is None,
            },
        ensures
            pieces_of(spans@) == seq![self@.margin(k as int)] + self@.segments(
                k as int,
                before as int,
                parsed@,
                parsed@.segments(),
            ),
    {
        let ghost line = parsed@;
        let margin = if k == 0 {
            let mut text = "  ".to_string();
            text.append(
                if self.sequencer_playing {
                    "\u{25b6}"
                } else {
                    "\u{23f8}"
                },
            );
            text.append(" ");
            Span { text, style: in_color(Color::Cyan) }
        } else {
            span("    ", unstyled())
        };
        let ghost head = seq![margin@];
        let mut spans: Vec<Span> = Vec::new();
        spans.push(margin);
        assert(pieces_of(spans@) =~= head);
        self.add_cells(&mut spans, k, before, parsed, 0, &parsed.notes, cursor_step);
        proof {
            assert(line.parts()[0] == parsed.notes@);
            assert(self@.segments(k as int, before as int, line, 0) =~= Seq::empty());
            assert(self@.segments(k as int, before as int, line, 1) =~= self@.segment(
                k as int,
                before as int,
                line,
                0,
            ));
        }
        let m = parsed.commands.len();
        assert(line.commands.len() == m);
        for i in 0..m
            invariant
                m == parsed.commands@.len(),
                m == line.commands.len(),
                line == parsed@,
                before + usize::MAX <= u128::MAX,
                match cursor_step {
                    Some(c) => self@.cursor_step() == Some(c as int),
                    None => self@.cursor_step() is None,
                },
                pieces_of(spans@) == head + self@.segments(k as int, before as int, line, i + 1),
        {
            let ghost sofar = pieces_of(spans@);
            let seg: u128 = i as u128 + 1;
            // Render ':' separator
            let sep_visual_col = wide_column(parsed.step_count(), seg, 0);
            assert(sep_visual_col == seg * line.stride());
            assert(seg * line.stride() >= 1) by (nonlinear_arith)
                requires
                    seg >= 1,
                    line.stride() >= 1,
            ;
            let is_cursor = self.edit_mode && k == self.cursor_line && sep_visual_col - 1
                == self.cursor_col as u128;
            let style = if is_cursor {
                Style { fg: Some(Color::DarkGray), bg: Some(Color::Cyan), bold: false }
            } else {
                in_color(Color::DarkGray)
            };
            let sep = Span { text: one_char(':'), style };
            let ghost sep_piece = sep@;
            spans.push(sep);
            assert(sep_piece == self@.separator(k as int, line, i + 1));
            assert(pieces_of(spans@) =~= sofar.push(sep_piece));
            self.add_cells(&mut spans, k, before, parsed, seg, &parsed.commands[i], cursor_step);
            proof {
                assert(line.parts()[i + 1] == parsed.commands@[i as int]@);
                assert(pieces_of(spans@) =~= sofar + self@.segment(
                    k as int,
                    before as int,
                    line,
                    i + 1,
                ));
                assert(pieces_of(spans@) =~= head + self@.segments(
                    k as int,
                    before as int,
                    line,
                    i + 2,
                ));
            }
        }
        spans
    }

    /// The lines of the pattern.
    pub fn sequencer_rows(&self) -> (rows: Vec<Vec<Span>>)
        ensures
            rows_of_pieces(rows@) == self@.rows(),
    {
        let cursor_step = self.step_of_cursor();
        let n = self.beats.len();
        let ghost lines = self@.lines;
        assert(lines.len() == n);
        let mut rows: Vec<Vec<Span>> = Vec::new();
        let mut before: u128 = 0;
        assert(lines.take(0) =~= Seq::empty());
        for k in 0..n
            invariant
                n == self.beats@.len(),
                lines == self@.lines,
                lines.len() == n,
                match cursor_step {
                    Some(c) => self@.cursor_step() == Some(c as int),
                    None => self@.cursor_step() is None,
                },
                before == pads_of(lines.take(k as int)).len(),
                before <= k * 0xFFFF_FFFF_FFFF_FFFF,
                rows@.len() == k,
                forall|j: int| 0 <= j < k ==> pieces_of((#[trigger] rows@[j])@) == self@.row(j),
        {
            assert(lines[k as int] == self.beats@[k as int]@);
            assert(lines.take(k + 1).drop_last() =~= lines.take(k as int));
            let parsed = ParsedBeatLine::parse(self.beats[k].as_str());
            assert(k * 0xFFFF_FFFF_FFFF_FFFF <= 0xFFFF_FFFF_FFFF_FFFE * 0xFFFF_FFFF_FFFF_FFFF);
            let row = self.pattern_row(k, before, &parsed, cursor_step);
            assert(pieces_of(row@) == self@.row(k as int));
            rows.push(row);
            before = before + parsed.step_count() as u128;
        }
        assert(rows_of_pieces(rows@) =~= self@.rows());
        rows
    }

    /// The lines at the foot of the screen.
    pub fn footer_lines(&self) -> (lines: Vec<Vec<Span>>)
        ensures
            rows_of_pieces(lines@) == self@.footer(),
    {
        let empty: Vec<Span> = Vec::new();
        assert(pieces_of(empty@) =~= Seq::empty());
        if self.command_mode {
            let mut line: Vec<Span> = Vec::new();
            line.push(span(":", in_color(Color::Yellow)));
            line.push(span(self.command_buffer.as_str(), unstyled()));
            line.push(span("\u{2588}", in_color(Color::Yellow)));
            assert(pieces_of(line@) =~= self@.footer()[0]);
            return two_lines(line, empty);
        }
        if has_text(self.confirm_prompt.as_str()) {
            let mut text = "  ".to_string();
            text.append(self.confirm_prompt.as_str());
            let line = line_with(text, in_color(Color::Yellow));
            return two_lines(line, empty);
        }
        let first = if has_text(self.status_message.as_str()) {
            let mut text = "  ".to_string();
            text.append(self.status_message.as_str());
            line_with(text, in_color(Color::Green))
        } else if self.edit_mode {
            line_with(
                "  Note keys=edit | Arrows=move | Ins=toggle insert".to_string(),
                unstyled(),
            )
        } else {
            line_with("  Key=play | Shift+key=free run | Tab=stutter".to_string(), unstyled())
        };
        let second = if self.edit_mode {
            line_with(
                "  C-c=copy | C-v=paste | C-n=new | C-u=cmd seq | :=cmd | Esc=exit".to_string(),
                unstyled(),
            )
        } else {
            line_with(
                "  Space=seq | Down=edit | C-n=new | :=command | Esc=quit".to_string(),
                unstyled(),
            )
        };
        two_lines(first, second)
    }

    /// The style that the foot of the screen starts from.
    pub fn footer_base(&self) -> (s: Style)
        ensures
            s == self@.footer_style(),
    {
        if self.command_mode || has_text(self.confirm_prompt.as_str()) {
            unstyled()
        } else {
            in_color(Color::DarkGray)
        }
    }
}

/// The text of pieces, one behind the other.
pub open spec fn words_of(pieces: Seq<Piece>) -> Seq<char>
    decreases pieces.len(),
{
    if pieces.len() == 0 {
        Seq::empty()
    } else {
        words_of(pieces.drop_last()) + pieces.last().text
    }
}

proof fn lemma_words_join(a: Seq<Piece>, b: Seq<Piece>)
    ensures
        words_of(a + b) == words_of(a) + words_of(b),
    decreases b.len(),
{
    if b.len() == 0 {
        assert(a + b =~= a);
        assert(words_of(a) + words_of(b) =~= words_of(a));
    } else {
        assert((a + b).drop_last() =~= a + b.drop_last());
        lemma_words_join(a, b.drop_last());
        assert(words_of(a + b) =~= words_of(a) + words_of(b));
    }
}

proof fn lemma_words_of_cells(cells: Seq<Piece>, part: Seq<char>)
    requires
        cells.len() == part.len(),
        forall|i: int| 0 <= i < part.len() ==> (#[trigger] cells[i]).text == seq![part[i]],
    ensures
        words_of(cells) == part,
    decreases part.len(),
{
    if part.len() > 0 {
        lemma_words_of_cells(cells.drop_last(), part.drop_last());
        assert(cells.last().text == seq![part.last()]);
        assert(words_of(cells) =~= part);
    } else {
        assert(words_of(cells) =~= part);
    }
}

proof fn lemma_words_of_segments(s: Screen, k: int, before: int, line: BeatLine, n: int)
    requires
        0 <= n <= line.segments(),
    ensures
        words_of(s.segments(k, before, line, n)) == crate::config::joined(line.parts().take(n)),
    decreases n,
{
    let parts = line.parts();
    if n == 0 {
        assert(parts.take(0) =~= Seq::empty());
        assert(s.segments(k, before, line, 0) =~= Seq::empty());
    } else {
        lemma_words_of_segments(s, k, before, line, n - 1);
        let part = parts[n - 1];
        let cells = Seq::new(
            part.len(),
            |step: int| s.cell(k, before, line, n - 1, step, part[step]),
        );
        lemma_words_of_cells(cells, part);
        let init = s.segments(k, before, line, n - 1);
        let seg = s.segment(k, before, line, n - 1);
        lemma_words_join(init, seg);
        assert(parts.take(n).drop_last() =~= parts.take(n - 1));
        if n == 1 {
            assert(seg =~= cells);
            assert(parts.take(1)[0] == part);
            assert(words_of(init) =~= Seq::empty());
            assert(words_of(init) + part =~= part);
        } else {
            let sep = seq![s.separator(k, line, n - 1)];
            lemma_words_join(sep, cells);
            reveal_with_fuel(words_of, 2);
            assert(words_of(sep) =~= seq![':']);
            assert(words_of(init) + (seq![':'] + part) =~= words_of(init).push(':') + part);
        }
    }
}

/// The screen shows every line of the pattern as it is written, behind its margin.
pub proof fn lemma_rows_show_the_pattern(s: Screen, k: int)
    requires
        0 <= k < s.lines.len(),
    ensures
        words_of(s.row(k)) == s.margin(k).text + s.lines[k],
{
    let line = line_of(s.lines[k]);
    let before = pads_of(s.lines.take(k)).len() as int;
    let head = seq![s.margin(k)];
    lemma_words_of_segments(s, k, before, line, line.segments());
    assert(line.parts().take(line.segments()) =~= line.parts());
    crate::config::lemma_raw_of_parsed(s.lines[k]);
    lemma_words_join(head, s.segments(k, before, line, line.segments()));
    reveal_with_fuel(words_of, 2);
    assert(words_of(head) =~= s.margin(k).text);
}

/// The pad that sounds, and no other, is on yellow.
pub proof fn lemma_active_pad_is_yellow(s: Screen, i: int)
    ensures
        s.pad(i).style.bg == Some(Color::Yellow) <==> s.sounds(i),
{
}

/// The character under the cursor, and no other, is on cyan; the step that is played is on magenta
/// on every line but where the cursor marks it.
pub proof fn lemma_cursor_and_playhead_colors(
    s: Screen,
    k: int,
    before: int,
    line: BeatLine,
    seg: int,
    step: int,
    ch: char,
)
    ensures
        ({
            let bg = s.cell(k, before, line, seg, step, ch).style.bg;
            let here = s.has_cursor(k) && line.column_of(seg, step) == s.cursor_col;
            let beside = s.has_cursor(k) && s.cursor_step() == Some(step);
            &&& bg == Some(Color::Cyan) <==> here
            &&& bg == Some(Color::Magenta) <==> !here && !beside && s.sequencer_playing && before
                + step == s.current_step
        }),
{
}

/// The label of a pad names the key that plays it, and all labels take the same room.
pub proof fn lemma_labels(i: int)
    requires
        0 <= i < 16,
    ensures
        label_words(i).len() >= 4,
        label_words(i)[0] == '[' && label_words(i)[2] == ']',
        pad_of(label_words(i)[1]) == Some(i as usize),
        cell_words(i).len() == 8,
{
    reveal_strlit("");
    reveal_strlit(" ");
    reveal_strlit("  ");
    reveal_strlit("[q]1");
    reveal_strlit("[w]2");
    reveal_strlit("[e]3");
    reveal_strlit("[r]4");
    reveal_strlit("[t]5");
    reveal_strlit("[y]6");
    reveal_strlit("[u]7");
    reveal_strlit("[i]8");
    reveal_strlit("[a]9");
    reveal_strlit("[s]10");
    reveal_strlit("[d]11");
    reveal_strlit("[f]12");
    reveal_strlit("[g]13");
    reveal_strlit("[h]14");
    reveal_strlit("[j]15");
    reveal_strlit("[k]16");
}

/// A label is the key of its pad in brackets, and the number of the pad from 1 on.
pub proof fn lemma_labels_are_numbered(i: int)
    requires
        0 <= i < 16,
    ensures
        label_words(i) == seq!['[', "qwertyuiasdfghjk"@[i], ']'] + decimal((i + 1) as nat),
{
    reveal_strlit("qwertyuiasdfghjk");
    reveal_strlit("[q]1");
    reveal_strlit("[w]2");
    reveal_strlit("[e]3");
    reveal_strlit("[r]4");
    reveal_strlit("[t]5");
    reveal_strlit("[y]6");
    reveal_strlit("[u]7");
    reveal_strlit("[i]8");
    reveal_strlit("[a]9");
    reveal_strlit("[s]10");
    reveal_strlit("[d]11");
    reveal_strlit("[f]12");
    reveal_strlit("[g]13");
    reveal_strlit("[h]14");
    reveal_strlit("[j]15");
    reveal_strlit("[k]16");
    assert("[q]1"@ =~= seq!['[', 'q', ']', '1']);
    assert("[w]2"@ =~= seq!['[', 'w', ']', '2']);
    assert("[e]3"@ =~= seq!['[', 'e', ']', '3']);
    assert("[r]4"@ =~= seq!['[', 'r', ']', '4']);
    assert("[t]5"@ =~= seq!['[', 't', ']', '5']);
    assert("[y]6"@ =~= seq!['[', 'y', ']', '6']);
    assert("[u]7"@ =~= seq!['[', 'u', ']', '7']);
    assert("[i]8"@ =~= seq!['[', 'i', ']', '8']);
    assert("[a]9"@ =~= seq!['[', 'a', ']', '9']);
    assert("[s]10"@ =~= seq!['[', 's', ']', '1', '0']);
    assert("[d]11"@ =~= seq!['[', 'd', ']', '1', '1']);
    assert("[f]12"@ =~= seq!['[', 'f', ']', '1', '2']);
    assert("[g]13"@ =~= seq!['[', 'g', ']', '1', '3']);
    assert("[h]14"@ =~= seq!['[', 'h', ']', '1', '4']);
    assert("[j]15"@ =~= seq!['[', 'j', ']', '1', '5']);
    assert("[k]16"@ =~= seq!['[', 'k', ']', '1', '6']);
    reveal_with_fuel(decimal, 2);
    let n = (i + 1) as nat;
    if n < 10 {
        assert(decimal(n) == seq![(48 + n) as char]);
        assert(label_words(i) =~= seq!['[', "qwertyuiasdfghjk"@[i], ']'] + decimal(n));
    } else {
        assert(n / 10 == 1);
        assert(decimal(n) =~= seq!['1', (48 + n % 10) as char]);
        assert(label_words(i) =~= seq!['[', "qwertyuiasdfghjk"@[i], ']'] + decimal(n));
    }
}

/// The header names the file, marks unsaved changes, and gives the sample rate and the duration.
pub proof fn lemma_what_the_header_says(s: Screen)
    ensures
        s.dirty ==> s.header() == "  breaky - "@ + s.file_name + " [+]"@ + "  |  "@ + decimal(
            s.sample_rate as nat,
        ) + " Hz  |  "@ + s.duration + "s"@,
        !s.dirty ==> s.header() == "  breaky - "@ + s.file_name + ""@ + "  |  "@ + decimal(
            s.sample_rate as nat,
        ) + " Hz  |  "@ + s.duration + "s"@,
{
}

/// Below it stand the tempo, the number of slices, the bank, and the mode that is playing; nothing
/// playing is said to be stopped.
pub proof fn lemma_what_the_info_says(s: Screen)
    ensures
        s.info() == "  BPM: "@ + s.bpm + "    Beats: "@ + decimal(s.num_slices as nat) + "    Bank: "@
            + decimal(s.current_bank as nat) + "    Mode: "@ + s.mode_name(),
        !s.state.playing ==> s.mode_name() == "STOPPED"@,
        s.state.playing && s.state.mode == 1 ==> s.mode_name() == "FREE RUN"@,
        s.state.playing && s.state.mode == 2 ==> s.mode_name() == "STUTTER"@,
        s.state.playing && s.state.mode != 1 && s.state.mode != 2 ==> s.mode_name() == "SLICE"@,
{
}

/// The grid has two rows of eight pads in order. A pad with a slice is green, one without is gray, and
/// the one that sounds is bold and black on yellow.
pub proof fn lemma_the_pad_grid(s: Screen, row: int, i: int)
    requires
        0 <= i < 8,
    ensures
        s.pads(row).len() == 8,
        s.pads(row)[i] == s.pad(8 * row + i),
        ({
            let k = 8 * row + i;
            let p = s.pad(k);
            &&& p.text == cell_words(k)
            &&& s.state.playing && s.state.active_slice == k && k < s.num_slices ==> p.style == (Style {
                fg: Some(Color::Black),
                bg: Some(Color::Yellow),
                bold: true,
            })
            &&& k >= s.num_slices ==> p.style == (Style {
                fg: Some(Color::DarkGray),
                bg: None,
                bold: false,
            })
            &&& k < s.num_slices && !(s.state.playing && s.state.active_slice == k) ==> p.style == (
            Style { fg: Some(Color::Green), bg: None, bold: false })
        }),
{
}

/// The title counts the steps from 1, and names the mode of the editor.
pub proof fn lemma_what_the_title_says(s: Screen)
    ensures
        ({
            let count = " seq "@ + decimal((s.current_step + 1) as nat) + "/"@ + decimal(
                s.total_steps as nat,
            ) + " "@;
            &&& !s.edit_mode ==> s.title() == count + ""@
            &&& s.edit_mode && !s.insert_mode ==> s.title() == count + ("EDIT "@ + ""@)
            &&& s.edit_mode && s.insert_mode ==> s.title() == count + ("EDIT "@ + "INS "@)
        }),
{
}

/// In front of the first line stands a sign for playing or pausing, in front of the others nothing.
pub proof fn lemma_what_the_margin_shows(s: Screen, k: int)
    ensures
        s.sequencer_playing ==> s.margin(0).text == "  "@ + "\u{25b6}"@ + " "@,
        !s.sequencer_playing ==> s.margin(0).text == "  "@ + "\u{23f8}"@ + " "@,
        s.margin(0).style.fg == Some(Color::Cyan),
        k != 0 ==> s.margin(k).text == "    "@,
{
}

/// Each command has the color of its kind.
pub proof fn lemma_colors_of_commands(ch: char)
    ensures
        "qwertyuiop"@.contains(ch) ==> command_style(ch) == colored(Color::LightGreen),
        "asdfghjkl"@.contains(ch) ==> command_style(ch) == colored(Color::LightRed),
        '0' <= ch <= '9' ==> command_style(ch) == colored(Color::LightYellow),
        ch == '-' ==> command_style(ch) == colored(Color::DarkGray),
        ch == '~' ==> command_style(ch) == colored(Color::Yellow),
        ch == '\\' || ch == '/' ==> command_style(ch) == colored(Color::Blue),
        ch == 'R' ==> command_style(ch) == colored(Color::Red),
        ch == 'L' || ch == 'H' ==> command_style(ch) == colored(Color::Green),
        ch == '*' ==> command_style(ch) == colored(Color::Magenta),
        ch == '<' || ch == '>' || ch == '^' ==> command_style(ch) == colored(Color::Cyan),
        ch == '(' || ch == ')' || ch == '[' || ch == ']' ==> command_style(ch) == (Style {
            fg: Some(Color::White),
            bg: None,
            bold: true,
        }),
        !crate::config::is_command(ch) ==> command_style(ch) == colored(Color::DarkGray),
        forall|c: Color|
            #![trigger colored(c)]
            colored(c) == (Style { fg: Some(c), bg: None, bold: false }),
{
    reveal_strlit("qwertyuiop");
    reveal_strlit("asdfghjkl");
    crate::config::lemma_what_is_a_command(ch);
}

/// A character is shown as it is: the one under the cursor bold and black on cyan, those of the same
/// step in the cursor's line on gray, those of the step that is played bold and black on magenta; else
/// rests are gray, notes white, and commands have their own color.
pub proof fn lemma_how_a_character_is_shown(
    s: Screen,
    k: int,
    before: int,
    line: BeatLine,
    seg: int,
    step: int,
    ch: char,
)
    ensures
        ({
            let p = s.cell(k, before, line, seg, step, ch);
            let here = s.edit_mode && k == s.cursor_line && seg * (line.notes.len() + 1) + step
                == s.cursor_col;
            let beside = s.edit_mode && k == s.cursor_line && s.cursor_step() == Some(step);
            let played = s.sequencer_playing && before + step == s.current_step;
            let own = if seg > 0 {
                command_style(ch)
            } else if ch == '_' || ch == '-' {
                Style { fg: Some(Color::DarkGray), bg: None, bold: false }
            } else {
                Style { fg: Some(Color::White), bg: None, bold: false }
            };
            &&& p.text == seq![ch]
            &&& here ==> p.style == (Style { fg: Some(Color::Black), bg: Some(Color::Cyan), bold: true })
            &&& !here && beside && seg >= 0 ==> p.style == (Style {
                bg: Some(Color::Indexed(236)),
                ..own
            })
            &&& !here && !beside && played ==> p.style == (Style {
                fg: Some(Color::Black),
                bg: Some(Color::Magenta),
                bold: true,
            })
            &&& !here && !beside && !played && seg >= 0 ==> p.style == own
        }),
{
}

/// The step of the cursor is that of its column in its line, in whatever segment, while the editor is
/// on.
pub proof fn lemma_the_step_of_the_cursor(s: Screen)
    ensures
        !s.edit_mode ==> s.cursor_step() is None,
        s.edit_mode && 0 <= s.cursor_line < s.lines.len() && 0 <= s.cursor_col ==> {
            let line = line_of(s.lines[s.cursor_line]);
            s.cursor_step() matches Some(step) ==> step == s.cursor_col % (line.notes.len() as int + 1)
                && step < line.notes.len()
        },
{
}

/// The pattern is shown line by line: each behind its margin, each segment behind its separator, with
/// the steps counted over all lines before it.
pub proof fn lemma_the_pattern_on_screen(s: Screen, k: int)
    requires
        0 <= k < s.lines.len(),
    ensures
        s.rows().len() == s.lines.len(),
        s.rows()[k] == s.row(k),
        s.row(k)[0] == s.margin(k),
        forall|step: int|
            0 <= step < line_of(s.lines[k]).notes.len() ==> #[trigger] s.row(k)[step + 1] == s.cell(
                k,
                pads_of(s.lines.take(k)).len() as int,
                line_of(s.lines[k]),
                0,
                step,
                line_of(s.lines[k]).notes[step],
            ),
{
    let line = line_of(s.lines[k]);
    let before = pads_of(s.lines.take(k)).len() as int;
    lemma_segments_begin_with_notes(s, k, before, line, line.segments());
    let all = s.segments(k, before, line, line.segments());
    assert forall|step: int| 0 <= step < line.notes.len() implies #[trigger] s.row(k)[step + 1]
        == s.cell(k, before, line, 0, step, line.notes[step]) by {
        assert(s.row(k)[step + 1] == all[step]);
    }
}

proof fn lemma_segments_begin_with_notes(s: Screen, k: int, before: int, line: BeatLine, n: int)
    requires
        1 <= n,
    ensures
        s.segments(k, before, line, n).len() >= line.notes.len(),
        forall|step: int|
            0 <= step < line.notes.len() ==> #[trigger] s.segments(k, before, line, n)[step] == s.cell(
                k,
                before,
                line,
                0,
                step,
                line.notes[step],
            ),
    decreases n,
{
    if n > 1 {
        lemma_segments_begin_with_notes(s, k, before, line, n - 1);
        let init = s.segments(k, before, line, n - 1);
        let all = s.segments(k, before, line, n);
        assert forall|step: int| 0 <= step < line.notes.len() implies #[trigger] all[step] == s.cell(
            k,
            before,
            line,
            0,
            step,
            line.notes[step],
        ) by {
            assert(all[step] == init[step]);
        }
    } else {
        assert(s.segments(k, before, line, 0) =~= Seq::empty());
        assert(line.parts()[0] == line.notes);
    }
}

/// At the foot stands the command that is being typed, or the question that is asked, or the message
/// that is shown and else what the keys do.
pub proof fn lemma_what_the_foot_shows(s: Screen)
    ensures
        s.footer().len() == 2,
        s.command_mode ==> s.footer()[0].len() == 3 && s.footer()[0][0].text == ":"@
            && s.footer()[0][1].text == s.command_buffer && s.footer()[0][2].text == "\u{2588}"@,
        !s.command_mode && s.confirm_prompt.len() > 0 ==> s.footer()[0].len() == 1
            && s.footer()[0][0].text == "  "@ + s.confirm_prompt && s.footer()[1].len() == 0,
        !s.command_mode && s.confirm_prompt.len() == 0 && s.status_message.len() > 0
            ==> s.footer()[0].len() == 1 && s.footer()[0][0].text == "  "@ + s.status_message
            && s.footer()[0][0].style.fg == Some(Color::Green),
        !s.command_mode && s.confirm_prompt.len() == 0 && s.status_message.len() == 0
            ==> s.footer()[0][0].text == if s.edit_mode {
            "  Note keys=edit | Arrows=move | Ins=toggle insert"@
        } else {
            "  Key=play | Shift+key=free run | Tab=stutter"@
        },
        !s.command_mode && s.confirm_prompt.len() == 0 ==> s.footer()[1].len() == 1
            && s.footer()[1][0].text == if s.edit_mode {
            "  C-c=copy | C-v=paste | C-n=new | C-u=cmd seq | :=cmd | Esc=exit"@
        } else {
            "  Space=seq | Down=edit | C-n=new | :=command | Esc=quit"@
        },
{
}

/// A segment of commands follows the segments before it, behind a separator of its own; its characters
/// stand in order.
pub proof fn lemma_segments_on_screen(s: Screen, k: int, before: int, line: BeatLine, n: int, i: int)
    requires
        1 <= n <= line.commands.len(),
    ensures
        ({
            let init = s.segments(k, before, line, n);
            let all = s.segments(k, before, line, n + 1);
            let cmd = line.commands[n - 1];
            &&& all.len() == init.len() + 1 + cmd.len()
            &&& 0 <= i < init.len() ==> all[i] == init[i]
            &&& all[init.len() as int] == s.separator(k, line, n)
            &&& 0 <= i < cmd.len() ==> all[init.len() + 1 + i] == s.cell(k, before, line, n, i, cmd[i])
        }),
        s.separator(k, line, n).text == seq![':'],
        s.separator(k, line, n).style.fg == Some(Color::DarkGray),
        s.separator(k, line, n).style.bg == Some(Color::Cyan) <==> s.edit_mode && k == s.cursor_line
            && s.cursor_col == n * (line.notes.len() + 1) - 1,
{
    assert(line.parts()[n] == line.commands[n - 1]);
}

/// The rows end with the last segment of their line.
pub proof fn lemma_rows_are_whole(s: Screen, k: int)
    requires
        0 <= k < s.lines.len(),
    ensures
        s.row(k) == seq![s.margin(k)] + s.segments(
            k,
            pads_of(s.lines.take(k)).len() as int,
            line_of(s.lines[k]),
            line_of(s.lines[k]).commands.len() as int + 1,
        ),
{
}

/// The colors at the foot of the screen.
pub proof fn lemma_colors_at_the_foot(s: Screen)
    ensures
        s.command_mode ==> s.footer()[0][0].style.fg == Some(Color::Yellow)
            && s.footer()[0][2].style.fg == Some(Color::Yellow) && s.footer()[0][1].style == plain(),
        !s.command_mode && s.confirm_prompt.len() > 0 ==> s.footer()[0][0].style.fg == Some(
            Color::Yellow,
        ),
        s.footer_style() == if s.command_mode || s.confirm_prompt.len() > 0 {
            Style { fg: None, bg: None, bold: false }
        } else {
            Style { fg: Some(Color::DarkGray), bg: None, bold: false }
        },
        plain() == (Style { fg: None, bg: None, bold: false }),
{
}

/// A label stands in the grid behind two blanks, or three where its number has one digit, and before
/// one.
pub proof fn lemma_labels_in_the_grid(i: int)
    ensures
        i < 9 ==> cell_words(i) == "  "@ + " "@ + label_words(i) + " "@,
        i >= 9 ==> cell_words(i) == "  "@ + ""@ + label_words(i) + " "@,
{
}

} // verus!
