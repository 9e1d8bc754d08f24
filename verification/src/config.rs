//! A saved pattern, and its beat lines: what a line holds and how it is laid out on screen.

use vstd::arithmetic::div_mod::lemma_fundamental_div_mod_converse;
use vstd::prelude::*;

use crate::number::{shown32, shown64, Num32, Num64, Shown32, Shown64};
use crate::text::{chars_of, copy_chars, lines_of, rows_of};

verus! {

/// What a configuration says. A number that is not there has its default.
#[verifier::ext_equal]
pub struct Config {
    pub sample: Seq<char>,
    pub bpm: Shown64,
    pub lines: Seq<Seq<char>>,
    pub lp: Option<Shown32>,
    pub hp: Option<Shown32>,
    pub dist: Option<Shown32>,
    pub fade: Option<Shown32>,
    pub slow: Option<Shown64>,
    pub fast: Option<Shown64>,
    pub stutter: Option<u32>,
}

/// A pattern with the audio file that it plays and its settings, as it is saved.
pub struct BreakConfig {
    pub sample: String,
    pub bpm: Num64,
    pub beats: Vec<String>,
    pub lp: Option<Num32>,
    pub hp: Option<Num32>,
    pub dist: Option<Num32>,
    pub fade: Option<Num32>,
    pub slow: Option<Num64>,
    pub fast: Option<Num64>,
    pub stutter: Option<u32>,
}

impl View for BreakConfig {
    type V = Config;

    open spec fn view(&self) -> Config {
        Config {
            sample: self.sample@,
            bpm: self.bpm@,
            lines: lines_of(self.beats@),
            lp: shown32(self.lp),
            hp: shown32(self.hp),
            dist: shown32(self.dist),
            fade: shown32(self.fade),
            slow: shown64(self.slow),
            fast: shown64(self.fast),
            stutter: self.stutter,
        }
    }
}

/// The configuration of a pattern without settings of its own.
pub open spec fn bare_config(sample: Seq<char>, bpm: Shown64, lines: Seq<Seq<char>>) -> Config {
    Config {
        sample,
        bpm,
        lines,
        lp: None,
        hp: None,
        dist: None,
        fade: None,
        slow: None,
        fast: None,
        stutter: None,
    }
}

impl BreakConfig {
    /// Create a default config that plays all 16 slices in order.
    pub fn default_for(file_name: &str, bpm: Num64) -> (c: Self)
        ensures
            c@ == bare_config(file_name@, bpm@, seq!["qwertyuiasdfghjk"@]),
    {
        let mut beats: Vec<String> = Vec::new();
        beats.push("qwertyuiasdfghjk".to_string());
        assert(lines_of(beats@) =~= seq!["qwertyuiasdfghjk"@]);
        BreakConfig {
            sample: file_name.to_owned(),
            bpm,
            beats,
            lp: None,
            hp: None,
            dist: None,
            fade: None,
            slow: None,
            fast: None,
            stutter: None,
        }
    }
}

/// The pad that a beat character plays; `None` is silence.
pub open spec fn pad_of(c: char) -> Option<usize> {
    match c {
        'q' => Some(0),
        'w' => Some(1),
        'e' => Some(2),
        'r' => Some(3),
        't' => Some(4),
        'y' => Some(5),
        'u' => Some(6),
        'i' => Some(7),
        'a' => Some(8),
        's' => Some(9),
        'd' => Some(10),
        'f' => Some(11),
        'g' => Some(12),
        'h' => Some(13),
        'j' => Some(14),
        'k' => Some(15),
        _ => None,
    }
}

/// Map a beat character to a slice index (0-15), or None for silence.
pub fn char_to_slice(c: char) -> (r: Option<usize>)
    ensures
        r == pad_of(c),
{
    match c {
        'q' => Some(0),
        'w' => Some(1),
        'e' => Some(2),
        'r' => Some(3),
        't' => Some(4),
        'y' => Some(5),
        'u' => Some(6),
        'i' => Some(7),
        'a' => Some(8),
        's' => Some(9),
        'd' => Some(10),
        'f' => Some(11),
        'g' => Some(12),
        'h' => Some(13),
        'j' => Some(14),
        'k' => Some(15),
        _ => None,
    }
}

/// The two rows of pad keys, left to right, play the sixteen slices in order.
pub proof fn lemma_pad_keys_in_order(i: int)
    requires
        0 <= i < 16,
    ensures
        "qwertyuiasdfghjk"@.len() == 16,
        pad_of("qwertyuiasdfghjk"@[i]) == Some(i as usize),
{
    reveal_strlit("qwertyuiasdfghjk");
}

/// A slice index names its pad key: no two characters play the same pad.
pub proof fn lemma_pads_distinct(a: char, b: char)
    requires
        pad_of(a) is Some,
        pad_of(a) == pad_of(b),
    ensures
        a == b,
        pad_of(a)->0 < 16,
{
}

/// What a beat line says: a note segment and any number of command segments.
#[verifier::ext_equal]
pub struct BeatLine {
    pub notes: Seq<char>,
    pub commands: Seq<Seq<char>>,
}

impl BeatLine {
    /// The number of segments: one of notes, the rest of commands.
    pub open spec fn segments(self) -> int {
        self.commands.len() as int + 1
    }

    /// The columns from the start of one segment to the start of the next.
    pub open spec fn stride(self) -> int {
        self.notes.len() as int + 1
    }

    /// The columns that the line takes on screen, the separators included.
    pub open spec fn width(self) -> int {
        self.notes.len() * self.segments() + self.commands.len()
    }

    /// The line's columns can be counted in a machine word.
    pub open spec fn fits(self) -> bool {
        self.stride() * self.segments() <= usize::MAX
    }

    /// The segment and the step that stand at a column; `None` on a separator or outside.
    pub open spec fn cell_at(self, col: int) -> Option<(int, int)> {
        if self.notes.len() == 0 || col / self.stride() >= self.segments() || col % self.stride()
            >= self.notes.len() {
            None
        } else {
            Some((col / self.stride(), col % self.stride()))
        }
    }

    /// The column of a step of a segment.
    pub open spec fn column_of(self, seg: int, step: int) -> int {
        seg * self.stride() + step
    }

    /// The segments of the line, the notes first.
    pub open spec fn parts(self) -> Seq<Seq<char>> {
        seq![self.notes] + self.commands
    }

    /// No segment holds a separator.
    pub open spec fn separator_free(self) -> bool {
        forall|i: int| 0 <= i < self.parts().len() ==> !(#[trigger] self.parts()[i]).contains(':')
    }

    /// The raw text of the line.
    pub open spec fn raw(self) -> Seq<char> {
        joined(self.parts())
    }
}

/// `s` cut at every `:`.
pub open spec fn cut(s: Seq<char>) -> Seq<Seq<char>>
    decreases s.len(),
{
    if s.len() == 0 {
        seq![Seq::<char>::empty()]
    } else {
        let before = cut(s.drop_last());
        if s.last() == ':' {
            before.push(Seq::<char>::empty())
        } else {
            before.drop_last().push(before.last().push(s.last()))
        }
    }
}

/// `parts` with a `:` between each and the next.
pub open spec fn joined(parts: Seq<Seq<char>>) -> Seq<char>
    decreases parts.len(),
{
    if parts.len() == 0 {
        Seq::<char>::empty()
    } else if parts.len() == 1 {
        parts[0]
    } else {
        joined(parts.drop_last()).push(':') + parts.last()
    }
}

/// The beat line that a raw text stands for.
pub open spec fn line_of(raw: Seq<char>) -> BeatLine {
    BeatLine { notes: cut(raw)[0], commands: cut(raw).skip(1) }
}

proof fn lemma_cut_nonempty(s: Seq<char>)
    ensures
        cut(s).len() > 0,
        cut(s).len() <= s.len() + 1,
    decreases s.len(),
{
    if s.len() > 0 {
        lemma_cut_nonempty(s.drop_last());
    }
}

/// A raw line read and written back is the same text.
pub proof fn lemma_raw_of_parsed(raw: Seq<char>)
    ensures
        line_of(raw).raw() == raw,
{
    lemma_cut_nonempty(raw);
    assert(line_of(raw).parts() =~= cut(raw));
    lemma_joined_cut(raw);
}

proof fn lemma_joined_cut(s: Seq<char>)
    ensures
        joined(cut(s)) == s,
    decreases s.len(),
{
    if s.len() == 0 {
        assert(joined(cut(s)) =~= s);
    } else {
        let before = cut(s.drop_last());
        lemma_joined_cut(s.drop_last());
        lemma_cut_nonempty(s.drop_last());
        assert(s.drop_last().push(s.last()) =~= s);
        if s.last() == ':' {
            assert(cut(s).drop_last() =~= before);
            assert(joined(cut(s)) =~= s);
        } else {
            assert(cut(s).drop_last() =~= before.drop_last());
            assert(joined(cut(s)) =~= s);
        }
    }
}

/// A line written out and read back is the same line, provided no segment holds a separator.
pub proof fn lemma_parsed_of_raw(line: BeatLine)
    requires
        line.separator_free(),
    ensures
        line_of(line.raw()) == line,
{
    lemma_cut_joined(line.parts());
    assert(line_of(line.raw()).notes == line.parts()[0]);
    assert(line.parts().skip(1) =~= line.commands);
}

proof fn lemma_cut_joined(parts: Seq<Seq<char>>)
    requires
        parts.len() > 0,
        forall|i: int| 0 <= i < parts.len() ==> !(#[trigger] parts[i]).contains(':'),
    ensures
        cut(joined(parts)) == parts,
    decreases parts.len(),
{
    let last = parts.last();
    assert(!parts[parts.len() - 1].contains(':'));
    if parts.len() == 1 {
        lemma_cut_append(Seq::<char>::empty(), last);
        assert(Seq::<char>::empty() + last =~= last);
        assert(cut(last) =~= parts);
    } else {
        let before = parts.drop_last();
        assert forall|i: int| 0 <= i < before.len() implies !(#[trigger] before[i]).contains(
            ':',
        ) by {
            assert(before[i] == parts[i]);
        }
        lemma_cut_joined(before);
        let head = joined(before).push(':');
        assert(head.drop_last() =~= joined(before));
        lemma_cut_append(head, last);
        assert(cut(head + last) =~= parts);
    }
}

proof fn lemma_cut_append(a: Seq<char>, s: Seq<char>)
    requires
        !s.contains(':'),
    ensures
        cut(a + s) == cut(a).drop_last().push(cut(a).last() + s),
    decreases s.len(),
{
    lemma_cut_nonempty(a);
    if s.len() == 0 {
        assert(a + s =~= a);
        assert(cut(a).last() + s =~= cut(a).last());
        assert(cut(a) =~= cut(a).drop_last().push(cut(a).last()));
    } else {
        let t = s.drop_last();
        assert forall|i: int| 0 <= i < t.len() implies t[i] != ':' by {
            assert(s.contains(s[i]));
        }
        lemma_cut_append(a, t);
        assert((a + s).drop_last() =~= a + t);
        assert(s.contains(s[s.len() - 1]));
        let before = cut(a + t);
        assert(before.drop_last() =~= cut(a).drop_last());
        assert((cut(a).last() + t).push(s.last()) =~= cut(a).last() + s);
    }
}

/// No segment of a parsed line holds a separator.
pub proof fn lemma_parsed_separator_free(raw: Seq<char>)
    ensures
        line_of(raw).separator_free(),
{
    lemma_cut_nonempty(raw);
    assert(line_of(raw).parts() =~= cut(raw));
    lemma_cut_separator_free(raw);
}

proof fn lemma_cut_separator_free(s: Seq<char>)
    ensures
        forall|i: int| 0 <= i < cut(s).len() ==> !(#[trigger] cut(s)[i]).contains(':'),
    decreases s.len(),
{
    if s.len() > 0 {
        lemma_cut_nonempty(s.drop_last());
        lemma_cut_separator_free(s.drop_last());
        let before = cut(s.drop_last());
        assert forall|i: int| 0 <= i < cut(s).len() implies !(#[trigger] cut(s)[i]).contains(
            ':',
        ) by {
            if s.last() == ':' {
                if i < before.len() {
                    assert(cut(s)[i] == before[i]);
                }
            } else if i < before.len() - 1 {
                assert(cut(s)[i] == before[i]);
            } else {
                let base = before[before.len() - 1];
                assert(cut(s)[i] == base.push(s.last()));
                assert forall|j: int| 0 <= j < cut(s)[i].len() implies cut(s)[i][j] != ':' by {
                    if j < base.len() {
                        assert(base.contains(base[j]));
                    }
                }
            }
        }
    }
}

/// A step of a segment stands at its column, and at no other.
pub proof fn lemma_column_round_trip(line: BeatLine, seg: int, step: int)
    requires
        0 <= seg < line.segments(),
        0 <= step < line.notes.len(),
    ensures
        line.cell_at(line.column_of(seg, step)) == Some((seg, step)),
        0 <= line.column_of(seg, step) < line.width(),
{
    let stride = line.stride();
    lemma_fundamental_div_mod_converse(line.column_of(seg, step), stride, seg, step);
    assert(seg * stride + step < line.width()) by (nonlinear_arith)
        requires
            stride == line.notes.len() + 1,
            line.width() == line.notes.len() * line.segments() + line.segments() - 1,
            0 <= seg < line.segments(),
            0 <= step < line.notes.len(),
    ;
    assert(seg * stride >= 0) by (nonlinear_arith)
        requires
            seg >= 0,
            stride >= 0,
    ;
}

/// A column that shows a step is the column of that step.
pub proof fn lemma_cell_round_trip(line: BeatLine, col: int)
    requires
        col >= 0,
        line.cell_at(col) is Some,
    ensures
        ({
            let (seg, step) = line.cell_at(col)->0;
            &&& 0 <= seg < line.segments()
            &&& 0 <= step < line.notes.len()
            &&& line.column_of(seg, step) == col
            &&& col < line.width()
        }),
{
    let (seg, step) = line.cell_at(col)->0;
    vstd::arithmetic::div_mod::lemma_fundamental_div_mod(col, line.stride());
    assert(seg * line.stride() == line.stride() * seg) by (nonlinear_arith);
    vstd::arithmetic::div_mod::lemma_div_pos_is_pos(col, line.stride());
    lemma_column_round_trip(line, seg, step);
}

/// One less than the columns of all segments, each with a separator, is the width.
pub proof fn lemma_width(line: BeatLine)
    ensures
        line.width() == line.stride() * line.segments() - 1,
        line.width() >= 0,
        line.notes.len() <= line.width(),
{
    assert(line.stride() * line.segments() == line.notes.len() * line.segments() + line.segments())
        by (nonlinear_arith)
        requires
            line.stride() == line.notes.len() + 1,
    ;
    assert(line.notes.len() * line.segments() >= line.notes.len()) by (nonlinear_arith)
        requires
            line.segments() >= 1,
            line.notes.len() >= 0,
    ;
}

/// A parsed beat line: note segment + zero or more command segments.
/// Raw format: "qwertyui:--*^----:--R----R"
#[derive(Debug)]
pub struct ParsedBeatLine {
    /// The note segment characters (e.g., "qwertyui").
    pub notes: Vec<char>,
    /// Zero or more command segments, meant to be of the length of the notes.
    pub commands: Vec<Vec<char>>,
}

impl View for ParsedBeatLine {
    type V = BeatLine;

    open spec fn view(&self) -> BeatLine {
        BeatLine { notes: self.notes@, commands: rows_of(self.commands@) }
    }
}

impl Clone for ParsedBeatLine {
    fn clone(&self) -> (r: Self)
        ensures
            r@ == self@,
    {
        let mut commands: Vec<Vec<char>> = Vec::new();
        let n = self.commands.len();
        for i in 0..n
            invariant
                n == self.commands@.len(),
                rows_of(commands@) == rows_of(self.commands@).take(i as int),
        {
            let ghost copied = rows_of(commands@);
            commands.push(copy_chars(&self.commands[i]));
            assert(rows_of(commands@) =~= copied.push(self.commands@[i as int]@));
            assert(rows_of(commands@) =~= rows_of(self.commands@).take(i + 1));
        }
        assert(rows_of(commands@) =~= rows_of(self.commands@));
        ParsedBeatLine { notes: copy_chars(&self.notes), commands }
    }
}

impl ParsedBeatLine {
    /// Parse a raw beat string like "qwertyui:--*^----:--R----R".
    pub fn parse(raw: &str) -> (line: Self)
        ensures
            line@ == line_of(raw@),
    {
        let chars = chars_of(raw);
        let n = chars.len();
        let mut notes: Vec<char> = Vec::new();
        let mut commands: Vec<Vec<char>> = Vec::new();
        let mut current: Vec<char> = Vec::new();
        let mut in_notes = true;
        for i in 0..n
            invariant
                n == chars@.len(),
                chars@ == raw@,
                in_notes ==> commands@.len() == 0 && cut(raw@.take(i as int)) == seq![current@],
                !in_notes ==> cut(raw@.take(i as int)) == (seq![notes@] + rows_of(
                    commands@,
                )).push(current@),
        {
            let c = chars[i];
            assert(raw@.take(i + 1).drop_last() =~= raw@.take(i as int));
            let ghost before = cut(raw@.take(i as int));
            if c == ':' {
                if in_notes {
                    notes = current;
                    in_notes = false;
                    assert(cut(raw@.take(i + 1)) =~= (seq![notes@] + rows_of(commands@)).push(
                        Seq::<char>::empty(),
                    ));
                } else {
                    let ghost old_rows = rows_of(commands@);
                    commands.push(current);
                    assert(rows_of(commands@) =~= old_rows.push(current@));
                    assert(cut(raw@.take(i + 1)) =~= (seq![notes@] + rows_of(commands@)).push(
                        Seq::<char>::empty(),
                    ));
                }
                current = Vec::new();
            } else {
                let ghost old_current = current@;
                current.push(c);
                if in_notes {
                    assert(cut(raw@.take(i + 1)) =~= seq![current@]);
                } else {
                    assert(before.drop_last() =~= seq![notes@] + rows_of(commands@));
                }
            }
        }
        assert(raw@.take(n as int) =~= raw@);
        if in_notes {
            let line = ParsedBeatLine { notes: current, commands };
            assert(line@.commands =~= cut(raw@).skip(1));
            line
        } else {
            let ghost old_rows = rows_of(commands@);
            let ghost last = current@;
            commands.push(current);
            assert(rows_of(commands@) =~= old_rows.push(last));
            let line = ParsedBeatLine { notes, commands };
            assert(cut(raw@) =~= seq![notes@] + rows_of(commands@));
            assert(line@.commands =~= cut(raw@).skip(1));
            line
        }
    }

    /// Serialize back to the colon-separated string form.
    pub fn to_raw(&self) -> (s: String)
        ensures
            s@ == self@.raw(),
    {
        let mut s = crate::text::string_of(&self.notes);
        let n = self.commands.len();
        let ghost parts = self@.parts();
        assert(parts.take(1) =~= seq![self.notes@]);
        for i in 0..n
            invariant
                n == self.commands@.len(),
                parts == self@.parts(),
                s@ == joined(parts.take(i + 1)),
        {
            s.push(':');
            let seg = &self.commands[i];
            let m = seg.len();
            let ghost head = s@;
            for j in 0..m
                invariant
                    m == seg@.len(),
                    s@ == head + seg@.take(j as int),
            {
                s.push(seg[j]);
                assert(s@ =~= head + seg@.take(j + 1));
            }
            assert(seg@.take(m as int) =~= seg@);
            assert(parts.take(i + 2).drop_last() =~= parts.take(i + 1));
            assert(parts[i + 1] == seg@);
        }
        assert(parts.take(n + 1) =~= parts);
        s
    }

    /// Number of steps in this line (length of note segment).
    pub fn step_count(&self) -> (n: usize)
        ensures
            n == self@.notes.len(),
    {
        self.notes.len()
    }

    /// Total number of segments (1 note + N command).
    pub fn segment_count(&self) -> (n: usize)
        requires
            self@.segments() <= usize::MAX,
        ensures
            n == self@.segments(),
    {
        1 + self.commands.len()
    }

    /// Total display width including ':' separators.
    pub fn display_width(&self) -> (n: usize)
        requires
            self@.fits(),
        ensures
            n == self@.width(),
    {
        proof {
            lemma_width(self@);
            lemma_fits(self@);
        }
        let segs = self.segment_count();
        self.step_count() * segs + (segs - 1)
    }
}

/// A line whose columns fit a machine word has a stride and a segment count that do too.
pub proof fn lemma_fits(line: BeatLine)
    requires
        line.fits(),
    ensures
        line.stride() <= usize::MAX,
        line.segments() <= usize::MAX,
        line.notes.len() * line.segments() <= usize::MAX,
        line.width() < usize::MAX,
{
    lemma_width(line);
    assert(line.stride() <= line.stride() * line.segments()) by (nonlinear_arith)
        requires
            line.stride() >= 0,
            line.segments() >= 1,
    ;
    assert(line.segments() <= line.stride() * line.segments()) by (nonlinear_arith)
        requires
            line.stride() >= 1,
            line.segments() >= 0,
    ;
}

/// Given a visual column position in a parsed beat line,
/// return (segment_index, step_index) or None if on a ':' separator.
pub fn visual_col_to_segment_step(parsed: &ParsedBeatLine, col: usize) -> (r: Option<
    (usize, usize),
>)
    requires
        parsed@.fits(),
    ensures
        match r {
            Some(cell) => parsed@.cell_at(col as int) == Some((cell.0 as int, cell.1 as int)),
            None => parsed@.cell_at(col as int) is None,
        },
{
    proof {
        lemma_fits(parsed@);
    }
    let step_count = parsed.step_count();
    if step_count == 0 {
        return None;
    }
    let stride = step_count + 1;
    let seg_idx = col / stride;
    let within = col % stride;
    if seg_idx >= parsed.segment_count() {
        return None;
    }
    if within >= step_count {
        return None;
    }
    Some((seg_idx, within))
}

/// Convert (segment_index, step_index) back to visual column.
pub fn segment_step_to_visual_col(parsed: &ParsedBeatLine, seg: usize, step: usize) -> (col: usize)
    requires
        parsed@.stride() <= usize::MAX,
        parsed@.column_of(seg as int, step as int) <= usize::MAX,
    ensures
        col == parsed@.column_of(seg as int, step as int),
{
    let stride = parsed.step_count() + 1;
    assert(seg * stride >= 0) by (nonlinear_arith)
        requires
            seg >= 0,
            stride >= 0,
    ;
    seg * stride + step
}

/// The pitch letters: one semitone per key, up along the top row, down along the middle row.
pub open spec fn pitch_cents_of(c: char) -> int {
    match c {
        'q' => 100,
        'w' => 200,
        'e' => 300,
        'r' => 400,
        't' => 500,
        'y' => 600,
        'u' => 700,
        'i' => 800,
        'o' => 900,
        'p' => 1000,
        'a' => -100,
        's' => -200,
        'd' => -300,
        'f' => -400,
        'g' => -500,
        'h' => -600,
        'j' => -700,
        'k' => -800,
        'l' => -900,
        _ => 0,
    }
}

/// The characters that mean something in a command segment.
pub open spec fn is_command(c: char) -> bool {
    ||| c == '~' || c == '\\' || c == '/' || c == 'R'
    ||| c == 'L' || c == 'H' || c == '*'
    ||| c == '>' || c == '<' || c == '^'
    ||| c == '(' || c == ')' || c == '[' || c == ']'
    ||| pitch_cents_of(c) != 0
    ||| '0' <= c <= '9'
    ||| c == '-'
}

/// Check if a character is valid in a command segment.
pub fn is_valid_command_char(c: char) -> (r: bool)
    ensures
        r == is_command(c),
{
    matches!(
        c,
        '~' | '\\' | '/' | 'R' | 'L' | 'H' | '*'
            | '>' | '<' | '^'
            | '(' | ')' | '[' | ']'
            | 'q' | 'w' | 'e' | 'r' | 't' | 'y' | 'u' | 'i' | 'o' | 'p'
            | 'a' | 's' | 'd' | 'f' | 'g' | 'h' | 'j' | 'k' | 'l'
            | '0'..='9'
            | '-'
    )
}

/// Map a command-segment character to a pitch shift in cents.
/// Positive = up, negative = down. Returns 0 for non-pitch characters.
/// Each step is one semitone (100 cents).
pub fn command_to_pitch_cents(c: char) -> (cents: i32)
    ensures
        cents == pitch_cents_of(c),
{
    match c {
        'q' => 100,
        'w' => 200,
        'e' => 300,
        'r' => 400,
        't' => 500,
        'y' => 600,
        'u' => 700,
        'i' => 800,
        'o' => 900,
        'p' => 1000,
        'a' => -100,
        's' => -200,
        'd' => -300,
        'f' => -400,
        'g' => -500,
        'h' => -600,
        'j' => -700,
        'k' => -800,
        'l' => -900,
        _ => 0,
    }
}

/// Pitch letters go up by one semitone per key along `q`..`p`, down along `a`..`l`.
pub proof fn lemma_pitch_rows(i: int)
    ensures
        0 <= i < 10 ==> "qwertyuiop"@.len() == 10 && pitch_cents_of("qwertyuiop"@[i]) == 100 * (i
            + 1),
        0 <= i < 9 ==> "asdfghjkl"@.len() == 9 && pitch_cents_of("asdfghjkl"@[i]) == -100 * (i
            + 1),
{
    reveal_strlit("qwertyuiop");
    reveal_strlit("asdfghjkl");
}

/// A line without a separator is all notes.
pub proof fn lemma_line_without_separator(raw: Seq<char>)
    requires
        !raw.contains(':'),
    ensures
        line_of(raw) == (BeatLine { notes: raw, commands: Seq::empty() }),
{
    lemma_cut_whole(raw);
    assert(cut(raw).skip(1) =~= Seq::empty());
}

proof fn lemma_cut_whole(s: Seq<char>)
    requires
        !s.contains(':'),
    ensures
        cut(s) == seq![s],
    decreases s.len(),
{
    if s.len() == 0 {
        assert(s =~= Seq::empty());
    } else {
        let init = s.drop_last();
        assert(!init.contains(':')) by {
            if init.contains(':') {
                let i = choose|i: int| 0 <= i < init.len() && init[i] == ':';
                assert(s[i] == ':');
            }
        }
        lemma_cut_whole(init);
        assert(s.last() == s[s.len() - 1]);
        assert(s.last() != ':');
        assert(init.push(s.last()) =~= s);
        assert(cut(s) =~= seq![s]);
    }
}

/// A line is cut at its first separator: what stands before it are the notes, and what stands behind
/// it is read on in the same way, its first part being the first segment of commands.
pub proof fn lemma_line_is_cut_at_separators(notes: Seq<char>, rest: Seq<char>)
    requires
        !notes.contains(':'),
    ensures
        line_of(notes.push(':') + rest).notes == notes,
        line_of(notes.push(':') + rest).commands == seq![line_of(rest).notes] + line_of(rest).commands,
        line_of(notes) == (BeatLine { notes, commands: Seq::empty() }),
{
    lemma_line_without_separator(notes);
    lemma_cut_whole(notes);
    lemma_cut_behind(notes, rest);
    lemma_cut_nonempty(rest);
    let all = cut(notes.push(':') + rest);
    assert(all == seq![notes] + cut(rest));
    assert(all.skip(1) =~= seq![cut(rest)[0]] + cut(rest).skip(1));
}

proof fn lemma_cut_behind(notes: Seq<char>, rest: Seq<char>)
    requires
        !notes.contains(':'),
    ensures
        cut(notes.push(':') + rest) == seq![notes] + cut(rest),
    decreases rest.len(),
{
    let head = notes.push(':');
    if rest.len() == 0 {
        lemma_cut_whole(notes);
        assert(head + rest =~= head);
        assert(head.drop_last() =~= notes);
        assert(cut(head) =~= seq![notes] + cut(rest));
    } else {
        let init = rest.drop_last();
        lemma_cut_behind(notes, init);
        lemma_cut_nonempty(init);
        assert((head + rest).drop_last() =~= head + init);
        assert((head + rest).last() == rest.last());
        let before = cut(head + init);
        let inner = cut(init);
        assert(before == seq![notes] + inner);
        assert(before.last() == inner.last());
        assert(cut(head + rest) =~= seq![notes] + cut(rest));
    }
}

/// A line is written with its notes first and a separator before each segment of commands.
pub proof fn lemma_lines_are_written_in_order(notes: Seq<char>, commands: Seq<Seq<char>>, cmd: Seq<char>)
    ensures
        (BeatLine { notes, commands: Seq::empty() }).raw() == notes,
        (BeatLine { notes, commands: commands.push(cmd) }).raw() == (BeatLine {
            notes,
            commands,
        }).raw().push(':') + cmd,
{
    let none = (BeatLine { notes, commands: Seq::empty() }).parts();
    assert(none =~= seq![notes]);
    let more = (BeatLine { notes, commands: commands.push(cmd) }).parts();
    assert(more.drop_last() =~= (BeatLine { notes, commands }).parts());
    assert(more.last() == cmd);
}

/// A segment takes as many columns as the line has notes, and the separator between two segments one;
/// the steps of a segment stand one behind the other.
pub proof fn lemma_columns_on_screen(line: BeatLine, seg: int, step: int, col: int)
    ensures
        line.column_of(seg, step) == seg * (line.notes.len() + 1) + step,
        line.column_of(0, step) == step,
        line.segments() == line.commands.len() + 1,
        line.width() == line.notes.len() * (line.commands.len() + 1) + line.commands.len(),
        line.cell_at(col) matches Some(cell) ==> 0 <= cell.1 < line.notes.len() && cell.0 <= line.commands.len(),
{
    assert(0 * line.stride() == 0) by (nonlinear_arith);
    vstd::arithmetic::div_mod::lemma_mod_bound(col, line.stride());
}

/// Only the letters of the two rows shift the pitch, and only the pad letters play a pad.
pub proof fn lemma_other_letters(c: char)
    ensures
        pitch_cents_of(c) != 0 <==> "qwertyuiop"@.contains(c) || "asdfghjkl"@.contains(c),
        pad_of(c) is Some <==> "qwertyuiasdfghjk"@.contains(c),
{
    reveal_strlit("qwertyuiop");
    reveal_strlit("asdfghjkl");
    reveal_strlit("qwertyuiasdfghjk");
    let (up, down, pads) = ("qwertyuiop"@, "asdfghjkl"@, "qwertyuiasdfghjk"@);
    assert(up[0] == 'q' && up[1] == 'w' && up[2] == 'e' && up[3] == 'r' && up[4] == 't' && up[5] == 'y'
        && up[6] == 'u' && up[7] == 'i' && up[8] == 'o' && up[9] == 'p');
    assert(down[0] == 'a' && down[1] == 's' && down[2] == 'd' && down[3] == 'f' && down[4] == 'g'
        && down[5] == 'h' && down[6] == 'j' && down[7] == 'k' && down[8] == 'l');
    assert(pads[0] == 'q' && pads[1] == 'w' && pads[2] == 'e' && pads[3] == 'r' && pads[4] == 't'
        && pads[5] == 'y' && pads[6] == 'u' && pads[7] == 'i' && pads[8] == 'a' && pads[9] == 's'
        && pads[10] == 'd' && pads[11] == 'f' && pads[12] == 'g' && pads[13] == 'h' && pads[14] == 'j'
        && pads[15] == 'k');
}

/// What may stand in a segment of commands: the effects and their modifiers, the brackets, the pitch
/// letters, the digits and `-`, and nothing else.
pub proof fn lemma_what_is_a_command(c: char)
    ensures
        is_command(c) <==> "~\\/RLH*<>^()[]-"@.contains(c) || "qwertyuiop"@.contains(c)
            || "asdfghjkl"@.contains(c) || '0' <= c <= '9',
{
    lemma_other_letters(c);
    reveal_strlit("~\\/RLH*<>^()[]-");
    let all = "~\\/RLH*<>^()[]-"@;
    assert(all[0] == '~' && all[1] == '\\' && all[2] == '/' && all[3] == 'R' && all[4] == 'L' && all[5]
        == 'H' && all[6] == '*' && all[7] == '<' && all[8] == '>' && all[9] == '^' && all[10] == '('
        && all[11] == ')' && all[12] == '[' && all[13] == ']' && all[14] == '-');
}

/// A configuration without settings of its own has its sample, its tempo and its lines, and gives no
/// variable.
pub proof fn lemma_what_a_bare_configuration_says(
    sample: Seq<char>,
    bpm: Shown64,
    lines: Seq<Seq<char>>,
)
    ensures
        ({
            let c = bare_config(sample, bpm, lines);
            &&& c.sample == sample && c.bpm == bpm && c.lines == lines
            &&& c.lp is None && c.hp is None && c.dist is None && c.fade is None
            &&& c.slow is None && c.fast is None && c.stutter is None
        }),
{
}

} // verus!
