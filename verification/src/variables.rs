//! The engine's variables: their defaults, their ranges, and the commands that show and set them.

use vstd::prelude::*;

use crate::config::{BreakConfig, Config};
use crate::engine::state::PlaybackState;
use crate::number::{
    at_most32, at_most64, is_nan32, is_nan64, less32, less64, nan32, nan64, Num32, Num64, Range32,
    Range64, Shown32, Shown64,
};
use crate::text::{
    decimal, decimal_of, find_char, first_at, lemma_first_at, parse_whole, part_of, read_whole, spells, trim,
    trimmed,
};

verus! {

/// The bits of 800 in single precision.
pub const LP_DEFAULT: u32 = 0x4448_0000;

/// The bits of 2000 in single precision.
pub const HP_DEFAULT: u32 = 0x44FA_0000;

/// The bits of 0.2 in single precision.
pub const DIST_DEFAULT: u32 = 0x3E4C_CCCD;

/// The bits of 0.5 in single precision.
pub const FADE_DEFAULT: u32 = 0x3F00_0000;

/// The bits of 0.5 in double precision.
pub const SLOW_DEFAULT: u64 = 0x3FE0_0000_0000_0000;

/// The bits of 2 in double precision.
pub const FAST_DEFAULT: u64 = 0x4000_0000_0000_0000;

/// The bits of 2 in single precision.
pub const FAST_SINGLE: u32 = 0x4000_0000;

/// The bits of 1 in single precision.
pub const ONE_SINGLE: u32 = 0x3F80_0000;

/// The bits of 1 in double precision.
pub const ONE_DOUBLE: u64 = 0x3FF0_0000_0000_0000;

/// The bits of 10 in double precision.
pub const TEN_DOUBLE: u64 = 0x4024_0000_0000_0000;

/// The parts of a beat that a stutter lasts one of.
pub const STUTTER_DEFAULT: u32 = 16;

/// What the variables are.
#[verifier::ext_equal]
pub struct Settings {
    pub bpm: Shown64,
    pub lp: Shown32,
    pub hp: Shown32,
    pub dist: Shown32,
    pub fade: Shown32,
    pub slow: Shown64,
    pub fast: Shown64,
    pub stutter: u32,
}

/// Configurable variables for the engine.
pub struct Variables {
    pub bpm: Num64,
    pub lp: Num32,
    pub hp: Num32,
    pub dist: Num32,
    pub fade: Num32,
    pub slow: Num64,
    pub fast: Num64,
    pub stutter: u32,
}

impl View for Variables {
    type V = Settings;

    open spec fn view(&self) -> Settings {
        Settings {
            bpm: self.bpm@,
            lp: self.lp@,
            hp: self.hp@,
            dist: self.dist@,
            fade: self.fade@,
            slow: self.slow@,
            fast: self.fast@,
            stutter: self.stutter,
        }
    }
}

/// A number where it is given, else a default.
pub open spec fn given32(n: Option<Shown32>, bits: u32, text: Seq<char>) -> Shown32 {
    match n {
        Some(v) => v,
        None => Shown32 { bits, text },
    }
}

/// A number where it is given, else a default.
pub open spec fn given64(n: Option<Shown64>, bits: u64, single: u32, text: Seq<char>) -> Shown64 {
    match n {
        Some(v) => v,
        None => Shown64 { bits, single, text },
    }
}

/// The variables that a configuration sets.
pub open spec fn settings_of(c: Config) -> Settings {
    Settings {
        bpm: c.bpm,
        lp: given32(c.lp, LP_DEFAULT, "800"@),
        hp: given32(c.hp, HP_DEFAULT, "2000"@),
        dist: given32(c.dist, DIST_DEFAULT, "0.2"@),
        fade: given32(c.fade, FADE_DEFAULT, "0.5"@),
        slow: given64(c.slow, SLOW_DEFAULT, FADE_DEFAULT, "0.5"@),
        fast: given64(c.fast, FAST_DEFAULT, FAST_SINGLE, "2"@),
        stutter: match c.stutter {
            Some(v) => v,
            None => STUTTER_DEFAULT,
        },
    }
}

/// A number that differs from a default by more than the machine epsilon: one outside the
/// `below` numbers before and the `above` numbers behind the default that are that near to it.
pub open spec fn differs32(b: u32, default: u32, below: int, above: int) -> bool {
    !is_nan32(b) && !(default - below <= b <= default + above)
}

/// A number that differs from a default by more than the machine epsilon: one outside the
/// `below` numbers before and the `above` numbers behind the default that are that near to it.
pub open spec fn differs64(b: u64, default: u64, below: int, above: int) -> bool {
    !is_nan64(b) && !(default - below <= b <= default + above)
}

/// A number, where it is to be saved.
pub open spec fn kept32(n: Shown32, keep: bool) -> Option<Shown32> {
    if keep {
        Some(n)
    } else {
        None
    }
}

/// A number, where it is to be saved.
pub open spec fn kept64(n: Shown64, keep: bool) -> Option<Shown64> {
    if keep {
        Some(n)
    } else {
        None
    }
}

/// The configuration with the variables in it, those that have their default left out.
pub open spec fn applied(v: Settings, c: Config) -> Config {
    Config {
        bpm: v.bpm,
        lp: kept32(v.lp, differs32(v.lp.bits, LP_DEFAULT, 0, 0)),
        hp: kept32(v.hp, differs32(v.hp.bits, HP_DEFAULT, 0, 0)),
        dist: kept32(v.dist, differs32(v.dist.bits, DIST_DEFAULT, 8, 8)),
        fade: kept32(v.fade, differs32(v.fade.bits, FADE_DEFAULT, 4, 2)),
        slow: kept64(v.slow, differs64(v.slow.bits, SLOW_DEFAULT, 4, 2)),
        fast: kept64(v.fast, differs64(v.fast.bits, FAST_DEFAULT, 1, 0)),
        stutter: if v.stutter != STUTTER_DEFAULT {
            Some(v.stutter)
        } else {
            None
        },
        ..c
    }
}

/// The playback state tuned by the variables.
pub open spec fn tuned(v: Settings, s: PlaybackState) -> PlaybackState {
    PlaybackState {
        lp_cutoff: v.lp.bits,
        hp_cutoff: v.hp.bits,
        dist_amount: v.dist.bits,
        fade_point: v.fade.bits,
        slow_ratio: v.slow.single,
        fast_ratio: v.fast.single,
        ..s
    }
}

fn given_or32(n: &Option<Num32>, bits: u32, text: &str) -> (r: Num32)
    ensures
        r@ == given32(crate::number::shown32(*n), bits, text@),
{
    match n {
        Some(v) => v.clone(),
        None => Num32 { bits, text: text.to_owned() },
    }
}

fn given_or64(n: &Option<Num64>, bits: u64, single: u32, text: &str) -> (r: Num64)
    ensures
        r@ == given64(crate::number::shown64(*n), bits, single, text@),
{
    match n {
        Some(v) => v.clone(),
        None => Num64 { bits, single, text: text.to_owned() },
    }
}

fn is_other32(b: u32, default: u32, below: u32, above: u32) -> (r: bool)
    requires
        below <= default,
        default + above <= u32::MAX,
    ensures
        r == differs32(b, default, below as int, above as int),
{
    !nan32(b) && !(default - below <= b && b <= default + above)
}

fn is_other64(b: u64, default: u64, below: u64, above: u64) -> (r: bool)
    requires
        below <= default,
        default + above <= u64::MAX,
    ensures
        r == differs64(b, default, below as int, above as int),
{
    !nan64(b) && !(default - below <= b && b <= default + above)
}

fn keep32(n: &Num32, keep: bool) -> (r: Option<Num32>)
    ensures
        crate::number::shown32(r) == kept32(n@, keep),
{
    if keep {
        Some(n.clone())
    } else {
        None
    }
}

fn keep64(n: &Num64, keep: bool) -> (r: Option<Num64>)
    ensures
        crate::number::shown64(r) == kept64(n@, keep),
{
    if keep {
        Some(n.clone())
    } else {
        None
    }
}

impl Variables {
    /// The variables that a configuration sets; what it does not set has its default.
    pub fn from_config(config: &BreakConfig) -> (v: Self)
        ensures
            v@ == settings_of(config@),
    {
        Variables {
            bpm: config.bpm.clone(),
            lp: given_or32(&config.lp, LP_DEFAULT, "800"),
            hp: given_or32(&config.hp, HP_DEFAULT, "2000"),
            dist: given_or32(&config.dist, DIST_DEFAULT, "0.2"),
            fade: given_or32(&config.fade, FADE_DEFAULT, "0.5"),
            slow: given_or64(&config.slow, SLOW_DEFAULT, FADE_DEFAULT, "0.5"),
            fast: given_or64(&config.fast, FAST_DEFAULT, FAST_SINGLE, "2"),
            stutter: match config.stutter {
                Some(v) => v,
                None => STUTTER_DEFAULT,
            },
        }
    }

    /// Tune the playback state.
    pub fn sync_to_state(&self, state: &mut PlaybackState)
        ensures
            *final(state) == tuned(self@, *old(state)),
    {
        state.lp_cutoff = self.lp.bits;
        state.hp_cutoff = self.hp.bits;
        state.dist_amount = self.dist.bits;
        state.fade_point = self.fade.bits;
        state.slow_ratio = self.slow.single;
        state.fast_ratio = self.fast.single;
    }

    /// Put the variables into a configuration, leaving out those that have their default.
    pub fn apply_to_config(&self, config: &mut BreakConfig)
        ensures
            final(config)@ == applied(self@, old(config)@),
    {
        config.bpm = self.bpm.clone();
        config.lp = keep32(&self.lp, is_other32(self.lp.bits, LP_DEFAULT, 0, 0));
        config.hp = keep32(&self.hp, is_other32(self.hp.bits, HP_DEFAULT, 0, 0));
        config.dist = keep32(&self.dist, is_other32(self.dist.bits, DIST_DEFAULT, 8, 8));
        config.fade = keep32(&self.fade, is_other32(self.fade.bits, FADE_DEFAULT, 4, 2));
        config.slow = keep64(&self.slow, is_other64(self.slow.bits, SLOW_DEFAULT, 4, 2));
        config.fast = keep64(&self.fast, is_other64(self.fast.bits, FAST_DEFAULT, 1, 0));
        config.stutter =
        if self.stutter != STUTTER_DEFAULT {
            Some(self.stutter)
        } else {
            None
        };
    }
}

/// Variables that are saved and loaded again are the same, but for one that is as good as its
/// default, which comes back as the default.
pub proof fn lemma_settings_survive_saving(v: Settings, c: Config)
    ensures
        ({
            let back = settings_of(applied(v, c));
            &&& back.bpm == v.bpm
            &&& back.stutter == v.stutter
            &&& back.lp == (if differs32(v.lp.bits, LP_DEFAULT, 0, 0) {
                v.lp
            } else {
                Shown32 { bits: LP_DEFAULT, text: "800"@ }
            })
            &&& back.hp == (if differs32(v.hp.bits, HP_DEFAULT, 0, 0) {
                v.hp
            } else {
                Shown32 { bits: HP_DEFAULT, text: "2000"@ }
            })
            &&& back.dist == (if differs32(v.dist.bits, DIST_DEFAULT, 8, 8) {
                v.dist
            } else {
                Shown32 { bits: DIST_DEFAULT, text: "0.2"@ }
            })
            &&& back.fade == (if differs32(v.fade.bits, FADE_DEFAULT, 4, 2) {
                v.fade
            } else {
                Shown32 { bits: FADE_DEFAULT, text: "0.5"@ }
            })
            &&& back.slow == (if differs64(v.slow.bits, SLOW_DEFAULT, 4, 2) {
                v.slow
            } else {
                Shown64 { bits: SLOW_DEFAULT, single: FADE_DEFAULT, text: "0.5"@ }
            })
            &&& back.fast == (if differs64(v.fast.bits, FAST_DEFAULT, 1, 0) {
                v.fast
            } else {
                Shown64 { bits: FAST_DEFAULT, single: FAST_SINGLE, text: "2"@ }
            })
            &&& applied(v, c).lines == c.lines
            &&& applied(v, c).sample == c.sample
        }),
{
}

/// What is loaded and saved again says the same: a second round changes nothing more.
pub proof fn lemma_saving_is_stable(v: Settings, c: Config)
    ensures
        applied(settings_of(applied(v, c)), applied(v, c)) == applied(v, c),
{
}

/// What a variable command says in answer.
#[verifier::ext_equal]
pub enum Answer {
    Show(Seq<char>),
    Assigned(Seq<char>),
    Error(Seq<char>),
}

/// What a variable command says in answer: the value shown, the value set, or what is wrong.
#[derive(Debug)]
pub enum VarResult {
    Show(String),
    Assigned(String),
    Error(String),
}

impl View for VarResult {
    type V = Answer;

    open spec fn view(&self) -> Answer {
        match self {
            VarResult::Show(m) => Answer::Show(m@),
            VarResult::Assigned(m) => Answer::Assigned(m@),
            VarResult::Error(m) => Answer::Error(m@),
        }
    }
}

impl Answer {
    /// The words of the answer.
    pub open spec fn words(self) -> Seq<char> {
        match self {
            Answer::Show(m) => m,
            Answer::Assigned(m) => m,
            Answer::Error(m) => m,
        }
    }
}

impl VarResult {
    /// The words of the answer.
    pub fn into_message(self) -> (m: String)
        ensures
            m@ == self@.words(),
    {
        match self {
            VarResult::Show(m) => m,
            VarResult::Assigned(m) => m,
            VarResult::Error(m) => m,
        }
    }
}

/// How the value of a variable command reads as a number: in single and in double precision, or
/// why it does not.
pub struct Reading {
    pub single: Result<Num32, String>,
    pub double: Result<Num64, String>,
}

/// A reading as a number or the words of an error.
pub open spec fn read32(r: Result<Num32, String>) -> Result<Shown32, Seq<char>> {
    match r {
        Ok(n) => Ok(n@),
        Err(e) => Err(e@),
    }
}

/// A reading as a number or the words of an error.
pub open spec fn read64(r: Result<Num64, String>) -> Result<Shown64, Seq<char>> {
    match r {
        Ok(n) => Ok(n@),
        Err(e) => Err(e@),
    }
}

/// `name = value`, with what is put behind the value.
pub open spec fn equation(name: Seq<char>, value: Seq<char>, suffix: Seq<char>) -> Seq<char> {
    name + " = "@ + value + suffix
}

/// `name: what is wrong`.
pub open spec fn complaint(name: Seq<char>, wrong: Seq<char>) -> Seq<char> {
    name + ": "@ + wrong
}

/// A variable after a command that shows it (no value) or sets it, and the answer.
pub open spec fn set32(
    name: Seq<char>,
    value: Option<Result<Shown32, Seq<char>>>,
    field: Shown32,
    range: Range32,
    range_msg: Seq<char>,
    suffix: Seq<char>,
) -> (Shown32, Answer) {
    match value {
        None => (field, Answer::Show(equation(name, field.text, suffix))),
        Some(Ok(n)) => if range.holds(n.bits) {
            (n, Answer::Assigned(equation(name, n.text, suffix)))
        } else {
            (field, Answer::Error(complaint(name, range_msg)))
        },
        Some(Err(e)) => (field, Answer::Error(complaint(name, e))),
    }
}

/// A variable after a command that shows it (no value) or sets it, and the answer.
pub open spec fn set64(
    name: Seq<char>,
    value: Option<Result<Shown64, Seq<char>>>,
    field: Shown64,
    range: Range64,
    range_msg: Seq<char>,
) -> (Shown64, Answer) {
    match value {
        None => (field, Answer::Show(equation(name, field.text, ""@))),
        Some(Ok(n)) => if range.holds(n.bits) {
            (n, Answer::Assigned(equation(name, n.text, ""@)))
        } else {
            (field, Answer::Error(complaint(name, range_msg)))
        },
        Some(Err(e)) => (field, Answer::Error(complaint(name, e))),
    }
}

/// The stutter variable after a command that shows it (no value) or sets it, and the answer.
pub open spec fn set_stutter(value: Option<Seq<char>>, field: u32) -> (u32, Answer) {
    match value {
        None => (field, Answer::Show(equation("stutter"@, decimal(field as nat), ""@))),
        Some(text) => match read_whole(text) {
            Ok(n) => if 2 <= n <= 16 {
                (n, Answer::Assigned(equation("stutter"@, decimal(n as nat), ""@)))
            } else {
                (field, Answer::Error("stutter: must be 2-16"@))
            },
            Err(e) => (field, Answer::Error(complaint("stutter"@, e.words()))),
        },
    }
}

fn say_equation(name: &str, value: &str, suffix: &str) -> (s: String)
    ensures
        s@ == equation(name@, value@, suffix@),
{
    let mut s = name.to_owned();
    s.append(" = ");
    s.append(value);
    s.append(suffix);
    s
}

fn say_complaint(name: &str, wrong: &str) -> (s: String)
    ensures
        s@ == complaint(name@, wrong@),
{
    let mut s = name.to_owned();
    s.append(": ");
    s.append(wrong);
    s
}

/// Show or set a single-precision variable. A value that is no number, or out of range, is
/// refused.
pub fn set_var_f32(
    name: &str,
    value: Option<&Result<Num32, String>>,
    field: &mut Num32,
    range: Range32,
    range_msg: &str,
    suffix: &str,
) -> (r: VarResult)
    ensures
        (final(field)@, r@) == set32(
            name@,
            match value {
                Some(v) => Some(read32(*v)),
                None => None,
            },
            old(field)@,
            range,
            range_msg@,
            suffix@,
        ),
{
    match value {
        None => VarResult::Show(say_equation(name, field.text.as_str(), suffix)),
        Some(Ok(v)) => {
            if range.contains(v.bits) {
                *field = v.clone();
                VarResult::Assigned(say_equation(name, v.text.as_str(), suffix))
            } else {
                VarResult::Error(say_complaint(name, range_msg))
            }
        },
        Some(Err(e)) => VarResult::Error(say_complaint(name, e.as_str())),
    }
}

/// Show or set a double-precision variable. A value that is no number, or out of range, is
/// refused.
pub fn set_var_f64(
    name: &str,
    value: Option<&Result<Num64, String>>,
    field: &mut Num64,
    range: Range64,
    range_msg: &str,
) -> (r: VarResult)
    ensures
        (final(field)@, r@) == set64(
            name@,
            match value {
                Some(v) => Some(read64(*v)),
                None => None,
            },
            old(field)@,
            range,
            range_msg@,
        ),
{
    match value {
        None => VarResult::Show(say_equation(name, field.text.as_str(), "")),
        Some(Ok(v)) => {
            if range.contains(v.bits) {
                *field = v.clone();
                VarResult::Assigned(say_equation(name, v.text.as_str(), ""))
            } else {
                VarResult::Error(say_complaint(name, range_msg))
            }
        },
        Some(Err(e)) => VarResult::Error(say_complaint(name, e.as_str())),
    }
}

/// The name in a variable command: all before the first `=`, or the whole without white space
/// around it.
pub open spec fn name_in(cmd: Seq<char>) -> Seq<char> {
    match first_at(cmd, '=') {
        Some(p) => cmd.take(p),
        None => trimmed(cmd),
    }
}

/// The value in a variable command: all behind the first `=`, without white space around it.
pub open spec fn value_in(cmd: Seq<char>) -> Option<Seq<char>> {
    match first_at(cmd, '=') {
        Some(p) => Some(trimmed(cmd.skip(p + 1))),
        None => None,
    }
}

/// The variables after a variable command, and the answer; `None` where the command names no
/// variable.
pub open spec fn variable_command(
    cmd: Seq<char>,
    reading: Reading,
    v: Settings,
) -> (Settings, Option<Answer>) {
    let name = name_in(cmd);
    let value = value_in(cmd);
    let single = match value {
        Some(_) => Some(read32(reading.single)),
        None => None,
    };
    let double = match value {
        Some(_) => Some(read64(reading.double)),
        None => None,
    };
    if name == "bpm"@ {
        let (field, outcome) = set64(
            "bpm"@,
            double,
            v.bpm,
            (Range64 { least: ONE_DOUBLE, with_least: true, greatest: None, with_greatest: false }),
            "must be >= 1.0"@,
        );
        (Settings { bpm: field, ..v }, Some(outcome))
    } else if name == "lp"@ {
        let (field, outcome) = set32(
            "lp"@,
            single,
            v.lp,
            (Range32 { least: 0, with_least: false, greatest: None }),
            "must be > 0.0"@,
            " Hz"@,
        );
        (Settings { lp: field, ..v }, Some(outcome))
    } else if name == "hp"@ {
        let (field, outcome) = set32(
            "hp"@,
            single,
            v.hp,
            (Range32 { least: 0, with_least: false, greatest: None }),
            "must be > 0.0"@,
            " Hz"@,
        );
        (Settings { hp: field, ..v }, Some(outcome))
    } else if name == "dist"@ {
        let (field, outcome) = set32(
            "dist"@,
            single,
            v.dist,
            (Range32 { least: 0, with_least: true, greatest: Some(ONE_SINGLE) }),
            "must be 0.0-1.0"@,
            ""@,
        );
        (Settings { dist: field, ..v }, Some(outcome))
    } else if name == "fade"@ {
        let (field, outcome) = set32(
            "fade"@,
            single,
            v.fade,
            (Range32 { least: 0, with_least: false, greatest: Some(ONE_SINGLE) }),
            "must be > 0.0 and <= 1.0"@,
            ""@,
        );
        (Settings { fade: field, ..v }, Some(outcome))
    } else if name == "slow"@ {
        let (field, outcome) = set64(
            "slow"@,
            double,
            v.slow,
            (Range64 { least: 0, with_least: false, greatest: Some(ONE_DOUBLE), with_greatest: false }),
            "must be > 0.0 and < 1.0"@,
        );
        (Settings { slow: field, ..v }, Some(outcome))
    } else if name == "fast"@ {
        let (field, outcome) = set64(
            "fast"@,
            double,
            v.fast,
            (Range64 { least: ONE_DOUBLE, with_least: true, greatest: Some(TEN_DOUBLE), with_greatest: true }),
            "must be 1.0-10.0"@,
        );
        (Settings { fast: field, ..v }, Some(outcome))
    } else if name == "stutter"@ {
        let (field, outcome) = set_stutter(value, v.stutter);
        (Settings { stutter: field, ..v }, Some(outcome))
    } else {
        (v, None)
    }
}

/// The value in a variable command, where it has one.
pub fn variable_value(cmd: &[char]) -> (r: Option<Vec<char>>)
    ensures
        match r {
            Some(t) => value_in(cmd@) == Some(t@),
            None => value_in(cmd@) is None,
        },
{
    let n = cmd.len();
    match find_char(cmd, '=') {
        Some(p) => {
            let tail = part_of(cmd, p + 1, n);
            assert(tail@ =~= cmd@.skip(p + 1));
            Some(trim(&tail))
        },
        None => None,
    }
}

/// Show or set the stutter variable.
fn set_var_stutter(value: &Option<Vec<char>>, field: &mut u32) -> (r: VarResult)
    ensures
        (*final(field), r@) == set_stutter(
            match *value {
                Some(t) => Some(t@),
                None => None,
            },
            *old(field),
        ),
{
    match value {
        None => VarResult::Show(say_equation("stutter", decimal_of(*field as u128).as_str(), "")),
        Some(text) => match parse_whole(text) {
            Ok(n) => {
                if 2 <= n && n <= 16 {
                    *field = n;
                    VarResult::Assigned(say_equation("stutter", decimal_of(n as u128).as_str(), ""))
                } else {
                    VarResult::Error("stutter: must be 2-16".to_string())
                }
            },
            Err(e) => VarResult::Error(say_complaint("stutter", e.message())),
        },
    }
}

/// Run a command that shows a variable (`name`) or sets one (`name=value`). `reading` is how the
/// value, where there is one, reads as a number. None where the command names no variable.
pub fn try_variable_command(cmd: &[char], reading: &Reading, vars: &mut Variables) -> (r: Option<
    VarResult,
>)
    ensures
        ({
            let (after, answer) = variable_command(cmd@, *reading, old(vars)@);
            &&& final(vars)@ == after
            &&& match r {
                Some(m) => answer == Some(m@),
                None => answer is None,
            }
        }),
{
    let name = match find_char(cmd, '=') {
        Some(p) => {
            let head = part_of(cmd, 0, p);
            assert(head@ =~= cmd@.take(p as int));
            head
        },
        None => trim(cmd),
    };
    let value = variable_value(cmd);
    let single = if value.is_some() {
        Some(&reading.single)
    } else {
        None
    };
    let double = if value.is_some() {
        Some(&reading.double)
    } else {
        None
    };
    if spells(&name, "bpm") {
        Some(
            set_var_f64(
                "bpm",
                double,
                &mut vars.bpm,
                Range64 { least: ONE_DOUBLE, with_least: true, greatest: None, with_greatest: false },
                "must be >= 1.0",
            ),
        )
    } else if spells(&name, "lp") {
        Some(
            set_var_f32(
                "lp",
                single,
                &mut vars.lp,
                Range32 { least: 0, with_least: false, greatest: None },
                "must be > 0.0",
                " Hz",
            ),
        )
    } else if spells(&name, "hp") {
        Some(
            set_var_f32(
                "hp",
                single,
                &mut vars.hp,
                Range32 { least: 0, with_least: false, greatest: None },
                "must be > 0.0",
                " Hz",
            ),
        )
    } else if spells(&name, "dist") {
        Some(
            set_var_f32(
                "dist",
                single,
                &mut vars.dist,
                Range32 { least: 0, with_least: true, greatest: Some(ONE_SINGLE) },
                "must be 0.0-1.0",
                "",
            ),
        )
    } else if spells(&name, "fade") {
        Some(
            set_var_f32(
                "fade",
                single,
                &mut vars.fade,
                Range32 { least: 0, with_least: false, greatest: Some(ONE_SINGLE) },
                "must be > 0.0 and <= 1.0",
                "",
            ),
        )
    } else if spells(&name, "slow") {
        Some(
            set_var_f64(
                "slow",
                double,
                &mut vars.slow,
                Range64 { least: 0, with_least: false, greatest: Some(ONE_DOUBLE), with_greatest: false },
                "must be > 0.0 and < 1.0",
            ),
        )
    } else if spells(&name, "fast") {
        Some(
            set_var_f64(
                "fast",
                double,
                &mut vars.fast,
                Range64 { least: ONE_DOUBLE, with_least: true, greatest: Some(TEN_DOUBLE), with_greatest: true },
                "must be 1.0-10.0",
            ),
        )
    } else if spells(&name, "stutter") {
        Some(set_var_stutter(&value, &mut vars.stutter))
    } else {
        None
    }
}

/// The variables are within their ranges.
pub open spec fn in_bounds(v: Settings) -> bool {
    &&& crate::number::at_most64(ONE_DOUBLE, v.bpm.bits)
    &&& crate::number::less32(0, v.lp.bits)
    &&& crate::number::less32(0, v.hp.bits)
    &&& crate::number::at_most32(0, v.dist.bits) && crate::number::at_most32(
        v.dist.bits,
        ONE_SINGLE,
    )
    &&& crate::number::less32(0, v.fade.bits) && crate::number::at_most32(v.fade.bits, ONE_SINGLE)
    &&& crate::number::less64(0, v.slow.bits) && crate::number::less64(v.slow.bits, ONE_DOUBLE)
    &&& crate::number::at_most64(ONE_DOUBLE, v.fast.bits) && crate::number::at_most64(
        v.fast.bits,
        TEN_DOUBLE,
    )
    &&& 2 <= v.stutter <= 16
}

/// No variable command takes a variable out of its range.
pub proof fn lemma_commands_keep_bounds(cmd: Seq<char>, reading: Reading, v: Settings)
    requires
        in_bounds(v),
    ensures
        in_bounds(variable_command(cmd, reading, v).0),
{
}

/// A command without a value only shows; a refused value leaves every variable as it was.
pub proof fn lemma_only_set_changes(cmd: Seq<char>, reading: Reading, v: Settings)
    ensures
        ({
            let (after, answer) = variable_command(cmd, reading, v);
            &&& value_in(cmd) is None ==> after == v && !(answer matches Some(Answer::Assigned(_)))
            &&& !(answer matches Some(Answer::Assigned(_))) ==> after == v
        }),
{
}

/// What a variable command names and gives: the name stands before the first `=` and the value
/// behind it, without white space around it; without a `=` the whole is a name.
pub proof fn lemma_names_and_values(name: Seq<char>, text: Seq<char>)
    requires
        !name.contains('='),
    ensures
        name_in(name.push('=') + text) == name,
        value_in(name.push('=') + text) == Some(trimmed(text)),
        name_in(name) == trimmed(name),
        value_in(name) is None,
{
    lemma_first_at(name, '=');
    let cmd = name.push('=') + text;
    lemma_first_at(cmd, '=');
    assert(cmd[name.len() as int] == '=');
    assert(cmd.contains('='));
    let p = first_at(cmd, '=')->Some_0;
    assert(p == name.len()) by {
        if p < name.len() {
            assert(cmd[p] == name[p]);
            assert(name.contains('='));
        }
        if p > name.len() {
            assert(cmd[name.len() as int] != '=');
        }
    }
    assert(cmd.take(p) =~= name);
    assert(cmd.skip(p + 1) =~= text);
}

proof fn lemma_variable_names()
    ensures
        "bpm"@ == seq!['b', 'p', 'm'],
        "lp"@ == seq!['l', 'p'],
        "hp"@ == seq!['h', 'p'],
        "dist"@ == seq!['d', 'i', 's', 't'],
        "fade"@ == seq!['f', 'a', 'd', 'e'],
        "slow"@ == seq!['s', 'l', 'o', 'w'],
        "fast"@ == seq!['f', 'a', 's', 't'],
        "stutter"@ == seq!['s', 't', 'u', 't', 't', 'e', 'r'],
{
    reveal_strlit("bpm");
    reveal_strlit("lp");
    reveal_strlit("hp");
    reveal_strlit("dist");
    reveal_strlit("fade");
    reveal_strlit("slow");
    reveal_strlit("fast");
    reveal_strlit("stutter");
    assert("bpm"@ =~= seq!['b', 'p', 'm']);
    assert("lp"@ =~= seq!['l', 'p']);
    assert("hp"@ =~= seq!['h', 'p']);
    assert("dist"@ =~= seq!['d', 'i', 's', 't']);
    assert("fade"@ =~= seq!['f', 'a', 'd', 'e']);
    assert("slow"@ =~= seq!['s', 'l', 'o', 'w']);
    assert("fast"@ =~= seq!['f', 'a', 's', 't']);
    assert("stutter"@ =~= seq!['s', 't', 'u', 't', 't', 'e', 'r']);
}

proof fn lemma_variable_names_differ(a: Seq<char>)
    ensures
        a == "bpm"@ ==> a != "lp"@ && a != "hp"@ && a != "dist"@ && a != "fade"@ && a != "slow"@ && a != "fast"@ && a != "stutter"@,
        a == "lp"@ ==> a != "bpm"@ && a != "hp"@ && a != "dist"@ && a != "fade"@ && a != "slow"@ && a != "fast"@ && a != "stutter"@,
        a == "hp"@ ==> a != "bpm"@ && a != "lp"@ && a != "dist"@ && a != "fade"@ && a != "slow"@ && a != "fast"@ && a != "stutter"@,
        a == "dist"@ ==> a != "bpm"@ && a != "lp"@ && a != "hp"@ && a != "fade"@ && a != "slow"@ && a != "fast"@ && a != "stutter"@,
        a == "fade"@ ==> a != "bpm"@ && a != "lp"@ && a != "hp"@ && a != "dist"@ && a != "slow"@ && a != "fast"@ && a != "stutter"@,
        a == "slow"@ ==> a != "bpm"@ && a != "lp"@ && a != "hp"@ && a != "dist"@ && a != "fade"@ && a != "fast"@ && a != "stutter"@,
        a == "fast"@ ==> a != "bpm"@ && a != "lp"@ && a != "hp"@ && a != "dist"@ && a != "fade"@ && a != "slow"@ && a != "stutter"@,
        a == "stutter"@ ==> a != "bpm"@ && a != "lp"@ && a != "hp"@ && a != "dist"@ && a != "fade"@ && a != "slow"@ && a != "fast"@,
{
    lemma_variable_names();
    if a.len() == 2 {
        assert(a == seq!['l', 'p'] ==> a[0] == 'l');
        assert(a == seq!['h', 'p'] ==> a[0] == 'h');
    } else if a.len() == 4 {
        assert(a == seq!['d', 'i', 's', 't'] ==> a[0] == 'd');
        assert(a == seq!['f', 'a', 'd', 'e'] ==> a[2] == 'd');
        assert(a == seq!['s', 'l', 'o', 'w'] ==> a[0] == 's');
        assert(a == seq!['f', 'a', 's', 't'] ==> a[2] == 's');
    }
}

/// `bpm` is set to the value given where that is a number in range, and shown as it is where none is
/// given; a value that does not do is refused. No other variable changes.
pub proof fn lemma_setting_bpm(cmd: Seq<char>, reading: Reading, v: Settings)
    requires
        name_in(cmd) == "bpm"@,
    ensures
        ({
            let (after, answer) = variable_command(cmd, reading, v);
            &&& after == (Settings { bpm: after.bpm, ..v })
            &&& value_in(cmd) is None ==> after == v && answer == Some(
                Answer::Show("bpm"@ + " = "@ + v.bpm.text + ""@),
            )
            &&& value_in(cmd) is Some ==> match reading.double {
                Ok(n) => if at_most64(0x3FF0_0000_0000_0000, n.bits) {
                    after.bpm == n@ && answer == Some(
                        Answer::Assigned("bpm"@ + " = "@ + n@.text + ""@),
                    )
                } else {
                    after == v && answer == Some(Answer::Error("bpm"@ + ": "@ + "must be >= 1.0"@))
                },
                Err(e) => after == v && answer == Some(Answer::Error("bpm"@ + ": "@ + e@)),
            }
        }),
{
    lemma_variable_names_differ("bpm"@);
}

/// `lp` is set to the value given where that is a number in range, and shown as it is where none is
/// given; a value that does not do is refused. No other variable changes.
pub proof fn lemma_setting_lp(cmd: Seq<char>, reading: Reading, v: Settings)
    requires
        name_in(cmd) == "lp"@,
    ensures
        ({
            let (after, answer) = variable_command(cmd, reading, v);
            &&& after == (Settings { lp: after.lp, ..v })
            &&& value_in(cmd) is None ==> after == v && answer == Some(
                Answer::Show("lp"@ + " = "@ + v.lp.text + " Hz"@),
            )
            &&& value_in(cmd) is Some ==> match reading.single {
                Ok(n) => if less32(0, n.bits) {
                    after.lp == n@ && answer == Some(
                        Answer::Assigned("lp"@ + " = "@ + n@.text + " Hz"@),
                    )
                } else {
                    after == v && answer == Some(Answer::Error("lp"@ + ": "@ + "must be > 0.0"@))
                },
                Err(e) => after == v && answer == Some(Answer::Error("lp"@ + ": "@ + e@)),
            }
        }),
{
    lemma_variable_names_differ("lp"@);
}

/// `hp` is set to the value given where that is a number in range, and shown as it is where none is
/// given; a value that does not do is refused. No other variable changes.
pub proof fn lemma_setting_hp(cmd: Seq<char>, reading: Reading, v: Settings)
    requires
        name_in(cmd) == "hp"@,
    ensures
        ({
            let (after, answer) = variable_command(cmd, reading, v);
            &&& after == (Settings { hp: after.hp, ..v })
            &&& value_in(cmd) is None ==> after == v && answer == Some(
                Answer::Show("hp"@ + " = "@ + v.hp.text + " Hz"@),
            )
            &&& value_in(cmd) is Some ==> match reading.single {
                Ok(n) => if less32(0, n.bits) {
                    after.hp == n@ && answer == Some(
                        Answer::Assigned("hp"@ + " = "@ + n@.text + " Hz"@),
                    )
                } else {
                    after == v && answer == Some(Answer::Error("hp"@ + ": "@ + "must be > 0.0"@))
                },
                Err(e) => after == v && answer == Some(Answer::Error("hp"@ + ": "@ + e@)),
            }
        }),
{
    lemma_variable_names_differ("hp"@);
}

/// `dist` is set to the value given where that is a number in range, and shown as it is where none is
/// given; a value that does not do is refused. No other variable changes.
pub proof fn lemma_setting_dist(cmd: Seq<char>, reading: Reading, v: Settings)
    requires
        name_in(cmd) == "dist"@,
    ensures
        ({
            let (after, answer) = variable_command(cmd, reading, v);
            &&& after == (Settings { dist: after.dist, ..v })
            &&& value_in(cmd) is None ==> after == v && answer == Some(
                Answer::Show("dist"@ + " = "@ + v.dist.text + ""@),
            )
            &&& value_in(cmd) is Some ==> match reading.single {
                Ok(n) => if at_most32(0, n.bits) && at_most32(n.bits, 0x3F80_0000) {
                    after.dist == n@ && answer == Some(
                        Answer::Assigned("dist"@ + " = "@ + n@.text + ""@),
                    )
                } else {
                    after == v && answer == Some(Answer::Error("dist"@ + ": "@ + "must be 0.0-1.0"@))
                },
                Err(e) => after == v && answer == Some(Answer::Error("dist"@ + ": "@ + e@)),
            }
        }),
{
    lemma_variable_names_differ("dist"@);
}

/// `fade` is set to the value given where that is a number in range, and shown as it is where none is
/// given; a value that does not do is refused. No other variable changes.
pub proof fn lemma_setting_fade(cmd: Seq<char>, reading: Reading, v: Settings)
    requires
        name_in(cmd) == "fade"@,
    ensures
        ({
            let (after, answer) = variable_command(cmd, reading, v);
            &&& after == (Settings { fade: after.fade, ..v })
            &&& value_in(cmd) is None ==> after == v && answer == Some(
                Answer::Show("fade"@ + " = "@ + v.fade.text + ""@),
            )
            &&& value_in(cmd) is Some ==> match reading.single {
                Ok(n) => if less32(0, n.bits) && at_most32(n.bits, 0x3F80_0000) {
                    after.fade == n@ && answer == Some(
                        Answer::Assigned("fade"@ + " = "@ + n@.text + ""@),
                    )
                } else {
                    after == v && answer == Some(Answer::Error("fade"@ + ": "@ + "must be > 0.0 and <= 1.0"@))
                },
                Err(e) => after == v && answer == Some(Answer::Error("fade"@ + ": "@ + e@)),
            }
        }),
{
    lemma_variable_names_differ("fade"@);
}

/// `slow` is set to the value given where that is a number in range, and shown as it is where none is
/// given; a value that does not do is refused. No other variable changes.
pub proof fn lemma_setting_slow(cmd: Seq<char>, reading: Reading, v: Settings)
    requires
        name_in(cmd) == "slow"@,
    ensures
        ({
            let (after, answer) = variable_command(cmd, reading, v);
            &&& after == (Settings { slow: after.slow, ..v })
            &&& value_in(cmd) is None ==> after == v && answer == Some(
                Answer::Show("slow"@ + " = "@ + v.slow.text + ""@),
            )
            &&& value_in(cmd) is Some ==> match reading.double {
                Ok(n) => if less64(0, n.bits) && less64(n.bits, 0x3FF0_0000_0000_0000) {
                    after.slow == n@ && answer == Some(
                        Answer::Assigned("slow"@ + " = "@ + n@.text + ""@),
                    )
                } else {
                    after == v && answer == Some(Answer::Error("slow"@ + ": "@ + "must be > 0.0 and < 1.0"@))
                },
                Err(e) => after == v && answer == Some(Answer::Error("slow"@ + ": "@ + e@)),
            }
        }),
{
    lemma_variable_names_differ("slow"@);
}

/// `fast` is set to the value given where that is a number in range, and shown as it is where none is
/// given; a value that does not do is refused. No other variable changes.
pub proof fn lemma_setting_fast(cmd: Seq<char>, reading: Reading, v: Settings)
    requires
        name_in(cmd) == "fast"@,
    ensures
        ({
            let (after, answer) = variable_command(cmd, reading, v);
            &&& after == (Settings { fast: after.fast, ..v })
            &&& value_in(cmd) is None ==> after == v && answer == Some(
                Answer::Show("fast"@ + " = "@ + v.fast.text + ""@),
            )
            &&& value_in(cmd) is Some ==> match reading.double {
                Ok(n) => if at_most64(0x3FF0_0000_0000_0000, n.bits) && at_most64(n.bits, 0x4024_0000_0000_0000) {
                    after.fast == n@ && answer == Some(
                        Answer::Assigned("fast"@ + " = "@ + n@.text + ""@),
                    )
                } else {
                    after == v && answer == Some(Answer::Error("fast"@ + ": "@ + "must be 1.0-10.0"@))
                },
                Err(e) => after == v && answer == Some(Answer::Error("fast"@ + ": "@ + e@)),
            }
        }),
{
    lemma_variable_names_differ("fast"@);
}

/// `stutter` is set to a whole number from 2 to 16, and to nothing else.
pub proof fn lemma_setting_stutter(cmd: Seq<char>, reading: Reading, v: Settings)
    requires
        name_in(cmd) == "stutter"@,
    ensures
        ({
            let (after, answer) = variable_command(cmd, reading, v);
            &&& after == (Settings { stutter: after.stutter, ..v })
            &&& match value_in(cmd) {
                None => after == v && answer == Some(
                    Answer::Show("stutter"@ + " = "@ + decimal(v.stutter as nat) + ""@),
                ),
                Some(text) => match read_whole(text) {
                    Ok(n) => if 2 <= n && n <= 16 {
                        after.stutter == n && answer == Some(
                            Answer::Assigned("stutter"@ + " = "@ + decimal(n as nat) + ""@),
                        )
                    } else {
                        after == v && answer == Some(Answer::Error("stutter: must be 2-16"@))
                    },
                    Err(e) => after == v && answer == Some(
                        Answer::Error("stutter"@ + ": "@ + e.words()),
                    ),
                },
            }
        }),
{
    lemma_variable_names_differ("stutter"@);
}

/// No other name is a variable.
pub proof fn lemma_other_names(cmd: Seq<char>, reading: Reading, v: Settings)
    ensures
        variable_command(cmd, reading, v).1 is None <==> ({
            let name = name_in(cmd);
            name != "bpm"@ && name != "lp"@ && name != "hp"@ && name != "dist"@ && name != "fade"@
                && name != "slow"@ && name != "fast"@ && name != "stutter"@
        }),
        variable_command(cmd, reading, v).1 is None ==> variable_command(cmd, reading, v).0 == v,
{
}

/// A configuration sets the variables that it gives; the others have their defaults: cutoffs of 800
/// and 2000 Hz, a distortion of 0.2, a fade and half speed of 0.5, double speed of 2, and sixteen
/// parts to a beat.
pub proof fn lemma_what_a_configuration_sets(c: Config)
    ensures
        ({
            let v = settings_of(c);
            &&& v.bpm == c.bpm
            &&& c.lp matches Some(n) ==> v.lp == n
            &&& c.hp matches Some(n) ==> v.hp == n
            &&& c.dist matches Some(n) ==> v.dist == n
            &&& c.fade matches Some(n) ==> v.fade == n
            &&& c.slow matches Some(n) ==> v.slow == n
            &&& c.fast matches Some(n) ==> v.fast == n
            &&& c.stutter matches Some(n) ==> v.stutter == n
            &&& c.lp is None ==> v.lp.bits == 0x4448_0000 && v.lp.text == "800"@
            &&& c.hp is None ==> v.hp.bits == 0x44FA_0000 && v.hp.text == "2000"@
            &&& c.dist is None ==> v.dist.bits == 0x3E4C_CCCD && v.dist.text == "0.2"@
            &&& c.fade is None ==> v.fade.bits == 0x3F00_0000 && v.fade.text == "0.5"@
            &&& c.slow is None ==> v.slow.bits == 0x3FE0_0000_0000_0000 && v.slow.single == 0x3F00_0000
                && v.slow.text == "0.5"@
            &&& c.fast is None ==> v.fast.bits == 0x4000_0000_0000_0000 && v.fast.single == 0x4000_0000
                && v.fast.text == "2"@
            &&& c.stutter is None ==> v.stutter == 16
        }),
{
}

/// What is saved: the tempo always, and of the others those that are numbers and not as good as their
/// defaults; the sample and the pattern as they were.
pub proof fn lemma_what_is_saved(v: Settings, c: Config)
    ensures
        ({
            let a = applied(v, c);
            &&& a.bpm == v.bpm && a.sample == c.sample && a.lines == c.lines
            &&& a.lp == if is_nan32(v.lp.bits) || v.lp.bits == 0x4448_0000 {
                None
            } else {
                Some(v.lp)
            }
            &&& a.hp == if is_nan32(v.hp.bits) || v.hp.bits == 0x44FA_0000 {
                None
            } else {
                Some(v.hp)
            }
            &&& a.dist == if is_nan32(v.dist.bits) || 0x3E4C_CCC5 <= v.dist.bits <= 0x3E4C_CCD5 {
                None
            } else {
                Some(v.dist)
            }
            &&& a.fade == if is_nan32(v.fade.bits) || 0x3EFF_FFFC <= v.fade.bits <= 0x3F00_0002 {
                None
            } else {
                Some(v.fade)
            }
            &&& a.slow == if is_nan64(v.slow.bits) || 0x3FDF_FFFF_FFFF_FFFC <= v.slow.bits
                <= 0x3FE0_0000_0000_0002 {
                None
            } else {
                Some(v.slow)
            }
            &&& a.fast == if is_nan64(v.fast.bits) || 0x3FFF_FFFF_FFFF_FFFF <= v.fast.bits
                <= 0x4000_0000_0000_0000 {
                None
            } else {
                Some(v.fast)
            }
            &&& a.stutter == if v.stutter == 16 {
                None
            } else {
                Some(v.stutter)
            }
        }),
{
}

/// Tuning hands each variable to the place where it is heard, and changes nothing else.
pub proof fn lemma_what_tuning_sets(v: Settings, s: PlaybackState)
    ensures
        tuned(v, s) == (PlaybackState {
            lp_cutoff: v.lp.bits,
            hp_cutoff: v.hp.bits,
            dist_amount: v.dist.bits,
            fade_point: v.fade.bits,
            slow_ratio: v.slow.single,
            fast_ratio: v.fast.single,
            ..s
        }),
{
}

/// A variable of any name takes a value that reads as a number in its range, and keeps its own where
/// none is given, where the value does not read, and where it is out of range.
pub proof fn lemma_setting_any(
    name: Seq<char>,
    single: Shown32,
    double: Shown64,
    n: Shown32,
    w: Shown64,
    range: Range32,
    wide: Range64,
    msg: Seq<char>,
    suffix: Seq<char>,
    e: Seq<char>,
)
    ensures
        set32(name, None, single, range, msg, suffix) == (
            single,
            Answer::Show(name + " = "@ + single.text + suffix),
        ),
        set32(name, Some(Ok(n)), single, range, msg, suffix) == if range.holds(n.bits) {
            (n, Answer::Assigned(name + " = "@ + n.text + suffix))
        } else {
            (single, Answer::Error(name + ": "@ + msg))
        },
        set32(name, Some(Err(e)), single, range, msg, suffix) == (
            single,
            Answer::Error(name + ": "@ + e),
        ),
        set64(name, None, double, wide, msg) == (
            double,
            Answer::Show(name + " = "@ + double.text + ""@),
        ),
        set64(name, Some(Ok(w)), double, wide, msg) == if wide.holds(w.bits) {
            (w, Answer::Assigned(name + " = "@ + w.text + ""@))
        } else {
            (double, Answer::Error(name + ": "@ + msg))
        },
        set64(name, Some(Err(e)), double, wide, msg) == (double, Answer::Error(name + ": "@ + e)),
        Answer::Show(msg).words() == msg && Answer::Assigned(msg).words() == msg && Answer::Error(
            msg,
        ).words() == msg,
{
}

} // verus!
