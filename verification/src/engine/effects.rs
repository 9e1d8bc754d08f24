//! Per-step effects: what the command segments of a beat line do to each of its steps.

use vstd::arithmetic::power2::{
    lemma2_to64, lemma_pow2_adds, lemma_pow2_pos, lemma_pow2_strictly_increases, lemma_pow2_unfold,
    pow2,
};
use vstd::prelude::*;

use crate::config::{command_to_pitch_cents, line_of, pitch_cents_of, BeatLine, ParsedBeatLine};
use crate::float;
use crate::float::{Binary, Dyadic, SINGLE};
use crate::text::{digit_value, is_digit, lines_of};

verus! {

/// A level between silence and full, held by the fraction `num / den` that single precision makes
/// it of. One that falls is what the fraction that is left of 1 leaves of 1.
#[derive(Debug, Clone, Copy, PartialEq, Eq, Structural)]
pub struct Level {
    pub num: usize,
    pub den: usize,
    pub falls: bool,
    /// The denominator is had by taking 1 off a span that is rounded to single precision.
    pub of_span: bool,
}

impl Level {
    /// The level 0.
    pub open spec fn zero() -> Level {
        Level { num: 0, den: 1, falls: false, of_span: false }
    }

    /// The level 1.
    pub open spec fn full() -> Level {
        Level { num: 1, den: 1, falls: false, of_span: false }
    }

    /// The level with a denominator that is had from a span.
    pub open spec fn spanning(self) -> Level {
        Level { of_span: true, ..self }
    }

    /// The fraction is a number from 0 to 1.
    pub open spec fn proper(self) -> bool {
        self.den > 0 && self.num <= self.den
    }

    /// The fraction is the number 1.
    pub open spec fn is_full(self) -> bool {
        self.den > 0 && self.num == self.den
    }

    /// The denominator in single precision.
    pub open spec fn divisor(self) -> Dyadic {
        if self.of_span {
            let span = float::whole_part(float::nearest(self.den + 1, 1, SINGLE as int));
            float::nearest(span - 1, 1, SINGLE as int)
        } else {
            float::nearest(self.den as int, 1, SINGLE as int)
        }
    }

    /// The numerator of the fraction that is divided: of a level that falls, what is left of 1.
    pub open spec fn dividend(self) -> int {
        if !self.falls {
            self.num as int
        } else if self.num < self.den {
            self.den - self.num
        } else {
            0
        }
    }

    /// The level in single precision.
    pub open spec fn value(self) -> Dyadic {
        let share = float::quotient(
            float::nearest(self.dividend(), 1, SINGLE as int),
            self.divisor(),
            SINGLE as int,
        );
        if self.falls {
            float::one_less(share, SINGLE as int)
        } else {
            share
        }
    }

    /// The level in 255ths, rounded down.
    pub open spec fn steps(self) -> int {
        let scaled = float::product(
            self.value(),
            float::nearest(255, 1, SINGLE as int),
            SINGLE as int,
        );
        float::at_most(float::whole_part(scaled), u64::MAX as int)
    }

    /// The level in 255ths, rounded down, as one byte.
    pub open spec fn byte(self) -> u64 {
        (self.steps() % 256) as u64
    }

    /// The level in single precision.
    pub fn to_single(&self) -> (v: Binary)
        requires
            self.den > 0,
        ensures
            v@ == self.value(),
            v@.normal(SINGLE as int, -300, 300),
    {
        let divisor = if self.of_span {
            let span = float::from_whole(self.den as u128 + 1, SINGLE);
            proof {
                lemma_span(self.den as int);
            }
            let whole = float::whole_upto(span, 0x4_0000_0000_0000_0000);
            float::from_whole(whole - 1, SINGLE)
        } else {
            float::from_whole(self.den as u128, SINGLE)
        };
        let dividend: usize = if !self.falls {
            self.num
        } else if self.num < self.den {
            self.den - self.num
        } else {
            0
        };
        let share = float::divide(float::from_whole(dividend as u128, SINGLE), divisor, SINGLE);
        if self.falls {
            float::one_minus(share, SINGLE)
        } else {
            share
        }
    }

    /// The level in 255ths, rounded down, as one byte.
    pub fn to_byte(&self) -> (b: u64)
        requires
            self.den > 0,
        ensures
            b == self.byte(),
            b < 256,
    {
        let value = self.to_single();
        let scaled = float::multiply(value, float::from_whole(255, SINGLE), SINGLE);
        let steps = float::whole_upto(scaled, u64::MAX as u128);
        (steps % 256) as u64
    }

    /// Whether the level is above 0.
    pub fn is_positive(&self) -> (r: bool)
        requires
            self.den > 0,
        ensures
            r == (self.value().mant > 0),
    {
        self.to_single().mant > 0
    }
}

/// A span of two steps or more is no less than that in single precision, and no more than twice.
proof fn lemma_span(den: int)
    requires
        0 < den <= usize::MAX,
    ensures
        2 <= float::whole_part(float::nearest(den + 1, 1, SINGLE as int)) <= 2 * (den + 1),
{
    let t = SINGLE as int;
    let b = float::nearest(den + 1, 1, t);
    if den + 1 < t {
        float::lemma_whole_exact(den + 1, t);
    } else {
        float::lemma_rounded(den + 1, 1, t, t);
        let w = pow2(b.exp as nat) as int;
        lemma_pow2_pos(b.exp as nat);
        assert(b.mant <= b.mant * w <= t * w) by (nonlinear_arith)
            requires
                1 <= w,
                0 <= b.mant <= t,
        ;
        if b.exp == 0 {
            lemma2_to64();
        }
    }
}

/// Step `k` of `span` steps that climb from 0 to 1; a single step is full.
pub open spec fn rising(k: int, span: int) -> Level {
    if span > 1 {
        Level { num: k as usize, den: (span - 1) as usize, falls: false, of_span: false }
    } else {
        Level::full()
    }
}

/// Step `k` of `span` steps that fall from 1 to 0; a single step is silent.
pub open spec fn falling(k: int, span: int) -> Level {
    if span > 1 {
        Level { num: (span - 1 - k) as usize, den: (span - 1) as usize, falls: true, of_span: false }
    } else {
        Level::zero()
    }
}

/// Step `k` of `span` steps over which a toggle effect comes in or goes out.
pub open spec fn ramped(up: bool, k: int, span: int) -> Level {
    if up {
        rising(k, span).spanning()
    } else {
        falling(k, span).spanning()
    }
}

fn rising_level(k: usize, span: usize) -> (l: Level)
    ensures
        l == rising(k as int, span as int),
{
    if span > 1 {
        Level { num: k, den: span - 1, falls: false, of_span: false }
    } else {
        Level { num: 1, den: 1, falls: false, of_span: false }
    }
}

fn falling_level(k: usize, span: usize) -> (l: Level)
    requires
        k < span,
    ensures
        l == falling(k as int, span as int),
{
    if span > 1 {
        Level { num: span - 1 - k, den: span - 1, falls: true, of_span: false }
    } else {
        Level { num: 0, den: 1, falls: false, of_span: false }
    }
}

/// Per-step effect state, precomputed from command sequences.
#[derive(Debug, Clone, Copy, PartialEq, Eq, Structural)]
pub struct StepEffects {
    pub reverse: bool,
    pub stutter: bool,
    pub distortion: bool,
    pub lowpass: bool,
    pub highpass: bool,
    pub half_speed: bool,
    pub double_speed: bool,
    pub distortion_mix: Level,
    pub lowpass_mix: Level,
    pub highpass_mix: Level,
    pub fade_in: Level,
    pub fade_out: Level,
    pub pitch_cents: i32,
    /// The bank that the step's slice is taken from.
    pub bank: u8,
}

impl Default for StepEffects {
    fn default() -> (e: Self)
        ensures
            e == StepEffects::none(),
    {
        StepEffects {
            reverse: false,
            stutter: false,
            distortion: false,
            lowpass: false,
            highpass: false,
            half_speed: false,
            double_speed: false,
            distortion_mix: Level { num: 0, den: 1, falls: false, of_span: false },
            lowpass_mix: Level { num: 0, den: 1, falls: false, of_span: false },
            highpass_mix: Level { num: 0, den: 1, falls: false, of_span: false },
            fade_in: Level { num: 0, den: 1, falls: false, of_span: false },
            fade_out: Level { num: 0, den: 1, falls: false, of_span: false },
            pitch_cents: 0,
            bank: 0,
        }
    }
}

impl StepEffects {
    /// No effect at all.
    pub open spec fn none() -> StepEffects {
        StepEffects {
            reverse: false,
            stutter: false,
            distortion: false,
            lowpass: false,
            highpass: false,
            half_speed: false,
            double_speed: false,
            distortion_mix: Level::zero(),
            lowpass_mix: Level::zero(),
            highpass_mix: Level::zero(),
            fade_in: Level::zero(),
            fade_out: Level::zero(),
            pitch_cents: 0,
            bank: 0,
        }
    }

    /// Every level is a number from 0 to 1.
    pub open spec fn proper(self) -> bool {
        &&& self.distortion_mix.proper()
        &&& self.lowpass_mix.proper()
        &&& self.highpass_mix.proper()
        &&& self.fade_in.proper()
        &&& self.fade_out.proper()
    }
}

/// The first position from `from` on that holds `target`.
pub open spec fn next_at(cmd: Seq<char>, target: char, from: int) -> Option<int>
    decreases cmd.len() - from,
{
    if from < 0 || from >= cmd.len() {
        None
    } else if cmd[from] == target {
        Some(from)
    } else {
        next_at(cmd, target, from + 1)
    }
}

/// The last position before `hi` that holds `target`.
pub open spec fn last_at(cmd: Seq<char>, target: char, hi: int) -> Option<int>
    decreases hi,
{
    if hi <= 0 {
        None
    } else if cmd[hi - 1] == target {
        Some(hi - 1)
    } else {
        last_at(cmd, target, hi - 1)
    }
}

/// The position of the first `target` from `from` on.
pub fn find_next_occurrence(cmd: &[char], target: char, from: usize) -> (r: Option<usize>)
    ensures
        match r {
            Some(i) => next_at(cmd@, target, from as int) == Some(i as int) && from <= i
                < cmd@.len(),
            None => next_at(cmd@, target, from as int) is None,
        },
{
    let mut i = from;
    while i < cmd.len()
        invariant
            from <= i,
            next_at(cmd@, target, i as int) == next_at(cmd@, target, from as int),
        decreases cmd@.len() - i,
    {
        if cmd[i] == target {
            return Some(i);
        }
        i = i + 1;
    }
    None
}

/// The characters that switch an effect on and let `-` hold it: the two filters and distortion.
pub open spec fn is_toggle(c: char) -> bool {
    c == 'L' || c == 'H' || c == '*'
}

/// The toggle effect that is held while a segment is read: its character and where it began;
/// and the positions that a fade-out has used up as its end.
pub struct Held {
    pub active: Option<(char, int)>,
    pub spent: Set<int>,
}

/// Where a ramp of `toggle` asked for at position `i` ends, exclusive: past the next such
/// character, or at the end of the line.
pub open spec fn ramp_end(cmd: Seq<char>, len: int, toggle: char, i: int) -> int {
    match next_at(cmd, toggle, i + 1) {
        Some(m) => if m < len {
            m + 1
        } else {
            len
        },
        None => len,
    }
}

/// What is held after the first `n` commands of a segment.
pub open spec fn held(cmd: Seq<char>, len: int, n: int) -> Held
    decreases n,
{
    if n <= 0 {
        Held { active: None, spent: Set::empty() }
    } else {
        let before = held(cmd, len, n - 1);
        let i = n - 1;
        let c = cmd[i];
        if is_toggle(c) {
            if before.spent.contains(i) {
                before
            } else {
                Held { active: Some((c, i)), spent: before.spent }
            }
        } else if c == '^' || c == '<' {
            Held { active: None, spent: before.spent }
        } else if c == '>' {
            match before.active {
                None => before,
                Some((toggle, _)) => Held {
                    active: None,
                    spent: match next_at(cmd, toggle, i + 1) {
                        Some(m) => if m < len {
                            before.spent.insert(m)
                        } else {
                            before.spent
                        },
                        None => before.spent,
                    },
                },
            }
        } else {
            before
        }
    }
}

/// Whether the toggle effect `kind` is on at step `s`, and at what mix, after the first `n`
/// commands; `prior` is what earlier segments left there.
pub open spec fn toggled(
    cmd: Seq<char>,
    len: int,
    kind: char,
    s: int,
    n: int,
    prior: (bool, Level),
) -> (bool, Level)
    decreases n,
{
    if n <= 0 {
        prior
    } else {
        let before = toggled(cmd, len, kind, s, n - 1, prior);
        let i = n - 1;
        let c = cmd[i];
        let h = held(cmd, len, i);
        if is_toggle(c) {
            if c == kind && s == i && !h.spent.contains(i) {
                (true, Level::full())
            } else {
                before
            }
        } else if c == '-' {
            match h.active {
                Some((toggle, _)) => if toggle == kind && s == i {
                    (true, Level::full())
                } else {
                    before
                },
                None => before,
            }
        } else if c == '<' || c == '>' {
            match h.active {
                Some((toggle, start)) => if toggle == kind && start <= s < ramp_end(
                    cmd,
                    len,
                    toggle,
                    i,
                ) {
                    let span = ramp_end(cmd, len, toggle, i) - start;
                    (
                        true,
                        ramped(c == '<', s - start, span),
                    )
                } else {
                    before
                },
                None => before,
            }
        } else {
            before
        }
    }
}

/// No `close` stands after position `i` up to step `s`.
pub open spec fn unclosed(cmd: Seq<char>, close: char, i: int, s: int) -> bool {
    forall|j: int| i < j <= s ==> #[trigger] cmd[j] != close
}

/// Whether step `s` lies behind an `open` among the first `n` commands that no `close` has ended.
pub open spec fn enclosed(cmd: Seq<char>, open: char, close: char, s: int, n: int) -> bool {
    exists|i: int|
        0 <= i < n && i <= s && #[trigger] cmd[i] == open && unclosed(cmd, close, i, s)
}

/// The smaller of two numbers.
pub open spec fn lesser(a: int, b: int) -> int {
    if a < b {
        a
    } else {
        b
    }
}

/// The volume fade-out at step `s`: from 1 at the last `\` down to 0 at the end of the line.
pub open spec fn faded_out(cmd: Seq<char>, len: int, s: int, n: int, prior: Level) -> Level {
    match last_at(cmd, '\\', lesser(n, s + 1)) {
        Some(i) => if len - i > 1 {
            falling(s - i, len - i)
        } else {
            Level::full()
        },
        None => prior,
    }
}

/// The volume fade-in at step `s`: from 0 at the last `/` up to 1 at the end of the line.
pub open spec fn faded_in(cmd: Seq<char>, len: int, s: int, n: int, prior: Level) -> Level {
    match last_at(cmd, '/', lesser(n, s + 1)) {
        Some(i) => rising(s - i, len - i),
        None => prior,
    }
}

/// The effects of step `s` after the first `n` of `len` commands, on top of `prior`.
pub open spec fn effects_after(
    cmd: Seq<char>,
    len: int,
    s: int,
    n: int,
    prior: StepEffects,
) -> StepEffects {
    let (lowpass, lowpass_mix) = toggled(
        cmd,
        len,
        'L',
        s,
        n,
        (prior.lowpass, prior.lowpass_mix),
    );
    let (highpass, highpass_mix) = toggled(
        cmd,
        len,
        'H',
        s,
        n,
        (prior.highpass, prior.highpass_mix),
    );
    let (distortion, distortion_mix) = toggled(
        cmd,
        len,
        '*',
        s,
        n,
        (prior.distortion, prior.distortion_mix),
    );
    StepEffects {
        reverse: prior.reverse || (s < n && cmd[s] == 'R'),
        stutter: prior.stutter || (s < n && cmd[s] == '~'),
        distortion,
        lowpass,
        highpass,
        half_speed: prior.half_speed || enclosed(cmd, '(', ')', s, n),
        double_speed: prior.double_speed || enclosed(cmd, '[', ']', s, n),
        distortion_mix,
        lowpass_mix,
        highpass_mix,
        fade_in: faded_in(cmd, len, s, n, prior.fade_in),
        fade_out: faded_out(cmd, len, s, n, prior.fade_out),
        pitch_cents: if s < n && pitch_cents_of(cmd[s]) != 0 {
            pitch_cents_of(cmd[s]) as i32
        } else {
            prior.pitch_cents
        },
        bank: if s < n && is_digit(cmd[s]) {
            digit_value(cmd[s]) as u8
        } else {
            prior.bank
        },
    }
}

/// The effects of the steps of a line after one command segment, on top of `prior`.
pub open spec fn with_segment(cmd: Seq<char>, prior: Seq<StepEffects>) -> Seq<StepEffects> {
    let len = lesser(cmd.len() as int, prior.len() as int);
    Seq::new(
        prior.len(),
        |s: int|
            if s < len {
                effects_after(cmd, len, s, len, prior[s])
            } else {
                prior[s]
            },
    )
}

/// What one more command does to the effects of step `s`.
#[verifier::opaque]
spec fn one_command(
    cmd: Seq<char>,
    len: int,
    s: int,
    i: int,
    e: StepEffects,
) -> StepEffects {
    let c = cmd[i];
    let h = held(cmd, len, i);
    if c == '~' {
        if s == i {
            StepEffects { stutter: true, ..e }
        } else {
            e
        }
    } else if c == 'R' {
        if s == i {
            StepEffects { reverse: true, ..e }
        } else {
            e
        }
    } else if c == '\\' {
        if s >= i {
            StepEffects {
                fade_out: if len - i > 1 {
                    falling(s - i, len - i)
                } else {
                    Level::full()
                },
                ..e
            }
        } else {
            e
        }
    } else if c == '/' {
        if s >= i {
            StepEffects { fade_in: rising(s - i, len - i), ..e }
        } else {
            e
        }
    } else if is_toggle(c) {
        if s == i && !h.spent.contains(i) {
            with_toggle(e, c, Level::full())
        } else {
            e
        }
    } else if c == '-' {
        match h.active {
            Some((toggle, _)) => if s == i {
                with_toggle(e, toggle, Level::full())
            } else {
                e
            },
            None => e,
        }
    } else if c == '<' || c == '>' {
        match h.active {
            Some((toggle, start)) => if start <= s < ramp_end(cmd, len, toggle, i) {
                let span = ramp_end(cmd, len, toggle, i) - start;
                with_toggle(
                    e,
                    toggle,
                    ramped(c == '<', s - start, span),
                )
            } else {
                e
            },
            None => e,
        }
    } else if c == '(' {
        if s >= i && unclosed(cmd, ')', i, s) {
            StepEffects { half_speed: true, ..e }
        } else {
            e
        }
    } else if c == '[' {
        if s >= i && unclosed(cmd, ']', i, s) {
            StepEffects { double_speed: true, ..e }
        } else {
            e
        }
    } else if is_digit(c) {
        if s == i {
            StepEffects { bank: digit_value(c) as u8, ..e }
        } else {
            e
        }
    } else {
        if s == i && pitch_cents_of(c) != 0 {
            StepEffects { pitch_cents: pitch_cents_of(c) as i32, ..e }
        } else {
            e
        }
    }
}

/// `e` with the toggle effect `toggle` on, at the given mix.
pub open spec fn with_toggle(e: StepEffects, toggle: char, mix: Level) -> StepEffects {
    if toggle == 'L' {
        StepEffects { lowpass: true, lowpass_mix: mix, ..e }
    } else if toggle == 'H' {
        StepEffects { highpass: true, highpass_mix: mix, ..e }
    } else if toggle == '*' {
        StepEffects { distortion: true, distortion_mix: mix, ..e }
    } else {
        e
    }
}

proof fn lemma_held(cmd: Seq<char>, len: int, n: int)
    requires
        0 <= n <= len <= cmd.len(),
    ensures
        held(cmd, len, n).active matches Some((c, start)) ==> is_toggle(c) && 0 <= start < n,
    decreases n,
{
    if n > 0 {
        lemma_held(cmd, len, n - 1);
    }
}

proof fn lemma_enclosed_step(cmd: Seq<char>, open: char, close: char, s: int, i: int)
    requires
        0 <= i < cmd.len(),
    ensures
        enclosed(cmd, open, close, s, i + 1) == (enclosed(cmd, open, close, s, i) || (cmd[i] == open
            && i <= s && unclosed(cmd, close, i, s))),
{
    if enclosed(cmd, open, close, s, i) {
        let k = choose|k: int|
            0 <= k < i && k <= s && #[trigger] cmd[k] == open && unclosed(cmd, close, k, s);
        assert(0 <= k < i + 1 && cmd[k] == open);
    }
    if enclosed(cmd, open, close, s, i + 1) {
        let k = choose|k: int|
            0 <= k < i + 1 && k <= s && #[trigger] cmd[k] == open && unclosed(cmd, close, k, s);
        if k < i {
            assert(0 <= k < i && cmd[k] == open);
        }
    }
}

proof fn lemma_last_at_step(cmd: Seq<char>, target: char, s: int, i: int)
    requires
        0 <= i < cmd.len(),
        0 <= s,
    ensures
        last_at(cmd, target, lesser(i + 1, s + 1)) == if cmd[i] == target && i <= s {
            Some(i)
        } else {
            last_at(cmd, target, lesser(i, s + 1))
        },
{
}

/// What one more command does to one toggle effect at step `s`.
spec fn one_toggle(
    cmd: Seq<char>,
    len: int,
    kind: char,
    s: int,
    i: int,
    before: (bool, Level),
) -> (bool, Level) {
    let c = cmd[i];
    let h = held(cmd, len, i);
    if is_toggle(c) {
        if c == kind && s == i && !h.spent.contains(i) {
            (true, Level::full())
        } else {
            before
        }
    } else if c == '-' {
        match h.active {
            Some((toggle, _)) => if toggle == kind && s == i {
                (true, Level::full())
            } else {
                before
            },
            None => before,
        }
    } else if c == '<' || c == '>' {
        match h.active {
            Some((toggle, start)) => if toggle == kind && start <= s < ramp_end(
                cmd,
                len,
                toggle,
                i,
            ) {
                let span = ramp_end(cmd, len, toggle, i) - start;
                (
                    true,
                    ramped(c == '<', s - start, span),
                )
            } else {
                before
            },
            None => before,
        }
    } else {
        before
    }
}

#[verifier::rlimit(40)]
proof fn lemma_one_command(cmd: Seq<char>, len: int, s: int, i: int, prior: StepEffects)
    requires
        0 <= i < len <= cmd.len(),
        0 <= s < len,
    ensures
        effects_after(cmd, len, s, i + 1, prior) == one_command(
            cmd,
            len,
            s,
            i,
            effects_after(cmd, len, s, i, prior),
        ),
{
    let e = effects_after(cmd, len, s, i, prior);
    lemma_toggle_agrees(cmd, len, s, i, e);
    lemma_toggle_steps(cmd, len, s, i, prior);
    lemma_marks_agree(cmd, len, s, i, e, prior);
    lemma_speeds_agree(cmd, len, s, i, e, prior);
    lemma_fades_agree(cmd, len, s, i, e, prior);
}

#[verifier::rlimit(40)]
proof fn lemma_toggle_steps(cmd: Seq<char>, len: int, s: int, i: int, prior: StepEffects)
    requires
        0 <= i < len <= cmd.len(),
        0 <= s < len,
    ensures
        ({
            let e = effects_after(cmd, len, s, i, prior);
            let f = effects_after(cmd, len, s, i + 1, prior);
            &&& (f.lowpass, f.lowpass_mix) == one_toggle(
                cmd,
                len,
                'L',
                s,
                i,
                (e.lowpass, e.lowpass_mix),
            )
            &&& (f.highpass, f.highpass_mix) == one_toggle(
                cmd,
                len,
                'H',
                s,
                i,
                (e.highpass, e.highpass_mix),
            )
            &&& (f.distortion, f.distortion_mix) == one_toggle(
                cmd,
                len,
                '*',
                s,
                i,
                (e.distortion, e.distortion_mix),
            )
        }),
{
}

#[verifier::rlimit(40)]
proof fn lemma_speeds_agree(
    cmd: Seq<char>,
    len: int,
    s: int,
    i: int,
    e: StepEffects,
    prior: StepEffects,
)
    requires
        0 <= i < len <= cmd.len(),
        0 <= s < len,
        e == effects_after(cmd, len, s, i, prior),
    ensures
        ({
            let f = effects_after(cmd, len, s, i + 1, prior);
            let g = one_command(cmd, len, s, i, e);
            &&& f.half_speed == g.half_speed
            &&& f.double_speed == g.double_speed
        }),
{
    reveal(one_command);
    lemma_enclosed_step(cmd, '(', ')', s, i);
    lemma_enclosed_step(cmd, '[', ']', s, i);
}

#[verifier::rlimit(40)]
proof fn lemma_fades_agree(
    cmd: Seq<char>,
    len: int,
    s: int,
    i: int,
    e: StepEffects,
    prior: StepEffects,
)
    requires
        0 <= i < len <= cmd.len(),
        0 <= s < len,
        e == effects_after(cmd, len, s, i, prior),
    ensures
        ({
            let f = effects_after(cmd, len, s, i + 1, prior);
            let g = one_command(cmd, len, s, i, e);
            &&& f.fade_in == g.fade_in
            &&& f.fade_out == g.fade_out
        }),
{
    reveal(one_command);
    lemma_last_at_step(cmd, '\\', s, i);
    lemma_last_at_step(cmd, '/', s, i);
}

#[verifier::rlimit(40)]
proof fn lemma_toggle_agrees(cmd: Seq<char>, len: int, s: int, i: int, e: StepEffects)
    requires
        0 <= i < len <= cmd.len(),
        0 <= s < len,
    ensures
        ({
            let g = one_command(cmd, len, s, i, e);
            &&& (g.lowpass, g.lowpass_mix) == one_toggle(
                cmd,
                len,
                'L',
                s,
                i,
                (e.lowpass, e.lowpass_mix),
            )
            &&& (g.highpass, g.highpass_mix) == one_toggle(
                cmd,
                len,
                'H',
                s,
                i,
                (e.highpass, e.highpass_mix),
            )
            &&& (g.distortion, g.distortion_mix) == one_toggle(
                cmd,
                len,
                '*',
                s,
                i,
                (e.distortion, e.distortion_mix),
            )
        }),
{
    reveal(one_command);
    lemma_held(cmd, len, i);
}

#[verifier::rlimit(40)]
proof fn lemma_marks_agree(
    cmd: Seq<char>,
    len: int,
    s: int,
    i: int,
    e: StepEffects,
    prior: StepEffects,
)
    requires
        0 <= i < len <= cmd.len(),
        0 <= s < len,
        e == effects_after(cmd, len, s, i, prior),
    ensures
        ({
            let f = effects_after(cmd, len, s, i + 1, prior);
            let g = one_command(cmd, len, s, i, e);
            &&& f.reverse == g.reverse
            &&& f.stutter == g.stutter
            &&& f.pitch_cents == g.pitch_cents
            &&& f.bank == g.bank
        }),
{
    reveal(one_command);
    lemma_held(cmd, len, i);
}

/// The toggle effect `effect_char` switched on at step `pos`, at the given mix.
fn set_effect(effects: &mut Vec<StepEffects>, effect_char: char, pos: usize, mix: Level)
    ensures
        final(effects)@ == if pos < old(effects)@.len() {
            old(effects)@.update(
                pos as int,
                with_toggle(old(effects)@[pos as int], effect_char, mix),
            )
        } else {
            old(effects)@
        },
{
    if pos >= effects.len() {
        return;
    }
    let mut e = effects[pos];
    match effect_char {
        'L' => {
            e.lowpass = true;
            e.lowpass_mix = mix;
        },
        'H' => {
            e.highpass = true;
            e.highpass_mix = mix;
        },
        '*' => {
            e.distortion = true;
            e.distortion_mix = mix;
        },
        _ => {},
    }
    effects.set(pos, e);
}

fn has_position(v: &Vec<usize>, p: usize) -> (r: bool)
    ensures
        r == v@.contains(p),
{
    let n = v.len();
    for i in 0..n
        invariant
            n == v@.len(),
            forall|j: int| 0 <= j < i ==> v@[j] != p,
    {
        if v[i] == p {
            return true;
        }
    }
    false
}

/// The positions in `v` are the spent positions of `h`.
spec fn same_spent(v: Seq<usize>, h: Held) -> bool {
    forall|p: usize| v.contains(p) <==> #[trigger] h.spent.contains(p as int)
}

/// The toggle in `active` is the one that `h` holds.
spec fn same_active(active: Option<(char, usize)>, h: Held) -> bool {
    match active {
        Some((c, start)) => h.active == Some((c, start as int)),
        None => h.active is None,
    }
}

/// The commands that start, hold, ramp or cut a toggle effect.
spec fn steers_toggle(c: char) -> bool {
    is_toggle(c) || c == '-' || c == '^' || c == '<' || c == '>'
}

/// Every step below `len` has had the command at position `i` applied, and no other step changed.
spec fn command_applied(
    cmd: Seq<char>,
    len: int,
    i: int,
    before: Seq<StepEffects>,
    after: Seq<StepEffects>,
) -> bool {
    &&& after.len() == before.len()
    &&& forall|s: int|
        0 <= s < len ==> #[trigger] after[s] == one_command(cmd, len, s, i, before[s])
    &&& forall|s: int| len <= s < before.len() ==> #[trigger] after[s] == before[s]
}

/// Apply a command that starts, holds, ramps or cuts a toggle effect. Returns the toggle held
/// after it.
#[verifier::rlimit(40)]
fn apply_toggle(
    cmd: &[char],
    effects: &mut Vec<StepEffects>,
    i: usize,
    len: usize,
    active: Option<(char, usize)>,
    endpoints: &mut Vec<usize>,
) -> (next: Option<(char, usize)>)
    requires
        i < len <= cmd@.len(),
        len <= old(effects)@.len(),
        steers_toggle(cmd@[i as int]),
        same_active(active, held(cmd@, len as int, i as int)),
        same_spent(old(endpoints)@, held(cmd@, len as int, i as int)),
    ensures
        command_applied(cmd@, len as int, i as int, old(effects)@, final(effects)@),
        same_active(next, held(cmd@, len as int, i + 1)),
        same_spent(final(endpoints)@, held(cmd@, len as int, i + 1)),
{
    let c = cmd[i];
    let ghost h = held(cmd@, len as int, i as int);
    proof {
        reveal(one_command);
        lemma_held(cmd@, len as int, i as int);
    }
    match c {
        '-' => {
            if let Some((toggle_char, _)) = active {
                set_effect(effects, toggle_char, i, Level { num: 1, den: 1, falls: false, of_span: false });
            }
            active
        },
        '^' => None,
        '<' => {
            if let Some((toggle_char, start_pos)) = active {
                ramp_toggle(cmd, effects, toggle_char, start_pos, i, len, true);
            }
            None
        },
        '>' => {
            if let Some((toggle_char, start_pos)) = active {
                ramp_toggle(cmd, effects, toggle_char, start_pos, i, len, false);
                if let Some(marker_pos) = find_next_occurrence(cmd, toggle_char, i + 1) {
                    if marker_pos < len {
                        let ghost spent = endpoints@;
                        endpoints.push(marker_pos);
                        proof {
                            lemma_push_contains(spent, marker_pos);
                            let next = held(cmd@, len as int, i + 1);
                            assert(next.spent == h.spent.insert(marker_pos as int));
                            assert forall|p: usize|
                                endpoints@.contains(p) <==> #[trigger] next.spent.contains(
                                    p as int,
                                ) by {
                                assert(spent.contains(p) <==> h.spent.contains(p as int));
                            }
                        }
                    }
                }
            }
            None
        },
        _ => {
            // The end of a fade-out does not restart the effect.
            if has_position(endpoints, i) {
                assert(h.spent.contains(i as int));
                active
            } else {
                assert(!h.spent.contains(i as int));
                set_effect(effects, c, i, Level { num: 1, den: 1, falls: false, of_span: false });
                Some((c, i))
            }
        },
    }
}

/// Apply a command that concerns no toggle effect.
#[verifier::rlimit(40)]
fn apply_mark(cmd: &[char], effects: &mut Vec<StepEffects>, i: usize, len: usize)
    requires
        i < len <= cmd@.len(),
        len <= old(effects)@.len(),
        !steers_toggle(cmd@[i as int]),
    ensures
        command_applied(cmd@, len as int, i as int, old(effects)@, final(effects)@),
{
    let c = cmd[i];
    proof {
        reveal(one_command);
    }
    match c {
        '~' => {
            let mut e = effects[i];
            e.stutter = true;
            effects.set(i, e);
        },
        '\\' => {
            fade_line(effects, i, len, false);
        },
        '/' => {
            fade_line(effects, i, len, true);
        },
        'R' => {
            let mut e = effects[i];
            e.reverse = true;
            effects.set(i, e);
        },
        '(' => {
            mark_speed(cmd, effects, i, len, true);
        },
        '[' => {
            mark_speed(cmd, effects, i, len, false);
        },
        '0'..='9' => {
            let mut e = effects[i];
            e.bank = (c as u32 - 48) as u8;
            effects.set(i, e);
        },
        _ => {
            let cents = command_to_pitch_cents(c);
            if cents != 0 {
                let mut e = effects[i];
                e.pitch_cents = cents;
                effects.set(i, e);
            }
        },
    }
}

proof fn lemma_push_contains(v: Seq<usize>, x: usize)
    ensures
        forall|p: usize| #[trigger] v.push(x).contains(p) <==> (v.contains(p) || p == x),
{
    assert forall|p: usize| #[trigger] v.push(x).contains(p) <==> (v.contains(p) || p == x) by {
        if v.contains(p) {
            let k = choose|k: int| 0 <= k < v.len() && v[k] == p;
            assert(v.push(x)[k] == p);
        }
        if p == x {
            assert(v.push(x)[v.len() as int] == p);
        }
    }
}

/// Apply the commands of one segment to the steps of a line.
pub fn process_command_segment(cmd: &[char], effects: &mut Vec<StepEffects>)
    ensures
        final(effects)@ == with_segment(cmd@, old(effects)@),
{
    let len = if cmd.len() < effects.len() {
        cmd.len()
    } else {
        effects.len()
    };
    let ghost prior = effects@;
    let mut active_toggle: Option<(char, usize)> = None;
    let mut fade_out_endpoints: Vec<usize> = Vec::new();
    for i in 0..len
        invariant
            len <= cmd@.len(),
            len <= prior.len(),
            effects@.len() == prior.len(),
            forall|s: int|
                0 <= s < len ==> #[trigger] effects@[s] == effects_after(
                    cmd@,
                    len as int,
                    s,
                    i as int,
                    prior[s],
                ),
            forall|s: int| len <= s < prior.len() ==> #[trigger] effects@[s] == prior[s],
            same_active(active_toggle, held(cmd@, len as int, i as int)),
            same_spent(fade_out_endpoints@, held(cmd@, len as int, i as int)),
    {
        if matches!(cmd[i], 'L' | 'H' | '*' | '-' | '^' | '<' | '>') {
            active_toggle =
            apply_toggle(cmd, effects, i, len, active_toggle, &mut fade_out_endpoints);
        } else {
            apply_mark(cmd, effects, i, len);
        }
        assert forall|s: int| 0 <= s < len implies #[trigger] effects@[s] == effects_after(
            cmd@,
            len as int,
            s,
            i + 1,
            prior[s],
        ) by {
            lemma_one_command(cmd@, len as int, s, i as int, prior[s]);
        }
    }
    assert(effects@ =~= with_segment(cmd@, prior));
}

/// Fade the volume from position `i` to the end of the line, up or down.
fn fade_line(effects: &mut Vec<StepEffects>, i: usize, len: usize, up: bool)
    requires
        i < len <= old(effects)@.len(),
    ensures
        final(effects)@.len() == old(effects)@.len(),
        forall|s: int|
            0 <= s < old(effects)@.len() ==> #[trigger] final(effects)@[s] == (if i <= s < len {
                if up {
                    StepEffects { fade_in: rising(s - i, len - i), ..old(effects)@[s] }
                } else {
                    StepEffects {
                        fade_out: if len - i > 1 {
                            falling(s - i, len - i)
                        } else {
                            Level::full()
                        },
                        ..old(effects)@[s]
                    }
                }
            } else {
                old(effects)@[s]
            }),
{
    let ghost before = effects@;
    let remaining = len - i;
    for s in i..len
        invariant
            i < len <= effects@.len(),
            remaining == len - i,
            effects@.len() == before.len(),
            forall|t: int|
                i <= t < s ==> #[trigger] effects@[t] == (if up {
                    StepEffects { fade_in: rising(t - i, len - i), ..before[t] }
                } else {
                    StepEffects {
                        fade_out: if len - i > 1 {
                            falling(t - i, len - i)
                        } else {
                            Level::full()
                        },
                        ..before[t]
                    }
                }),
            forall|t: int|
                0 <= t < before.len() && !(i <= t < s) ==> #[trigger] effects@[t] == before[t],
    {
        let mut e = effects[s];
        if up {
            e.fade_in = rising_level(s - i, remaining);
        } else if remaining > 1 {
            e.fade_out = falling_level(s - i, remaining);
        } else {
            e.fade_out = Level { num: 1, den: 1, falls: false, of_span: false };
        }
        effects.set(s, e);
    }
}

/// Ramp the mix of `toggle_char` from its start to the end of its ramp.
fn ramp_toggle(
    cmd: &[char],
    effects: &mut Vec<StepEffects>,
    toggle_char: char,
    start_pos: usize,
    i: usize,
    len: usize,
    up: bool,
)
    requires
        start_pos < i < len <= cmd@.len(),
        len <= old(effects)@.len(),
    ensures
        final(effects)@.len() == old(effects)@.len(),
        forall|s: int|
            0 <= s < old(effects)@.len() ==> #[trigger] final(effects)@[s] == ({
                let end = ramp_end(cmd@, len as int, toggle_char, i as int);
                if start_pos <= s < end {
                    with_toggle(
                        old(effects)@[s],
                        toggle_char,
                        ramped(up, s - start_pos, end - start_pos),
                    )
                } else {
                    old(effects)@[s]
                }
            }),
{
    let fade_end = match find_next_occurrence(cmd, toggle_char, i + 1) {
        Some(marker_pos) => if marker_pos < len {
            marker_pos + 1
        } else {
            len
        },
        None => len,
    };
    let span = fade_end - start_pos;
    let ghost before = effects@;
    for s in start_pos..fade_end
        invariant
            start_pos < i < fade_end <= len <= effects@.len(),
            span == fade_end - start_pos,
            effects@.len() == before.len(),
            forall|t: int|
                start_pos <= t < s ==> #[trigger] effects@[t] == with_toggle(
                    before[t],
                    toggle_char,
                    ramped(up, t - start_pos, span as int),
                ),
            forall|t: int|
                0 <= t < before.len() && !(start_pos <= t < s) ==> #[trigger] effects@[t]
                    == before[t],
    {
        let mix = if up {
            rising_level(s - start_pos, span)
        } else {
            falling_level(s - start_pos, span)
        };
        set_effect(effects, toggle_char, s, Level { of_span: true, ..mix });
    }
}

/// Mark the steps from position `i` up to the closing character as half or double speed.
fn mark_speed(cmd: &[char], effects: &mut Vec<StepEffects>, i: usize, len: usize, half: bool)
    requires
        i < len <= cmd@.len(),
        len <= old(effects)@.len(),
    ensures
        final(effects)@.len() == old(effects)@.len(),
        forall|s: int|
            0 <= s < old(effects)@.len() ==> #[trigger] final(effects)@[s] == ({
                let close = if half {
                    ')'
                } else {
                    ']'
                };
                if i <= s < len && unclosed(cmd@, close, i as int, s) {
                    if half {
                        StepEffects { half_speed: true, ..old(effects)@[s] }
                    } else {
                        StepEffects { double_speed: true, ..old(effects)@[s] }
                    }
                } else {
                    old(effects)@[s]
                }
            }),
{
    let close = if half {
        ')'
    } else {
        ']'
    };
    let ghost before = effects@;
    let mut s = i;
    while s < len && (s == i || cmd[s] != close)
        invariant
            i <= s <= len <= cmd@.len(),
            i < len <= effects@.len(),
            effects@.len() == before.len(),
            forall|j: int| i < j < s ==> #[trigger] cmd@[j] != close,
            forall|t: int|
                i <= t < s ==> #[trigger] effects@[t] == if half {
                    StepEffects { half_speed: true, ..before[t] }
                } else {
                    StepEffects { double_speed: true, ..before[t] }
                },
            forall|t: int|
                0 <= t < before.len() && !(i <= t < s) ==> #[trigger] effects@[t] == before[t],
        decreases len - s,
    {
        let mut e = effects[s];
        if half {
            e.half_speed = true;
        } else {
            e.double_speed = true;
        }
        effects.set(s, e);
        s = s + 1;
    }
    assert forall|t: int| s <= t < len implies !(#[trigger] unclosed(
        cmd@,
        close,
        i as int,
        t,
    )) by {
        assert(cmd@[s as int] == close);
    }
}

/// The effects of the steps of a line: none, then one command segment after the other.
pub open spec fn line_effects(line: BeatLine) -> Seq<StepEffects> {
    with_segments(line.commands, line.notes.len())
}

/// What `commands` do to `steps` steps without effects.
pub open spec fn with_segments(commands: Seq<Seq<char>>, steps: nat) -> Seq<StepEffects>
    decreases commands.len(),
{
    if commands.len() == 0 {
        Seq::new(steps, |s: int| StepEffects::none())
    } else {
        with_segment(commands.last(), with_segments(commands.drop_last(), steps))
    }
}

/// The effects of all steps of a pattern, line after line.
pub open spec fn effects_of(lines: Seq<Seq<char>>) -> Seq<StepEffects>
    decreases lines.len(),
{
    if lines.len() == 0 {
        Seq::empty()
    } else {
        effects_of(lines.drop_last()) + line_effects(line_of(lines.last()))
    }
}

fn compute_line_effects(parsed: &ParsedBeatLine) -> (v: Vec<StepEffects>)
    ensures
        v@ == line_effects(parsed@),
{
    let step_count = parsed.step_count();
    let mut v: Vec<StepEffects> = Vec::new();
    for i in 0..step_count
        invariant
            v@ == Seq::new(i as nat, |s: int| StepEffects::none()),
    {
        v.push(StepEffects::default());
        assert(v@ =~= Seq::new((i + 1) as nat, |s: int| StepEffects::none()));
    }
    let n = parsed.commands.len();
    let ghost commands = parsed@.commands;
    for i in 0..n
        invariant
            n == parsed.commands@.len(),
            commands == parsed@.commands,
            v@ == with_segments(commands.take(i as int), step_count as nat),
    {
        process_command_segment(&parsed.commands[i], &mut v);
        assert(commands.take(i + 1).drop_last() =~= commands.take(i as int));
    }
    assert(commands.take(n as int) =~= commands);
    v
}

/// Compute the per-step effect state for all beats.
/// The returned Vec has the same length as the flattened note sequence.
pub fn compute_effect_sequence(beats: &[String]) -> (result: Vec<StepEffects>)
    ensures
        result@ == effects_of(lines_of(beats@)),
{
    let mut result: Vec<StepEffects> = Vec::new();
    let n = beats.len();
    let ghost lines = lines_of(beats@);
    for i in 0..n
        invariant
            n == beats@.len(),
            lines == lines_of(beats@),
            result@ == effects_of(lines.take(i as int)),
    {
        let parsed = ParsedBeatLine::parse(beats[i].as_str());
        let mut line = compute_line_effects(&parsed);
        result.append(&mut line);
        assert(lines.take(i + 1).drop_last() =~= lines.take(i as int));
    }
    assert(lines.take(n as int) =~= lines);
    result
}

/// Applying a segment keeps the number of steps.
pub proof fn lemma_line_effects_len(line: BeatLine)
    ensures
        line_effects(line).len() == line.notes.len(),
{
    lemma_with_segments_len(line.commands, line.notes.len());
}

proof fn lemma_with_segments_len(commands: Seq<Seq<char>>, steps: nat)
    ensures
        with_segments(commands, steps).len() == steps,
    decreases commands.len(),
{
    if commands.len() > 0 {
        lemma_with_segments_len(commands.drop_last(), steps);
    }
}

/// All effects reset at the start of each beat line: the effects of two patterns played one
/// after the other are those of the first, then those of the second.
pub proof fn lemma_effects_reset_per_line(a: Seq<Seq<char>>, b: Seq<Seq<char>>)
    ensures
        effects_of(a + b) == effects_of(a) + effects_of(b),
    decreases b.len(),
{
    if b.len() == 0 {
        assert(a + b =~= a);
        assert(effects_of(a) + effects_of(b) =~= effects_of(a));
    } else {
        lemma_effects_reset_per_line(a, b.drop_last());
        assert((a + b).drop_last() =~= a + b.drop_last());
        assert((a + b).last() == b.last());
        assert(effects_of(a + b) =~= effects_of(a) + effects_of(b));
    }
}

/// Whether a segment is made of `-` alone.
pub open spec fn all_dashes(cmd: Seq<char>) -> bool {
    forall|i: int| 0 <= i < cmd.len() ==> #[trigger] cmd[i] == '-'
}

/// A segment of `-` alone changes nothing.
pub proof fn lemma_dashes_do_nothing(cmd: Seq<char>, prior: Seq<StepEffects>)
    requires
        all_dashes(cmd),
    ensures
        with_segment(cmd, prior) == prior,
{
    let len = lesser(cmd.len() as int, prior.len() as int);
    assert forall|s: int| 0 <= s < len implies effects_after(cmd, len, s, len, prior[s])
        == prior[s] by {
        lemma_dashes(cmd, len, s, len, prior[s]);
    }
    assert(with_segment(cmd, prior) =~= prior);
}

proof fn lemma_dashes(cmd: Seq<char>, len: int, s: int, n: int, prior: StepEffects)
    requires
        all_dashes(cmd),
        0 <= n <= len <= cmd.len(),
        0 <= s < len,
    ensures
        effects_after(cmd, len, s, n, prior) == prior,
        held(cmd, len, n).active is None,
    decreases n,
{
    if n > 0 {
        lemma_dashes(cmd, len, s, n - 1, prior);
        lemma_one_command(cmd, len, s, n - 1, prior);
        reveal(one_command);
    }
}

/// A pattern's effects do not change when segments of `-` alone are added to a line.
pub proof fn lemma_added_dashes(line: BeatLine, cmd: Seq<char>)
    requires
        all_dashes(cmd),
    ensures
        line_effects(BeatLine { notes: line.notes, commands: line.commands.push(cmd) })
            == line_effects(line),
{
    let more = line.commands.push(cmd);
    assert(more.drop_last() =~= line.commands);
    lemma_dashes_do_nothing(cmd, with_segments(line.commands, line.notes.len()));
}

/// `commands` without the segments made of `-` alone.
pub open spec fn without_dashes(commands: Seq<Seq<char>>) -> Seq<Seq<char>>
    decreases commands.len(),
{
    if commands.len() == 0 {
        Seq::empty()
    } else if all_dashes(commands.last()) {
        without_dashes(commands.drop_last())
    } else {
        without_dashes(commands.drop_last()).push(commands.last())
    }
}

/// A line's effects do not change when its segments of `-` alone are removed.
pub proof fn lemma_removed_dashes(line: BeatLine)
    ensures
        line_effects(BeatLine { notes: line.notes, commands: without_dashes(line.commands) })
            == line_effects(line),
{
    lemma_without_dashes(line.commands, line.notes.len());
}

proof fn lemma_without_dashes(commands: Seq<Seq<char>>, steps: nat)
    ensures
        with_segments(without_dashes(commands), steps) == with_segments(commands, steps),
    decreases commands.len(),
{
    if commands.len() > 0 {
        lemma_without_dashes(commands.drop_last(), steps);
        if all_dashes(commands.last()) {
            lemma_dashes_do_nothing(commands.last(), with_segments(commands.drop_last(), steps));
        } else {
            let kept = without_dashes(commands.drop_last());
            assert(kept.push(commands.last()).drop_last() =~= kept);
        }
    }
}

/// The bit `k` of a word, set or not.
pub open spec fn bit(b: bool, k: u64) -> u64 {
    if b {
        1u64 << k
    } else {
        0u64
    }
}

/// A pitch shift as sixteen bits in two's complement.
pub open spec fn pitch_field(cents: i32) -> u64 {
    (cents as int % 65536) as u64
}

/// The pitch shift that sixteen bits in two's complement stand for.
pub open spec fn pitch_of_field(f: u64) -> int {
    if f >= 32768 {
        f as int - 65536
    } else {
        f as int
    }
}

/// Effects as one word: a bit for each switch, a byte for each level, sixteen bits for the
/// pitch. The bank is not part of it.
pub open spec fn packed(e: StepEffects) -> u64 {
    bit(e.reverse, 0) | bit(e.stutter, 1) | bit(e.distortion, 2) | bit(e.lowpass, 3) | bit(
        e.highpass,
        4,
    ) | bit(e.half_speed, 5) | bit(e.double_speed, 6) | (e.distortion_mix.byte() << 7) | (
    e.lowpass_mix.byte() << 15) | (e.highpass_mix.byte() << 23) | (e.fade_in.byte() << 31) | (
    e.fade_out.byte() << 39) | (pitch_field(e.pitch_cents) << 47)
}

/// A byte read as a level in 255ths.
pub open spec fn level_of_byte(b: u64) -> Level {
    Level { num: b as usize, den: 255, falls: false, of_span: false }
}

/// The effects that a packed word stands for.
pub open spec fn unpacked(v: u64) -> StepEffects {
    StepEffects {
        reverse: v & 1 != 0,
        stutter: v & 2 != 0,
        distortion: v & 4 != 0,
        lowpass: v & 8 != 0,
        highpass: v & 16 != 0,
        half_speed: v & 32 != 0,
        double_speed: v & 64 != 0,
        distortion_mix: level_of_byte((v >> 7) & 0xFF),
        lowpass_mix: level_of_byte((v >> 15) & 0xFF),
        highpass_mix: level_of_byte((v >> 23) & 0xFF),
        fade_in: level_of_byte((v >> 31) & 0xFF),
        fade_out: level_of_byte((v >> 39) & 0xFF),
        pitch_cents: pitch_of_field((v >> 47) & 0xFFFF) as i32,
        bank: 0,
    }
}

impl StepEffects {
    /// No level has a zero denominator.
    pub open spec fn defined(self) -> bool {
        &&& self.distortion_mix.den > 0
        &&& self.lowpass_mix.den > 0
        &&& self.highpass_mix.den > 0
        &&& self.fade_in.den > 0
        &&& self.fade_out.den > 0
    }

    /// The effects with each level rounded down to a 255th, and without the bank.
    pub open spec fn rounded(self) -> StepEffects {
        StepEffects {
            distortion_mix: level_of_byte(self.distortion_mix.byte()),
            lowpass_mix: level_of_byte(self.lowpass_mix.byte()),
            highpass_mix: level_of_byte(self.highpass_mix.byte()),
            fade_in: level_of_byte(self.fade_in.byte()),
            fade_out: level_of_byte(self.fade_out.byte()),
            bank: 0,
            ..self
        }
    }

    /// Pack into a u64 for atomic transfer to the audio thread.
    ///
    /// The bank stays behind: it has been used up when the slice was chosen.
    pub fn pack(&self) -> (v: u64)
        requires
            self.defined(),
        ensures
            v == packed(*self),
    {
        let mut v: u64 = if self.reverse {
            1u64 << 0u64
        } else {
            0
        };
        v = v | if self.stutter {
            1u64 << 1u64
        } else {
            0
        };
        v = v | if self.distortion {
            1u64 << 2u64
        } else {
            0
        };
        v = v | if self.lowpass {
            1u64 << 3u64
        } else {
            0
        };
        v = v | if self.highpass {
            1u64 << 4u64
        } else {
            0
        };
        v = v | if self.half_speed {
            1u64 << 5u64
        } else {
            0
        };
        v = v | if self.double_speed {
            1u64 << 6u64
        } else {
            0
        };
        v = v | (self.distortion_mix.to_byte() << 7);
        v = v | (self.lowpass_mix.to_byte() << 15);
        v = v | (self.highpass_mix.to_byte() << 23);
        v = v | (self.fade_in.to_byte() << 31);
        v = v | (self.fade_out.to_byte() << 39);
        let pitch: u64 = ((self.pitch_cents as i64 + 0x1_0000_0000) % 65536) as u64;
        v = v | (pitch << 47);
        v
    }

    /// Unpack from a u64.
    pub fn unpack(v: u64) -> (e: Self)
        ensures
            e == unpacked(v),
    {
        let a: u64 = (v >> 7) & 0xFF;
        let b: u64 = (v >> 15) & 0xFF;
        let c: u64 = (v >> 23) & 0xFF;
        let d: u64 = (v >> 31) & 0xFF;
        let f: u64 = (v >> 39) & 0xFF;
        let p: u64 = (v >> 47) & 0xFFFF;
        assert(a < 256 && b < 256 && c < 256 && d < 256 && f < 256 && p < 65536) by (bit_vector)
            requires
                a == (v >> 7) & 0xFF,
                b == (v >> 15) & 0xFF,
                c == (v >> 23) & 0xFF,
                d == (v >> 31) & 0xFF,
                f == (v >> 39) & 0xFF,
                p == (v >> 47) & 0xFFFF,
        ;
        StepEffects {
            reverse: v & 1 != 0,
            stutter: v & 2 != 0,
            distortion: v & 4 != 0,
            lowpass: v & 8 != 0,
            highpass: v & 16 != 0,
            half_speed: v & 32 != 0,
            double_speed: v & 64 != 0,
            distortion_mix: Level { num: a as usize, den: 255, falls: false, of_span: false },
            lowpass_mix: Level { num: b as usize, den: 255, falls: false, of_span: false },
            highpass_mix: Level { num: c as usize, den: 255, falls: false, of_span: false },
            fade_in: Level { num: d as usize, den: 255, falls: false, of_span: false },
            fade_out: Level { num: f as usize, den: 255, falls: false, of_span: false },
            pitch_cents: if p >= 32768 {
                p as i32 - 65536
            } else {
                p as i32
            },
            bank: 0,
        }
    }
}

/// A byte in single precision.
proof fn lemma_byte_single(b: int, s: nat)
    requires
        b > 0,
        s <= 7,
        128 <= b * pow2(s) <= 255,
    ensures
        float::nearest(b, 1, SINGLE as int) == (Dyadic {
            mant: 65536 * (b * pow2(s)),
            exp: -(16 + s),
        }),
{
    lemma_pow2_adds(16, s);
    lemma2_to64();
    let c = b * pow2(s);
    let w = pow2(s) as int;
    assert(b * (65536 * w) == 65536 * c) by (nonlinear_arith)
        requires
            c == b * w,
    ;
    float::lemma_rounded_down(b, 1, SINGLE as int, 16 + s);
    assert((65536 * c) / 1 == 65536 * c && (65536 * c) % 1 == 0);
}

/// A byte has a leading bit.
proof fn lemma_leading_bit(n: int) -> (s: nat)
    requires
        1 <= n <= 254,
    ensures
        s <= 7,
        128 <= n * pow2(s) <= 254,
    decreases 256 - n,
{
    lemma2_to64();
    if n >= 128 {
        assert(n * pow2(0) == n) by (nonlinear_arith)
            requires
                pow2(0) == 1,
        ;
        0
    } else {
        let r = lemma_leading_bit(2 * n);
        lemma_pow2_unfold(r + 1);
        let h = pow2(r) as int;
        let w = pow2(r + 1) as int;
        assert(n * w == (2 * n) * h && w <= n * w) by (nonlinear_arith)
            requires
                w == 2 * h,
                n >= 1,
                h >= 0,
        ;
        if r + 1 > 7 {
            if r + 1 > 8 {
                lemma_pow2_strictly_increases(8, r + 1);
            }
        }
        r + 1
    }
}

/// A number divided by itself is 1.
proof fn lemma_one(x: Dyadic)
    requires
        x.mant > 0,
    ensures
        float::quotient(x, x, SINGLE as int) == (Dyadic { mant: 0x80_0000, exp: -23 }),
{
    let m = x.mant;
    lemma2_to64();
    assert(m * pow2(23) == 0x80_0000 * m);
    let hi = SINGLE * m;
    assert(hi == 0x100_0000 * m);
    float::lemma_rounded_down(m, m, hi, 23);
    vstd::arithmetic::div_mod::lemma_div_by_multiple(0x80_0000, m);
    vstd::arithmetic::div_mod::lemma_mod_multiples_basic(0x80_0000, m);
}

/// 1 in 255ths.
proof fn lemma_one_in_steps()
    ensures
        float::product(
            Dyadic { mant: 0x80_0000, exp: -23 },
            float::nearest(255, 1, SINGLE as int),
            SINGLE as int,
        ) == (Dyadic { mant: 16711680, exp: -16 }),
        float::whole_part(Dyadic { mant: 16711680, exp: -16 }) == 255,
{
    lemma2_to64();
    vstd::arithmetic::div_mod::lemma_div_by_multiple(255, pow2(16) as int);
    lemma_byte_single(255, 0);
    float::lemma_rounded_up(0x80_0000 * 16711680int, 1, SINGLE as int, 23);
}

/// A byte that is read as a level is the byte of that level.
proof fn lemma_level_of_byte(b: u64)
    requires
        b < 256,
    ensures
        level_of_byte(b).byte() == b,
{
    let n = b as int;
    let t = SINGLE as int;
    lemma2_to64();
    let d = float::nearest(255, 1, t);
    lemma_byte_single(255, 0);
    assert(d == (Dyadic { mant: 16711680, exp: -16 }));
    if n == 0 {
        assert(level_of_byte(b).value() == (Dyadic { mant: 0, exp: 0 }));
    } else if n == 255 {
        lemma_one(d);
        lemma_one_in_steps();
        assert(level_of_byte(b).steps() == 255);
    } else {
        let s = lemma_leading_bit(n);
        let c = n * pow2(s);
        lemma_byte_single(n, s);
        lemma_share_of_byte(c);
        let x = float::nearest(n, 1, t);
        let value = float::quotient(x, d, t);
        assert(value == (Dyadic { mant: 65793 * c + 1, exp: -24 - s }));
        let scaled = float::product(value, d, t);
        assert(scaled == (Dyadic { mant: 65536 * c, exp: -16 - s }));
        lemma_pow2_adds(16, s);
        let w = pow2(16 + s) as int;
        lemma_pow2_pos(16 + s);
        let v = pow2(s) as int;
        assert(65536 * c == n * w) by (nonlinear_arith)
            requires
                c == n * v,
                w == 65536 * v,
        ;
        vstd::arithmetic::div_mod::lemma_div_by_multiple(n, w);
    }
}

/// A share of 255 is rounded up, by so little that 255 of it are rounded back.
proof fn lemma_share_of_byte(c: int)
    requires
        128 <= c <= 254,
    ensures
        float::nearest(65536 * c, 16711680, SINGLE as int) == (Dyadic {
            mant: 65793 * c + 1,
            exp: -24,
        }),
        float::nearest((65793 * c + 1) * 16711680, 1, SINGLE as int) == (Dyadic {
            mant: 65536 * c,
            exp: 24,
        }),
{
    lemma2_to64();
    let p = 65536 * c;
    assert(p * pow2(24) == 0x100_0000_0000 * c);
    float::lemma_rounded_down(p, 16711680, SINGLE * 16711680, 24);
    assert((0x100_0000_0000 * c) / 16711680 == 65793 * c && (0x100_0000_0000 * c) % 16711680 == 65536
        * c);
    let q = (65793 * c + 1) * 16711680;
    float::lemma_rounded_up(q, 1, SINGLE as int, 24);
    assert(q / 0x100_0000 == 65536 * c && q % 0x100_0000 == 65536 * (255 - c));
}

/// What is packed comes out again: every switch and the pitch unchanged, every level rounded
/// down to a 255th. The pitch is to fit sixteen bits, as that of every command does.
pub proof fn lemma_unpack_of_pack(e: StepEffects)
    requires
        e.defined(),
        -32768 <= e.pitch_cents < 32768,
    ensures
        unpacked(packed(e)) == e.rounded(),
{
    let v = packed(e);
    let (b0, b1, b2, b3, b4, b5, b6) = (
        bit(e.reverse, 0),
        bit(e.stutter, 1),
        bit(e.distortion, 2),
        bit(e.lowpass, 3),
        bit(e.highpass, 4),
        bit(e.half_speed, 5),
        bit(e.double_speed, 6),
    );
    let a = e.distortion_mix.byte();
    let b = e.lowpass_mix.byte();
    let c = e.highpass_mix.byte();
    let d = e.fade_in.byte();
    let f = e.fade_out.byte();
    let p = pitch_field(e.pitch_cents);
    assert(1u64 << 0u64 == 1 && 1u64 << 1u64 == 2 && 1u64 << 2u64 == 4 && 1u64 << 3u64 == 8 && 1u64
        << 4u64 == 16 && 1u64 << 5u64 == 32 && 1u64 << 6u64 == 64) by (bit_vector);
    assert({
        &&& v & 1 == b0
        &&& v & 2 == b1
        &&& v & 4 == b2
        &&& v & 8 == b3
        &&& v & 16 == b4
        &&& v & 32 == b5
        &&& v & 64 == b6
        &&& (v >> 7) & 0xFF == a
        &&& (v >> 15) & 0xFF == b
        &&& (v >> 23) & 0xFF == c
        &&& (v >> 31) & 0xFF == d
        &&& (v >> 39) & 0xFF == f
        &&& (v >> 47) & 0xFFFF == p
    }) by (bit_vector)
        requires
            v == b0 | b1 | b2 | b3 | b4 | b5 | b6 | (a << 7) | (b << 15) | (c << 23) | (d << 31) | (
            f << 39) | (p << 47),
            b0 == 0 || b0 == 1,
            b1 == 0 || b1 == 2,
            b2 == 0 || b2 == 4,
            b3 == 0 || b3 == 8,
            b4 == 0 || b4 == 16,
            b5 == 0 || b5 == 32,
            b6 == 0 || b6 == 64,
            a < 256,
            b < 256,
            c < 256,
            d < 256,
            f < 256,
            p < 65536,
    ;
}

/// Packing loses nothing of effects that came out of a packed word.
pub proof fn lemma_pack_of_unpack(v: u64)
    requires
        v < 0x8000_0000_0000_0000,
    ensures
        packed(unpacked(v)) == v,
{
    let e = unpacked(v);
    let (b0, b1, b2, b3, b4, b5, b6) = (
        bit(e.reverse, 0),
        bit(e.stutter, 1),
        bit(e.distortion, 2),
        bit(e.lowpass, 3),
        bit(e.highpass, 4),
        bit(e.half_speed, 5),
        bit(e.double_speed, 6),
    );
    let a = (v >> 7) & 0xFF;
    let b = (v >> 15) & 0xFF;
    let c = (v >> 23) & 0xFF;
    let d = (v >> 31) & 0xFF;
    let f = (v >> 39) & 0xFF;
    let p = (v >> 47) & 0xFFFF;
    assert(1u64 << 0u64 == 1 && 1u64 << 1u64 == 2 && 1u64 << 2u64 == 4 && 1u64 << 3u64 == 8 && 1u64
        << 4u64 == 16 && 1u64 << 5u64 == 32 && 1u64 << 6u64 == 64) by (bit_vector);
    assert({
        &&& v & 1 == 0 || v & 1 == 1
        &&& v & 2 == 0 || v & 2 == 2
        &&& v & 4 == 0 || v & 4 == 4
        &&& v & 8 == 0 || v & 8 == 8
        &&& v & 16 == 0 || v & 16 == 16
        &&& v & 32 == 0 || v & 32 == 32
        &&& v & 64 == 0 || v & 64 == 64
        &&& a < 256
        &&& b < 256
        &&& c < 256
        &&& d < 256
        &&& f < 256
        &&& p < 65536
        &&& v == (v & 1) | (v & 2) | (v & 4) | (v & 8) | (v & 16) | (v & 32) | (v & 64) | (a << 7)
            | (b << 15) | (c << 23) | (d << 31) | (f << 39) | (p << 47)
    }) by (bit_vector)
        requires
            v < 0x8000_0000_0000_0000,
            a == (v >> 7) & 0xFF,
            b == (v >> 15) & 0xFF,
            c == (v >> 23) & 0xFF,
            d == (v >> 31) & 0xFF,
            f == (v >> 39) & 0xFF,
            p == (v >> 47) & 0xFFFF,
    ;
    assert(pitch_field(e.pitch_cents) == p);
    lemma_level_of_byte(a);
    lemma_level_of_byte(b);
    lemma_level_of_byte(c);
    lemma_level_of_byte(d);
    lemma_level_of_byte(f);
}

/// Every step of every pattern has levels that are fractions from 0 to 1, a pitch shift between
/// nine semitones down and ten up, and one of ten banks.
pub proof fn lemma_effects_in_range(lines: Seq<Seq<char>>, s: int)
    requires
        effects_of(lines).len() <= usize::MAX,
        0 <= s < effects_of(lines).len(),
    ensures
        in_range(effects_of(lines)[s]),
    decreases lines.len(),
{
    if lines.len() > 0 {
        let head = effects_of(lines.drop_last());
        let line = line_of(lines.last());
        lemma_line_effects_len(line);
        if s < head.len() {
            lemma_effects_in_range(lines.drop_last(), s);
        } else {
            lemma_segments_in_range(line.commands, line.notes.len(), s - head.len());
        }
    }
}

/// Effects as commands can make them.
pub open spec fn in_range(e: StepEffects) -> bool {
    &&& e.proper()
    &&& -900 <= e.pitch_cents <= 1000
    &&& e.bank < 10
}

proof fn lemma_segments_in_range(commands: Seq<Seq<char>>, steps: nat, s: int)
    requires
        0 <= s < steps <= usize::MAX,
    ensures
        with_segments(commands, steps).len() == steps,
        in_range(with_segments(commands, steps)[s]),
    decreases commands.len(),
{
    if commands.len() > 0 {
        let prior = with_segments(commands.drop_last(), steps);
        lemma_segments_in_range(commands.drop_last(), steps, s);
        let cmd = commands.last();
        let len = lesser(cmd.len() as int, prior.len() as int);
        if s < len {
            lemma_segment_in_range(cmd, len, s, len, prior[s]);
        }
    }
}

#[verifier::rlimit(40)]
proof fn lemma_segment_in_range(cmd: Seq<char>, len: int, s: int, n: int, prior: StepEffects)
    requires
        0 <= n <= len <= cmd.len(),
        len <= usize::MAX,
        0 <= s < len,
        in_range(prior),
    ensures
        in_range(effects_after(cmd, len, s, n, prior)),
    decreases n,
{
    if n > 0 {
        let i = n - 1;
        lemma_segment_in_range(cmd, len, s, i, prior);
        lemma_one_command(cmd, len, s, i, prior);
        lemma_held(cmd, len, i);
        reveal(one_command);
    }
}

/// A rising ramp goes from 0 to 1, a falling one from 1 to 0.
pub proof fn lemma_ramp_ends(span: int)
    requires
        1 < span <= usize::MAX,
    ensures
        rising(0, span).num == 0,
        rising(span - 1, span).is_full(),
        falling(0, span).is_full(),
        falling(span - 1, span).num == 0,
        rising(0, span).byte() == 0,
        rising(span - 1, span).byte() == 255,
        falling(0, span).byte() == 255,
        falling(span - 1, span).byte() == 0,
{
    let t = SINGLE as int;
    lemma2_to64();
    let den = span - 1;
    let d = float::nearest(den, 1, t);
    float::lemma_rounded(den, 1, t, t);
    lemma_one(d);
    lemma_one_in_steps();
    lemma_byte_single(1, 7);
    lemma_byte_single(255, 0);
    assert(rising(0, span).value() == (Dyadic { mant: 0, exp: 0 }));
    assert(falling(span - 1, span).value() == (Dyadic { mant: 0, exp: 0 }));
    assert(rising(span - 1, span).value() == (Dyadic { mant: 0x80_0000, exp: -23 }));
    assert(falling(0, span).value() == (Dyadic { mant: 0x80_0000, exp: -23 }));
}

/// A toggle effect comes in and goes out by the levels of a volume fade, as long as single
/// precision tells the steps of the span apart.
pub proof fn lemma_ramped_as_faded(k: int, span: int)
    requires
        0 <= k < span,
        1 < span <= SINGLE,
    ensures
        ramped(true, k, span).value() == rising(k, span).value(),
        ramped(false, k, span).value() == falling(k, span).value(),
{
    let t = SINGLE as int;
    if span < t {
        float::lemma_whole_exact(span, t);
    } else {
        lemma2_to64();
        float::lemma_rounded_up(t, 1, t, 1);
        assert(0x80_0000 * pow2(1) == t);
    }
}

proof fn lemma_last_at_found(cmd: Seq<char>, target: char, i: int, hi: int)
    requires
        0 <= i < hi <= cmd.len(),
        cmd[i] == target,
        forall|j: int| i < j < hi ==> #[trigger] cmd[j] != target,
    ensures
        last_at(cmd, target, hi) == Some(i),
    decreases hi,
{
    if hi - 1 > i {
        assert(cmd[hi - 1] != target);
        lemma_last_at_found(cmd, target, i, hi - 1);
    }
}

/// After `\` the volume falls from 1 to 0 at the end of the line, whatever stands in between
/// but another `\`.
pub proof fn lemma_fade_out_spans_line(cmd: Seq<char>, len: int, i: int, prior: Level)
    requires
        0 <= i < len - 1,
        len <= cmd.len(),
        len <= usize::MAX,
        cmd[i] == '\\',
        forall|j: int| i < j < len ==> #[trigger] cmd[j] != '\\',
    ensures
        faded_out(cmd, len, i, len, prior).is_full(),
        faded_out(cmd, len, len - 1, len, prior).num == 0,
        forall|s: int|
            i <= s < len ==> #[trigger] faded_out(cmd, len, s, len, prior) == falling(
                s - i,
                len - i,
            ),
{
    assert forall|s: int| i <= s < len implies #[trigger] faded_out(cmd, len, s, len, prior)
        == falling(s - i, len - i) by {
        lemma_last_at_found(cmd, '\\', i, s + 1);
    }
}

/// After `/` the volume climbs from 0 to 1 at the end of the line, whatever stands in between
/// but another `/`.
pub proof fn lemma_fade_in_spans_line(cmd: Seq<char>, len: int, i: int, prior: Level)
    requires
        0 <= i < len - 1,
        len <= cmd.len(),
        len <= usize::MAX,
        cmd[i] == '/',
        forall|j: int| i < j < len ==> #[trigger] cmd[j] != '/',
    ensures
        faded_in(cmd, len, i, len, prior).num == 0,
        faded_in(cmd, len, len - 1, len, prior).is_full(),
        forall|s: int|
            i <= s < len ==> #[trigger] faded_in(cmd, len, s, len, prior) == rising(s - i, len - i),
{
    assert forall|s: int| i <= s < len implies #[trigger] faded_in(cmd, len, s, len, prior)
        == rising(s - i, len - i) by {
        lemma_last_at_found(cmd, '/', i, s + 1);
    }
}

/// A `-` repeats the filter or distortion that is held, and goes on holding it.
pub proof fn lemma_dash_repeats(
    cmd: Seq<char>,
    len: int,
    kind: char,
    start: int,
    i: int,
    prior: (bool, Level),
)
    requires
        0 <= i < len <= cmd.len(),
        cmd[i] == '-',
        held(cmd, len, i).active == Some((kind, start)),
    ensures
        toggled(cmd, len, kind, i, i + 1, prior) == (true, Level::full()),
        held(cmd, len, i + 1).active == Some((kind, start)),
{
}

/// After `^` nothing is held: until the next `L`, `H` or `*`, no later command touches the
/// filters or the distortion of any step.
pub proof fn lemma_cut_holds(
    cmd: Seq<char>,
    len: int,
    kind: char,
    s: int,
    i: int,
    n: int,
    prior: (bool, Level),
)
    requires
        0 <= i < n <= len <= cmd.len(),
        cmd[i] == '^',
        forall|j: int| i < j < n ==> !is_toggle(#[trigger] cmd[j]),
    ensures
        held(cmd, len, n).active is None,
        toggled(cmd, len, kind, s, n, prior) == toggled(cmd, len, kind, s, i, prior),
    decreases n,
{
    if n - 1 > i {
        lemma_cut_holds(cmd, len, kind, s, i, n - 1, prior);
        assert(!is_toggle(cmd[n - 1]));
    }
}

/// A fade-out that is asked for at `i` uses up the character at `p` as its end: the effect of that
/// character is held at `i`, and `p` is where it stands next.
pub open spec fn fades_out_to(cmd: Seq<char>, len: int, i: int, p: int) -> bool {
    &&& 0 <= i < p < len
    &&& cmd[i] == '>'
    &&& held(cmd, len, i).active matches Some((kind, _)) && kind == cmd[p]
    &&& forall|j: int| i < j < p ==> #[trigger] cmd[j] != cmd[p]
}

proof fn lemma_next_at_is_first(cmd: Seq<char>, target: char, from: int)
    requires
        0 <= from,
    ensures
        match next_at(cmd, target, from) {
            Some(m) => from <= m < cmd.len() && cmd[m] == target && forall|j: int|
                from <= j < m ==> #[trigger] cmd[j] != target,
            None => forall|j: int| from <= j < cmd.len() ==> #[trigger] cmd[j] != target,
        },
    decreases cmd.len() - from,
{
    if from < cmd.len() && cmd[from] != target {
        lemma_next_at_is_first(cmd, target, from + 1);
    }
}

/// An `L`, `H` or `*` is used up exactly where a fade-out ends on it.
pub proof fn lemma_what_is_used_up(cmd: Seq<char>, len: int, n: int, p: int)
    requires
        0 <= n <= len <= cmd.len(),
        n <= p < len,
    ensures
        held(cmd, len, n).spent.contains(p) <==> exists|i: int|
            i < n && #[trigger] fades_out_to(cmd, len, i, p),
    decreases n,
{
    if n > 0 {
        lemma_what_is_used_up(cmd, len, n - 1, p);
        let i = n - 1;
        let before = held(cmd, len, i);
        lemma_held(cmd, len, i);
        if cmd[i] == '>' {
            if let Some((kind, _)) = before.active {
                lemma_next_at_is_first(cmd, kind, i + 1);
                if next_at(cmd, kind, i + 1) == Some(p) {
                    assert(fades_out_to(cmd, len, i, p));
                }
            }
        }
        if held(cmd, len, n).spent.contains(p) && before.spent.contains(p) {
            let k = choose|k: int| k < n - 1 && #[trigger] fades_out_to(cmd, len, k, p);
            assert(k < n && fades_out_to(cmd, len, k, p));
        }
        if exists|k: int| k < n && #[trigger] fades_out_to(cmd, len, k, p) {
            let k = choose|k: int| k < n && #[trigger] fades_out_to(cmd, len, k, p);
            if k == i {
                let kind = cmd[p];
                lemma_next_at_is_first(cmd, kind, i + 1);
                let m = next_at(cmd, kind, i + 1);
                assert(m is Some);
                assert(m->Some_0 == p) by {
                    let q = m->Some_0;
                    if q < p {
                        assert(cmd[q] != cmd[p]);
                    }
                    if p < q {
                        assert(cmd[p] != kind);
                    }
                }
            } else {
                assert(k < n - 1 && fades_out_to(cmd, len, k, p));
            }
        }
    }
}

/// What is held is the nearest `L`, `H` or `*` before, whatever was held before that one, but for
/// those that a fade-out ends on; and nothing is held where a `^`, a `<` or a `>` came after it.
pub proof fn lemma_nearest_is_held(cmd: Seq<char>, len: int, n: int, kind: char, q: int)
    requires
        0 <= n <= len <= cmd.len(),
    ensures
        held(cmd, len, n).active == Some((kind, q)) <==> {
            &&& 0 <= q < n
            &&& cmd[q] == kind
            &&& kind == 'L' || kind == 'H' || kind == '*'
            &&& !exists|i: int| #[trigger] fades_out_to(cmd, len, i, q)
            &&& forall|j: int|
                #![trigger cmd[j]]
                q < j < n ==> {
                    &&& cmd[j] != '^' && cmd[j] != '<' && cmd[j] != '>'
                    &&& (cmd[j] == 'L' || cmd[j] == 'H' || cmd[j] == '*') ==> exists|i: int|
                        #[trigger] fades_out_to(cmd, len, i, j)
                }
        },
    decreases n,
{
    if n > 0 {
        let i = n - 1;
        lemma_nearest_is_held(cmd, len, i, kind, q);
        lemma_what_is_used_up(cmd, len, i, i);
        lemma_held(cmd, len, i);
        let used = exists|k: int| #[trigger] fades_out_to(cmd, len, k, i);
        assert(used == held(cmd, len, i).spent.contains(i)) by {
            if used {
                let k = choose|k: int| #[trigger] fades_out_to(cmd, len, k, i);
                assert(k < i && fades_out_to(cmd, len, k, i));
            }
        }
        assert(cmd[i] == cmd[n - 1]);
    }
}

/// The character of step `s` itself switches the effect `kind` on: it is that `L`, `H` or `*`, and no
/// fade-out ends on it, or it is a `-` that repeats one.
pub open spec fn switched_on(cmd: Seq<char>, len: int, kind: char, s: int) -> bool {
    ||| cmd[s] == kind && !exists|i: int| #[trigger] fades_out_to(cmd, len, i, s)
    ||| cmd[s] == '-' && (held(cmd, len, s).active matches Some((c, _)) && c == kind)
}

/// A ramp of the effect `kind` that is asked for at `i` began at `q` and reaches step `s`: from there
/// on, `kind` does not stand before `s` again.
pub open spec fn ramp_reaches(cmd: Seq<char>, len: int, kind: char, q: int, i: int, s: int) -> bool {
    &&& 0 <= i < len
    &&& cmd[i] == '<' || cmd[i] == '>'
    &&& held(cmd, len, i).active == Some((kind, q))
    &&& q <= s < len
    &&& forall|j: int| i < j < s ==> #[trigger] cmd[j] != kind
}

proof fn lemma_ramp_reach(cmd: Seq<char>, len: int, kind: char, q: int, i: int, s: int)
    requires
        0 <= i < len <= cmd.len(),
        0 <= s < len,
        cmd[i] == '<' || cmd[i] == '>',
        held(cmd, len, i).active == Some((kind, q)),
    ensures
        ramp_reaches(cmd, len, kind, q, i, s) == (q <= s < ramp_end(cmd, len, kind, i)),
{
    lemma_next_at_is_first(cmd, kind, i + 1);
    if q <= s < ramp_end(cmd, len, kind, i) {
        assert forall|j: int| i < j < s implies #[trigger] cmd[j] != kind by {}
    } else if q <= s && ramp_reaches(cmd, len, kind, q, i, s) {
        let m = next_at(cmd, kind, i + 1)->Some_0;
        assert(cmd[m] != kind);
    }
}

proof fn lemma_toggled_on(
    cmd: Seq<char>,
    len: int,
    kind: char,
    s: int,
    n: int,
    prior: (bool, Level),
)
    requires
        0 <= n <= len <= cmd.len(),
        0 <= s < len,
        kind == 'L' || kind == 'H' || kind == '*',
    ensures
        toggled(cmd, len, kind, s, n, prior).0 <==> {
            ||| prior.0
            ||| s < n && switched_on(cmd, len, kind, s)
            ||| exists|q: int, i: int| i < n && #[trigger] ramp_reaches(cmd, len, kind, q, i, s)
        },
    decreases n,
{
    if n > 0 {
        let i = n - 1;
        lemma_toggled_on(cmd, len, kind, s, i, prior);
        lemma_what_is_used_up(cmd, len, i, i);
        assert(held(cmd, len, i).spent.contains(i) == exists|k: int|
            #[trigger] fades_out_to(cmd, len, k, i)) by {
            if exists|k: int| #[trigger] fades_out_to(cmd, len, k, i) {
                let k = choose|k: int| #[trigger] fades_out_to(cmd, len, k, i);
                assert(k < i && fades_out_to(cmd, len, k, i));
            }
        }
        if cmd[i] == '<' || cmd[i] == '>' {
            if let Some((c, q)) = held(cmd, len, i).active {
                lemma_ramp_reach(cmd, len, c, q, i, s);
            }
        }
        let was = exists|q: int, k: int| k < i && #[trigger] ramp_reaches(cmd, len, kind, q, k, s);
        let now = exists|q: int, k: int| k < n && #[trigger] ramp_reaches(cmd, len, kind, q, k, s);
        if was {
            let (q, k) = choose|q: int, k: int| k < i && #[trigger] ramp_reaches(cmd, len, kind, q, k, s);
            assert(k < n && ramp_reaches(cmd, len, kind, q, k, s));
        }
        if now && !was {
            let (q, k) = choose|q: int, k: int| k < n && #[trigger] ramp_reaches(cmd, len, kind, q, k, s);
            assert(k == i);
        }
    }
}

/// The mix that is left where no later ramp reaches a step.
proof fn lemma_toggled_stays(
    cmd: Seq<char>,
    len: int,
    kind: char,
    s: int,
    m: int,
    n: int,
    prior: (bool, Level),
)
    requires
        0 <= m <= n <= len <= cmd.len(),
        0 <= s < len,
        kind == 'L' || kind == 'H' || kind == '*',
        m <= s < n ==> !switched_on(cmd, len, kind, s),
        forall|q: int, i: int| m <= i < n ==> !#[trigger] ramp_reaches(cmd, len, kind, q, i, s),
    ensures
        toggled(cmd, len, kind, s, n, prior) == toggled(cmd, len, kind, s, m, prior),
    decreases n,
{
    if m < n {
        let i = n - 1;
        lemma_toggled_stays(cmd, len, kind, s, m, i, prior);
        lemma_what_is_used_up(cmd, len, i, i);
        if !held(cmd, len, i).spent.contains(i) {
            assert(!exists|k: int| #[trigger] fades_out_to(cmd, len, k, i)) by {
                if exists|k: int| #[trigger] fades_out_to(cmd, len, k, i) {
                    let k = choose|k: int| #[trigger] fades_out_to(cmd, len, k, i);
                    assert(k < i && fades_out_to(cmd, len, k, i));
                }
            }
        }
        if cmd[i] == '<' || cmd[i] == '>' {
            if let Some((c, q)) = held(cmd, len, i).active {
                lemma_ramp_reach(cmd, len, c, q, i, s);
                assert(!ramp_reaches(cmd, len, kind, q, i, s));
            }
        }
    }
}

/// What one of the effects `L`, `H` and `*` of a step is, on or off and at what mix.
pub open spec fn toggle_of(e: StepEffects, kind: char) -> (bool, Level) {
    if kind == 'L' {
        (e.lowpass, e.lowpass_mix)
    } else if kind == 'H' {
        (e.highpass, e.highpass_mix)
    } else {
        (e.distortion, e.distortion_mix)
    }
}

/// A segment acts on the steps that both it and the line have: `len` of them.
pub open spec fn segment_length(cmd: Seq<char>, prior: Seq<StepEffects>, len: int) -> bool {
    ||| len == cmd.len() && len <= prior.len()
    ||| len == prior.len() && len <= cmd.len()
}

/// A segment has a filter or the distortion on at a step exactly where it was on before, the step's
/// own character switches it on, or a ramp reaches the step.
pub proof fn lemma_what_is_on(
    cmd: Seq<char>,
    prior: Seq<StepEffects>,
    len: int,
    kind: char,
    s: int,
)
    requires
        segment_length(cmd, prior, len),
        0 <= s < len,
        kind == 'L' || kind == 'H' || kind == '*',
    ensures
        ({
            toggle_of(with_segment(cmd, prior)[s], kind).0 <==> {
                ||| toggle_of(prior[s], kind).0
                ||| switched_on(cmd, len, kind, s)
                ||| exists|q: int, i: int| #[trigger] ramp_reaches(cmd, len, kind, q, i, s)
            }
        }),
{
    assert(len == lesser(cmd.len() as int, prior.len() as int));
    lemma_toggled_on(cmd, len, kind, s, len, toggle_of(prior[s], kind));
    if exists|q: int, i: int| #[trigger] ramp_reaches(cmd, len, kind, q, i, s) {
        let (q, i) = choose|q: int, i: int| #[trigger] ramp_reaches(cmd, len, kind, q, i, s);
        assert(i < len && ramp_reaches(cmd, len, kind, q, i, s));
    }
}

/// A step whose own character switches an effect on has it at full mix, unless a later ramp reaches
/// back to the step; a step that nothing in the segment touches keeps what it had.
pub proof fn lemma_mix_without_ramp(
    cmd: Seq<char>,
    prior: Seq<StepEffects>,
    len: int,
    kind: char,
    s: int,
)
    requires
        segment_length(cmd, prior, len),
        0 <= s < len,
        kind == 'L' || kind == 'H' || kind == '*',
    ensures
        ({
            let after = toggle_of(with_segment(cmd, prior)[s], kind);
            &&& switched_on(cmd, len, kind, s) && (forall|q: int, i: int|
                i > s ==> !#[trigger] ramp_reaches(cmd, len, kind, q, i, s)) ==> after.0
                && after.1.is_full() && !after.1.falls
            &&& !switched_on(cmd, len, kind, s) && (forall|q: int, i: int|
                !#[trigger] ramp_reaches(cmd, len, kind, q, i, s)) ==> after == toggle_of(
                prior[s],
                kind,
            )
        }),
{
    assert(len == lesser(cmd.len() as int, prior.len() as int));
    let was = toggle_of(prior[s], kind);
    if switched_on(cmd, len, kind, s) {
        if forall|q: int, i: int| i > s ==> !#[trigger] ramp_reaches(cmd, len, kind, q, i, s) {
            lemma_toggled_stays(cmd, len, kind, s, s + 1, len, was);
            lemma_what_is_used_up(cmd, len, s, s);
            if held(cmd, len, s).spent.contains(s) {
                let k = choose|k: int| k < s && #[trigger] fades_out_to(cmd, len, k, s);
                assert(fades_out_to(cmd, len, k, s));
            }
            assert(toggled(cmd, len, kind, s, s + 1, was) == (true, Level::full()));
        }
    } else {
        if forall|q: int, i: int| !#[trigger] ramp_reaches(cmd, len, kind, q, i, s) {
            lemma_toggled_stays(cmd, len, kind, s, 0, len, was);
        }
    }
}

/// A ramp goes in equal steps from where its effect began to its end, which is where the effect's
/// character stands next, or the end of the line: up from 0 to 1 for `<`, down from 1 to 0 for `>`.
/// A later ramp has it its own way, and so has a step that switches the effect on behind the ramp's
/// own character.
pub proof fn lemma_mix_of_ramp(
    cmd: Seq<char>,
    prior: Seq<StepEffects>,
    len: int,
    kind: char,
    q: int,
    i: int,
    last: int,
    s: int,
)
    requires
        segment_length(cmd, prior, len),
        0 <= s < len <= usize::MAX,
        kind == 'L' || kind == 'H' || kind == '*',
        ({
            &&& ramp_reaches(cmd, len, kind, q, i, s)
            &&& ({
                ||| i < last < len && cmd[last] == kind && forall|j: int|
                    i < j < last ==> #[trigger] cmd[j] != kind
                ||| last == len - 1 && forall|j: int| i < j < len ==> #[trigger] cmd[j] != kind
            })
            &&& forall|r: int, k: int| k > i ==> !#[trigger] ramp_reaches(cmd, len, kind, r, k, s)
            &&& s > i ==> !switched_on(cmd, len, kind, s)
        }),
    ensures
        ({
            let (on, mix) = toggle_of(with_segment(cmd, prior)[s], kind);
            &&& on
            &&& mix.den == last - q
            &&& cmd[i] == '<' ==> mix.num == s - q && !mix.falls
            &&& cmd[i] == '>' ==> mix.num == last - s && mix.falls
        }),
{
    assert(len == lesser(cmd.len() as int, prior.len() as int));
    let was = toggle_of(prior[s], kind);
    lemma_held(cmd, len, i);
    lemma_ramp_reach(cmd, len, kind, q, i, s);
    lemma_next_at_is_first(cmd, kind, i + 1);
    let end = ramp_end(cmd, len, kind, i);
    assert(end == last + 1) by {
        if let Some(m) = next_at(cmd, kind, i + 1) {
            if m < len {
                assert(cmd[m] == kind);
                if i < last < len && cmd[last] == kind {
                    if m < last {
                        assert(cmd[m] != kind);
                    }
                }
            } else if i < last {
                assert(cmd[last] != kind);
            }
        } else if i < last {
            assert(cmd[last] != kind);
        }
    }
    assert(!switched_on(cmd, len, kind, i));
    lemma_toggled_stays(cmd, len, kind, s, i + 1, len, was);
    assert(toggled(cmd, len, kind, s, i + 1, was) == (true, ramped(cmd[i] == '<', s - q, end - q)));
}

/// A `-` repeats the nearest `L`, `H` or `*` before it, whatever was held before that one: the step
/// has that effect on, at full mix unless a later ramp reaches back to it, and no other of the three
/// is switched on there unless a ramp from before reaches the step.
pub proof fn lemma_dashes_repeat_the_nearest(
    cmd: Seq<char>,
    prior: Seq<StepEffects>,
    len: int,
    p: int,
    s: int,
    other: char,
)
    requires
        segment_length(cmd, prior, len),
        0 <= p <= s < len,
        cmd[p] == 'L' || cmd[p] == 'H' || cmd[p] == '*',
        !exists|i: int| #[trigger] fades_out_to(cmd, len, i, p),
        forall|j: int| p < j <= s ==> #[trigger] cmd[j] == '-',
        other == 'L' || other == 'H' || other == '*',
        other != cmd[p],
    ensures
        ({
            let e = with_segment(cmd, prior)[s];
            &&& toggle_of(e, cmd[p]).0
            &&& (forall|q: int, i: int| i > s ==> !#[trigger] ramp_reaches(cmd, len, cmd[p], q, i, s))
                ==> toggle_of(e, cmd[p]).1.is_full() && !toggle_of(e, cmd[p]).1.falls
            &&& (forall|q: int, i: int| i < p ==> !#[trigger] ramp_reaches(cmd, len, other, q, i, s))
                ==> toggle_of(e, other) == toggle_of(prior[s], other)
        }),
{
    let kind = cmd[p];
    lemma_nearest_is_held(cmd, len, s, kind, p);
    if s > p {
        assert(cmd[s] == '-');
        assert forall|j: int| #![trigger cmd[j]] p < j < s implies cmd[j] == '-' by {}
        assert(held(cmd, len, s).active == Some((kind, p)));
    }
    assert(switched_on(cmd, len, kind, s));
    lemma_what_is_on(cmd, prior, len, kind, s);
    lemma_mix_without_ramp(cmd, prior, len, kind, s);
    assert(!switched_on(cmd, len, other, s));
    if forall|q: int, i: int| i < p ==> !#[trigger] ramp_reaches(cmd, len, other, q, i, s) {
        assert forall|q: int, i: int| !#[trigger] ramp_reaches(cmd, len, other, q, i, s) by {
            if ramp_reaches(cmd, len, other, q, i, s) {
                if p <= i <= s {
                    assert(cmd[i] == '<' || cmd[i] == '>');
                } else if i > s {
                    lemma_nearest_is_held(cmd, len, i, other, q);
                    assert(cmd[q] == other);
                    assert(cmd[p] == kind);
                    if q < p {
                        assert(exists|k: int| #[trigger] fades_out_to(cmd, len, k, p));
                    } else if q > p {
                        assert(cmd[q] == '-');
                    }
                    assert(false);
                }
            }
        }
        lemma_mix_without_ramp(cmd, prior, len, other, s);
    }
}

/// In a segment without ramps a filter or the distortion is on at a step exactly where it was on
/// before, or where the nearest of `L`, `H`, `*` and `^` up to the step is its own character and the
/// step holds that character or a `-`. It is then at full mix; else it is as it was.
pub proof fn lemma_toggles_without_ramps(
    cmd: Seq<char>,
    prior: Seq<StepEffects>,
    len: int,
    kind: char,
    s: int,
)
    requires
        segment_length(cmd, prior, len),
        0 <= s < len,
        kind == 'L' || kind == 'H' || kind == '*',
        forall|j: int| 0 <= j < len ==> #[trigger] cmd[j] != '<' && cmd[j] != '>',
    ensures
        ({
            let after = toggle_of(with_segment(cmd, prior)[s], kind);
            let is_set = exists|p: int|
                0 <= p <= s && #[trigger] cmd[p] == kind && (p == s || cmd[s] == '-') && forall|j: int|
                    p < j <= s ==> #[trigger] cmd[j] != 'L' && cmd[j] != 'H' && cmd[j] != '*' && cmd[j]
                        != '^';
            &&& is_set ==> after.0 && after.1.is_full() && !after.1.falls
            &&& !is_set ==> after == toggle_of(prior[s], kind)
        }),
{
    assert forall|q: int, i: int| !#[trigger] ramp_reaches(cmd, len, kind, q, i, s) by {
        if ramp_reaches(cmd, len, kind, q, i, s) {
            assert(cmd[i] != '<' && cmd[i] != '>');
        }
    }
    assert forall|i: int, p: int| !#[trigger] fades_out_to(cmd, len, i, p) by {
        if fades_out_to(cmd, len, i, p) {
            assert(cmd[i] != '>');
        }
    }
    lemma_mix_without_ramp(cmd, prior, len, kind, s);
    lemma_what_is_on(cmd, prior, len, kind, s);
    let is_set = exists|p: int|
        0 <= p <= s && #[trigger] cmd[p] == kind && (p == s || cmd[s] == '-') && forall|j: int|
            p < j <= s ==> #[trigger] cmd[j] != 'L' && cmd[j] != 'H' && cmd[j] != '*' && cmd[j]
                != '^';
    if is_set {
        let p = choose|p: int|
            0 <= p <= s && #[trigger] cmd[p] == kind && (p == s || cmd[s] == '-') && forall|j: int|
                p < j <= s ==> #[trigger] cmd[j] != 'L' && cmd[j] != 'H' && cmd[j] != '*' && cmd[j]
                    != '^';
        lemma_nearest_is_held(cmd, len, s, kind, p);
        assert(switched_on(cmd, len, kind, s));
    } else if switched_on(cmd, len, kind, s) {
        if cmd[s] == kind {
            assert(false);
        } else {
            let q = (held(cmd, len, s).active->Some_0).1;
            lemma_nearest_is_held(cmd, len, s, kind, q);
            assert(cmd[q] == kind);
            assert forall|j: int| q < j <= s implies #[trigger] cmd[j] != 'L' && cmd[j] != 'H' && cmd[j]
                != '*' && cmd[j] != '^' by {
                if j < s {
                    if cmd[j] == 'L' || cmd[j] == 'H' || cmd[j] == '*' {
                        let k = choose|k: int| #[trigger] fades_out_to(cmd, len, k, j);
                        assert(!fades_out_to(cmd, len, k, j));
                    }
                }
            }
            assert(false);
        }
    }
}

/// What a segment does to a step besides the filters and the distortion: `R` reverses the step, `~`
/// stutters it, a pitch letter shifts it and a digit names its bank; any other character leaves
/// these as they were.
pub proof fn lemma_marks_of_a_step(cmd: Seq<char>, prior: Seq<StepEffects>, len: int, s: int)
    requires
        segment_length(cmd, prior, len),
        0 <= s < len,
    ensures
        ({
            let e = with_segment(cmd, prior)[s];
            let c = cmd[s];
            &&& e.reverse == (prior[s].reverse || c == 'R')
            &&& e.stutter == (prior[s].stutter || c == '~')
            &&& e.pitch_cents == if pitch_cents_of(c) != 0 {
                pitch_cents_of(c)
            } else {
                prior[s].pitch_cents as int
            }
            &&& e.bank == if '0' <= c <= '9' {
                c as int - '0' as int
            } else {
                prior[s].bank as int
            }
        }),
{
}

/// A step is at half speed where it was so before, or where a `(` stands at or before it with no `)`
/// behind that up to the step; and at double speed likewise with `[` and `]`.
pub proof fn lemma_speeds_of_a_step(cmd: Seq<char>, prior: Seq<StepEffects>, len: int, s: int)
    requires
        segment_length(cmd, prior, len),
        0 <= s < len,
    ensures
        with_segment(cmd, prior)[s].half_speed <==> {
            ||| prior[s].half_speed
            ||| exists|i: int|
                0 <= i <= s && #[trigger] cmd[i] == '(' && forall|j: int|
                    i < j <= s ==> #[trigger] cmd[j] != ')'
        },
        with_segment(cmd, prior)[s].double_speed <==> {
            ||| prior[s].double_speed
            ||| exists|i: int|
                0 <= i <= s && #[trigger] cmd[i] == '[' && forall|j: int|
                    i < j <= s ==> #[trigger] cmd[j] != ']'
        },
{
    assert(len == lesser(cmd.len() as int, prior.len() as int));
    if enclosed(cmd, '(', ')', s, len) {
        let i = choose|i: int|
            0 <= i < len && i <= s && #[trigger] cmd[i] == '(' && unclosed(cmd, ')', i, s);
        assert(cmd[i] == '(');
    }
    if exists|i: int|
        0 <= i <= s && #[trigger] cmd[i] == '(' && forall|j: int|
            i < j <= s ==> #[trigger] cmd[j] != ')' {
        let i = choose|i: int|
            0 <= i <= s && #[trigger] cmd[i] == '(' && forall|j: int|
                i < j <= s ==> #[trigger] cmd[j] != ')';
        assert(cmd[i] == '(' && unclosed(cmd, ')', i, s));
    }
    if enclosed(cmd, '[', ']', s, len) {
        let i = choose|i: int|
            0 <= i < len && i <= s && #[trigger] cmd[i] == '[' && unclosed(cmd, ']', i, s);
        assert(cmd[i] == '[');
    }
    if exists|i: int|
        0 <= i <= s && #[trigger] cmd[i] == '[' && forall|j: int|
            i < j <= s ==> #[trigger] cmd[j] != ']' {
        let i = choose|i: int|
            0 <= i <= s && #[trigger] cmd[i] == '[' && forall|j: int|
                i < j <= s ==> #[trigger] cmd[j] != ']';
        assert(cmd[i] == '[' && unclosed(cmd, ']', i, s));
    }
}

/// From the last `\` or `/` up to a step on, the volume falls or climbs in equal steps to the end of
/// the line; a fade on the last step alone is full. Without one the fade stays as it was.
pub proof fn lemma_fades_of_a_step(cmd: Seq<char>, prior: Seq<StepEffects>, len: int, s: int)
    requires
        segment_length(cmd, prior, len),
        0 <= s < len <= usize::MAX,
    ensures
        ({
            let e = with_segment(cmd, prior)[s];
            &&& forall|i: int|
                0 <= i <= s && #[trigger] cmd[i] == '\\' && (forall|j: int|
                    i < j <= s ==> #[trigger] cmd[j] != '\\') ==> if i < len - 1 {
                    e.fade_out.num == len - 1 - s && e.fade_out.den == len - 1 - i
                        && e.fade_out.falls
                } else {
                    e.fade_out.is_full() && !e.fade_out.falls
                }
            &&& (forall|j: int| 0 <= j <= s ==> #[trigger] cmd[j] != '\\') ==> e.fade_out
                == prior[s].fade_out
            &&& forall|i: int|
                0 <= i <= s && #[trigger] cmd[i] == '/' && (forall|j: int|
                    i < j <= s ==> #[trigger] cmd[j] != '/') ==> !e.fade_in.falls && if i < len
                    - 1 {
                    e.fade_in.num == s - i && e.fade_in.den == len - 1 - i
                } else {
                    e.fade_in.is_full()
                }
            &&& (forall|j: int| 0 <= j <= s ==> #[trigger] cmd[j] != '/') ==> e.fade_in
                == prior[s].fade_in
        }),
{
    let e = with_segment(cmd, prior)[s];
    assert(len == lesser(cmd.len() as int, prior.len() as int));
    assert forall|i: int|
        0 <= i <= s && #[trigger] cmd[i] == '\\' && (forall|j: int|
            i < j <= s ==> #[trigger] cmd[j] != '\\') implies if i < len - 1 {
        e.fade_out.num == len - 1 - s && e.fade_out.den == len - 1 - i && e.fade_out.falls
    } else {
        e.fade_out.is_full() && !e.fade_out.falls
    } by {
        lemma_last_at_found(cmd, '\\', i, s + 1);
    }
    assert forall|i: int|
        0 <= i <= s && #[trigger] cmd[i] == '/' && (forall|j: int|
            i < j <= s ==> #[trigger] cmd[j] != '/') implies !e.fade_in.falls && if i < len - 1 {
        e.fade_in.num == s - i && e.fade_in.den == len - 1 - i
    } else {
        e.fade_in.is_full()
    } by {
        lemma_last_at_found(cmd, '/', i, s + 1);
    }
    if forall|j: int| 0 <= j <= s ==> #[trigger] cmd[j] != '\\' {
        lemma_last_at_none(cmd, '\\', s + 1);
    }
    if forall|j: int| 0 <= j <= s ==> #[trigger] cmd[j] != '/' {
        lemma_last_at_none(cmd, '/', s + 1);
    }
}

proof fn lemma_last_at_none(cmd: Seq<char>, target: char, hi: int)
    requires
        hi <= cmd.len(),
        forall|j: int| 0 <= j < hi ==> #[trigger] cmd[j] != target,
    ensures
        last_at(cmd, target, hi) is None,
    decreases hi,
{
    if hi > 0 {
        lemma_last_at_none(cmd, target, hi - 1);
    }
}

/// A segment leaves the steps behind its end alone, and adds or drops none.
pub proof fn lemma_steps_behind_a_segment(cmd: Seq<char>, prior: Seq<StepEffects>, s: int)
    ensures
        with_segment(cmd, prior).len() == prior.len(),
        cmd.len() <= s < prior.len() ==> with_segment(cmd, prior)[s] == prior[s],
{
}

/// The segments of a line act one after the other, each on what those before it left; a line of
/// notes alone has no effects.
pub proof fn lemma_segments_in_order(notes: Seq<char>, commands: Seq<Seq<char>>, cmd: Seq<char>, s: int)
    ensures
        line_effects(BeatLine { notes, commands: commands.push(cmd) }) == with_segment(
            cmd,
            line_effects(BeatLine { notes, commands }),
        ),
        0 <= s < notes.len() ==> line_effects(BeatLine { notes, commands: Seq::empty() })[s] == (
        StepEffects {
            reverse: false,
            stutter: false,
            distortion: false,
            lowpass: false,
            highpass: false,
            half_speed: false,
            double_speed: false,
            distortion_mix: Level { num: 0, den: 1, falls: false, of_span: false },
            lowpass_mix: Level { num: 0, den: 1, falls: false, of_span: false },
            highpass_mix: Level { num: 0, den: 1, falls: false, of_span: false },
            fade_in: Level { num: 0, den: 1, falls: false, of_span: false },
            fade_out: Level { num: 0, den: 1, falls: false, of_span: false },
            pitch_cents: 0,
            bank: 0,
        }),
{
    assert(commands.push(cmd).drop_last() =~= commands);
}

/// A pattern of one line has the effects of that line.
pub proof fn lemma_effects_of_one_line(raw: Seq<char>)
    ensures
        effects_of(seq![raw]) == line_effects(line_of(raw)),
{
    let one = seq![raw];
    assert(one.drop_last() =~= Seq::empty());
    assert(one.last() == raw);
    assert(effects_of(one.drop_last()) =~= Seq::empty());
    assert(effects_of(one) =~= line_effects(line_of(raw)));
}

/// How far a share in single precision is from the fraction that it stands for.
proof fn lemma_share_error(k: int, den: int)
    requires
        0 <= k <= den,
        0 < den,
    ensures
        ({
            let t = SINGLE as int;
            let s = float::quotient(float::nearest(k, 1, t), float::nearest(den, 1, t), t);
            let y = s.value() * den as real;
            &&& s.mant >= 0
            &&& y * (4194304int as real) <= k as real * (4194305int as real)
            &&& y * (4194304int as real) >= k as real * (4194303int as real)
        }),
{
    let t = SINGLE as int;
    let a = float::nearest(k, 1, t);
    let b = float::nearest(den, 1, t);
    let s = float::quotient(a, b, t);
    float::lemma_nearest_error(k, t);
    float::lemma_nearest_error(den, t);
    float::lemma_quotient_error(a, b, t);
    float::lemma_quotient_error_below(a, b, t);
    float::lemma_value_positive(s);
    let (sv, av, bv) = (s.value(), a.value(), b.value());
    let (kr, dr) = (k as real, den as real);
    float::lemma_real_order((16777215int as real) * dr, bv * (16777216int as real), sv);
    float::lemma_real_order(bv * (16777216int as real), (16777217int as real) * dr, sv);
    assert(((16777215int as real) * dr) * sv == (16777215int as real) * (sv * dr)) by (nonlinear_arith);
    assert(((16777217int as real) * dr) * sv == (16777217int as real) * (sv * dr)) by (nonlinear_arith);
    assert((bv * (16777216int as real)) * sv == (16777216int as real) * (sv * bv)) by (nonlinear_arith);
    let x = sv * bv;
    assert((16777216int as real) * x <= (16777217int as real) * av);
    assert((16777216int as real) * x >= (16777215int as real) * av);
    assert((16777216int as real) * av <= (16777217int as real) * kr);
    assert((16777216int as real) * av >= (16777215int as real) * kr);
}

/// A level in 255ths is its fraction of them, rounded down, but for less than the four-thousandth part
/// of one: so it is a byte, and a greater fraction never has a byte that is smaller by more than one.
pub proof fn lemma_bytes_of_levels(l: Level)
    requires
        0 < l.den,
        l.num <= l.den,
        !l.of_span,
    ensures
        l.byte() == l.steps(),
        0 <= l.steps() <= 255,
        4096 * (l.steps() * l.den) <= 4096 * (255 * l.num) + l.den,
        4096 * ((l.steps() + 1) * l.den) > 4096 * (255 * l.num) - l.den,
{
    let t = SINGLE as int;
    let den = l.den as int;
    let k = l.dividend();
    lemma_share_error(k, den);
    let share = float::quotient(float::nearest(k, 1, t), float::nearest(den, 1, t), t);
    float::lemma_value_positive(share);
    let v = l.value();
    let dr = den as real;
    let y = share.value() * dr;
    let x = v.value() * dr;
    let nr = l.num as real;
    if l.falls {
        float::lemma_one_less_error(share, t);
        let sv = share.value();
        let w = v.value();
        if sv < 1 as real {
            float::lemma_real_order(w * (16777216int as real), (16777217int as real) * (1 as real - sv), dr);
            float::lemma_real_order((16777215int as real) * (1 as real - sv), w * (16777216int as real), dr);
            assert((w * (16777216int as real)) * dr == (16777216int as real) * (w * dr)) by (nonlinear_arith);
            assert(((16777217int as real) * (1 as real - sv)) * dr == (16777217int as real) * (dr - sv * dr)) by (nonlinear_arith);
            assert(((16777215int as real) * (1 as real - sv)) * dr == (16777215int as real) * (dr - sv * dr)) by (nonlinear_arith);
            assert((16777216int as real) * x <= (16777217int as real) * (dr - y));
            assert((16777216int as real) * x >= (16777215int as real) * (dr - y));
        } else {
            assert(w == 0 as real);
            assert(x == 0 as real) by (nonlinear_arith)
                requires
                    w == 0 as real,
                    x == w * dr,
            ;
            float::lemma_real_order(1 as real, sv, dr);
            assert(1 as real * dr == dr) by (nonlinear_arith);
        }
    }
    assert((2097152int as real) * x <= (2097152int as real) * nr + dr);
    assert((2097152int as real) * x >= (2097152int as real) * nr - dr);
    lemma_full_scale();
    let full = float::nearest(255, 1, t);
    let scaled = float::product(v, full, t);
    assert(v.mant >= 0);
    float::lemma_product_error(v, full, t);
    float::lemma_product_error_below(v, full, t);
    float::lemma_whole_part(scaled);
    float::lemma_whole_part_above(scaled);
    let p = scaled.value();
    let vv = v.value();
    let z = p * dr;
    float::lemma_real_order(p * (16777216int as real), (16777217int as real) * (vv * (255int as real)), dr);
    float::lemma_real_order((16777215int as real) * (vv * (255int as real)), p * (16777216int as real), dr);
    assert((p * (16777216int as real)) * dr == (16777216int as real) * (p * dr)) by (nonlinear_arith);
    assert(((16777217int as real) * (vv * (255int as real))) * dr == (16777217int as real) * ((255int as real) * (vv * dr))) by (nonlinear_arith);
    assert(((16777215int as real) * (vv * (255int as real))) * dr == (16777215int as real) * ((255int as real) * (vv * dr))) by (nonlinear_arith);
    assert((16777216int as real) * z <= (16777217int as real) * ((255int as real) * x));
    assert((16777216int as real) * z >= (16777215int as real) * ((255int as real) * x));
    assert((4096int as real) * z <= (4096int as real) * ((255int as real) * nr) + dr);
    assert((4096int as real) * z >= (4096int as real) * ((255int as real) * nr) - dr);
    let whole = float::whole_part(scaled);
    float::lemma_real_order(whole as real, p, dr);
    float::lemma_real_product(whole, den);
    float::lemma_real_product(whole + 1, den);
    assert(p < (whole + 1) as real);
    let wr = (whole + 1) as real;
    assert(z < wr * dr) by (nonlinear_arith)
        requires
            z == p * dr,
            p < wr,
            dr > 0 as real,
    ;
    assert(4096 * (whole * den) <= 4096 * (255 * l.num) + den);
    assert(whole <= 255) by (nonlinear_arith)
        requires
            4096 * (whole * den) <= 4096 * (255 * l.num) + den,
            l.num <= den,
            den > 0,
    ;
    assert(whole == l.steps());
}

proof fn lemma_full_scale()
    ensures
        float::nearest(255, 1, SINGLE as int).value() == 255int as real,
        float::nearest(255, 1, SINGLE as int).mant >= 0,
{
    lemma2_to64();
    lemma_byte_single(255, 0);
    let p = pow2(16) as real;
    let m = 16711680int as real;
    assert(p == 65536int as real);
    assert(m * (1 as real / p) == 255int as real) by (nonlinear_arith)
        requires
            m == (255int as real) * p,
            p > 0 as real,
    {
        assert(p * (1 as real / p) == 1 as real);
    }
}

/// Where each effect stands in a packed word: the switches in the first seven bits, the levels in a
/// byte each behind them, the pitch in the sixteen bits behind those.
pub proof fn lemma_bits_of_a_word(v: u64)
    ensures
        unpacked(v).reverse == (v & 1 != 0),
        unpacked(v).stutter == (v & 2 != 0),
        unpacked(v).distortion == (v & 4 != 0),
        unpacked(v).lowpass == (v & 8 != 0),
        unpacked(v).highpass == (v & 16 != 0),
        unpacked(v).half_speed == (v & 32 != 0),
        unpacked(v).double_speed == (v & 64 != 0),
        unpacked(v).distortion_mix.num == (v >> 7) & 0xFF && unpacked(v).distortion_mix.den == 255,
        unpacked(v).lowpass_mix.num == (v >> 15) & 0xFF && unpacked(v).lowpass_mix.den == 255,
        unpacked(v).highpass_mix.num == (v >> 23) & 0xFF && unpacked(v).highpass_mix.den == 255,
        unpacked(v).fade_in.num == (v >> 31) & 0xFF && unpacked(v).fade_in.den == 255,
        unpacked(v).fade_out.num == (v >> 39) & 0xFF && unpacked(v).fade_out.den == 255,
        ((v >> 47) & 0xFFFF) < 0x8000 ==> unpacked(v).pitch_cents == ((v >> 47) & 0xFFFF),
        ((v >> 47) & 0xFFFF) >= 0x8000 ==> unpacked(v).pitch_cents == ((v >> 47) & 0xFFFF) - 0x1_0000,
{
    assert((v >> 7) & 0xFF < 256 && (v >> 15) & 0xFF < 256 && (v >> 23) & 0xFF < 256 && (v >> 31) & 0xFF
        < 256 && (v >> 39) & 0xFF < 256 && (v >> 47) & 0xFFFF < 65536) by (bit_vector);
}

} // verus!
