//! What the audio output does for each frame: which sample it reads, where it goes from there,
//! and when it stops.

use vstd::arithmetic::div_mod::{
    lemma_fundamental_div_mod_converse, lemma_mod_decreases, lemma_mod_multiples_vanish,
};
use vstd::prelude::*;

use crate::analysis::slicer::Slice;
use crate::engine::effects::{segment_length, with_segment, StepEffects};
use crate::engine::state::PlayMode;

verus! {

/// How fast a step is played.
#[derive(Debug, Clone, Copy, PartialEq, Eq, Structural)]
pub enum Speed {
    /// As recorded.
    Normal,
    Half,
    Double,
    /// Shifted in pitch by so many cents, which are never 0.
    Cents(i32),
}

/// The speed that effects ask for: a pitch shift before half speed, and that before double speed.
pub open spec fn speed_asked(e: StepEffects) -> Speed {
    if e.pitch_cents != 0 {
        Speed::Cents(e.pitch_cents)
    } else if e.half_speed {
        Speed::Half
    } else if e.double_speed {
        Speed::Double
    } else {
        Speed::Normal
    }
}

/// The speed that effects ask for.
pub fn speed_of(e: &StepEffects) -> (s: Speed)
    ensures
        s == speed_asked(*e),
{
    if e.pitch_cents != 0 {
        Speed::Cents(e.pitch_cents)
    } else if e.half_speed {
        Speed::Half
    } else if e.double_speed {
        Speed::Double
    } else {
        Speed::Normal
    }
}

/// Which filters are to forget what they have heard.
#[derive(Debug, Clone, Copy, PartialEq, Eq, Structural)]
pub struct FilterReset {
    pub lowpass: bool,
    pub highpass: bool,
}

/// Which filters start anew when the effects change, to avoid transients: those that were
/// switched on or off.
pub fn filter_reset(last: &StepEffects, now: &StepEffects) -> (r: FilterReset)
    ensures
        r == (FilterReset {
            lowpass: last.lowpass != now.lowpass,
            highpass: last.highpass != now.highpass,
        }),
{
    FilterReset {
        lowpass: last.lowpass != now.lowpass,
        highpass: last.highpass != now.highpass,
    }
}

/// The stretch of samples that is played as slice `idx`; all of them where there is no such slice.
pub open spec fn stretch(slices: Seq<Slice>, idx: int, total: int) -> Slice {
    if idx < slices.len() {
        slices[idx]
    } else {
        Slice { start: 0, end: total as usize }
    }
}

/// The stretch of samples that is played as slice `idx`.
pub fn slice_bounds(slices: &[Slice], idx: usize, total: usize) -> (s: Slice)
    ensures
        s == stretch(slices@, idx as int, total as int),
{
    if idx < slices.len() {
        slices[idx]
    } else {
        Slice { start: 0, end: total }
    }
}

/// How far into a slice a position is: the samples behind it, of how many.
pub fn slice_progress(pos: usize, slice: Slice) -> (r: (usize, usize))
    requires
        slice.start <= slice.end,
    ensures
        r.0 == (if pos >= slice.start {
            pos - slice.start
        } else {
            0
        }),
        r.1 == slice.end - slice.start,
{
    let offset: usize = if pos >= slice.start {
        pos - slice.start
    } else {
        0
    };
    (offset, slice.end - slice.start)
}

/// What is played and how.
#[derive(Debug, Clone, Copy, PartialEq, Eq, Structural)]
pub struct Voice {
    pub mode: PlayMode,
    pub reverse: bool,
    pub speed: Speed,
    /// The slice that is played.
    pub slice: Slice,
    /// The number of all samples.
    pub total: usize,
    pub stutter_start: usize,
    pub stutter_len: usize,
}

/// What one frame does.
#[derive(Debug, Clone, Copy, PartialEq, Eq, Structural)]
pub enum Frame {
    /// Playing ends; the frame is silent.
    Stop,
    /// Sample `index`, or silence where there is none, and `next` to go on from.
    Read { index: Option<usize>, next: usize },
    /// The two samples around a position between samples.
    Blend,
}

impl Voice {
    /// Where forward playing ends.
    pub open spec fn bound(self) -> int {
        if self.mode == PlayMode::Slice {
            self.slice.end as int
        } else {
            self.total as int
        }
    }

    /// Whether playing ends at a position.
    pub open spec fn ends_at(self, pos: int) -> bool {
        if self.mode == PlayMode::Stutter {
            self.stutter_len == 0 || pos >= self.total
        } else if self.reverse {
            pos == 0 || (self.mode == PlayMode::Slice && pos <= self.slice.start)
        } else {
            pos >= self.bound()
        }
    }

    /// Where a stutter reads when it has come to a position.
    pub open spec fn stutter_read(self, pos: int) -> int {
        self.stutter_start + (pos - self.stutter_start) % (self.stutter_len as int)
    }

    /// What the frame at a position does.
    pub open spec fn frame(self, pos: int) -> Frame {
        if self.ends_at(pos) {
            Frame::Stop
        } else if self.mode == PlayMode::Stutter {
            let read = self.stutter_read(pos);
            Frame::Read {
                index: if read < self.total {
                    Some(read as usize)
                } else {
                    None
                },
                next: (pos + 1) as usize,
            }
        } else if self.speed != Speed::Normal {
            Frame::Blend
        } else if self.reverse {
            Frame::Read { index: Some(pos as usize), next: (pos - 1) as usize }
        } else {
            Frame::Read { index: Some(pos as usize), next: (pos + 1) as usize }
        }
    }

    /// The position is one that playing can have come to: a stutter does not go back behind its
    /// start, and what is read as it is lies among the samples.
    pub open spec fn can_be_at(self, pos: int) -> bool {
        !self.ends_at(pos) ==> if self.mode == PlayMode::Stutter {
            self.stutter_start <= pos
        } else {
            self.speed == Speed::Normal ==> pos < self.total
        }
    }

    /// Decide what the frame at `pos` does.
    pub fn fetch(&self, pos: usize) -> (f: Frame)
        requires
            self.can_be_at(pos as int),
        ensures
            f == self.frame(pos as int),
    {
        if self.mode == PlayMode::Stutter {
            if self.stutter_len == 0 || pos >= self.total {
                return Frame::Stop;
            }
            let offset = (pos - self.stutter_start) % self.stutter_len;
            proof {
                lemma_mod_decreases((pos - self.stutter_start) as nat, self.stutter_len as nat);
            }
            let read_pos = self.stutter_start + offset;
            let index = if read_pos < self.total {
                Some(read_pos)
            } else {
                None
            };
            return Frame::Read { index, next: pos + 1 };
        }
        if self.reverse {
            if pos == 0 || (self.mode == PlayMode::Slice && pos <= self.slice.start) {
                return Frame::Stop;
            }
        } else {
            let bound = if self.mode == PlayMode::Slice {
                self.slice.end
            } else {
                self.total
            };
            if pos >= bound {
                return Frame::Stop;
            }
        }
        if self.speed != Speed::Normal {
            Frame::Blend
        } else if self.reverse {
            Frame::Read { index: Some(pos), next: pos - 1 }
        } else {
            Frame::Read { index: Some(pos), next: pos + 1 }
        }
    }

    /// Whether playing can have come to `pos`.
    pub fn reaches(&self, pos: usize) -> (r: bool)
        ensures
            r == self.can_be_at(pos as int),
    {
        if self.mode == PlayMode::Stutter {
            self.stutter_len == 0 || pos >= self.total || self.stutter_start <= pos
        } else if self.speed != Speed::Normal || pos < self.total {
            true
        } else if self.reverse {
            pos == 0 || (self.mode == PlayMode::Slice && pos <= self.slice.start)
        } else {
            !(self.mode == PlayMode::Slice && pos < self.slice.end)
        }
    }

    /// The two samples around a position between samples, of which `idx` is the one that it was
    /// rounded down to: that one, and the one to go to. Where there is no sample there is none
    /// to read; where there is none to go to, it is the first one again.
    pub open spec fn around(self, idx: int) -> (Option<usize>, Option<usize>) {
        let here = if idx < self.total {
            Some(idx as usize)
        } else {
            None
        };
        if self.reverse {
            (here, if idx > 0 {
                Some((idx - 1) as usize)
            } else {
                here
            })
        } else {
            (here, if idx + 1 < self.total {
                Some((idx + 1) as usize)
            } else {
                here
            })
        }
    }

    /// The two samples around a position between samples.
    pub fn neighbours(&self, idx: usize) -> (r: (Option<usize>, Option<usize>))
        ensures
            r == self.around(idx as int),
    {
        let here = if idx < self.total {
            Some(idx)
        } else {
            None
        };
        if self.reverse {
            if idx > 0 {
                (here, Some(idx - 1))
            } else {
                (here, here)
            }
        } else if idx < self.total && idx + 1 < self.total {
            (here, Some(idx + 1))
        } else {
            (here, here)
        }
    }

    /// The position `steps` samples on from `pos`, in the direction of playing.
    pub fn moved(&self, pos: usize, steps: usize) -> (next: usize)
        requires
            !self.reverse ==> pos + steps <= usize::MAX,
        ensures
            next == (if !self.reverse {
                pos + steps
            } else if pos >= steps {
                pos - steps
            } else {
                0
            }),
    {
        if !self.reverse {
            pos + steps
        } else if pos >= steps {
            pos - steps
        } else {
            0
        }
    }
}

/// The position after `n` frames that read at normal speed from `pos` on.
pub open spec fn played(v: Voice, pos: int, n: nat) -> Option<int>
    decreases n,
{
    if n == 0 {
        Some(pos)
    } else {
        match played(v, pos, (n - 1) as nat) {
            Some(p) => match v.frame(p) {
                Frame::Read { index, next } => Some(next as int),
                _ => None,
            },
            None => None,
        }
    }
}

/// A slice played as recorded goes through all its samples in order and stops behind the last.
pub proof fn lemma_slice_plays_through(v: Voice, n: nat)
    requires
        v.mode == PlayMode::Slice,
        !v.reverse,
        v.speed == Speed::Normal,
        v.slice.start <= v.slice.end <= v.total,
        n <= v.slice.end - v.slice.start,
    ensures
        played(v, v.slice.start as int, n) == Some(v.slice.start + n),
        n < v.slice.end - v.slice.start ==> v.frame(v.slice.start + n) == (Frame::Read {
            index: Some((v.slice.start + n) as usize),
            next: (v.slice.start + n + 1) as usize,
        }),
        v.frame(v.slice.end as int) == Frame::Stop,
    decreases n,
{
    if n > 0 {
        lemma_slice_plays_through(v, (n - 1) as nat);
    }
}

/// Free-running goes through all samples from its start and stops behind the last.
pub proof fn lemma_free_run_plays_to_end(v: Voice, start: int, n: nat)
    requires
        v.mode == PlayMode::FreeRun,
        !v.reverse,
        v.speed == Speed::Normal,
        0 <= start <= v.total,
        n <= v.total - start,
    ensures
        played(v, start, n) == Some(start + n),
        n < v.total - start ==> v.frame(start + n) == (Frame::Read {
            index: Some((start + n) as usize),
            next: (start + n + 1) as usize,
        }),
        v.frame(v.total as int) == Frame::Stop,
    decreases n,
{
    if n > 0 {
        lemma_free_run_plays_to_end(v, start, (n - 1) as nat);
    }
}

/// Reverse playing goes through the samples backwards, from the one it starts at to the one
/// behind the first, and stops there.
pub proof fn lemma_reverse_plays_backwards(v: Voice, start: int, n: nat)
    requires
        v.mode == PlayMode::FreeRun,
        v.reverse,
        v.speed == Speed::Normal,
        0 <= start < v.total,
        n <= start,
    ensures
        played(v, start, n) == Some(start - n),
        n < start ==> v.frame(start - n) == (Frame::Read {
            index: Some((start - n) as usize),
            next: (start - n - 1) as usize,
        }),
        v.frame(0) == Frame::Stop,
    decreases n,
{
    if n > 0 {
        lemma_reverse_plays_backwards(v, start, (n - 1) as nat);
    }
}

/// A stutter repeats the stretch that it started on: it reads nothing outside, and the same again
/// after every round.
pub proof fn lemma_stutter_repeats(v: Voice, pos: int)
    requires
        v.mode == PlayMode::Stutter,
        v.stutter_len > 0,
        v.stutter_start <= pos,
    ensures
        v.stutter_start <= v.stutter_read(pos) < v.stutter_start + v.stutter_len,
        v.stutter_read(pos + v.stutter_len) == v.stutter_read(pos),
        pos < v.stutter_start + v.stutter_len ==> v.stutter_read(pos) == pos,
{
    let len = v.stutter_len as int;
    let off = pos - v.stutter_start;
    lemma_mod_multiples_vanish(1, off, len);
    assert(len * 1 + off == off + len);
    if pos < v.stutter_start + v.stutter_len {
        lemma_fundamental_div_mod_converse(off, len, 0, off);
    }
}

/// No frame reads a sample that is not there, and playing can go on from wherever it goes.
pub proof fn lemma_reads_are_inside(v: Voice, pos: int)
    requires
        0 <= pos,
        v.can_be_at(pos),
        v.slice.end <= v.total,
        pos <= v.total,
    ensures
        v.frame(pos) matches Frame::Read { index, next } ==> {
            &&& index matches Some(i) ==> i < v.total
            &&& next <= v.total
            &&& v.can_be_at(next as int)
        },
{
}

/// A pitch shift, up or down, is heard at exactly its cents, whatever else is on; without one, half
/// speed goes before double speed, and a step with neither is played as recorded.
pub proof fn lemma_speed_heard(e: StepEffects)
    ensures
        e.pitch_cents != 0 ==> speed_asked(e) == Speed::Cents(e.pitch_cents),
        e.pitch_cents == 0 && e.half_speed ==> speed_asked(e) == Speed::Half,
        e.pitch_cents == 0 && !e.half_speed && e.double_speed ==> speed_asked(e) == Speed::Double,
        speed_asked(e) == Speed::Normal <==> e.pitch_cents == 0 && !e.half_speed && !e.double_speed,
{
}

/// A step whose command is one of the ten letters from `q` to `p` is played so many semitones up as
/// the letter's number, and one of the nine from `a` to `l` so many down.
pub proof fn lemma_pitch_letters_are_heard(
    cmd: Seq<char>,
    prior: Seq<StepEffects>,
    len: int,
    s: int,
    i: int,
)
    requires
        segment_length(cmd, prior, len),
        0 <= s < len,
    ensures
        0 <= i < 10 && cmd[s] == "qwertyuiop"@[i] ==> speed_asked(with_segment(cmd, prior)[s])
            == Speed::Cents((100 * (i + 1)) as i32),
        0 <= i < 9 && cmd[s] == "asdfghjkl"@[i] ==> speed_asked(with_segment(cmd, prior)[s])
            == Speed::Cents((-100 * (i + 1)) as i32),
{
    crate::config::lemma_pitch_rows(i);
    crate::engine::effects::lemma_marks_of_a_step(cmd, prior, len, s);
    lemma_speed_heard(with_segment(cmd, prior)[s]);
}

/// When playing stops: a stutter that has no length or has come to the end of the samples; reverse
/// playing at the first sample, or at the start of its slice where it plays a slice; forward playing
/// at the end of its slice, or of the samples where it runs free.
pub proof fn lemma_when_playing_stops(v: Voice, pos: int)
    requires
        0 <= pos,
    ensures
        v.mode == PlayMode::Stutter ==> (v.frame(pos) == Frame::Stop <==> v.stutter_len == 0 || pos
            >= v.total),
        v.mode == PlayMode::Slice && v.reverse ==> (v.frame(pos) == Frame::Stop <==> pos == 0 || pos
            <= v.slice.start),
        v.mode == PlayMode::FreeRun && v.reverse ==> (v.frame(pos) == Frame::Stop <==> pos == 0),
        v.mode == PlayMode::Slice && !v.reverse ==> (v.frame(pos) == Frame::Stop <==> pos
            >= v.slice.end),
        v.mode == PlayMode::FreeRun && !v.reverse ==> (v.frame(pos) == Frame::Stop <==> pos
            >= v.total),
{
}

/// What a frame reads that does not stop: a stutter its own stretch round and round, whatever the
/// speed; at normal speed the sample at hand, going on by one in the direction of playing; at any
/// other speed what lies between two samples.
pub proof fn lemma_what_a_frame_reads(v: Voice, pos: int)
    requires
        0 <= pos < usize::MAX,
        v.frame(pos) != Frame::Stop,
        v.can_be_at(pos),
    ensures
        v.mode == PlayMode::Stutter ==> ({
            let at = v.stutter_start + (pos - v.stutter_start) % (v.stutter_len as int);
            &&& v.frame(pos) matches Frame::Read { index, next } && next == pos + 1 && (at < v.total
                ==> index == Some(at as usize)) && (at >= v.total ==> index is None)
        }),
        v.mode != PlayMode::Stutter && v.speed == Speed::Normal ==> (v.frame(pos) matches Frame::Read {
            index,
            next,
        } && index == Some(pos as usize) && next == if v.reverse {
            pos - 1
        } else {
            pos + 1
        }),
        v.mode != PlayMode::Stutter && v.speed != Speed::Normal <==> v.frame(pos) == Frame::Blend,
{
}

/// A position between samples is blended from the sample that it was rounded down to and the next
/// one in the direction of playing; at the edge the same one again.
pub proof fn lemma_what_is_blended(v: Voice, idx: int)
    requires
        0 <= idx <= usize::MAX,
    ensures
        ({
            let (here, there) = v.around(idx);
            &&& idx < v.total ==> here == Some(idx as usize)
            &&& idx >= v.total ==> here is None
            &&& !v.reverse && idx + 1 < v.total ==> there == Some((idx + 1) as usize)
            &&& !v.reverse && idx + 1 >= v.total ==> there == here
            &&& v.reverse && idx > 0 ==> there == Some((idx - 1) as usize)
            &&& v.reverse && idx == 0 ==> there == here
        }),
{
}

/// A slice that there is plays its own stretch; one that there is not plays all samples.
pub proof fn lemma_stretch_of_a_slice(slices: Seq<Slice>, idx: int, total: int)
    requires
        0 <= idx,
        0 <= total <= usize::MAX,
    ensures
        idx < slices.len() ==> stretch(slices, idx, total) == slices[idx],
        idx >= slices.len() ==> stretch(slices, idx, total).start == 0 && stretch(
            slices,
            idx,
            total,
        ).end == total,
{
}

/// Playing can have come to every position of the stretch that it plays.
pub proof fn lemma_playing_can_come_there(v: Voice, pos: int)
    requires
        0 <= pos < v.total,
        v.mode == PlayMode::Stutter ==> v.stutter_start <= pos,
    ensures
        v.can_be_at(pos),
{
}

} // verus!
