//! Audio as it is held in memory.

use vstd::prelude::*;

verus! {

/// What an audio buffer holds.
#[verifier::ext_equal]
pub struct Sound {
    pub samples: Seq<u32>,
    pub sample_rate: u32,
    pub file_name: Seq<char>,
}

/// Mono audio buffer with metadata.
pub struct AudioBuffer {
    /// The bits of mono single-precision samples, normalized to [-1.0, 1.0].
    pub samples: Vec<u32>,
    /// Sample rate in Hz.
    pub sample_rate: u32,
    /// Original file name.
    pub file_name: String,
}

impl View for AudioBuffer {
    type V = Sound;

    open spec fn view(&self) -> Sound {
        Sound {
            samples: self.samples@,
            sample_rate: self.sample_rate,
            file_name: self.file_name@,
        }
    }
}

} // verus!
