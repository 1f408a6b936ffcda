//! The fixed layout of the polyphase upsampler: how long its filters are and
//! how many phases each supported input rate takes.

use vstd::prelude::*;

verus! {

/// The number of coefficients of every upsampling filter, and so the number
/// of past samples that one output sample is computed from.
pub const FIR_UPSAMPLING_DEG: usize = 12;

/// The input sample rates for which a bank of upsampling filters exists.
#[derive(PartialEq, Eq, Structural, Clone, Copy, Debug)]
pub enum UpsamplingBank {
    /// 48 kHz input.
    Rate48k,
    /// 44.1 kHz input.
    Rate44k1,
    /// 8 kHz input.
    Rate8k,
}

/// The bank that serves a sample rate, if there is one.
pub open spec fn bank_of_rate(sample_rate: u32) -> Option<UpsamplingBank> {
    if sample_rate == 48000 {
        Some(UpsamplingBank::Rate48k)
    } else if sample_rate == 44100 {
        Some(UpsamplingBank::Rate44k1)
    } else if sample_rate == 8000 {
        Some(UpsamplingBank::Rate8k)
    } else {
        None
    }
}

impl UpsamplingBank {
    /// The number of phase filters of the bank: each input sample yields this
    /// many output samples.
    pub open spec fn phase_count(self) -> nat {
        match self {
            UpsamplingBank::Rate48k => 4,
            UpsamplingBank::Rate44k1 => 4,
            UpsamplingBank::Rate8k => 24,
        }
    }

    /// The bank for input at `sample_rate` Hz; `None` for a rate that has no
    /// bank.
    pub fn for_sample_rate(sample_rate: u32) -> (r: Option<Self>)
        ensures
            r == bank_of_rate(sample_rate),
    {
        if sample_rate == 48000 {
            Some(UpsamplingBank::Rate48k)
        } else if sample_rate == 44100 {
            Some(UpsamplingBank::Rate44k1)
        } else if sample_rate == 8000 {
            Some(UpsamplingBank::Rate8k)
        } else {
            None
        }
    }

    /// The number of phase filters of the bank.
    pub fn phases(self) -> (r: usize)
        ensures
            r == self.phase_count(),
    {
        match self {
            UpsamplingBank::Rate48k => 4,
            UpsamplingBank::Rate44k1 => 4,
            UpsamplingBank::Rate8k => 24,
        }
    }
}

} // verus!
