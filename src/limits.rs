//! Process-wide constants of the engine.
use vstd::prelude::*;

verus! {

/// The sample rate, in Hz, at which input signals are expected.
pub const SAMPLE_RATE_HZ: u32 = 48000;

/// The number of frequency channels of the filter bank.
pub const NUM_CHANNELS: usize = 128;

/// Returns the expected sample rate of input signals, in Hz.
pub fn sample_rate() -> (r: u32)
    ensures
        r == SAMPLE_RATE_HZ,
        r == 48000,
{
    SAMPLE_RATE_HZ
}

/// Returns the number of frequency channels in a spectrogram.
pub fn num_channels() -> (r: usize)
    ensures
        r == NUM_CHANNELS,
        r == 128,
{
    NUM_CHANNELS
}

} // verus!
