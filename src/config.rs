//! The analyzer: its tunable settings, validated setters, and the number of
//! spectrogram steps that a signal of a given length yields.
use vstd::prelude::*;

use crate::limits::SAMPLE_RATE_HZ;

verus! {

/// Default window size along the time axis for similarity scoring.
pub const DEFAULT_STEP_WINDOW: usize = 8;

/// Default window size along the frequency axis for similarity scoring.
pub const DEFAULT_CHANNEL_WINDOW: usize = 5;

/// Default output time resolution, in millihertz (85 Hz).
pub const DEFAULT_PERCEPTUAL_RATE_MHZ: u64 = 85000;

/// Loudness assigned to a full-scale sine, in tenths of a decibel (78.3 dB).
pub const FULL_SCALE_SINE_DECIDB: u32 = 783;

/// The input sample rate in millihertz.
pub const SAMPLE_RATE_MHZ: u64 = 48000000;

/// Errors of the engine.
#[derive(PartialEq, Eq, Structural, Debug, Clone, Copy)]
pub enum ZimtohrliError {
    /// Two spectrograms with different numbers of channels were compared.
    InvalidInput,
    /// A window size of zero.
    ConfigurationError,
}

/// The mathematical content of an analyzer's settings.
pub ghost struct Settings {
    pub step_window: nat,
    pub channel_window: nat,
    pub perceptual_rate_mhz: nat,
    pub full_scale_sine_decidb: nat,
}

/// An analyzer: settings for the filter bank and the similarity scorer.
#[derive(Debug, Clone, Copy)]
pub struct ZimtohrliWrapper {
    step_window: usize,
    channel_window: usize,
    perceptual_rate_mhz: u64,
    full_scale_sine_decidb: u32,
}

impl View for ZimtohrliWrapper {
    type V = Settings;

    closed spec fn view(&self) -> Settings {
        Settings {
            step_window: self.step_window as nat,
            channel_window: self.channel_window as nat,
            perceptual_rate_mhz: self.perceptual_rate_mhz as nat,
            full_scale_sine_decidb: self.full_scale_sine_decidb as nat,
        }
    }
}

/// Whether `w` is an accepted time-axis window size.
pub open spec fn valid_step_window(w: nat) -> bool {
    w >= 1
}

/// Whether `w` is an accepted frequency-axis window size.
pub open spec fn valid_channel_window(w: nat) -> bool {
    w >= 1
}

/// The number of spectrogram steps for `n` samples at a perceptual rate of
/// `rate_mhz` millihertz: `n * rate / sample_rate`, rounded half up.
pub open spec fn steps_for(n: nat, rate_mhz: nat) -> nat {
    ((n * rate_mhz + SAMPLE_RATE_MHZ / 2) / (SAMPLE_RATE_MHZ as int)) as nat
}

/// Creates an analyzer with the default settings.
pub fn new_zimtohrli() -> (r: ZimtohrliWrapper)
    ensures
        r.wf(),
        r@.step_window == DEFAULT_STEP_WINDOW,
        r@.channel_window == DEFAULT_CHANNEL_WINDOW,
        r@.perceptual_rate_mhz == DEFAULT_PERCEPTUAL_RATE_MHZ,
        r@.full_scale_sine_decidb == FULL_SCALE_SINE_DECIDB,
{
    ZimtohrliWrapper {
        step_window: DEFAULT_STEP_WINDOW,
        channel_window: DEFAULT_CHANNEL_WINDOW,
        perceptual_rate_mhz: DEFAULT_PERCEPTUAL_RATE_MHZ,
        full_scale_sine_decidb: FULL_SCALE_SINE_DECIDB,
    }
}

impl ZimtohrliWrapper {
    /// The settings invariant: valid window sizes, and a perceptual rate
    /// above zero and no higher than the input sample rate.
    pub open spec fn wf(&self) -> bool {
        &&& valid_step_window(self@.step_window)
        &&& valid_channel_window(self@.channel_window)
        &&& 0 < self@.perceptual_rate_mhz <= SAMPLE_RATE_MHZ
    }

    /// Window size along the time axis for similarity scoring.
    pub fn nsim_step_window(&self) -> (r: usize)
        ensures
            r == self@.step_window,
    {
        self.step_window
    }

    /// Window size along the frequency axis for similarity scoring.
    pub fn nsim_channel_window(&self) -> (r: usize)
        ensures
            r == self@.channel_window,
    {
        self.channel_window
    }

    /// The perceptual sample rate, in millihertz.
    pub fn perceptual_sample_rate(&self) -> (r: u64)
        ensures
            r == self@.perceptual_rate_mhz,
    {
        self.perceptual_rate_mhz
    }

    /// The loudness of a full-scale sine, in tenths of a decibel.
    pub fn full_scale_sine_db(&self) -> (r: u32)
        ensures
            r == self@.full_scale_sine_decidb,
    {
        self.full_scale_sine_decidb
    }

    /// Sets the time-axis window size; zero is refused and leaves the
    /// settings unchanged. Windows wider than the grid are clipped to it
    /// when scoring.
    pub fn set_nsim_step_window(&mut self, val: usize) -> (r: Result<(), ZimtohrliError>)
        ensures
            r is Ok <==> valid_step_window(val as nat),
            r is Err ==> r == Err::<(), _>(ZimtohrliError::ConfigurationError) && final(self)@
                == old(self)@,
            r is Ok ==> final(self)@ == (Settings { step_window: val as nat, ..old(self)@ }),
            old(self).wf() ==> final(self).wf(),
    {
        if val == 0 {
            return Err(ZimtohrliError::ConfigurationError);
        }
        self.step_window = val;
        Ok(())
    }

    /// Sets the frequency-axis window size; zero is refused and leaves the
    /// settings unchanged. Windows wider than the grid are clipped to it
    /// when scoring.
    pub fn set_nsim_channel_window(&mut self, val: usize) -> (r: Result<(), ZimtohrliError>)
        ensures
            r is Ok <==> valid_channel_window(val as nat),
            r is Err ==> r == Err::<(), _>(ZimtohrliError::ConfigurationError) && final(self)@
                == old(self)@,
            r is Ok ==> final(self)@ == (Settings { channel_window: val as nat, ..old(self)@ }),
            old(self).wf() ==> final(self).wf(),
    {
        if val == 0 {
            return Err(ZimtohrliError::ConfigurationError);
        }
        self.channel_window = val;
        Ok(())
    }

    /// The number of time steps of the spectrogram of `num_samples` samples.
    pub fn spectrogram_steps(&self, num_samples: usize) -> (r: usize)
        requires
            self.wf(),
        ensures
            r == steps_for(num_samples as nat, self@.perceptual_rate_mhz),
            r <= num_samples,
    {
        proof {
            lemma_steps_bounded(num_samples as nat, self@.perceptual_rate_mhz);
            assert((num_samples as int) * (self.perceptual_rate_mhz as int) <= (usize::MAX as int)
                * (SAMPLE_RATE_MHZ as int)) by (nonlinear_arith)
                requires
                    num_samples <= usize::MAX,
                    self.perceptual_rate_mhz <= SAMPLE_RATE_MHZ,
            ;
        }
        let total: u128 = (num_samples as u128) * (self.perceptual_rate_mhz as u128) + (
        SAMPLE_RATE_MHZ / 2) as u128;
        (total / (SAMPLE_RATE_MHZ as u128)) as usize
    }
}

/// At a perceptual rate no higher than the sample rate there are no more
/// steps than samples.
proof fn lemma_steps_bounded(n: nat, rate_mhz: nat)
    requires
        rate_mhz <= SAMPLE_RATE_MHZ,
    ensures
        steps_for(n, rate_mhz) <= n,
{
    assert(n * rate_mhz <= n * SAMPLE_RATE_MHZ) by (nonlinear_arith)
        requires
            rate_mhz <= SAMPLE_RATE_MHZ,
    ;
    vstd::arithmetic::div_mod::lemma_div_is_ordered(
        n * rate_mhz + SAMPLE_RATE_MHZ / 2,
        n * SAMPLE_RATE_MHZ + SAMPLE_RATE_MHZ / 2,
        SAMPLE_RATE_MHZ as int,
    );
    vstd::arithmetic::div_mod::lemma_fundamental_div_mod_converse(
        n * SAMPLE_RATE_MHZ + SAMPLE_RATE_MHZ / 2,
        SAMPLE_RATE_MHZ as int,
        n as int,
        (SAMPLE_RATE_MHZ / 2) as int,
    );
}

/// The number of steps is zero for an empty signal and never decreases as
/// the signal grows.
pub proof fn lemma_steps_monotone(rate_mhz: nat, n: nat, m: nat)
    requires
        n <= m,
    ensures
        steps_for(0, rate_mhz) == 0,
        steps_for(n, rate_mhz) <= steps_for(m, rate_mhz),
{
    assert(n * rate_mhz <= m * rate_mhz) by (nonlinear_arith)
        requires
            n <= m,
    ;
    vstd::arithmetic::div_mod::lemma_div_is_ordered(
        n * rate_mhz + SAMPLE_RATE_MHZ / 2,
        m * rate_mhz + SAMPLE_RATE_MHZ / 2,
        SAMPLE_RATE_MHZ as int,
    );
    assert(0 * rate_mhz == 0);
}

} // verus!
