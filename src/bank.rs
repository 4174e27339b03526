//! The cochlear filter bank. Each channel is a band-pass filter built as the
//! difference of two moving averages, of `w` and `2 w` samples; wide windows
//! select low frequencies, and the widths grow quadratically towards the low
//! end so that channels lie denser there. A channel's energy in one time step
//! is the level of the mean square of its band signal over the step's frame
//! of samples, in hundredths of a decibel, calibrated so that the mean square of
//! a full-scale sine has the analyzer's full-scale sine level; levels below
//! zero read as zero.
use vstd::prelude::*;

use crate::config::{steps_for, ZimtohrliWrapper};
use crate::limits::NUM_CHANNELS;
use crate::loudness::{level, level_centidb, FULL_SCALE_SINE_LEVEL};
use crate::spectrogram::{all_zero, seq_max, Grid, SpectrogramWrapper};

verus! {

/// The largest moving-average width of any channel.
pub const MAX_WIDTH: u64 = 2017;

/// Sum of the first `j` samples of `x`.
pub open spec fn prefix(x: Seq<i16>, j: int) -> int
    decreases j,
{
    if j <= 0 || j > x.len() {
        0
    } else {
        prefix(x, j - 1) + x[j - 1]
    }
}

/// Sum of the `w` samples that end at index `k`; fewer at the start.
pub open spec fn window_sum(x: Seq<i16>, k: int, w: int) -> int {
    prefix(x, k + 1) - (if k >= w {
        prefix(x, k + 1 - w)
    } else {
        0
    })
}

/// Moving-average width of channel `c`; channel 0 is the lowest.
pub open spec fn channel_width(c: int) -> int {
    1 + (127 - c) * (127 - c) / 8
}

/// Band signal of channel `c` at sample `k`, times `2 w`: the average of
/// `w` samples minus the average of `2 w` samples.
pub open spec fn band(x: Seq<i16>, c: int, k: int) -> int {
    let w = channel_width(c);
    2 * window_sum(x, k, w) - window_sum(x, k, 2 * w)
}

/// Sum of the squared band signal of channel `c` over samples `lo..hi`.
pub open spec fn band_power(x: Seq<i16>, c: int, lo: int, hi: int) -> int
    decreases hi - lo,
{
    if hi <= lo {
        0
    } else {
        band_power(x, c, lo, hi - 1) + band(x, c, hi - 1) * band(x, c, hi - 1)
    }
}

/// First sample of frame `t` when `n` samples are cut into `steps` frames.
pub open spec fn frame_start(n: int, steps: int, t: int) -> int {
    t * n / steps
}

/// Mean square of the band signal of channel `c` over the frame `lo..hi`,
/// in squared sample units, rounded down.
pub open spec fn mean_square(x: Seq<i16>, c: int, lo: int, hi: int) -> int {
    let w = channel_width(c);
    band_power(x, c, lo, hi) / ((hi - lo) * (4 * w * w))
}

/// Energy of channel `c` in the frame `lo..hi`: the level of its mean
/// square in hundredths of a decibel, shifted so that a full-scale sine
/// reads `full_scale_decidb` (given in tenths of a decibel), and clamped to `0..=u16::MAX`. Silence reads zero.
pub open spec fn frame_energy(x: Seq<i16>, c: int, lo: int, hi: int, full_scale_decidb: int) -> int {
    if hi <= lo || mean_square(x, c, lo, hi) <= 0 {
        0
    } else {
        let l = level(mean_square(x, c, lo, hi) as nat) + 10 * full_scale_decidb - FULL_SCALE_SINE_LEVEL;
        if l <= 0 {
            0
        } else if l > u16::MAX {
            u16::MAX as int
        } else {
            l
        }
    }
}

/// The spectrogram value at flat index `i` for signal `x` cut into `steps`
/// frames, calibrated to `full_scale_decidb`.
pub open spec fn energy_at(x: Seq<i16>, steps: int, full_scale_decidb: int, i: int) -> int {
    let t = i / (NUM_CHANNELS as int);
    let c = i % (NUM_CHANNELS as int);
    frame_energy(
        x,
        c,
        frame_start(x.len() as int, steps, t),
        frame_start(x.len() as int, steps, t + 1),
        full_scale_decidb,
    )
}

/// `g` is the spectrogram of signal `x` at a perceptual rate of `rate_mhz`,
/// calibrated to `full_scale_decidb`.
pub open spec fn is_analysis(x: Seq<i16>, rate_mhz: nat, full_scale_decidb: nat, g: Grid) -> bool {
    &&& g.steps == steps_for(x.len(), rate_mhz)
    &&& g.dims == NUM_CHANNELS
    &&& g.values.len() == g.steps * g.dims
    &&& forall|i: int|
        0 <= i < g.values.len() ==> #[trigger] g.values[i] == energy_at(
            x,
            g.steps as int,
            full_scale_decidb as int,
            i,
        )
}

/// Analysis depends on the signal and the settings alone: two analyses of
/// one signal are the same spectrogram.
pub proof fn lemma_analysis_repeats(x: Seq<i16>, rate_mhz: nat, full_scale_decidb: nat, g1: Grid, g2: Grid)
    requires
        is_analysis(x, rate_mhz, full_scale_decidb, g1),
        is_analysis(x, rate_mhz, full_scale_decidb, g2),
    ensures
        g1 == g2,
{
    assert(g1.values =~= g2.values);
}

/// The spectrogram of silence is zero everywhere, so its maximum is zero.
pub proof fn lemma_silence_analysis(x: Seq<i16>, rate_mhz: nat, full_scale_decidb: nat, g: Grid)
    requires
        silent(x),
        is_analysis(x, rate_mhz, full_scale_decidb, g),
    ensures
        all_zero(g.values),
        seq_max(g.values) == 0,
{
    assert forall|i: int| 0 <= i < g.values.len() implies g.values[i] == 0 by {
        lemma_silence_is_zero(x, g.steps as int, full_scale_decidb as int, i);
    }
    lemma_zero_max(g.values);
}

/// An all-zero sequence has maximum zero.
proof fn lemma_zero_max(s: Seq<u16>)
    requires
        all_zero(s),
    ensures
        seq_max(s) == 0,
    decreases s.len(),
{
    if s.len() > 0 {
        lemma_zero_max(s.drop_last());
    }
}

/// Every sample of `x` is zero.
pub open spec fn silent(x: Seq<i16>) -> bool {
    forall|i: int| 0 <= i < x.len() ==> x[i] == 0
}

/// A run of samples sums to at most 32768 per sample in magnitude.
proof fn lemma_prefix_diff(x: Seq<i16>, a: int, b: int)
    requires
        0 <= a <= b <= x.len(),
    ensures
        -32768 * (b - a) <= prefix(x, b) - prefix(x, a) <= 32768 * (b - a),
    decreases b - a,
{
    if a < b {
        lemma_prefix_diff(x, a, b - 1);
    }
}

/// The band signal stays within `4 * 32768 * w`.
proof fn lemma_band_bound(x: Seq<i16>, c: int, k: int)
    requires
        0 <= c < NUM_CHANNELS,
        0 <= k < x.len(),
    ensures
        1 <= channel_width(c) <= MAX_WIDTH,
        -131072 * channel_width(c) <= band(x, c, k) <= 131072 * channel_width(c),
        0 <= band(x, c, k) * band(x, c, k) <= 0x100_0000_0000_0000,
        band(x, c, k) * band(x, c, k) <= 4 * channel_width(c) * channel_width(c) * 0x1_0000_0000,
{
    let w = channel_width(c);
    lemma_width(c);
    let s1 = window_sum(x, k, w);
    let s2 = window_sum(x, k, 2 * w);
    if k >= w {
        lemma_prefix_diff(x, k + 1 - w, k + 1);
    } else {
        lemma_prefix_diff(x, 0, k + 1);
    }
    if k >= 2 * w {
        lemma_prefix_diff(x, k + 1 - 2 * w, k + 1);
        assert(s2 == prefix(x, k + 1) - prefix(x, k + 1 - 2 * w));
        assert(k + 1 - (k + 1 - 2 * w) == 2 * w);
        assert(-32768 * (2 * w) <= s2 <= 32768 * (2 * w));
    } else {
        lemma_prefix_diff(x, 0, k + 1);
        assert(s2 == prefix(x, k + 1) - prefix(x, 0));
        assert(-32768 * (k + 1) <= s2 <= 32768 * (k + 1));
        assert(32768 * (k + 1) <= 32768 * (2 * w));
    }
    assert(-32768 * w <= s1 <= 32768 * w);
    assert(-32768 * (2 * w) <= s2 <= 32768 * (2 * w));
    let d = band(x, c, k);
    assert(d == 2 * s1 - s2);
    assert(-131072 * w <= d <= 131072 * w);
    assert(d * d <= 0x100_0000_0000_0000 && d * d >= 0) by (nonlinear_arith)
        requires
            -131072 * 2017 <= d <= 131072 * 2017,
    ;
    assert(d * d <= 4 * w * w * 0x1_0000_0000) by (nonlinear_arith)
        requires
            -131072 * w <= d <= 131072 * w,
            w >= 1,
    ;
}

/// Channel widths lie between 1 and `MAX_WIDTH`.
proof fn lemma_width(c: int)
    requires
        0 <= c < NUM_CHANNELS,
    ensures
        1 <= channel_width(c) <= MAX_WIDTH,
{
    let q = (127 - c) * (127 - c);
    assert(0 <= q <= 127 * 127) by (nonlinear_arith)
        requires
            0 <= c < 128,
            q == (127 - c) * (127 - c),
    ;
    vstd::arithmetic::div_mod::lemma_div_is_ordered(q, 16129int, 8);
    vstd::arithmetic::div_mod::lemma_div_is_ordered(0, q, 8);
}

/// The band power of a frame is at most its length times the bound of one
/// squared band value.
proof fn lemma_power_bound(x: Seq<i16>, c: int, lo: int, hi: int)
    requires
        0 <= c < NUM_CHANNELS,
        0 <= lo <= hi <= x.len(),
    ensures
        0 <= band_power(x, c, lo, hi) <= (hi - lo) * 0x100_0000_0000_0000,
        band_power(x, c, lo, hi) <= (hi - lo) * (4 * channel_width(c) * channel_width(c)
            * 0x1_0000_0000),
    decreases hi - lo,
{
    if lo < hi {
        lemma_power_bound(x, c, lo, hi - 1);
        lemma_band_bound(x, c, hi - 1);
        let w = channel_width(c);
        let bound = 4 * w * w * 0x1_0000_0000;
        assert((hi - lo) * bound == (hi - 1 - lo) * bound + bound) by (nonlinear_arith);
    }
}

/// Frames tile the signal: each starts no later than the next, and the
/// last ends at the signal's end.
proof fn lemma_frames(n: int, steps: int, t: int)
    requires
        0 <= n,
        0 < steps,
        0 <= t < steps,
    ensures
        0 <= frame_start(n, steps, t) <= frame_start(n, steps, t + 1) <= n,
{
    assert(0 <= t * n <= (t + 1) * n <= steps * n) by (nonlinear_arith)
        requires
            0 <= n,
            0 <= t < steps,
    ;
    vstd::arithmetic::div_mod::lemma_div_is_ordered(t * n, (t + 1) * n, steps);
    vstd::arithmetic::div_mod::lemma_div_is_ordered((t + 1) * n, steps * n, steps);
    vstd::arithmetic::div_mod::lemma_div_multiples_vanish(n, steps);
    vstd::arithmetic::div_mod::lemma_div_pos_is_pos(t * n, steps);
}

/// Silence has zero band signal everywhere.
proof fn lemma_silent_prefix(x: Seq<i16>, j: int)
    requires
        silent(x),
    ensures
        prefix(x, j) == 0,
    decreases j,
{
    if 0 < j <= x.len() {
        lemma_silent_prefix(x, j - 1);
    }
}

/// Silence has zero band power in every frame.
proof fn lemma_silent_power(x: Seq<i16>, c: int, lo: int, hi: int)
    requires
        silent(x),
    ensures
        band_power(x, c, lo, hi) == 0,
    decreases hi - lo,
{
    if lo < hi {
        lemma_silent_power(x, c, lo, hi - 1);
        let w = channel_width(c);
        let k = hi - 1;
        lemma_silent_prefix(x, k + 1);
        lemma_silent_prefix(x, k + 1 - w);
        lemma_silent_prefix(x, k + 1 - 2 * w);
        assert(band(x, c, k) == 0);
        assert(band(x, c, k) * band(x, c, k) == 0);
    }
}

/// The spectrogram of a silent signal is zero in every cell.
pub proof fn lemma_silence_is_zero(x: Seq<i16>, steps: int, full_scale_decidb: int, i: int)
    requires
        silent(x),
    ensures
        energy_at(x, steps, full_scale_decidb, i) == 0,
{
    let t = i / (NUM_CHANNELS as int);
    let c = i % (NUM_CHANNELS as int);
    let lo = frame_start(x.len() as int, steps, t);
    let hi = frame_start(x.len() as int, steps, t + 1);
    lemma_silent_power(x, c, lo, hi);
    if hi > lo {
        let w = channel_width(c);
        assert((127 - c) * (127 - c) >= 0) by (nonlinear_arith);
        vstd::arithmetic::div_mod::lemma_div_pos_is_pos((127 - c) * (127 - c), 8);
        assert((hi - lo) * (4 * w * w) > 0) by (nonlinear_arith)
            requires
                hi > lo,
                w >= 1,
        ;
        vstd::arithmetic::div_mod::lemma_div_basics((hi - lo) * (4 * w * w));
    }
}

impl ZimtohrliWrapper {
    /// Turns a signal of 16-bit samples at the fixed sample rate into a
    /// spectrogram of `spectrogram_steps(signal.len())` steps and
    /// `NUM_CHANNELS` channels. Empty input gives a zero-step spectrogram.
    pub fn analyze(&self, signal: &[i16]) -> (r: SpectrogramWrapper)
        requires
            self.wf(),
            signal@.len() * NUM_CHANNELS <= usize::MAX,
        ensures
            r.wf(),
            is_analysis(signal@, self@.perceptual_rate_mhz, self@.full_scale_sine_decidb, r@),
            silent(signal@) ==> all_zero(r@.values),
    {
        let x = signal;
        let n: usize = x.len();
        let steps: usize = self.spectrogram_steps(n);
        let full_scale: u32 = self.full_scale_sine_db();
        // Running sums: sums[j] is the sum of samples 0..=j.
        let mut sums: Vec<i128> = Vec::with_capacity(n);
        let mut acc: i128 = 0;
        let mut j: usize = 0;
        while j < n
            invariant
                n == x@.len(),
                j <= n,
                sums@.len() == j,
                acc == prefix(x@, j as int),
                -32768 * (j as int) <= acc <= 32768 * (j as int),
                forall|a: int| 0 <= a < j ==> #[trigger] sums@[a] == prefix(x@, a + 1),
            decreases n - j,
        {
            acc = acc + x[j] as i128;
            sums.push(acc);
            j = j + 1;
        }
        let mut values: Vec<u16> = Vec::with_capacity(steps * NUM_CHANNELS);
        let mut t: usize = 0;
        while t < steps
            invariant
                n == x@.len(),
                steps <= n,
                t <= steps,
                sums@.len() == n,
                forall|a: int| 0 <= a < n ==> #[trigger] sums@[a] == prefix(x@, a + 1),
                values@.len() == t * NUM_CHANNELS,
                forall|i: int|
                    0 <= i < values@.len() ==> #[trigger] values@[i] == energy_at(
                        x@,
                        steps as int,
                        full_scale as int,
                        i,
                    ),
            decreases steps - t,
        {
            proof {
                lemma_frames(n as int, steps as int, t as int);
                assert((t as int + 1) * (n as int) <= (steps as int) * (n as int)) by (
                nonlinear_arith)
                    requires
                        t < steps,
                ;
                assert((steps as int) * (n as int) <= (n as int) * (n as int)) by (
                nonlinear_arith)
                    requires
                        steps <= n,
                ;
                assert((t as int) * (n as int) <= (n as int) * (n as int)) by (nonlinear_arith)
                    requires
                        t < steps,
                        steps <= n,
                ;
                assert((n as int) * (n as int) <= 0xffff_ffff_ffff_ffff_ffff_ffff_ffff_ffff)
                    by (nonlinear_arith)
                    requires
                        n <= usize::MAX,
                ;
            }
            let lo: usize = ((t as u128) * (n as u128) / (steps as u128)) as usize;
            let hi: usize = (((t + 1) as u128) * (n as u128) / (steps as u128)) as usize;
            let mut c: usize = 0;
            while c < NUM_CHANNELS
                invariant
                    n == x@.len(),
                    t < steps,
                    lo == frame_start(n as int, steps as int, t as int),
                    hi == frame_start(n as int, steps as int, t as int + 1),
                    lo <= hi <= n,
                    c <= NUM_CHANNELS,
                    sums@.len() == n,
                    forall|a: int| 0 <= a < n ==> #[trigger] sums@[a] == prefix(x@, a + 1),
                    values@.len() == t * NUM_CHANNELS + c,
                    forall|i: int|
                        0 <= i < values@.len() ==> #[trigger] values@[i] == energy_at(
                            x@,
                            steps as int,
                            full_scale as int,
                            i,
                        ),
                decreases NUM_CHANNELS - c,
            {
                let e: u16 = channel_energy(x, &sums, c, lo, hi, full_scale);
                proof {
                    vstd::arithmetic::div_mod::lemma_fundamental_div_mod_converse(
                        (t * NUM_CHANNELS + c) as int,
                        NUM_CHANNELS as int,
                        t as int,
                        c as int,
                    );
                }
                values.push(e);
                c = c + 1;
            }
            t = t + 1;
        }
        let r = SpectrogramWrapper::from_values(steps, NUM_CHANNELS, values);
        match r {
            Some(s) => {
                proof {
                    if silent(x@) {
                        assert forall|i: int| 0 <= i < s@.values.len() implies s@.values[i]
                            == 0 by {
                            lemma_silence_is_zero(x@, steps as int, full_scale as int, i);
                        }
                    }
                }
                s
            },
            None => {
                proof {
                    assert(false);
                }
                crate::spectrogram::new_spectrogram(0)
            },
        }
    }
}

/// Energy of channel `c` in the frame `lo..hi`, from the running sums.
fn channel_energy(
    x: &[i16],
    sums: &Vec<i128>,
    c: usize,
    lo: usize,
    hi: usize,
    full_scale: u32,
) -> (r: u16)
    requires
        sums@.len() == x@.len(),
        forall|a: int| 0 <= a < x@.len() ==> #[trigger] sums@[a] == prefix(x@, a + 1),
        c < NUM_CHANNELS,
        lo <= hi <= x@.len(),
    ensures
        r == frame_energy(x@, c as int, lo as int, hi as int, full_scale as int),
{
    let d: u64 = (127 - c) as u64;
    proof {
        assert(d * d <= 127 * 127) by (nonlinear_arith)
            requires
                d <= 127,
        ;
        lemma_width(c as int);
    }
    let w: u64 = 1 + d * d / 8;
    let mut power: u128 = 0;
    let mut k: usize = lo;
    while k < hi
        invariant
            sums@.len() == x@.len(),
            forall|a: int| 0 <= a < x@.len() ==> #[trigger] sums@[a] == prefix(x@, a + 1),
            c < NUM_CHANNELS,
            w == channel_width(c as int),
            1 <= w <= MAX_WIDTH,
            lo <= k <= hi,
            hi <= x@.len(),
            power == band_power(x@, c as int, lo as int, k as int),
        decreases hi - k,
    {
        proof {
            lemma_band_bound(x@, c as int, k as int);
            lemma_power_bound(x@, c as int, lo as int, k as int + 1);
            lemma_prefix_diff(x@, 0, k as int + 1);
            if k as int >= w {
                lemma_prefix_diff(x@, 0, k as int + 1 - w);
            }
            if k as int >= 2 * w {
                lemma_prefix_diff(x@, 0, k as int + 1 - 2 * w);
            }
            assert((k as int + 1 - lo) * 0x100_0000_0000_0000 <= 0x1_0000_0000_0000_0000
                * 0x100_0000_0000_0000) by (nonlinear_arith)
                requires
                    k < usize::MAX,
                    lo <= k,
            ;
        }
        let short: i128 = sums[k] - if k as u64 >= w {
            sums[k - w as usize]
        } else {
            0
        };
        let long: i128 = sums[k] - if k as u64 >= 2 * w {
            sums[k - 2 * w as usize]
        } else {
            0
        };
        let b: i128 = 2 * short - long;
        assert(b == band(x@, c as int, k as int));
        let sq: u128 = (b * b) as u128;
        power = power + sq;
        k = k + 1;
    }
    if hi == lo {
        return 0;
    }
    proof {
        lemma_power_bound(x@, c as int, lo as int, hi as int);
        assert(4 * w * w <= 4 * 2017 * 2017) by (nonlinear_arith)
            requires
                1 <= w <= 2017,
        ;
        assert((hi - lo) as int * (4 * w * w) <= 0x1_0000_0000_0000_0000 * (4 * 2017 * 2017))
            by (nonlinear_arith)
            requires
                hi - lo <= usize::MAX,
                1 <= w <= 2017,
        ;
    }
    let den: u128 = ((hi - lo) as u128) * (4 * (w as u128) * (w as u128));
    proof {
        assert(den > 0) by (nonlinear_arith)
            requires
                den == (hi - lo) as int * (4 * w * w),
                hi > lo,
                w >= 1,
        ;
        assert(den * 0x1_0000_0000 == (hi - lo) as int * (4 * w * w * 0x1_0000_0000)) by (nonlinear_arith)
            requires
                den == (hi - lo) as int * (4 * w * w),
        ;
        vstd::arithmetic::div_mod::lemma_div_is_ordered(power as int, den * 0x1_0000_0000, den as int);
        vstd::arithmetic::div_mod::lemma_div_multiples_vanish(0x1_0000_0000, den as int);
    }
    let ms: u128 = power / den;
    if ms == 0 {
        return 0;
    }
    let l: u64 = level_centidb(ms as u64);
    let shifted: u64 = l + 10 * (full_scale as u64);
    if shifted <= FULL_SCALE_SINE_LEVEL {
        0
    } else if shifted - FULL_SCALE_SINE_LEVEL > 65535 {
        65535
    } else {
        (shifted - FULL_SCALE_SINE_LEVEL) as u16
    }
}

} // verus!
