//! The perceptual distance: normalization, time alignment, then windowed
//! structural similarity on the aligned pair.
use vstd::prelude::*;

use crate::align::{align, is_path, is_walk, lemma_self_cum, rows_equal};
use crate::config::{ZimtohrliError, ZimtohrliWrapper};
use crate::nsim::{nsim, nsim_spec, MAX_CELLS, PPM};
use crate::spectrogram::{
    is_rescaled, seq_max, Grid, SpectrogramWrapper,
};

verus! {

/// The energy that the louder of two spectrograms is normalized to.
pub const NORMALIZED_PEAK: u16 = 65535;

/// The common peak of two spectrograms.
pub open spec fn peak(a: Grid, b: Grid) -> u16 {
    if seq_max(a.values) >= seq_max(b.values) {
        seq_max(a.values)
    } else {
        seq_max(b.values)
    }
}

/// `after` is `before` with every value scaled so that `top` becomes
/// `NORMALIZED_PEAK`; unchanged when `top` is zero.
pub open spec fn normalized(before: Grid, after: Grid, top: u16) -> bool {
    &&& after.steps == before.steps
    &&& after.dims == before.dims
    &&& top == 0 ==> after.values == before.values
    &&& top > 0 ==> is_rescaled(before.values, after.values, NORMALIZED_PEAK, top)
}

/// The spectrogram of the rows of `g` that `path` pairs, in path order:
/// the first index of each pair when `first`, else the second.
pub open spec fn paired_rows(g: Grid, path: Seq<(usize, usize)>, first: bool) -> Grid {
    Grid {
        steps: path.len(),
        dims: g.dims,
        values: Seq::new(
            path.len() * g.dims,
            |i: int|
                g.values[(if first {
                    path[i / (g.dims as int)].0
                } else {
                    path[i / (g.dims as int)].1
                }) as int * g.dims + i % (g.dims as int)],
        ),
    }
}

/// Copies the rows that `path` pairs into two spectrograms of `path.len()`
/// steps each.
fn aligned_pair(a: &SpectrogramWrapper, b: &SpectrogramWrapper, path: &Vec<(usize, usize)>) -> (r: (
    SpectrogramWrapper,
    SpectrogramWrapper,
))
    requires
        a.wf(),
        b.wf(),
        a@.dims == b@.dims,
        is_path(path@, a@.steps, b@.steps),
        path@.len() * a@.dims <= usize::MAX,
    ensures
        r.0.wf(),
        r.1.wf(),
        r.0@.steps == path@.len(),
        r.1@.steps == path@.len(),
        r.0@ == paired_rows(a@, path@, true),
        r.1@ == paired_rows(b@, path@, false),
        (forall|k: int|
            0 <= k < path@.len() ==> rows_equal(a@, b@, #[trigger] path@[k].0 as int, path@[k].1 as int))
            ==> r.0@.values == r.1@.values,
{
    let dims: usize = a.num_dims();
    let n: usize = path.len();
    let mut xs: Vec<u16> = Vec::new();
    let mut ys: Vec<u16> = Vec::new();
    let ghost same = forall|k: int|
        0 <= k < path@.len() ==> rows_equal(a@, b@, #[trigger] path@[k].0 as int, path@[k].1 as int);
    let mut k: usize = 0;
    while k < n
        invariant
            a.wf(),
            b.wf(),
            a@.dims == b@.dims,
            dims == a@.dims,
            n == path@.len(),
            is_path(path@, a@.steps, b@.steps),
            n * dims <= usize::MAX,
            k <= n,
            xs@.len() == k * dims,
            ys@.len() == k * dims,
            same == (forall|k: int|
                0 <= k < path@.len() ==> rows_equal(a@, b@, #[trigger] path@[k].0 as int, path@[k].1 as int)),
            same ==> xs@ == ys@,
            forall|m: int|
                0 <= m < xs@.len() ==> #[trigger] xs@[m] == a@.values[path@[m / (dims as int)].0 as int
                    * dims + m % (dims as int)],
            forall|m: int|
                0 <= m < ys@.len() ==> #[trigger] ys@[m] == b@.values[path@[m / (dims as int)].1 as int
                    * dims + m % (dims as int)],
        decreases n - k,
    {
        let (i, j) = path[k];
        assert(path@[k as int].0 < a@.steps && path@[k as int].1 < b@.steps);
        proof {
            assert((k + 1) * dims <= n * dims) by (nonlinear_arith)
                requires
                    k < n,
            ;
            assert((k + 1) * dims == k * dims + dims) by (nonlinear_arith);
        }
        let mut c: usize = 0;
        while c < dims
            invariant
                a.wf(),
                b.wf(),
                a@.dims == b@.dims,
                dims == a@.dims,
                i < a@.steps,
                j < b@.steps,
                c <= dims,
                k * dims + dims <= usize::MAX,
                xs@.len() == k * dims + c,
                ys@.len() == k * dims + c,
                same ==> rows_equal(a@, b@, i as int, j as int),
                same ==> xs@ == ys@,
                k < n,
                (i, j) == path@[k as int],
                forall|m: int|
                    0 <= m < xs@.len() ==> #[trigger] xs@[m] == a@.values[path@[m / (dims as int)].0 as int
                        * dims + m % (dims as int)],
                forall|m: int|
                    0 <= m < ys@.len() ==> #[trigger] ys@[m] == b@.values[path@[m / (dims as int)].1 as int
                        * dims + m % (dims as int)],
            decreases dims - c,
        {
            let u: u16 = a.get(i, c);
            let v: u16 = b.get(j, c);
            proof {
                vstd::arithmetic::div_mod::lemma_fundamental_div_mod_converse(
                    (k * dims + c) as int,
                    dims as int,
                    k as int,
                    c as int,
                );
            }
            xs.push(u);
            ys.push(v);
            c = c + 1;
        }
        k = k + 1;
    }
    proof {
        assert(xs@ =~= paired_rows(a@, path@, true).values);
        assert(ys@ =~= paired_rows(b@, path@, false).values);
    }
    let x = SpectrogramWrapper::from_values(n, dims, xs);
    let y = SpectrogramWrapper::from_values(n, dims, ys);
    match (x, y) {
        (Some(x), Some(y)) => (x, y),
        _ => {
            proof {
                assert(false);
            }
            (crate::spectrogram::new_spectrogram(0), crate::spectrogram::new_spectrogram(0))
        },
    }
}

impl ZimtohrliWrapper {
    /// The perceptual distance between two spectrograms, in parts per million
    /// (0 is identical, `PPM` is maximally different).
    ///
    /// Spectrograms with different channel counts are refused with
    /// `InvalidInput`, and then neither is changed. If either has no steps
    /// the distance is `PPM`. Otherwise both are first normalized in place
    /// by one common factor that brings the louder peak to
    /// `NORMALIZED_PEAK`; they are then aligned in time and scored.
    pub fn distance(&self, spec_a: &mut SpectrogramWrapper, spec_b: &mut SpectrogramWrapper) -> (r:
        Result<u64, ZimtohrliError>)
        requires
            self.wf(),
            old(spec_a).wf(),
            old(spec_b).wf(),
            old(spec_a)@.dims == old(spec_b)@.dims ==> (old(spec_a)@.steps + old(spec_b)@.steps)
                * old(spec_a)@.dims <= usize::MAX,
            old(spec_a)@.dims == old(spec_b)@.dims ==> (old(spec_a)@.steps + old(spec_b)@.steps)
                * old(spec_a)@.dims <= MAX_CELLS,
        ensures
            r is Err <==> old(spec_a)@.dims != old(spec_b)@.dims,
            r is Err ==> r == Err::<u64, _>(ZimtohrliError::InvalidInput),
            r matches Ok(d) ==> d <= PPM,
            old(spec_a)@.dims == old(spec_b)@.dims && (old(spec_a)@.steps == 0
                || old(spec_b)@.steps == 0) ==> r == Ok::<u64, ZimtohrliError>(PPM as u64),
            r is Err || old(spec_a)@.steps == 0 || old(spec_b)@.steps == 0 ==> final(spec_a)@
                == old(spec_a)@ && final(spec_b)@ == old(spec_b)@,
            r is Ok && old(spec_a)@.steps > 0 && old(spec_b)@.steps > 0 ==> normalized(
                old(spec_a)@,
                final(spec_a)@,
                peak(old(spec_a)@, old(spec_b)@),
            ) && normalized(old(spec_b)@, final(spec_b)@, peak(old(spec_a)@, old(spec_b)@)),
            final(spec_a).wf(),
            final(spec_b).wf(),
            r is Ok && old(spec_a)@.steps > 0 && old(spec_b)@.steps > 0 ==> exists|
                path: Seq<(usize, usize)>,
            |
                #![trigger is_walk(final(spec_a)@, final(spec_b)@, path)]
                is_walk(final(spec_a)@, final(spec_b)@, path) && r == Ok::<u64, ZimtohrliError>(
                    (PPM - nsim_spec(
                        paired_rows(final(spec_a)@, path, true),
                        paired_rows(final(spec_b)@, path, false),
                        self@.step_window as int,
                        self@.channel_window as int,
                    )) as u64,
                ),
            old(spec_a)@ == old(spec_b)@ && old(spec_a)@.steps > 0 ==> r == Ok::<
                u64,
                ZimtohrliError,
            >(0),
    {
        if spec_a.num_dims() != spec_b.num_dims() {
            return Err(ZimtohrliError::InvalidInput);
        }
        if spec_a.num_steps() == 0 || spec_b.num_steps() == 0 {
            return Ok(PPM);
        }
        let ghost a0 = spec_a@;
        let ghost b0 = spec_b@;
        let ma: u16 = spec_a.max();
        let mb: u16 = spec_b.max();
        let top: u16 = if ma >= mb {
            ma
        } else {
            mb
        };
        if top > 0 {
            spec_a.rescale(NORMALIZED_PEAK, top);
            spec_b.rescale(NORMALIZED_PEAK, top);
        }
        proof {
            if a0 == b0 {
                assert(spec_a@.values =~= spec_b@.values);
                assert(spec_a@ == spec_b@);
                lemma_self_cum(spec_a@, (spec_a@.steps - 1) as nat);
            }
        }
        let path: Vec<(usize, usize)> = align(spec_a, spec_b);
        proof {
            assert(path@.len() * spec_a@.dims <= (spec_a@.steps + spec_b@.steps) * spec_a@.dims)
                by (nonlinear_arith)
                requires
                    path@.len() <= spec_a@.steps + spec_b@.steps - 1,
            ;
        }
        let (x, y) = aligned_pair(spec_a, spec_b, &path);
        let sim: u64 = nsim(&x, &y, self.nsim_step_window(), self.nsim_channel_window());
        proof {
            assert(is_walk(spec_a@, spec_b@, path@));
        }
        Ok(PPM - sim)
    }
}

} // verus!
