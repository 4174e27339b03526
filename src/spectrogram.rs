//! The spectrogram: a dense, row-major matrix of non-negative energies with
//! `steps` rows (time) and `dims` columns (frequency channels).
use vstd::prelude::*;

use crate::limits::NUM_CHANNELS;

verus! {

/// The mathematical content of a spectrogram.
pub ghost struct Grid {
    pub steps: nat,
    pub dims: nat,
    pub values: Seq<u16>,
}

/// Energy after multiplying by `num / den`, rounded down and saturated at
/// the largest energy.
pub open spec fn scaled(v: u16, num: u16, den: u16) -> u16
    recommends
        den > 0,
{
    let s = (v as int) * (num as int) / (den as int);
    if s > u16::MAX as int {
        u16::MAX
    } else {
        s as u16
    }
}

/// The largest value of `s`, or 0 when `s` is empty.
pub open spec fn seq_max(s: Seq<u16>) -> u16
    decreases s.len(),
{
    if s.len() == 0 {
        0
    } else {
        let m = seq_max(s.drop_last());
        if s.last() > m {
            s.last()
        } else {
            m
        }
    }
}

/// Every value of `s` is zero.
pub open spec fn all_zero(s: Seq<u16>) -> bool {
    forall|i: int| 0 <= i < s.len() ==> s[i] == 0
}

/// A row-major matrix of energies, `num_steps() * num_dims()` values.
#[derive(Debug)]
pub struct SpectrogramWrapper {
    steps: usize,
    dims: usize,
    values: Vec<u16>,
}

impl View for SpectrogramWrapper {
    type V = Grid;

    closed spec fn view(&self) -> Grid {
        Grid { steps: self.steps as nat, dims: self.dims as nat, values: self.values@ }
    }
}

/// Creates an all-zero spectrogram of `num_steps` steps and
/// `NUM_CHANNELS` dimensions.
pub fn new_spectrogram(num_steps: usize) -> (r: SpectrogramWrapper)
    requires
        num_steps * NUM_CHANNELS <= usize::MAX,
    ensures
        r.wf(),
        r@.steps == num_steps,
        r@.dims == NUM_CHANNELS,
        all_zero(r@.values),
{
    let size: usize = num_steps * NUM_CHANNELS;
    let mut values: Vec<u16> = Vec::with_capacity(size);
    let mut i: usize = 0;
    while i < size
        invariant
            i <= size,
            values@.len() == i,
            all_zero(values@),
        decreases size - i,
    {
        values.push(0);
        i = i + 1;
    }
    SpectrogramWrapper { steps: num_steps, dims: NUM_CHANNELS, values }
}

impl SpectrogramWrapper {
    /// The shape invariant: the buffer holds exactly `steps * dims` values,
    /// and there is at least one dimension.
    pub open spec fn wf(&self) -> bool {
        &&& self@.values.len() == self@.steps * self@.dims
        &&& self@.dims > 0
    }

    /// The value at row `step`, column `dim`.
    pub open spec fn cell(&self, step: int, dim: int) -> u16 {
        self@.values[step * self@.dims + dim]
    }

    /// Builds a spectrogram from row-major values; `None` when `dims` is
    /// zero or the number of values is not `steps * dims`.
    pub fn from_values(steps: usize, dims: usize, values: Vec<u16>) -> (r: Option<
        SpectrogramWrapper,
    >)
        ensures
            r is Some <==> (dims > 0 && values@.len() == steps * dims),
            r matches Some(s) ==> s.wf() && s@ == (Grid {
                steps: steps as nat,
                dims: dims as nat,
                values: values@,
            }),
    {
        let len: usize = values.len();
        if dims == 0 {
            return None;
        }
        match steps.checked_mul(dims) {
            Some(size) => {
                if size != len {
                    return None;
                }
            },
            None => {
                return None;
            },
        }
        Some(SpectrogramWrapper { steps, dims, values })
    }

    /// The number of time steps.
    pub fn num_steps(&self) -> (r: usize)
        ensures
            r == self@.steps,
    {
        self.steps
    }

    /// The number of feature dimensions (frequency channels).
    pub fn num_dims(&self) -> (r: usize)
        ensures
            r == self@.dims,
    {
        self.dims
    }

    /// The total number of values, `num_steps() * num_dims()`.
    pub fn size(&self) -> (r: usize)
        requires
            self.wf(),
        ensures
            r == self@.values.len(),
            r == self@.steps * self@.dims,
    {
        self.values.len()
    }

    /// The largest value, 0 for an empty spectrogram. Energies are
    /// non-negative, so this is also the largest absolute value.
    pub fn max(&self) -> (r: u16)
        ensures
            r == seq_max(self@.values),
    {
        let mut m: u16 = 0;
        let mut i: usize = 0;
        while i < self.values.len()
            invariant
                i <= self.values@.len(),
                m == seq_max(self.values@.take(i as int)),
            decreases self.values@.len() - i,
        {
            proof {
                assert(self.values@.take(i + 1).drop_last() == self.values@.take(i as int));
            }
            if self.values[i] > m {
                m = self.values[i];
            }
            i = i + 1;
        }
        proof {
            assert(self.values@.take(i as int) == self.values@);
        }
        m
    }

    /// Multiplies every value by `num / den` in place, rounding down and
    /// saturating at the largest energy. The shape does not change.
    pub fn rescale(&mut self, num: u16, den: u16)
        requires
            den > 0,
        ensures
            final(self)@.steps == old(self)@.steps,
            final(self)@.dims == old(self)@.dims,
            is_rescaled(old(self)@.values, final(self)@.values, num, den),
    {
        let n: usize = self.values.len();
        let mut i: usize = 0;
        while i < n
            invariant
                n == old(self)@.values.len(),
                i <= n,
                den > 0,
                self.steps == old(self).steps,
                self.dims == old(self).dims,
                self.values@.len() == n,
                forall|j: int| 0 <= j < i ==> #[trigger] self.values@[j] == scaled(
                    old(self)@.values[j],
                    num,
                    den,
                ),
                forall|j: int| i <= j < n ==> #[trigger] self.values@[j] == old(self)@.values[j],
            decreases n - i,
        {
            let v: u64 = self.values[i] as u64;
            proof {
                vstd::arithmetic::mul::lemma_mul_upper_bound(v as int, 65535, num as int, 65535);
            }
            let s: u64 = v * (num as u64) / (den as u64);
            let w: u16 = if s > 65535 {
                65535
            } else {
                s as u16
            };
            self.values.set(i, w);
            i = i + 1;
        }
    }

    /// The values as a row-major slice.
    pub fn values(&self) -> (r: &[u16])
        ensures
            r@ == self@.values,
    {
        self.values.as_slice()
    }

    /// The values as a mutable row-major slice; the shape cannot change
    /// through it.
    pub fn values_mut(&mut self) -> (r: &mut [u16])
        ensures
            r@ == old(self)@.values,
            final(self)@.steps == old(self)@.steps,
            final(self)@.dims == old(self)@.dims,
            final(self)@.values == final(r)@,
    {
        self.values.as_mut_slice()
    }

    /// The value at row `step`, column `dim`.
    pub fn get(&self, step: usize, dim: usize) -> (r: u16)
        requires
            self.wf(),
            step < self@.steps,
            dim < self@.dims,
        ensures
            r == self.cell(step as int, dim as int),
    {
        let len: usize = self.values.len();
        proof {
            lemma_row_index(step as int, dim as int, self@.steps as int, self@.dims as int);
        }
        self.values[step * self.dims + dim]
    }
}

/// A cell of row `step`, column `dim` lies inside a `steps * dims` buffer.
pub proof fn lemma_row_index(step: int, dim: int, steps: int, dims: int)
    requires
        0 <= step < steps,
        0 <= dim < dims,
    ensures
        0 <= step * dims + dim < steps * dims,
{
    assert(0 <= step * dims + dim < steps * dims) by (nonlinear_arith)
        requires
            0 <= step < steps,
            0 <= dim < dims,
    ;
}

/// `after` holds the values of `before`, each multiplied by `num / den` as
/// `rescale` does.
pub open spec fn is_rescaled(before: Seq<u16>, after: Seq<u16>, num: u16, den: u16) -> bool {
    &&& after.len() == before.len()
    &&& forall|i: int| 0 <= i < before.len() ==> #[trigger] after[i] == scaled(before[i], num, den)
}

/// Rescaling is linear in the maximum: the largest value after multiplying
/// every value by `num / den` is the old largest value multiplied the same
/// way. With `num == den` every value is kept, so rescaling by one is a
/// no-op.
pub proof fn lemma_rescale_max(before: Seq<u16>, after: Seq<u16>, num: u16, den: u16)
    requires
        den > 0,
        is_rescaled(before, after, num, den),
    ensures
        seq_max(after) == scaled(seq_max(before), num, den),
        num == den ==> after == before,
    decreases before.len(),
{
    if before.len() == 0 {
        assert(scaled(0, num, den) == 0);
    } else {
        lemma_rescale_max(before.drop_last(), after.drop_last(), num, den);
        let m = seq_max(before.drop_last());
        if m <= before.last() {
            lemma_scaled_monotone(m, before.last(), num, den);
        } else {
            lemma_scaled_monotone(before.last(), m, num, den);
        }
    }
    if num == den {
        assert forall|i: int| 0 <= i < before.len() implies after[i] == before[i] by {
            vstd::arithmetic::div_mod::lemma_div_by_multiple(before[i] as int, den as int);
        }
        assert(after == before);
    }
}

/// Scaling keeps the order of energies.
pub proof fn lemma_scaled_monotone(a: u16, b: u16, num: u16, den: u16)
    requires
        den > 0,
        a <= b,
    ensures
        scaled(a, num, den) <= scaled(b, num, den),
{
    vstd::arithmetic::mul::lemma_mul_inequality(a as int, b as int, num as int);
    vstd::arithmetic::div_mod::lemma_div_is_ordered(
        (a as int) * (num as int),
        (b as int) * (num as int),
        den as int,
    );
}

} // verus!
