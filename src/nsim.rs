//! Windowed structural similarity (NSIM) between two spectrograms of the same
//! shape, in parts per million.
//!
//! A window is anchored at every cell `(t, c)` and covers the rows
//! `t..min(t + step_window, steps)` and the channels
//! `c..min(c + channel_window, dims)`: windows at the grid's far edges are
//! clipped to the grid. Each window compares the two patches by the product
//! of a luminance term and a contrast-structure term, each computed from
//! integer sums, and the global similarity is the mean over all windows.
use vstd::prelude::*;

use crate::spectrogram::{Grid, SpectrogramWrapper};

verus! {

/// One, in parts per million.
pub const PPM: u64 = 1000000;

/// Stabilizer of the luminance term, `(0.01 * 65535)^2` rounded.
pub const C1: i128 = 429484;

/// Stabilizer of the contrast-structure term, `(0.03 * 65535)^2` rounded.
pub const C2: i128 = 3865353;

/// The largest number of cells of a grid that can be scored: the window
/// sums and their products then fit in `i128`.
pub const MAX_CELLS: i128 = 0x10_0000_0000;

/// The largest squared energy.
pub const MAX_SQUARE: i128 = 4294836225;

/// Sum of `f(r, q)` over the channels `q` in `c0..c1` of row `r`.
pub open spec fn row_sum(f: spec_fn(int, int) -> int, r: int, c0: int, c1: int) -> int
    decreases c1 - c0,
{
    if c1 <= c0 {
        0
    } else {
        row_sum(f, r, c0, c1 - 1) + f(r, c1 - 1)
    }
}

/// Sum of `f(r, q)` over the rows `r0..r1` and the channels `c0..c1`.
pub open spec fn region_sum(f: spec_fn(int, int) -> int, r0: int, r1: int, c0: int, c1: int) -> int
    decreases r1 - r0,
{
    if r1 <= r0 {
        0
    } else {
        region_sum(f, r0, r1 - 1, c0, c1) + row_sum(f, r1 - 1, c0, c1)
    }
}

/// The value of `g` at row `r`, channel `q`.
pub open spec fn at(g: Grid, r: int, q: int) -> int {
    g.values[r * g.dims + q] as int
}

/// One for every cell.
pub open spec fn ones() -> spec_fn(int, int) -> int {
    |r: int, q: int| 1int
}

/// The values of `g`.
pub open spec fn level(g: Grid) -> spec_fn(int, int) -> int {
    |r: int, q: int| at(g, r, q)
}

/// The products of the values of `g` and `h`, cell by cell.
pub open spec fn product(g: Grid, h: Grid) -> spec_fn(int, int) -> int {
    |r: int, q: int| at(g, r, q) * at(h, r, q)
}

/// The end of a window of `len` that starts at `start`, clipped to `total`.
pub open spec fn clip_end(start: int, len: int, total: int) -> int {
    if total - start < len {
        total
    } else {
        start + len
    }
}

/// The similarity of a window from its cell count and sums, in parts per
/// million: the clamped luminance ratio times the clamped contrast-structure
/// ratio, both scaled by the square of the cell count.
pub open spec fn local_spec(n: int, sa: int, sb: int, saa: int, sbb: int, sab: int) -> int {
    let nn = n * n;
    let lum = ratio_spec(2 * (sa * sb) + C1 * nn, sa * sa + sb * sb + C1 * nn);
    let st = ratio_spec(
        2 * (n * sab - sa * sb) + C2 * nn,
        (n * saa - sa * sa) + (n * sbb - sb * sb) + C2 * nn,
    );
    lum * st / (PPM as int)
}

/// The similarity of the window anchored at `(t, c)`.
pub open spec fn window_score(x: Grid, y: Grid, t: int, c: int, sw: int, cw: int) -> int {
    let t1 = clip_end(t, sw, x.steps as int);
    let c1 = clip_end(c, cw, x.dims as int);
    local_spec(
        region_sum(ones(), t, t1, c, c1),
        region_sum(level(x), t, t1, c, c1),
        region_sum(level(y), t, t1, c, c1),
        region_sum(product(x, x), t, t1, c, c1),
        region_sum(product(y, y), t, t1, c, c1),
        region_sum(product(x, y), t, t1, c, c1),
    )
}

/// The window similarities, by anchor.
pub open spec fn scores(x: Grid, y: Grid, sw: int, cw: int) -> spec_fn(int, int) -> int {
    |t: int, c: int| window_score(x, y, t, c, sw, cw)
}

/// The mean window similarity over all anchors, rounded down.
pub open spec fn nsim_spec(x: Grid, y: Grid, sw: int, cw: int) -> int {
    region_sum(scores(x, y, sw, cw), 0, x.steps as int, 0, x.dims as int) / ((x.steps * x.dims) as int)
}

/// Sums over one window of two patches.
pub struct WindowSums {
    pub count: i128,
    pub sum_a: i128,
    pub sum_b: i128,
    pub sum_aa: i128,
    pub sum_bb: i128,
    pub sum_ab: i128,
}

impl WindowSums {
    /// The sums are those of at most `MAX_CELLS` cells, each at most
    /// `u16::MAX`, and at least one cell.
    pub open spec fn bounded(&self) -> bool {
        &&& 1 <= self.count <= MAX_CELLS
        &&& 0 <= self.sum_a <= self.count * 65535
        &&& 0 <= self.sum_b <= self.count * 65535
        &&& 0 <= self.sum_aa <= self.count * MAX_SQUARE
        &&& 0 <= self.sum_bb <= self.count * MAX_SQUARE
        &&& 0 <= self.sum_ab <= self.count * MAX_SQUARE
    }

    /// The two patches gave the same sums, as two equal patches do.
    pub open spec fn same(&self) -> bool {
        &&& self.sum_a == self.sum_b
        &&& self.sum_aa == self.sum_bb
        &&& self.sum_ab == self.sum_aa
    }
}

/// `num / den` in parts per million, clamped to `0..=PPM`.
pub open spec fn ratio_spec(num: int, den: int) -> int {
    if num >= den {
        PPM as int
    } else if num <= 0 {
        0
    } else {
        PPM * num / den
    }
}

/// `num / den` in parts per million, clamped to `0..=PPM`.
fn ratio(num: i128, den: i128) -> (r: u64)
    requires
        -0x400_0000_0000_0000_0000_0000_0000 <= num <= 0x400_0000_0000_0000_0000_0000_0000,
    ensures
        r == ratio_spec(num as int, den as int),
        r <= PPM,
{
    if num >= den {
        PPM
    } else if num <= 0 {
        0
    } else {
        proof {
            vstd::arithmetic::div_mod::lemma_div_is_ordered(PPM * num, PPM * den, den as int);
            vstd::arithmetic::div_mod::lemma_div_multiples_vanish(PPM as int, den as int);
            vstd::arithmetic::div_mod::lemma_div_pos_is_pos(PPM * num, den as int);
            assert(PPM * num <= PPM * den) by (nonlinear_arith)
                requires
                    num < den,
            ;
        }
        ((PPM as i128) * num / den) as u64
    }
}

/// The similarity of one window, in parts per million.
pub fn local_score(s: &WindowSums) -> (r: u64)
    requires
        s.bounded(),
    ensures
        r == local_spec(
            s.count as int,
            s.sum_a as int,
            s.sum_b as int,
            s.sum_aa as int,
            s.sum_bb as int,
            s.sum_ab as int,
        ),
        r <= PPM,
        s.same() ==> r == PPM,
{
    let n: i128 = s.count;
    proof {
        assert(s.sum_a * s.sum_b <= 0x100_0000_0000_0000_0000_0000_0000 && s.sum_a * s.sum_a <= 0x100_0000_0000_0000_0000_0000_0000 && s.sum_b * s.sum_b <= 0x100_0000_0000_0000_0000_0000_0000
            && 0 <= s.sum_a * s.sum_b && 0 <= s.sum_a * s.sum_a && 0 <= s.sum_b * s.sum_b)
            by (nonlinear_arith)
            requires
                0 <= s.sum_a <= 0x10_0000_0000 * 65535,
                0 <= s.sum_b <= 0x10_0000_0000 * 65535,
        ;
        assert(n * n <= 0x10_0000_0000 * 0x10_0000_0000) by (nonlinear_arith)
            requires
                1 <= n <= 0x10_0000_0000,
        ;
        assert(0 <= n * s.sum_ab <= 0x100_0000_0000_0000_0000_0000_0000 && 0 <= n * s.sum_aa <= 0x100_0000_0000_0000_0000_0000_0000 && 0 <= n * s.sum_bb <= 0x100_0000_0000_0000_0000_0000_0000)
            by (nonlinear_arith)
            requires
                1 <= n <= 0x10_0000_0000,
                0 <= s.sum_ab <= n * 4294836225,
                0 <= s.sum_aa <= n * 4294836225,
                0 <= s.sum_bb <= n * 4294836225,
        ;
    }
    let ab: i128 = s.sum_a * s.sum_b;
    let aa: i128 = s.sum_a * s.sum_a;
    let bb: i128 = s.sum_b * s.sum_b;
    let nn: i128 = n * n;
    let lum_num: i128 = 2 * ab + C1 * nn;
    let lum_den: i128 = aa + bb + C1 * nn;
    let st_num: i128 = 2 * (n * s.sum_ab - ab) + C2 * nn;
    let st_den: i128 = (n * s.sum_aa - aa) + (n * s.sum_bb - bb) + C2 * nn;
    let lum: u64 = ratio(lum_num, lum_den);
    let st: u64 = ratio(st_num, st_den);
    proof {
        assert(lum * st <= PPM * PPM) by (nonlinear_arith)
            requires
                lum <= PPM,
                st <= PPM,
        ;
        vstd::arithmetic::div_mod::lemma_div_is_ordered((lum * st) as int, PPM * PPM, PPM as int);
        vstd::arithmetic::div_mod::lemma_div_multiples_vanish(PPM as int, PPM as int);
    }
    lum * st / PPM
}

/// Sums over the window anchored at `(t, c)`, clipped to the grid.
fn window_sums(
    x: &SpectrogramWrapper,
    y: &SpectrogramWrapper,
    t: usize,
    c: usize,
    step_window: usize,
    channel_window: usize,
) -> (r: WindowSums)
    requires
        x.wf(),
        y.wf(),
        x@.steps == y@.steps,
        x@.dims == y@.dims,
        t < x@.steps,
        c < x@.dims,
        x@.steps * x@.dims <= MAX_CELLS,
        step_window >= 1,
        channel_window >= 1,
    ensures
        r.bounded(),
        x@.values == y@.values ==> r.same(),
        ({
            let t1 = clip_end(t as int, step_window as int, x@.steps as int);
            let c1 = clip_end(c as int, channel_window as int, x@.dims as int);
            &&& r.count == region_sum(ones(), t as int, t1, c as int, c1)
            &&& r.sum_a == region_sum(level(x@), t as int, t1, c as int, c1)
            &&& r.sum_b == region_sum(level(y@), t as int, t1, c as int, c1)
            &&& r.sum_aa == region_sum(product(x@, x@), t as int, t1, c as int, c1)
            &&& r.sum_bb == region_sum(product(y@, y@), t as int, t1, c as int, c1)
            &&& r.sum_ab == region_sum(product(x@, y@), t as int, t1, c as int, c1)
        }),
{
    let steps: usize = x.num_steps();
    let dims: usize = x.num_dims();
    let t_end: usize = if steps - t < step_window {
        steps
    } else {
        t + step_window
    };
    let c_end: usize = if dims - c < channel_window {
        dims
    } else {
        c + channel_window
    };
    let mut s = WindowSums { count: 0, sum_a: 0, sum_b: 0, sum_aa: 0, sum_bb: 0, sum_ab: 0 };
    let mut row: usize = t;
    while row < t_end
        invariant
            x.wf(),
            y.wf(),
            x@.steps == y@.steps,
            x@.dims == y@.dims,
            steps == x@.steps,
            dims == x@.dims,
            t <= row <= t_end <= steps,
            c < c_end <= dims,
            steps * dims <= MAX_CELLS,
            t_end == clip_end(t as int, step_window as int, steps as int),
            c_end == clip_end(c as int, channel_window as int, dims as int),
            s.count == region_sum(ones(), t as int, row as int, c as int, c_end as int),
            s.sum_a == region_sum(level(x@), t as int, row as int, c as int, c_end as int),
            s.sum_b == region_sum(level(y@), t as int, row as int, c as int, c_end as int),
            s.sum_aa == region_sum(product(x@, x@), t as int, row as int, c as int, c_end as int),
            s.sum_bb == region_sum(product(y@, y@), t as int, row as int, c as int, c_end as int),
            s.sum_ab == region_sum(product(x@, y@), t as int, row as int, c as int, c_end as int),
            0 <= s.count <= (row - t) * dims,
            row > t ==> s.count >= 1,
            0 <= s.sum_a <= s.count * 65535,
            0 <= s.sum_b <= s.count * 65535,
            0 <= s.sum_aa <= s.count * MAX_SQUARE,
            0 <= s.sum_bb <= s.count * MAX_SQUARE,
            0 <= s.sum_ab <= s.count * MAX_SQUARE,
            x@.values == y@.values ==> s.same(),
        decreases t_end - row,
    {
        let mut col: usize = c;
        while col < c_end
            invariant
                x.wf(),
                y.wf(),
                x@.steps == y@.steps,
                x@.dims == y@.dims,
                steps == x@.steps,
                dims == x@.dims,
                t <= row < t_end <= steps,
                c <= col <= c_end <= dims,
                steps * dims <= MAX_CELLS,
                s.count == region_sum(ones(), t as int, row as int, c as int, c_end as int)
                    + row_sum(ones(), row as int, c as int, col as int),
                s.sum_a == region_sum(level(x@), t as int, row as int, c as int, c_end as int)
                    + row_sum(level(x@), row as int, c as int, col as int),
                s.sum_b == region_sum(level(y@), t as int, row as int, c as int, c_end as int)
                    + row_sum(level(y@), row as int, c as int, col as int),
                s.sum_aa == region_sum(product(x@, x@), t as int, row as int, c as int, c_end as int)
                    + row_sum(product(x@, x@), row as int, c as int, col as int),
                s.sum_bb == region_sum(product(y@, y@), t as int, row as int, c as int, c_end as int)
                    + row_sum(product(y@, y@), row as int, c as int, col as int),
                s.sum_ab == region_sum(product(x@, y@), t as int, row as int, c as int, c_end as int)
                    + row_sum(product(x@, y@), row as int, c as int, col as int),
                0 <= s.count <= (row - t) * dims + (col - c),
                row > t || col > c ==> s.count >= 1,
                0 <= s.sum_a <= s.count * 65535,
                0 <= s.sum_b <= s.count * 65535,
                0 <= s.sum_aa <= s.count * MAX_SQUARE,
                0 <= s.sum_bb <= s.count * MAX_SQUARE,
                0 <= s.sum_ab <= s.count * MAX_SQUARE,
                x@.values == y@.values ==> s.same(),
            decreases c_end - col,
        {
            let u: u16 = x.get(row, col);
            let v: u16 = y.get(row, col);
            proof {
                assert(x@.values == y@.values ==> x.cell(row as int, col as int) == y.cell(
                    row as int,
                    col as int,
                ));
                assert(0 <= (u as int) * (u as int) <= 4294836225 && 0 <= (v as int) * (v as int)
                    <= 4294836225 && 0 <= (u as int) * (v as int) <= 4294836225)
                    by (nonlinear_arith)
                    requires
                        u <= 65535,
                        v <= 65535,
                ;
            }
            assert(u == at(x@, row as int, col as int) && v == at(y@, row as int, col as int));
            proof {
                assert((row - t) * dims + (col - c) < steps * dims) by (nonlinear_arith)
                    requires
                        t <= row < steps,
                        c <= col < dims,
                ;
            }
            let ui: i128 = u as i128;
            let vi: i128 = v as i128;
            s.count = s.count + 1;
            s.sum_a = s.sum_a + ui;
            s.sum_b = s.sum_b + vi;
            s.sum_aa = s.sum_aa + ui * ui;
            s.sum_bb = s.sum_bb + vi * vi;
            s.sum_ab = s.sum_ab + ui * vi;
            col = col + 1;
        }
        proof {
            assert((row - t) * dims + (c_end - c) <= (row + 1 - t) * dims) by (nonlinear_arith)
                requires
                    c_end - c <= dims,
                    t <= row,
            ;
        }
        row = row + 1;
    }
    proof {
        assert((row - t) * dims <= steps * dims) by (nonlinear_arith)
            requires
                t <= row <= steps,
        ;
    }
    s
}

/// The mean similarity over all windows, in parts per million. Equal
/// spectrograms score `PPM`.
pub fn nsim(
    x: &SpectrogramWrapper,
    y: &SpectrogramWrapper,
    step_window: usize,
    channel_window: usize,
) -> (r: u64)
    requires
        x.wf(),
        y.wf(),
        x@.steps == y@.steps,
        x@.dims == y@.dims,
        x@.steps > 0,
        x@.steps * x@.dims <= MAX_CELLS,
        step_window >= 1,
        channel_window >= 1,
    ensures
        r == nsim_spec(x@, y@, step_window as int, channel_window as int),
        r <= PPM,
        x@.values == y@.values ==> r == PPM,
{
    let steps: usize = x.num_steps();
    let dims: usize = x.num_dims();
    let size: usize = x.size();
    let mut total: u128 = 0;
    let mut windows: u128 = 0;
    let mut t: usize = 0;
    while t < steps
        invariant
            x.wf(),
            y.wf(),
            x@.steps == y@.steps,
            x@.dims == y@.dims,
            steps == x@.steps,
            dims == x@.dims,
            dims > 0,
            steps * dims <= MAX_CELLS,
            step_window >= 1,
            channel_window >= 1,
            t <= steps,
            size == steps * dims,
            windows == t * dims,
            total == region_sum(scores(x@, y@, step_window as int, channel_window as int), 0, t as int, 0, dims as int),
            t > 0 ==> windows >= 1,
            total <= windows * PPM,
            x@.values == y@.values ==> total == windows * PPM,
        decreases steps - t,
    {
        let mut c: usize = 0;
        while c < dims
            invariant
                x.wf(),
                y.wf(),
                x@.steps == y@.steps,
                x@.dims == y@.dims,
                steps == x@.steps,
                dims == x@.dims,
                steps * dims <= MAX_CELLS,
                step_window >= 1,
                channel_window >= 1,
                t < steps,
                c <= dims,
                size == steps * dims,
                windows == t * dims + c,
                total == region_sum(scores(x@, y@, step_window as int, channel_window as int), 0, t as int, 0, dims as int)
                    + row_sum(scores(x@, y@, step_window as int, channel_window as int), t as int, 0, c as int),
                t > 0 || c > 0 ==> windows >= 1,
                total <= windows * PPM,
                x@.values == y@.values ==> total == windows * PPM,
            decreases dims - c,
        {
            proof {
                crate::spectrogram::lemma_row_index(t as int, c as int, steps as int, dims as int);
            }
            let s = window_sums(x, y, t, c, step_window, channel_window);
            let score: u64 = local_score(&s);
            total = total + score as u128;
            windows = windows + 1;
            c = c + 1;
        }
        proof {
            assert((t + 1) * dims == t * dims + dims) by (nonlinear_arith);
        }
        t = t + 1;
    }
    proof {
        vstd::arithmetic::div_mod::lemma_div_is_ordered(total as int, windows * PPM, windows as int);
        vstd::arithmetic::div_mod::lemma_div_multiples_vanish(PPM as int, windows as int);
    }
    (total / windows) as u64
}

} // verus!
