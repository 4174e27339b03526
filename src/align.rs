//! Dynamic time warping: the lowest-cost monotone correspondence between the
//! time steps of two spectrograms of the same channel count.
use vstd::prelude::*;

use crate::spectrogram::{Grid, SpectrogramWrapper};

verus! {

/// Absolute difference of two energies.
pub open spec fn abs_diff(x: u16, y: u16) -> int {
    if x >= y {
        x - y
    } else {
        y - x
    }
}

/// Sum of the absolute differences of the first `n` channels of row `i`
/// of `a` and row `j` of `b`.
pub open spec fn row_cost_upto(a: Grid, b: Grid, i: int, j: int, n: int) -> int
    decreases n,
{
    if n <= 0 {
        0
    } else {
        row_cost_upto(a, b, i, j, n - 1) + abs_diff(
            a.values[i * a.dims + n - 1],
            b.values[j * b.dims + n - 1],
        )
    }
}

/// The cost of pairing row `i` of `a` with row `j` of `b`: the sum over all
/// channels of the absolute differences.
pub open spec fn row_cost(a: Grid, b: Grid, i: int, j: int) -> int {
    row_cost_upto(a, b, i, j, a.dims as int)
}

/// `x`, saturated at `u64::MAX`.
pub open spec fn sat(x: int) -> int {
    if x > u64::MAX {
        u64::MAX as int
    } else {
        x
    }
}

/// The smallest of three values.
pub open spec fn min3(x: int, y: int, z: int) -> int {
    if x <= y && x <= z {
        x
    } else if y <= z {
        y
    } else {
        z
    }
}

/// The cumulative alignment cost of the cell `(i, j)`: its own cost plus the
/// cheapest cumulative cost of a cell it can be reached from, saturated.
pub open spec fn cum_cost(a: Grid, b: Grid, i: nat, j: nat) -> int
    decreases i + j,
{
    if i == 0 && j == 0 {
        sat(row_cost(a, b, 0, 0))
    } else if i == 0 {
        sat(row_cost(a, b, 0, j as int) + cum_cost(a, b, 0, (j - 1) as nat))
    } else if j == 0 {
        sat(row_cost(a, b, i as int, 0) + cum_cost(a, b, (i - 1) as nat, 0))
    } else {
        sat(
            row_cost(a, b, i as int, j as int) + min3(
                cum_cost(a, b, (i - 1) as nat, j as nat),
                cum_cost(a, b, i as nat, (j - 1) as nat),
                cum_cost(a, b, (i - 1) as nat, (j - 1) as nat),
            ),
        )
    }
}

/// `q` follows `p` on a monotone path: one step forward in either index,
/// or in both.
pub open spec fn is_step(p: (usize, usize), q: (usize, usize)) -> bool {
    &&& (q.0 == p.0 || q.0 == p.0 + 1)
    &&& (q.1 == p.1 || q.1 == p.1 + 1)
    &&& q != p
}

/// `path` is a monotone alignment path of a `ta` by `tb` grid, from `(0, 0)`
/// to `(ta - 1, tb - 1)`.
pub open spec fn is_path(path: Seq<(usize, usize)>, ta: nat, tb: nat) -> bool {
    &&& path.len() >= 1
    &&& path[0] == (0usize, 0usize)
    &&& path.last() == ((ta - 1) as usize, (tb - 1) as usize)
    &&& forall|k: int| 0 <= k < path.len() ==> #[trigger] path[k].0 < ta && path[k].1 < tb
    &&& forall|k: int| 0 <= k < path.len() - 1 ==> is_step(#[trigger] path[k], path[k + 1])
}

/// The cell that the walk back from `p` moves to: along the border while on
/// it, else the predecessor of least cumulative cost, the diagonal first and
/// then the earlier row on ties.
pub open spec fn back_step(a: Grid, b: Grid, p: (usize, usize)) -> (usize, usize) {
    let (i, j) = p;
    if i == 0 {
        (0usize, (j - 1) as usize)
    } else if j == 0 {
        ((i - 1) as usize, 0usize)
    } else {
        let up = cum_cost(a, b, (i - 1) as nat, j as nat);
        let left = cum_cost(a, b, i as nat, (j - 1) as nat);
        let diag = cum_cost(a, b, (i - 1) as nat, (j - 1) as nat);
        if diag <= up && diag <= left {
            ((i - 1) as usize, (j - 1) as usize)
        } else if up <= left {
            ((i - 1) as usize, j)
        } else {
            (i, (j - 1) as usize)
        }
    }
}

/// `path` is the walk back from the last pair by `back_step`, read forward:
/// it ends at `(ta - 1, tb - 1)`, starts at `(0, 0)`, and each pair is the
/// `back_step` of the next.
pub open spec fn is_walk(a: Grid, b: Grid, path: Seq<(usize, usize)>) -> bool {
    &&& is_path(path, a.steps, b.steps)
    &&& forall|k: int| 1 <= k < path.len() ==> path[k - 1] == back_step(a, b, #[trigger] path[k])
}

/// Row `i` of `a` equals row `j` of `b`, channel by channel.
pub open spec fn rows_equal(a: Grid, b: Grid, i: int, j: int) -> bool {
    forall|c: int| 0 <= c < a.dims ==> #[trigger] a.values[i * a.dims + c] == b.values[j * b.dims
        + c]
}

proof fn lemma_cost_nonneg(a: Grid, b: Grid, i: int, j: int, n: int)
    ensures
        row_cost_upto(a, b, i, j, n) >= 0,
    decreases n,
{
    if n > 0 {
        lemma_cost_nonneg(a, b, i, j, n - 1);
    }
}

proof fn lemma_cum_nonneg(a: Grid, b: Grid, i: nat, j: nat)
    ensures
        0 <= cum_cost(a, b, i, j) <= u64::MAX,
    decreases i + j,
{
    lemma_cost_nonneg(a, b, i as int, j as int, a.dims as int);
    if i > 0 {
        lemma_cum_nonneg(a, b, (i - 1) as nat, j);
    }
    if j > 0 {
        lemma_cum_nonneg(a, b, i, (j - 1) as nat);
    }
    if i > 0 && j > 0 {
        lemma_cum_nonneg(a, b, (i - 1) as nat, (j - 1) as nat);
    }
}

/// A zero cost means the two rows are equal.
proof fn lemma_zero_cost(a: Grid, b: Grid, i: int, j: int, n: int)
    requires
        0 <= n <= a.dims,
        row_cost_upto(a, b, i, j, n) == 0,
    ensures
        forall|c: int| 0 <= c < n ==> #[trigger] a.values[i * a.dims + c] == b.values[j * b.dims
            + c],
    decreases n,
{
    if n > 0 {
        lemma_cost_nonneg(a, b, i, j, n - 1);
        lemma_zero_cost(a, b, i, j, n - 1);
    }
}

/// A grid compared with itself has zero cost on the diagonal.
proof fn lemma_self_cost(a: Grid, i: int, n: int)
    ensures
        row_cost_upto(a, a, i, i, n) == 0,
    decreases n,
{
    if n > 0 {
        lemma_self_cost(a, i, n - 1);
    }
}

/// A grid compared with itself has zero cumulative cost on the diagonal.
pub proof fn lemma_self_cum(a: Grid, i: nat)
    ensures
        cum_cost(a, a, i, i) == 0,
    decreases i,
{
    lemma_self_cost(a, i as int, a.dims as int);
    if i > 0 {
        lemma_self_cum(a, (i - 1) as nat);
        lemma_cum_nonneg(a, a, (i - 1) as nat, i);
        lemma_cum_nonneg(a, a, i, (i - 1) as nat);
    }
}

/// Cost of pairing row `i` of `a` with row `j` of `b`, as a wide integer.
fn pair_cost(a: &SpectrogramWrapper, b: &SpectrogramWrapper, i: usize, j: usize) -> (r: u128)
    requires
        a.wf(),
        b.wf(),
        a@.dims == b@.dims,
        i < a@.steps,
        j < b@.steps,
    ensures
        r == row_cost(a@, b@, i as int, j as int),
        r <= 0x1_0000_0000_0000_0000 * 65535,
{
    let dims: usize = a.num_dims();
    let mut total: u128 = 0;
    let mut c: usize = 0;
    while c < dims
        invariant
            a.wf(),
            b.wf(),
            a@.dims == b@.dims,
            dims == a@.dims,
            i < a@.steps,
            j < b@.steps,
            c <= dims,
            total == row_cost_upto(a@, b@, i as int, j as int, c as int),
            total <= c * 65535,
            c <= 0x1_0000_0000_0000_0000,
        decreases dims - c,
    {
        let x: u16 = a.get(i, c);
        let y: u16 = b.get(j, c);
        let d: u16 = if x >= y {
            x - y
        } else {
            y - x
        };
        total = total + d as u128;
        c = c + 1;
    }
    total
}

/// Computes a monotone alignment path between the steps of `a` and those of
/// `b`: fills the table of cumulative costs, then walks it back from the last
/// pair to the first, always to the cheapest predecessor (the diagonal on a
/// tie with both others, then the earlier row). Where the cumulative cost of
/// the whole grid is zero, every pair on the path has equal rows.
pub fn align(a: &SpectrogramWrapper, b: &SpectrogramWrapper) -> (path: Vec<(usize, usize)>)
    requires
        a.wf(),
        b.wf(),
        a@.dims == b@.dims,
        a@.steps > 0,
        b@.steps > 0,
    ensures
        is_walk(a@, b@, path@),
        path@.len() <= a@.steps + b@.steps - 1,
        cum_cost(a@, b@, (a@.steps - 1) as nat, (b@.steps - 1) as nat) == 0 ==> forall|k: int|
            0 <= k < path@.len() ==> rows_equal(a@, b@, #[trigger] path@[k].0 as int, path@[k].1 as int),
{
    let ta: usize = a.num_steps();
    let tb: usize = b.num_steps();
    let mut table: Vec<Vec<u64>> = Vec::new();
    let mut i: usize = 0;
    while i < ta
        invariant
            a.wf(),
            b.wf(),
            a@.dims == b@.dims,
            ta == a@.steps,
            tb == b@.steps,
            i <= ta,
            table@.len() == i,
            forall|r: int| 0 <= r < i ==> (#[trigger] table@[r])@.len() == tb,
            forall|r: int, s: int|
                0 <= r < i && 0 <= s < tb ==> #[trigger] table@[r]@[s] == cum_cost(
                    a@,
                    b@,
                    r as nat,
                    s as nat,
                ),
        decreases ta - i,
    {
        let mut row: Vec<u64> = Vec::with_capacity(tb);
        let mut j: usize = 0;
        while j < tb
            invariant
                a.wf(),
                b.wf(),
                a@.dims == b@.dims,
                ta == a@.steps,
                tb == b@.steps,
                i < ta,
                j <= tb,
                table@.len() == i,
                forall|r: int| 0 <= r < i ==> (#[trigger] table@[r])@.len() == tb,
                forall|r: int, s: int|
                    0 <= r < i && 0 <= s < tb ==> #[trigger] table@[r]@[s] == cum_cost(
                        a@,
                        b@,
                        r as nat,
                        s as nat,
                    ),
                row@.len() == j,
                forall|s: int| 0 <= s < j ==> #[trigger] row@[s] == cum_cost(a@, b@, i as nat, s as nat),
            decreases tb - j,
        {
            let cost: u128 = pair_cost(a, b, i, j);
            proof {
                if i > 0 {
                    lemma_cum_nonneg(a@, b@, (i - 1) as nat, j as nat);
                }
                if j > 0 {
                    lemma_cum_nonneg(a@, b@, i as nat, (j - 1) as nat);
                }
                if i > 0 && j > 0 {
                    lemma_cum_nonneg(a@, b@, (i - 1) as nat, (j - 1) as nat);
                }
                lemma_cum_nonneg(a@, b@, i as nat, j as nat);
            }
            let best: u64 = if i == 0 && j == 0 {
                0
            } else if i == 0 {
                row[j - 1]
            } else if j == 0 {
                table[i - 1][0]
            } else {
                let up: u64 = table[i - 1][j];
                let left: u64 = row[j - 1];
                let diag: u64 = table[i - 1][j - 1];
                if up <= left && up <= diag {
                    up
                } else if left <= diag {
                    left
                } else {
                    diag
                }
            };
            let total: u128 = cost + best as u128;
            let cell: u64 = if total > u64::MAX as u128 {
                u64::MAX
            } else {
                total as u64
            };
            row.push(cell);
            j = j + 1;
        }
        table.push(row);
        i = i + 1;
    }
    let mut i: usize = ta - 1;
    let mut j: usize = tb - 1;
    let ghost end = cum_cost(a@, b@, (ta - 1) as nat, (tb - 1) as nat);
    let mut rev: Vec<(usize, usize)> = Vec::new();
    rev.push((i, j));
    proof {
        if end == 0 {
            lemma_cum_zero_cost(a@, b@, i as nat, j as nat);
        }
    }
    while i > 0 || j > 0
        invariant
            a.wf(),
            b.wf(),
            a@.dims == b@.dims,
            ta == a@.steps,
            tb == b@.steps,
            i < ta,
            j < tb,
            end == cum_cost(a@, b@, (ta - 1) as nat, (tb - 1) as nat),
            table@.len() == ta,
            forall|r: int| 0 <= r < ta ==> (#[trigger] table@[r])@.len() == tb,
            forall|r: int, s: int|
                0 <= r < ta && 0 <= s < tb ==> #[trigger] table@[r]@[s] == cum_cost(
                    a@,
                    b@,
                    r as nat,
                    s as nat,
                ),
            rev@.len() >= 1,
            rev@[0] == ((ta - 1) as usize, (tb - 1) as usize),
            rev@.last() == (i, j),
            rev@.len() + i + j <= ta + tb - 1,
            forall|k: int| 0 <= k < rev@.len() ==> #[trigger] rev@[k].0 < ta && rev@[k].1 < tb,
            forall|k: int| 0 <= k < rev@.len() - 1 ==> is_step(rev@[k + 1], #[trigger] rev@[k]),
            forall|k: int| 0 <= k < rev@.len() - 1 ==> rev@[k + 1] == back_step(a@, b@, #[trigger] rev@[k]),
            end == 0 ==> cum_cost(a@, b@, i as nat, j as nat) == 0,
            end == 0 ==> forall|k: int|
                0 <= k < rev@.len() ==> row_cost(a@, b@, #[trigger] rev@[k].0 as int, rev@[k].1 as int) == 0,
        decreases i + j,
    {
        let ghost (pi, pj) = (i, j);
        if i == 0 {
            j = j - 1;
        } else if j == 0 {
            i = i - 1;
        } else {
            let up: u64 = table[i - 1][j];
            let left: u64 = table[i][j - 1];
            let diag: u64 = table[i - 1][j - 1];
            if diag <= up && diag <= left {
                i = i - 1;
                j = j - 1;
            } else if up <= left {
                i = i - 1;
            } else {
                j = j - 1;
            }
        }
        proof {
            if end == 0 {
                lemma_cost_nonneg(a@, b@, pi as int, pj as int, a@.dims as int);
                lemma_cost_nonneg(a@, b@, i as int, j as int, a@.dims as int);
                if pi > 0 {
                    lemma_cum_nonneg(a@, b@, (pi - 1) as nat, pj as nat);
                }
                if pj > 0 {
                    lemma_cum_nonneg(a@, b@, pi as nat, (pj - 1) as nat);
                }
                if pi > 0 && pj > 0 {
                    lemma_cum_nonneg(a@, b@, (pi - 1) as nat, (pj - 1) as nat);
                }
                lemma_cum_nonneg(a@, b@, i as nat, j as nat);
            }
        }
        rev.push((i, j));
        proof {
            if end == 0 {
                assert forall|k: int| 0 <= k < rev@.len() implies row_cost(
                    a@,
                    b@,
                    #[trigger] rev@[k].0 as int,
                    rev@[k].1 as int,
                ) == 0 by {
                    if k == rev@.len() - 1 {
                        lemma_cum_zero_cost(a@, b@, i as nat, j as nat);
                    }
                }
            }
        }
    }
    let n: usize = rev.len();
    let mut path: Vec<(usize, usize)> = Vec::with_capacity(n);
    let mut k: usize = 0;
    while k < n
        invariant
            n == rev@.len(),
            k <= n,
            path@.len() == k,
            forall|m: int| 0 <= m < k ==> #[trigger] path@[m] == rev@[n - 1 - m],
        decreases n - k,
    {
        path.push(rev[n - 1 - k]);
        k = k + 1;
    }
    proof {
        assert(rev@.last() == (0usize, 0usize));
        assert(path@[0] == rev@[n - 1]);
        assert forall|m: int| 0 <= m < path@.len() - 1 implies is_step(
            #[trigger] path@[m],
            path@[m + 1],
        ) by {
            assert(is_step(rev@[(n - 1 - m - 1) + 1], rev@[n - 1 - m - 1]));
        }
        assert forall|m: int| 1 <= m < path@.len() implies path@[m - 1] == back_step(
            a@,
            b@,
            #[trigger] path@[m],
        ) by {
            assert(rev@[(n - 1 - m) + 1] == back_step(a@, b@, rev@[n - 1 - m]));
        }
        assert forall|m: int| 0 <= m < path@.len() implies #[trigger] path@[m].0 < ta
            && path@[m].1 < tb by {
            assert(rev@[n - 1 - m].0 < ta);
        }
        if end == 0 {
            assert forall|m: int| 0 <= m < path@.len() implies rows_equal(
                a@,
                b@,
                #[trigger] path@[m].0 as int,
                path@[m].1 as int,
            ) by {
                let p = rev@[n - 1 - m];
                assert(row_cost(a@, b@, p.0 as int, p.1 as int) == 0);
                lemma_zero_cost(a@, b@, p.0 as int, p.1 as int, a@.dims as int);
            }
        }
    }
    path
}

/// A cell of zero cumulative cost has zero cost of its own.
proof fn lemma_cum_zero_cost(a: Grid, b: Grid, i: nat, j: nat)
    requires
        cum_cost(a, b, i, j) == 0,
    ensures
        row_cost(a, b, i as int, j as int) == 0,
{
    lemma_cost_nonneg(a, b, i as int, j as int, a.dims as int);
    if i > 0 {
        lemma_cum_nonneg(a, b, (i - 1) as nat, j);
    }
    if j > 0 {
        lemma_cum_nonneg(a, b, i, (j - 1) as nat);
    }
    if i > 0 && j > 0 {
        lemma_cum_nonneg(a, b, (i - 1) as nat, (j - 1) as nat);
    }
}


/// Sum of the costs of the pairs of `path`.
pub open spec fn path_cost(a: Grid, b: Grid, path: Seq<(usize, usize)>) -> int
    decreases path.len(),
{
    if path.len() == 0 {
        0
    } else {
        path_cost(a, b, path.drop_last()) + row_cost(a, b, path.last().0 as int, path.last().1 as int)
    }
}

/// `path` starts at `(0, 0)` and moves by monotone steps.
pub open spec fn is_monotone_from_start(path: Seq<(usize, usize)>) -> bool {
    &&& path.len() >= 1
    &&& path[0] == (0usize, 0usize)
    &&& forall|k: int| 0 <= k < path.len() - 1 ==> is_step(#[trigger] path[k], path[k + 1])
}

proof fn lemma_path_cost_nonneg(a: Grid, b: Grid, path: Seq<(usize, usize)>)
    ensures
        path_cost(a, b, path) >= 0,
    decreases path.len(),
{
    if path.len() > 0 {
        lemma_path_cost_nonneg(a, b, path.drop_last());
        lemma_cost_nonneg(a, b, path.last().0 as int, path.last().1 as int, a.dims as int);
    }
}

/// No monotone path from `(0, 0)` costs less, saturated, than the
/// cumulative cost of the pair where it ends.
proof fn lemma_cum_is_least(a: Grid, b: Grid, path: Seq<(usize, usize)>)
    requires
        is_monotone_from_start(path),
    ensures
        cum_cost(a, b, path.last().0 as nat, path.last().1 as nat) <= sat(path_cost(a, b, path)),
    decreases path.len(),
{
    let p = path.last();
    lemma_cost_nonneg(a, b, p.0 as int, p.1 as int, a.dims as int);
    if path.len() > 1 {
        let front = path.drop_last();
        assert(is_step(path[path.len() - 2], path[path.len() - 1]));
        lemma_cum_is_least(a, b, front);
        lemma_path_cost_nonneg(a, b, front);
        let q = front.last();
        assert(q == path[path.len() - 2]);
        assert(front.last() == q);
        lemma_cum_nonneg(a, b, q.0 as nat, q.1 as nat);
        let c = row_cost(a, b, p.0 as int, p.1 as int);
        let rest = path_cost(a, b, front);
        assert(path_cost(a, b, path) == rest + c);
        assert(cum_cost(a, b, q.0 as nat, q.1 as nat) <= sat(rest));
        if p.0 > 0 && p.1 > 0 {
            lemma_cum_nonneg(a, b, (p.0 - 1) as nat, p.1 as nat);
            lemma_cum_nonneg(a, b, p.0 as nat, (p.1 - 1) as nat);
            lemma_cum_nonneg(a, b, (p.0 - 1) as nat, (p.1 - 1) as nat);
            assert(cum_cost(a, b, p.0 as nat, p.1 as nat) <= sat(c + cum_cost(a, b, q.0 as nat, q.1 as nat)));
        } else if p.0 == 0 {
            assert(q.0 == 0 && q.1 + 1 == p.1);
            assert(cum_cost(a, b, p.0 as nat, p.1 as nat) == sat(c + cum_cost(a, b, q.0 as nat, q.1 as nat)));
        } else {
            assert(q.1 == 0 && q.0 + 1 == p.0);
            assert(cum_cost(a, b, p.0 as nat, p.1 as nat) == sat(c + cum_cost(a, b, q.0 as nat, q.1 as nat)));
        }
        assert(sat(c + cum_cost(a, b, q.0 as nat, q.1 as nat)) <= sat(c + sat(rest)));
        assert(sat(c + sat(rest)) <= sat(c + rest));
    } else {
        assert(path.drop_last().len() == 0);
        assert(path.last() == path[0]);
        assert(path_cost(a, b, path) == path_cost(a, b, path.drop_last()) + row_cost(a, b, 0, 0));
    }
}

/// The walk's costs add up: along it, each cumulative cost is the pair's
/// own cost plus the cumulative cost of the pair before, saturated.
proof fn lemma_walk_cost(a: Grid, b: Grid, walk: Seq<(usize, usize)>, n: int)
    requires
        is_walk(a, b, walk),
        1 <= n <= walk.len(),
    ensures
        cum_cost(a, b, walk[n - 1].0 as nat, walk[n - 1].1 as nat) == sat(
            path_cost(a, b, walk.take(n)),
        ),
    decreases n,
{
    let p = walk[n - 1];
    lemma_cost_nonneg(a, b, p.0 as int, p.1 as int, a.dims as int);
    assert(walk.take(n).drop_last() == walk.take(n - 1));
    if n == 1 {
        assert(walk.take(0).len() == 0);
        assert(walk.take(1).last() == walk[0]);
        assert(path_cost(a, b, walk.take(1)) == path_cost(a, b, walk.take(0)) + row_cost(a, b, 0, 0));
    } else {
        lemma_walk_cost(a, b, walk, n - 1);
        lemma_path_cost_nonneg(a, b, walk.take(n - 1));
        let q = walk[n - 2];
        assert(q == back_step(a, b, walk[n - 1]));
        assert(is_step(walk[n - 2], walk[n - 1]));
        assert(walk.take(n).last() == p);
        let c = row_cost(a, b, p.0 as int, p.1 as int);
        let rest = path_cost(a, b, walk.take(n - 1));
        assert(path_cost(a, b, walk.take(n)) == rest + c);
        lemma_cum_nonneg(a, b, q.0 as nat, q.1 as nat);
        if p.0 > 0 && p.1 > 0 {
            lemma_cum_nonneg(a, b, (p.0 - 1) as nat, p.1 as nat);
            lemma_cum_nonneg(a, b, p.0 as nat, (p.1 - 1) as nat);
            lemma_cum_nonneg(a, b, (p.0 - 1) as nat, (p.1 - 1) as nat);
        }
        assert(cum_cost(a, b, p.0 as nat, p.1 as nat) == sat(c + cum_cost(a, b, q.0 as nat, q.1 as nat)));
        assert(sat(c + sat(rest)) == sat(c + rest));
    }
}

/// The walk that `align` returns is a least-cost alignment: its cost,
/// saturated at `u64::MAX`, is the cumulative cost of the last pair, and no
/// monotone path from the first pair to the last costs less.
pub proof fn lemma_walk_is_least(
    a: Grid,
    b: Grid,
    walk: Seq<(usize, usize)>,
    other: Seq<(usize, usize)>,
)
    requires
        is_walk(a, b, walk),
        is_monotone_from_start(other),
        other.last() == walk.last(),
    ensures
        sat(path_cost(a, b, walk)) == cum_cost(a, b, walk.last().0 as nat, walk.last().1 as nat),
        sat(path_cost(a, b, walk)) <= sat(path_cost(a, b, other)),
{
    lemma_walk_cost(a, b, walk, walk.len() as int);
    assert(walk.take(walk.len() as int) == walk);
    lemma_cum_is_least(a, b, other);
}

} // verus!
