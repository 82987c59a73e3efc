//! The sample grid: where probes are placed.

use vstd::arithmetic::div_mod::lemma_fundamental_div_mod_converse;
use vstd::prelude::*;

verus! {

/// The part of the processing configuration that places probes and runs workers.
///
/// The grid spans `minx..maxx` by `miny..maxy` (lower bound included, upper
/// bound excluded), with a probe every `step` units.
#[derive(Clone, Copy, Debug, PartialEq, Eq)]
pub struct Config {
    /// The minimum x coordinate of the sample grid.
    pub minx: i32,
    /// The minimum y coordinate of the sample grid.
    pub miny: i32,
    /// The maximum x coordinate of the sample grid (excluded).
    pub maxx: i32,
    /// The maximum y coordinate of the sample grid (excluded).
    pub maxy: i32,
    /// The spacing between probes, and the radius of a probe's circle.
    pub step: usize,
    /// The number of worker threads.
    pub threads: usize,
    /// The number of nearest neighbours drawn per probe.
    pub num_points: usize,
    /// The maximum number of registration iterations, if bounded.
    pub max_iterations: Option<u64>,
}

/// A probe of the sample grid, by the lower-left corner of its square.
///
/// The probe's centre lies half a step up and right of the corner.
#[derive(Clone, Copy, Debug, PartialEq, Eq)]
pub struct Probe {
    pub x: i32,
    pub y: i32,
}

impl Probe {
    /// Twice the x coordinate of the probe's centre.
    pub open spec fn center_x2(self, step: int) -> int {
        2 * self.x + step
    }

    /// Twice the y coordinate of the probe's centre.
    pub open spec fn center_y2(self, step: int) -> int {
        2 * self.y + step
    }
}

/// How many multiples of `step` added to `lo` stay below `hi`.
pub open spec fn axis_count(lo: int, hi: int, step: int) -> nat {
    if hi <= lo {
        0
    } else {
        ((hi - lo - 1) / step + 1) as nat
    }
}

proof fn lemma_axis_count(lo: int, hi: int, step: int, k: int)
    requires
        step > 0,
        k >= 0,
        lo + k * step < hi,
        hi <= lo + k * step + step,
    ensures
        axis_count(lo, hi, step) == k + 1,
{
    let rem = hi - lo - 1 - k * step;
    assert(hi - lo - 1 == k * step + rem);
    lemma_fundamental_div_mod_converse(hi - lo - 1, step, k, rem);
}

/// The starts `lo, lo + step, ...` that lie below `hi`.
fn axis_starts(lo: i32, hi: i32, step: usize) -> (r: Vec<i32>)
    requires
        step > 0,
    ensures
        r.len() == axis_count(lo as int, hi as int, step as int),
        forall|i: int| 0 <= i < r.len() ==> r[i] == lo + i * step,
{
    let mut v: Vec<i32> = Vec::new();
    if lo >= hi {
        return v;
    }
    let mut x: i64 = lo as i64;
    assert(v.len() * step == 0) by (nonlinear_arith)
        requires
            v.len() == 0,
    ;
    loop
        invariant_except_break
            lo <= x < hi,
            x == lo + v.len() * step,
        invariant
            step > 0,
            forall|i: int| 0 <= i < v.len() ==> v[i] == lo + i * step,
        ensures
            v.len() == axis_count(lo as int, hi as int, step as int),
            forall|i: int| 0 <= i < v.len() ==> v[i] == lo + i * step,
        decreases hi - x,
    {
        let ghost k = v.len() as int;
        v.push(x as i32);
        let gap: u64 = (hi as i64 - x) as u64;
        if gap <= step as u64 {
            proof {
                lemma_axis_count(lo as int, hi as int, step as int, k);
            }
            break;
        }
        x = x + step as i64;
        assert(x == lo + v.len() * step) by (nonlinear_arith)
            requires
                x == lo + k * step + step,
                v.len() == k + 1,
        ;
    }
    v
}

impl Config {
    /// The number of probe columns.
    pub open spec fn columns(&self) -> nat {
        axis_count(self.minx as int, self.maxx as int, self.step as int)
    }

    /// The number of probe rows.
    pub open spec fn rows(&self) -> nat {
        axis_count(self.miny as int, self.maxy as int, self.step as int)
    }

    /// The probe at column `i` and row `j`.
    pub open spec fn probe_at(&self, i: int, j: int) -> Probe {
        Probe { x: (self.minx + i * self.step) as i32, y: (self.miny + j * self.step) as i32 }
    }

    /// The probes of the grid, column by column, each column from bottom to top.
    pub open spec fn probe_grid(&self) -> Seq<Probe> {
        Seq::new(
            self.columns() * self.rows(),
            |k: int| self.probe_at(k / self.rows() as int, k % self.rows() as int),
        )
    }

    /// Returns the probes of the sample grid, column by column.
    pub fn sample_points(&self) -> (r: Vec<Probe>)
        requires
            self.step > 0,
        ensures
            r@ == self.probe_grid(),
    {
        let xs = axis_starts(self.minx, self.maxx, self.step);
        let ys = axis_starts(self.miny, self.maxy, self.step);
        let ghost ny = ys.len() as int;
        let mut points: Vec<Probe> = Vec::new();
        assert(0 * ny == 0);
        for i in 0..xs.len()
            invariant
                xs.len() == self.columns(),
                ys.len() == self.rows(),
                ny == ys.len(),
                forall|a: int| 0 <= a < xs.len() ==> xs[a] == self.minx + a * self.step,
                forall|b: int| 0 <= b < ys.len() ==> ys[b] == self.miny + b * self.step,
                points.len() == i * ny,
                forall|k: int|
                    0 <= k < points.len() ==> points[k] == self.probe_at(k / ny, k % ny),
        {
            for j in 0..ys.len()
                invariant
                    xs.len() == self.columns(),
                    ys.len() == self.rows(),
                    ny == ys.len(),
                    0 <= i < xs.len(),
                    forall|a: int| 0 <= a < xs.len() ==> xs[a] == self.minx + a * self.step,
                    forall|b: int| 0 <= b < ys.len() ==> ys[b] == self.miny + b * self.step,
                    points.len() == i * ny + j,
                    forall|k: int|
                        0 <= k < points.len() ==> points[k] == self.probe_at(k / ny, k % ny),
            {
                let ghost k = points.len() as int;
                proof {
                    lemma_fundamental_div_mod_converse(k, ny, i as int, j as int);
                }
                points.push(Probe { x: xs[i], y: ys[j] });
            }
            assert(points.len() == (i + 1) * ny) by (nonlinear_arith)
                requires
                    points.len() == i * ny + ny,
            ;
        }
        assert(points@ =~= self.probe_grid());
        points
    }
}

/// Each probe lies at the centre of its square of the grid: the probe at
/// column `i` and row `j` is centred at
/// `(minx + (i + 1/2) * step, miny + (j + 1/2) * step)`, here stated on
/// twice the coordinates.
pub proof fn lemma_probe_centers(config: Config, i: int, j: int)
    requires
        config.step > 0,
        0 <= i < config.columns(),
        0 <= j < config.rows(),
    ensures
        config.probe_grid()[i * config.rows() + j].center_x2(config.step as int) == 2
            * config.minx + (2 * i + 1) * config.step,
        config.probe_grid()[i * config.rows() + j].center_y2(config.step as int) == 2
            * config.miny + (2 * j + 1) * config.step,
{
    let ny = config.rows() as int;
    let k = i * ny + j;
    lemma_fundamental_div_mod_converse(k, ny, i, j);
    assert(k < config.columns() * ny) by (nonlinear_arith)
        requires
            0 <= i < config.columns(),
            0 <= j < ny,
            k == i * ny + j,
    ;
    lemma_axis_bound(config.minx as int, config.maxx as int, config.step as int, i);
    lemma_axis_bound(config.miny as int, config.maxy as int, config.step as int, j);
    let p = config.probe_grid()[k];
    assert(p == config.probe_at(i, j));
    assert(p.x == config.minx + i * config.step);
    assert(p.y == config.miny + j * config.step);
    let step = config.step as int;
    assert(2 * (config.minx + i * step) + step == 2 * config.minx + (2 * i + 1) * step)
        by (nonlinear_arith);
    assert(2 * (config.miny + j * step) + step == 2 * config.miny + (2 * j + 1) * step)
        by (nonlinear_arith);
}

/// A start of the axis lies below its upper bound, so it fits the bound's type.
proof fn lemma_axis_bound(lo: int, hi: int, step: int, i: int)
    requires
        step > 0,
        0 <= i < axis_count(lo, hi, step),
    ensures
        lo <= lo + i * step < hi,
{
    let q = (hi - lo - 1) / step;
    assert(i <= q);
    vstd::arithmetic::div_mod::lemma_fundamental_div_mod(hi - lo - 1, step);
    assert(i * step <= q * step) by (nonlinear_arith)
        requires
            0 <= i <= q,
            step > 0,
    ;
    assert(0 <= i * step) by (nonlinear_arith)
        requires
            0 <= i,
            step > 0,
    ;
}

} // verus!
