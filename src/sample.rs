//! Culling of probes by the points in their circle.
//!
//! A probe's circle has radius `step`. Its density is the number of points in
//! the circle divided by the circle's area; a probe is kept when both densities
//! reach the minimum. Over whole counts this is the same as both counts
//! reaching `min_count`, the least count whose density reaches the minimum
//! (the ceiling of the minimum density times the area).

use crate::config::Probe;
use vstd::prelude::*;

verus! {

/// What becomes of a probe.
#[derive(Clone, Copy, Debug, PartialEq, Eq, Structural)]
pub enum ProbeVerdict {
    /// Both circles hold enough points: the probe is sampled.
    Admitted,
    /// One of the circles holds no point.
    NoPoints,
    /// One of the circles holds too few points.
    LowDensity,
}

/// A probe with the number of points within its circle in each cloud.
#[derive(Clone, Copy, Debug, PartialEq, Eq)]
pub struct ProbeCounts {
    pub probe: Probe,
    /// Points of the fixed cloud within the circle.
    pub fixed: u64,
    /// Points of the moving cloud within the circle.
    pub moving: u64,
}

/// A probe dropped because one of its circles holds too few points.
#[derive(Clone, Copy, Debug, PartialEq, Eq)]
pub struct LowDensitySample {
    pub probe: Probe,
    /// Points of the fixed cloud within the circle.
    pub fixed: u64,
    /// Points of the moving cloud within the circle.
    pub moving: u64,
}

/// The probes of a grid, sorted by what becomes of them, each list in the
/// order of the grid.
#[derive(Debug)]
pub struct Plan {
    pub admitted: Vec<ProbeCounts>,
    pub no_points: Vec<Probe>,
    pub low_density: Vec<LowDensitySample>,
}

/// The verdict on a probe whose circles hold `fixed` and `moving` points.
pub open spec fn verdict_of(fixed: u64, moving: u64, min_count: u64) -> ProbeVerdict {
    if fixed == 0 || moving == 0 {
        ProbeVerdict::NoPoints
    } else if fixed < min_count || moving < min_count {
        ProbeVerdict::LowDensity
    } else {
        ProbeVerdict::Admitted
    }
}

/// Decides what becomes of a probe whose circles hold `fixed` and `moving` points.
pub fn classify_probe(fixed: u64, moving: u64, min_count: u64) -> (r: ProbeVerdict)
    ensures
        r == verdict_of(fixed, moving, min_count),
{
    if fixed == 0 || moving == 0 {
        ProbeVerdict::NoPoints
    } else if fixed < min_count || moving < min_count {
        ProbeVerdict::LowDensity
    } else {
        ProbeVerdict::Admitted
    }
}

/// The probes of `s` that have verdict `v`, in order.
pub open spec fn with_verdict(s: Seq<ProbeCounts>, min_count: u64, v: ProbeVerdict) -> Seq<
    ProbeCounts,
> {
    s.filter(|c: ProbeCounts| verdict_of(c.fixed, c.moving, min_count) == v)
}

/// The record of a probe dropped for low density.
pub open spec fn low_density_record(c: ProbeCounts) -> LowDensitySample {
    LowDensitySample { probe: c.probe, fixed: c.fixed, moving: c.moving }
}

/// Sorts the probes by their verdict, keeping the order of the grid.
pub fn plan_samples(counts: &Vec<ProbeCounts>, min_count: u64) -> (r: Plan)
    ensures
        r.admitted@ == with_verdict(counts@, min_count, ProbeVerdict::Admitted),
        r.no_points@ == with_verdict(counts@, min_count, ProbeVerdict::NoPoints).map_values(
            |c: ProbeCounts| c.probe,
        ),
        r.low_density@ == with_verdict(counts@, min_count, ProbeVerdict::LowDensity).map_values(
            |c: ProbeCounts| low_density_record(c),
        ),
        forall|k: int|
            0 <= k < r.admitted.len() ==> #[trigger] r.admitted[k].fixed >= min_count
                && r.admitted[k].moving >= min_count && r.admitted[k].fixed > 0
                && r.admitted[k].moving > 0,
{
    let mut admitted: Vec<ProbeCounts> = Vec::new();
    let mut no_points: Vec<Probe> = Vec::new();
    let mut low_density: Vec<LowDensitySample> = Vec::new();
    for i in 0..counts.len()
        invariant
            admitted@ == with_verdict(counts@.subrange(0, i as int), min_count, ProbeVerdict::Admitted),
            no_points@ == with_verdict(
                counts@.subrange(0, i as int),
                min_count,
                ProbeVerdict::NoPoints,
            ).map_values(|c: ProbeCounts| c.probe),
            low_density@ == with_verdict(
                counts@.subrange(0, i as int),
                min_count,
                ProbeVerdict::LowDensity,
            ).map_values(|c: ProbeCounts| low_density_record(c)),
    {
        let c = counts[i];
        let ghost pre = counts@.subrange(0, i as int);
        assert(counts@.subrange(0, i + 1) == pre.push(c));
        proof {
            lemma_with_verdict_push(pre, c, min_count, ProbeVerdict::Admitted);
            lemma_with_verdict_push(pre, c, min_count, ProbeVerdict::NoPoints);
            lemma_with_verdict_push(pre, c, min_count, ProbeVerdict::LowDensity);
        }
        match classify_probe(c.fixed, c.moving, min_count) {
            ProbeVerdict::Admitted => {
                admitted.push(c);
            },
            ProbeVerdict::NoPoints => {
                no_points.push(c.probe);
                assert(no_points@ =~= with_verdict(
                    pre.push(c),
                    min_count,
                    ProbeVerdict::NoPoints,
                ).map_values(|c: ProbeCounts| c.probe));
            },
            ProbeVerdict::LowDensity => {
                low_density.push(low_density_record_of(c));
                assert(low_density@ =~= with_verdict(
                    pre.push(c),
                    min_count,
                    ProbeVerdict::LowDensity,
                ).map_values(|c: ProbeCounts| low_density_record(c)));
            },
        }
    }
    assert(counts@.subrange(0, counts.len() as int) =~= counts@);
    proof {
        lemma_admitted_dense(counts@, min_count);
    }
    Plan { admitted, no_points, low_density }
}

fn low_density_record_of(c: ProbeCounts) -> (r: LowDensitySample)
    ensures
        r == low_density_record(c),
{
    LowDensitySample { probe: c.probe, fixed: c.fixed, moving: c.moving }
}

proof fn lemma_with_verdict_push(s: Seq<ProbeCounts>, c: ProbeCounts, min_count: u64, v: ProbeVerdict)
    ensures
        with_verdict(s.push(c), min_count, v) == if verdict_of(c.fixed, c.moving, min_count) == v {
            with_verdict(s, min_count, v).push(c)
        } else {
            with_verdict(s, min_count, v)
        },
{
    assert(s.push(c).drop_last() =~= s);
    reveal_with_fuel(Seq::filter, 1);
}

/// Every admitted probe has enough points in both circles: at least
/// `min_count`, and at least one.
pub proof fn lemma_admitted_dense(counts: Seq<ProbeCounts>, min_count: u64)
    ensures
        forall|k: int|
            0 <= k < with_verdict(counts, min_count, ProbeVerdict::Admitted).len() ==> {
                let c = #[trigger] with_verdict(counts, min_count, ProbeVerdict::Admitted)[k];
                &&& c.fixed >= min_count
                &&& c.moving >= min_count
                &&& c.fixed > 0
                &&& c.moving > 0
            },
{
    let f = |x: ProbeCounts| verdict_of(x.fixed, x.moving, min_count) == ProbeVerdict::Admitted;
    assert forall|k: int|
        0 <= k < counts.filter(f).len() implies #[trigger] f(counts.filter(f)[k]) by {
        broadcast use vstd::seq_lib::group_filter_ensures;
    }
    assert(with_verdict(counts, min_count, ProbeVerdict::Admitted) == counts.filter(f));
}

/// Culling is a function of the counts: two runs over the same counts sort
/// the same probes the same way, in the same order.
pub proof fn lemma_plan_deterministic(a: Seq<ProbeCounts>, b: Seq<ProbeCounts>, min_count: u64)
    requires
        a == b,
    ensures
        forall|v: ProbeVerdict| with_verdict(a, min_count, v) == with_verdict(b, min_count, v),
{
}

} // verus!
