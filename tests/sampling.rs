use ape::sample::{classify_probe, plan_samples};
use ape::{Config, Probe, ProbeCounts, ProbeVerdict};

fn config(minx: i32, miny: i32, maxx: i32, maxy: i32, step: usize) -> Config {
    Config {
        minx,
        miny,
        maxx,
        maxy,
        step,
        threads: 1,
        num_points: 100,
        max_iterations: None,
    }
}

#[test]
fn probes_are_centred_in_their_squares() {
    let c = config(0, 0, 20, 10, 10);
    let probes = c.sample_points();
    assert_eq!(probes, vec![Probe { x: 0, y: 0 }, Probe { x: 10, y: 0 }]);
    // Centres lie half a step up and right of each corner.
    let centres: Vec<(f64, f64)> = probes
        .iter()
        .map(|p| (p.x as f64 + 5.0, p.y as f64 + 5.0))
        .collect();
    assert_eq!(centres, vec![(5.0, 5.0), (15.0, 5.0)]);
}

#[test]
fn probes_go_column_by_column() {
    let c = config(-10, 100, 15, 125, 10);
    let probes = c.sample_points();
    let expected = vec![
        Probe { x: -10, y: 100 },
        Probe { x: -10, y: 110 },
        Probe { x: -10, y: 120 },
        Probe { x: 0, y: 100 },
        Probe { x: 0, y: 110 },
        Probe { x: 0, y: 120 },
        Probe { x: 10, y: 100 },
        Probe { x: 10, y: 110 },
        Probe { x: 10, y: 120 },
    ];
    assert_eq!(probes, expected);
}

#[test]
fn empty_grid_has_no_probe() {
    assert!(config(10, 0, 10, 50, 5).sample_points().is_empty());
    assert!(config(0, 0, 50, -5, 5).sample_points().is_empty());
}

#[test]
fn large_step_gives_one_probe_per_axis() {
    let c = config(i32::MIN, i32::MAX - 1, i32::MAX, i32::MAX, usize::MAX);
    assert_eq!(c.sample_points(), vec![Probe { x: i32::MIN, y: i32::MAX - 1 }]);
}

#[test]
fn probe_without_points_is_no_points() {
    assert_eq!(classify_probe(0, 500, 10), ProbeVerdict::NoPoints);
    assert_eq!(classify_probe(500, 0, 10), ProbeVerdict::NoPoints);
    assert_eq!(classify_probe(0, 0, 0), ProbeVerdict::NoPoints);
}

/// The least count whose density over a circle of radius `step` reaches `min_density`.
fn min_count(min_density: f64, step: f64) -> u64 {
    (min_density * std::f64::consts::PI * step * step).ceil() as u64
}

#[test]
fn density_cull_over_a_circle_of_radius_ten() {
    let m = min_count(0.5, 10.0);
    assert_eq!(m, 158);
    assert_eq!(classify_probe(100, 100, m), ProbeVerdict::LowDensity);
    assert_eq!(classify_probe(160, 160, m), ProbeVerdict::Admitted);
    assert_eq!(classify_probe(160, 100, m), ProbeVerdict::LowDensity);
}

#[test]
fn count_equal_to_the_minimum_is_admitted() {
    let m = min_count(0.5, 10.0);
    assert_eq!(classify_probe(m, m, m), ProbeVerdict::Admitted);
    assert_eq!(classify_probe(m - 1, m, m), ProbeVerdict::LowDensity);
}

#[test]
fn plan_sorts_probes_keeping_grid_order() {
    let counts = vec![
        ProbeCounts { probe: Probe { x: 0, y: 0 }, fixed: 200, moving: 180 },
        ProbeCounts { probe: Probe { x: 0, y: 10 }, fixed: 0, moving: 180 },
        ProbeCounts { probe: Probe { x: 10, y: 0 }, fixed: 100, moving: 180 },
        ProbeCounts { probe: Probe { x: 10, y: 10 }, fixed: 158, moving: 158 },
    ];
    let plan = plan_samples(&counts, 158);
    assert_eq!(plan.admitted, vec![counts[0], counts[3]]);
    assert_eq!(plan.no_points, vec![Probe { x: 0, y: 10 }]);
    assert_eq!(plan.low_density.len(), 1);
    assert_eq!(plan.low_density[0].probe, Probe { x: 10, y: 0 });
    assert_eq!(plan.low_density[0].fixed, 100);
    assert_eq!(plan.low_density[0].moving, 180);
    for a in &plan.admitted {
        assert!(a.fixed >= 158 && a.moving >= 158);
    }
}

#[test]
fn planning_twice_gives_the_same_plan() {
    let c = config(0, 0, 30, 30, 10);
    let probes = c.sample_points();
    let counts: Vec<ProbeCounts> = probes
        .iter()
        .enumerate()
        .map(|(i, p)| ProbeCounts { probe: *p, fixed: (i as u64) * 40, moving: 150 })
        .collect();
    let a = plan_samples(&counts, 120);
    let b = plan_samples(&counts, 120);
    assert_eq!(c.sample_points(), probes);
    assert_eq!(a.admitted, b.admitted);
    assert_eq!(a.no_points, b.no_points);
    assert_eq!(a.low_density, b.low_density);
}
