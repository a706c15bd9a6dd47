use std::cell::Cell;

use single_variable_function_mesh::error::MeshError;
use single_variable_function_mesh::sampling::{
    check_domain, sample_ring, select_interval, Probe, SampleRing, Score, MIN_VERTICES, ZERO_KEY,
};
use single_variable_function_mesh::surface::{layer_count, surface_indices, surface_vertex_count};

const DELTA: f32 = 0.000001;

#[derive(Clone, Copy, Debug, PartialEq)]
struct Position {
    x: f32,
    y: f32,
    slope: f32,
}

fn order_key(v: f32) -> u32 {
    if v.is_nan() {
        return 0;
    }
    let bits = (v + 0.0).to_bits();
    if bits >> 31 == 0 {
        bits | 0x8000_0000
    } else {
        !bits
    }
}

fn from_order_key(k: u32) -> f32 {
    if k & 0x8000_0000 != 0 {
        f32::from_bits(k & 0x7fff_ffff)
    } else {
        f32::from_bits(!k)
    }
}

fn sample(
    f: fn(f32) -> f32,
    x_start: f32,
    x_end: f32,
    vertices: usize,
    mirror: bool,
) -> Result<(Vec<Position>, f32), MeshError> {
    let seed = |at_end: bool| {
        let (x, slope) = if at_end {
            (x_end, ((f(x_end) - f(x_end - DELTA)) / DELTA).atan())
        } else {
            (x_start, ((f(x_start + DELTA) - f(x_start)) / DELTA).atan())
        };
        (Position { x, y: f(x), slope }, order_key(f(x)))
    };
    let bisect = |a: &Position, b: &Position| {
        let x = a.x + (b.x - a.x) / 2.0;
        let slope = ((f(x + DELTA) - f(x)) / DELTA).atan();
        let curvature = (slope - b.slope).abs() + (slope - a.slope).abs();
        Probe {
            point: Position { x, y: f(x), slope },
            score: Score { curvature: order_key(curvature), span: order_key(b.x - a.x) },
            height: order_key(f(x)),
        }
    };
    let reflect = |p: &Position| Position { x: p.x, y: -p.y, slope: p.slope };
    let (points, peak) =
        sample_ring(order_key(x_start), order_key(x_end), vertices, mirror, &seed, &bisect, &reflect)?;
    Ok((points, from_order_key(peak)))
}

fn circle(x: f32) -> f32 {
    (1.0 - x.powf(2.0)).powf(0.5)
}

fn square(_x: f32) -> f32 {
    1.0
}

fn identity(x: f32) -> f32 {
    x
}

fn flat_mesh_vertices(f: fn(f32) -> f32, vertices: usize) -> u64 {
    let (ring, _) = sample(f, -1.0, 1.0, vertices, true).unwrap();
    let layers = layer_count(vertices, order_key(0.0), order_key(0.0)).unwrap();
    surface_vertex_count(ring.len(), layers).unwrap()
}

#[test]
fn test_amount_of_vertices() {
    let square_2d_mesh = flat_mesh_vertices(square, 20);
    let circle_2d_mesh = flat_mesh_vertices(circle, 20);
    assert_eq!(circle_2d_mesh, square_2d_mesh - 2);
}

#[test]
fn selection_prefers_curvature() {
    let scores = vec![
        Score { curvature: 5, span: 9 },
        Score { curvature: 7, span: 1 },
        Score { curvature: 6, span: 9 },
    ];
    assert_eq!(select_interval(&scores), 1);
}

#[test]
fn selection_breaks_ties_by_span() {
    let scores = vec![
        Score { curvature: 7, span: 1 },
        Score { curvature: 7, span: 4 },
        Score { curvature: 7, span: 3 },
    ];
    assert_eq!(select_interval(&scores), 1);
}

#[test]
fn selection_takes_first_of_equals() {
    let scores = vec![
        Score { curvature: 2, span: 3 },
        Score { curvature: 4, span: 3 },
        Score { curvature: 4, span: 3 },
    ];
    assert_eq!(select_interval(&scores), 1);
    let flat = vec![Score { curvature: 0, span: 0 }; 4];
    assert_eq!(select_interval(&flat), 0);
}

#[test]
fn degenerate_domain_is_refused() {
    assert_eq!(check_domain(order_key(0.5), order_key(0.5), 20), Err(MeshError::InvalidRange));
    let calls = Cell::new(0usize);
    let seed = |_: bool| {
        calls.set(calls.get() + 1);
        (0u32, ZERO_KEY)
    };
    let bisect = |_: &u32, _: &u32| Probe { point: 0u32, score: Score { curvature: 0, span: 0 }, height: 0 };
    let reflect = |p: &u32| *p;
    let r = sample_ring(order_key(1.0), order_key(1.0), 20, true, &seed, &bisect, &reflect);
    assert_eq!(r.err(), Some(MeshError::InvalidRange));
    assert_eq!(calls.get(), 0);
    assert_eq!(sample(circle, 0.0, 0.0, 20, false).err(), Some(MeshError::InvalidRange));
}

#[test]
fn reversed_domain_is_refused() {
    assert_eq!(check_domain(order_key(1.0), order_key(-1.0), 20), Err(MeshError::InvalidRange));
    assert_eq!(sample(square, 1.0, -1.0, 20, true).err(), Some(MeshError::InvalidRange));
}

#[test]
fn too_few_vertices_are_refused() {
    assert_eq!(check_domain(order_key(-1.0), order_key(1.0), 2), Err(MeshError::InvalidParameter));
    assert_eq!(check_domain(order_key(-1.0), order_key(1.0), MIN_VERTICES), Ok(()));
    assert_eq!(sample(square, -1.0, 1.0, 2, false).err(), Some(MeshError::InvalidParameter));
}

#[test]
fn ring_length_matches_budget() {
    for n in [3usize, 4, 17, 30] {
        let (ring, _) = sample(circle, -1.0, 1.0, n, false).unwrap();
        assert_eq!(ring.len(), n);
    }
}

#[test]
fn mirrored_length_counts_trimmed_ends() {
    // Both ends off the axis: both are mirrored.
    assert_eq!(sample(square, -1.0, 1.0, 20, true).unwrap().0.len(), 40);
    // Both ends on the axis: both are left out of the lower half.
    assert_eq!(sample(circle, -1.0, 1.0, 20, true).unwrap().0.len(), 38);
    // One end on the axis.
    assert_eq!(sample(identity, 0.0, 1.0, 20, true).unwrap().0.len(), 39);
}

#[test]
fn mirrored_ring_reflects_upper_half() {
    let (ring, _) = sample(identity, 0.0, 1.0, 5, true).unwrap();
    let upper = &ring[..5];
    let lower = &ring[5..];
    assert_eq!(upper[0].x, 0.0);
    assert_eq!(upper[4].x, 1.0);
    assert_eq!(lower.len(), 4);
    for (t, p) in lower.iter().enumerate() {
        let source = upper[4 - t];
        assert_eq!(p.x, source.x);
        assert_eq!(p.y, -source.y);
    }
}

#[test]
fn sampling_is_deterministic() {
    let (a, pa) = sample(circle, -1.0, 1.0, 25, true).unwrap();
    let (b, pb) = sample(circle, -1.0, 1.0, 25, true).unwrap();
    assert_eq!(a.len(), b.len());
    for (p, q) in a.iter().zip(b.iter()) {
        assert_eq!(p.x.to_bits(), q.x.to_bits());
        assert_eq!(p.y.to_bits(), q.y.to_bits());
    }
    assert_eq!(pa.to_bits(), pb.to_bits());
}

#[test]
fn constant_function_is_sampled_uniformly() {
    let (ring, peak) = sample(square, -1.0, 1.0, 5, false).unwrap();
    let xs: Vec<f32> = ring.iter().map(|p| p.x).collect();
    assert_eq!(xs, vec![-1.0, -0.5, 0.0, 0.5, 1.0]);
    assert_eq!(peak, 1.0);
}

#[test]
fn samples_stay_ordered_along_domain() {
    let (ring, peak) = sample(circle, -1.0, 1.0, 30, false).unwrap();
    for w in ring.windows(2) {
        assert!(w[0].x < w[1].x);
    }
    let highest = ring[1..29].iter().map(|p| p.y).fold(0.0f32, f32::max);
    assert_eq!(peak, highest);
}

#[test]
fn refinement_inserts_one_point_per_round() {
    let mut ring = SampleRing::new(10u32, 20u32, ZERO_KEY, ZERO_KEY, 4);
    assert!(ring.needs_refinement());
    let probes = vec![Probe { point: 15u32, score: Score { curvature: 1, span: 1 }, height: ZERO_KEY + 3 }];
    ring.refine(probes);
    assert_eq!(ring.points(), &vec![10, 15, 20]);
    assert_eq!(ring.peak(), ZERO_KEY + 3);
    let probes = vec![
        Probe { point: 12u32, score: Score { curvature: 1, span: 1 }, height: ZERO_KEY + 9 },
        Probe { point: 17u32, score: Score { curvature: 2, span: 1 }, height: ZERO_KEY + 1 },
    ];
    ring.refine(probes);
    assert_eq!(ring.points(), &vec![10, 15, 17, 20]);
    assert_eq!(ring.peak(), ZERO_KEY + 3);
    assert!(!ring.needs_refinement());
}

#[test]
fn probes_cover_every_interval() {
    let mut ring = SampleRing::new(0u32, 8u32, ZERO_KEY, ZERO_KEY, 3);
    ring.refine(vec![Probe { point: 4u32, score: Score { curvature: 0, span: 0 }, height: 0 }]);
    let probes = ring.probes(&|a: &u32, b: &u32| Probe {
        point: (a + b) / 2,
        score: Score { curvature: *a, span: *b },
        height: 0,
    });
    let got: Vec<(u32, u32, u32)> = probes.iter().map(|p| (p.point, p.score.curvature, p.score.span)).collect();
    assert_eq!(got, vec![(2, 0, 4), (6, 4, 8)]);
}

#[test]
fn closing_trims_ends_off_axis() {
    let ring = SampleRing::new(1u32, 3u32, ZERO_KEY + 1, ZERO_KEY, 3);
    let closed = ring.close(&|p: &u32| p + 100);
    assert_eq!(closed, vec![1, 3, 101]);
    let ring = SampleRing::new(1u32, 3u32, ZERO_KEY, ZERO_KEY, 3);
    assert_eq!(ring.close(&|p: &u32| p + 100), vec![1, 3]);
    let ring = SampleRing::new(1u32, 3u32, 0, ZERO_KEY + 5, 3);
    assert_eq!(ring.close(&|p: &u32| p + 100), vec![1, 3, 103, 101]);
    let ring = SampleRing::new(1u32, 3u32, 0, 0, 3);
    assert_eq!(ring.into_points(), vec![1, 3]);
}

#[test]
fn flat_profile_scenario() {
    // The profile is closed by its mirror image; no end lies on the axis.
    let (ring, _) = sample(square, -1.0, 1.0, 20, true).unwrap();
    assert_eq!(ring.len(), 40);
    let layers = layer_count(20, order_key(0.0), order_key(0.0)).unwrap();
    assert_eq!(layers, 1);
    assert_eq!(surface_vertex_count(ring.len(), layers), Some(42));
    let indices = surface_indices(ring.len(), layers).unwrap();
    assert_eq!(indices.len() / 3, 40);
    for t in indices.chunks(3) {
        assert_eq!(t[2], 41);
    }
}

#[test]
fn circle_profile_scenario() {
    let flat = flat_mesh_vertices(square, 20);
    let round = flat_mesh_vertices(circle, 20);
    assert_eq!(round, flat - 2);
    let (ring, _) = sample(circle, -1.0, 1.0, 20, false).unwrap();
    assert_eq!(ring.len(), 20);
}
