use forceatlas2::coord::Coord;
use forceatlas2::iteration::apply_forces;
use forceatlas2::layout::{degree_counts, Layout, LayoutError, Nodes, Settings};
use forceatlas2::repulsion::{
    apply_repulsion, apply_repulsion_2d, apply_repulsion_2d_parallel, apply_repulsion_2d_simd_f32,
    apply_repulsion_2d_simd_f32_parallel, apply_repulsion_2d_simd_f64,
    apply_repulsion_2d_simd_f64_parallel, apply_repulsion_3d, apply_repulsion_3d_parallel,
    apply_repulsion_3d_simd_f32_parallel, apply_repulsion_parallel, apply_repulsion_po,
    subtract_forces,
};
use forceatlas2::schedule::chunk_bounds;

#[derive(Clone, Copy, Debug, PartialEq)]
struct F(f64);

impl Coord for F {
    fn spec_zero() -> Self {
        Self::zero()
    }
    fn spec_one() -> Self {
        Self::one()
    }
    fn spec_from_count(n: usize) -> Self {
        Self::from_count(n)
    }
    fn spec_add(self, o: Self) -> Self {
        self.add(o)
    }
    fn spec_sub(self, o: Self) -> Self {
        self.sub(o)
    }
    fn spec_mul(self, o: Self) -> Self {
        self.mul(o)
    }
    fn spec_div(self, o: Self) -> Self {
        self.div(o)
    }
    fn spec_sqrt(self) -> Self {
        self.sqrt()
    }
    fn spec_ln_1p(self) -> Self {
        self.ln_1p()
    }
    fn spec_is_zero(self) -> bool {
        self.is_zero()
    }
    fn spec_positive(self) -> bool {
        self.positive()
    }
    fn zero() -> Self {
        F(0.0)
    }
    fn one() -> Self {
        F(1.0)
    }
    fn from_count(n: usize) -> Self {
        F(n as f64)
    }
    fn add(self, o: Self) -> Self {
        F(self.0 + o.0)
    }
    fn sub(self, o: Self) -> Self {
        F(self.0 - o.0)
    }
    fn mul(self, o: Self) -> Self {
        F(self.0 * o.0)
    }
    fn div(self, o: Self) -> Self {
        F(self.0 / o.0)
    }
    fn sqrt(self) -> Self {
        F(self.0.sqrt())
    }
    fn ln_1p(self) -> Self {
        F(self.0.ln_1p())
    }
    fn is_zero(self) -> bool {
        self.0 == 0.0
    }
    fn positive(self) -> bool {
        self.0 > 0.0
    }
    fn parse(text: &[u8]) -> Option<Self> {
        std::str::from_utf8(text).ok()?.parse().ok().map(F)
    }
}

fn settings(dimensions: usize) -> Settings<F> {
    Settings {
        barnes_hut: None,
        chunk_size: None,
        dimensions,
        dissuade_hubs: false,
        ka: F(1.0),
        kg: F(0.0),
        kr: F(1.0),
        lin_log: false,
        prevent_overlapping: None,
        speed: F(0.1),
        strong_gravity: false,
    }
}

fn layout(edges: Vec<(usize, usize)>, n: usize, s: Settings<F>, pos: &[f64]) -> Layout<F> {
    Layout::from_graph(edges, Nodes::Degree(n), None, s, pos.iter().map(|&x| F(x)).collect()).unwrap()
}

fn coords(v: &[F]) -> Vec<f64> {
    v.iter().map(|x| x.0).collect()
}

/// Positions spread over the unit square by a fixed sequence.
fn spread(n: usize, d: usize) -> Vec<f64> {
    let mut state: u64 = 12345;
    (0..n * d)
        .map(|_| {
            state = state.wrapping_mul(6364136223846793005).wrapping_add(1442695040888963407);
            ((state >> 33) as f64) / ((1u64 << 31) as f64) * 2.0 - 1.0
        })
        .collect()
}

fn ring(n: usize) -> Vec<(usize, usize)> {
    (0..n).map(|i| if i + 1 < n { (i, i + 1) } else { (0, n - 1) }).collect()
}

#[test]
fn two_nodes_move_symmetrically() {
    // At distance 1 the repulsion (1 + 1) * (1 + 1) / 1 = 4 outweighs the
    // attraction 1, so the two nodes move apart along x, mirror images of
    // each other about (0.5, 0).
    let mut l = layout(vec![(0, 1)], 2, settings(2), &[0.0, 0.0, 1.0, 0.0]);
    l.iteration();
    let p = coords(&l.points.points);
    assert!(p[0] < 0.0, "node 0 moves along -x: {:?}", p);
    assert!(p[2] > 1.0, "node 1 moves along +x: {:?}", p);
    assert!(((p[0] + p[2]) / 2.0 - 0.5).abs() < 1e-12);
    assert_eq!(p[1], 0.0);
    assert_eq!(p[3], 0.0);
}

#[test]
fn two_nodes_in_space_keep_z_at_zero() {
    let mut l = layout(vec![(0, 1)], 2, settings(3), &[0.0, 0.0, 0.0, 1.0, 0.0, 0.0]);
    for _ in 0..50 {
        l.iteration();
        let p = coords(&l.points.points);
        assert_eq!(p[2], 0.0);
        assert_eq!(p[5], 0.0);
        assert!(((p[0] + p[3]) / 2.0 - 0.5).abs() < 1e-9);
    }
}

#[test]
fn one_step_matches_hand_computation() {
    // Degrees 1 and 1, so each mass term is 2. d = (1, 0), |d|² = 1.
    // Attraction: f = ka = 1, node 0 gets +1, node 1 gets -1 on x.
    // Repulsion: f = 2 * 2 / 1 * 1 = 4, node 0 gets -4, node 1 gets +4.
    // Net: node 0 has -3, node 1 has +3 on x; no gravity.
    // swg = 3, factor = 0.1 / (1 + sqrt(0.3)).
    let mut l = layout(vec![(0, 1)], 2, settings(2), &[0.0, 0.0, 1.0, 0.0]);
    l.iteration();
    let factor = 0.1 / (1.0 + (0.1f64 * 3.0).sqrt());
    let p = coords(&l.points.points);
    assert_eq!(p[0], 0.0 + factor * -3.0);
    assert_eq!(p[2], 1.0 + factor * 3.0);
    assert_eq!(coords(&l.old_speeds.points), vec![-3.0, 0.0, 3.0, 0.0]);
    assert_eq!(coords(&l.speeds.points), vec![0.0; 4]);
}

#[test]
fn triangle_becomes_equilateral() {
    let mut l = layout(vec![(0, 1), (1, 2), (0, 2)], 3, settings(2), &[0.1, 0.7, -0.5, 0.2, 0.9, -0.4]);
    for _ in 0..200 {
        l.iteration();
    }
    let p = coords(&l.points.points);
    let dist = |a: usize, b: usize| ((p[2 * a] - p[2 * b]).powi(2) + (p[2 * a + 1] - p[2 * b + 1]).powi(2)).sqrt();
    let (d01, d12, d02) = (dist(0, 1), dist(1, 2), dist(0, 2));
    assert!((d01 - d12).abs() < 0.01, "{} {} {}", d01, d12, d02);
    assert!((d12 - d02).abs() < 0.01, "{} {} {}", d01, d12, d02);
    assert!((d01 - d02).abs() < 0.01, "{} {} {}", d01, d12, d02);
}

#[test]
fn singleton_drifts_to_origin() {
    // Gravity (0 + 1) * kg / r outweighs the pair's repulsion, about 4 / r.
    let mut s = settings(2);
    s.kg = F(8.0);
    let mut l = layout(vec![(0, 1)], 3, s, &[0.3, 0.2, 0.8, -0.1, 2.0, 2.0]);
    l.iteration();
    let p = coords(&l.points.points);
    assert!(p[4] < 2.0 && p[5] < 2.0, "node 2 at {:?}", &p[4..6]);
}

#[test]
fn pair_settles_at_force_balance() {
    // ka * d = kr * (1 + 1) * (1 + 1) / d, so d = 2.
    let mut l = layout(vec![(0, 1)], 2, settings(2), &[0.3, 0.2, 0.8, -0.1]);
    for _ in 0..200 {
        l.iteration();
    }
    let p = coords(&l.points.points);
    let sep = ((p[0] - p[2]).powi(2) + (p[1] - p[3]).powi(2)).sqrt();
    assert!((sep - 2.0).abs() < 1e-9, "{}", sep);
}

#[test]
fn equal_positions_do_not_produce_nan() {
    for d in [2usize, 3] {
        let n = 5;
        let mut l = layout(ring(n), n, settings(d), &vec![0.25; n * d]);
        apply_repulsion(&mut l);
        assert!(l.speeds.points.iter().all(|x| x.0 == 0.0));
        let mut l2 = layout(ring(n), n, settings(d), &vec![0.25; n * d]);
        l2.settings.prevent_overlapping = Some((F(0.1), F(2.0)));
        apply_repulsion_po(&mut l2);
        assert!(l2.speeds.points.iter().all(|x| x.0 == 0.0));
        l.iteration();
        assert!(l.points.points.iter().all(|x| x.0.is_finite()));
    }
}

fn pairwise_variance(l: &Layout<F>) -> f64 {
    let p = coords(&l.points.points);
    let d = l.settings.dimensions;
    let n = l.masses.len();
    let mut ds = Vec::new();
    for a in 0..n {
        for b in 0..a {
            ds.push((0..d).map(|k| (p[a * d + k] - p[b * d + k]).powi(2)).sum::<f64>().sqrt());
        }
    }
    let mean = ds.iter().sum::<f64>() / ds.len() as f64;
    ds.iter().map(|x| (x - mean).powi(2)).sum::<f64>() / ds.len() as f64
}

#[test]
fn pairwise_distance_variance_decreases_on_connected_graph() {
    let n = 12;
    let mut s = settings(2);
    s.kg = F(1.0);
    let mut edges = ring(n);
    edges.push((0, 6));
    edges.push((3, 9));
    let mut l = layout(edges, n, s, &spread(n, 2).iter().map(|x| x * 20.0).collect::<Vec<_>>());
    let before = pairwise_variance(&l);
    for _ in 0..300 {
        l.iteration();
    }
    assert!(pairwise_variance(&l) < before);
}

fn run_steps(mut l: Layout<F>, repulse: fn(&mut Layout<F>), steps: usize) -> Vec<f64> {
    for _ in 0..steps {
        forceatlas2::forces::apply_attraction(&mut l);
        repulse(&mut l);
        forceatlas2::forces::apply_gravity(&mut l);
        apply_forces(&mut l);
    }
    coords(&l.points.points)
}

fn close(a: &[f64], b: &[f64], rel: f64) -> bool {
    a.iter().zip(b).all(|(x, y)| (x - y).abs() <= rel * x.abs().max(y.abs()).max(1.0))
}

#[test]
fn parallel_matches_sequential() {
    let n = 100;
    let mut edges = ring(n);
    edges.push((0, 50));
    edges.push((25, 75));
    for d in [2usize, 3] {
        let mut s = settings(d);
        s.kg = F(1.0);
        s.chunk_size = Some(16);
        let mk = || layout(edges.clone(), n, Settings { ..clone_settings(&s) }, &spread(n, d));
        let seq = run_steps(mk(), apply_repulsion, 100);
        let par = run_steps(mk(), apply_repulsion_parallel, 100);
        assert!(close(&seq, &par, 1e-4));
        let (s_fn, p_fn): (fn(&mut Layout<F>), fn(&mut Layout<F>)) = if d == 2 {
            (apply_repulsion_2d, apply_repulsion_2d_parallel)
        } else {
            (apply_repulsion_3d, apply_repulsion_3d_parallel)
        };
        assert!(close(&run_steps(mk(), s_fn, 100), &seq, 1e-12));
        assert!(close(&run_steps(mk(), p_fn, 100), &seq, 1e-4));
    }
}

fn clone_settings(s: &Settings<F>) -> Settings<F> {
    Settings {
        barnes_hut: s.barnes_hut,
        chunk_size: s.chunk_size,
        dimensions: s.dimensions,
        dissuade_hubs: s.dissuade_hubs,
        ka: s.ka,
        kg: s.kg,
        kr: s.kr,
        lin_log: s.lin_log,
        prevent_overlapping: s.prevent_overlapping,
        speed: s.speed,
        strong_gravity: s.strong_gravity,
    }
}

#[test]
fn lane_variants_match_scalar() {
    for n in [8usize, 13] {
        let pos = spread(n, 2);
        let mut s = settings(2);
        s.chunk_size = Some(3);
        let mut base = layout(ring(n), n, clone_settings(&s), &pos);
        apply_repulsion_2d(&mut base);
        let want = coords(&base.speeds.points);
        for f in [
            apply_repulsion_2d_simd_f64 as fn(&mut Layout<F>),
            apply_repulsion_2d_simd_f32,
            apply_repulsion_2d_simd_f64_parallel,
            apply_repulsion_2d_simd_f32_parallel,
        ] {
            let mut l = layout(ring(n), n, clone_settings(&s), &pos);
            f(&mut l);
            assert!(close(&coords(&l.speeds.points), &want, 1e-12));
        }
        let pos3 = spread(n, 3);
        let mut s3 = settings(3);
        s3.chunk_size = Some(4);
        let mut base3 = layout(ring(n), n, clone_settings(&s3), &pos3);
        apply_repulsion_3d(&mut base3);
        let mut l3 = layout(ring(n), n, clone_settings(&s3), &pos3);
        apply_repulsion_3d_simd_f32_parallel(&mut l3);
        assert!(close(&coords(&l3.speeds.points), &coords(&base3.speeds.points), 1e-12));
    }
}

#[test]
fn lane_variant_is_exact_on_power_of_two_counts() {
    let n = 8;
    let pos = spread(n, 2);
    let mut a = layout(ring(n), n, settings(2), &pos);
    let mut b = layout(ring(n), n, settings(2), &pos);
    apply_repulsion_2d(&mut a);
    apply_repulsion_2d_simd_f64(&mut b);
    // Each lane of two takes the sum of its two pushes from the outer node at once.
    assert!(close(&coords(&a.speeds.points), &coords(&b.speeds.points), 1e-15));
}

#[test]
fn repulsion_of_one_pair_exact_value() {
    // Masses (degrees) 1 and 0: (1 + 1) * (0 + 1) / 4 * kr(=2) = 1; d = (0, 2).
    let mut s = settings(2);
    s.kr = F(2.0);
    let mut l = layout(vec![], 2, s, &[1.0, 1.0, 1.0, 3.0]);
    l.masses = vec![F(1.0), F(0.0)];
    apply_repulsion(&mut l);
    assert_eq!(coords(&l.speeds.points), vec![0.0, -2.0, 0.0, 2.0]);
}

#[test]
fn overlap_repulsion_uses_both_coefficients() {
    // Nodes 4 apart, node size 1: kr / 3. Masses 1 each, d² = 16.
    let mut s = settings(2);
    s.kr = F(3.0);
    s.prevent_overlapping = Some((F(1.0), F(10.0)));
    let mut l = layout(vec![], 2, s, &[0.0, 0.0, 4.0, 0.0]);
    apply_repulsion_po(&mut l);
    assert_eq!(coords(&l.speeds.points), vec![-1.0 / 16.0 * 4.0, 0.0, 1.0 / 16.0 * 4.0, 0.0]);
    // Nodes 0.5 apart, node size 1: overlapping, kr_prime = 10. d² = 0.25.
    let mut s = settings(2);
    s.prevent_overlapping = Some((F(1.0), F(10.0)));
    let mut l = layout(vec![], 2, s, &[0.0, 0.0, 0.5, 0.0]);
    apply_repulsion_po(&mut l);
    assert_eq!(coords(&l.speeds.points), vec![-20.0, 0.0, 20.0, 0.0]);
}

#[test]
fn single_node_repulsion_changes_nothing() {
    let mut l = layout(vec![], 1, settings(2), &[0.5, 0.5]);
    apply_repulsion(&mut l);
    assert_eq!(coords(&l.speeds.points), vec![0.0, 0.0]);
}

#[test]
fn subtracted_forces_enter_speeds() {
    let mut l = layout(vec![(0, 1)], 2, settings(2), &[0.0, 0.0, 1.0, 0.0]);
    subtract_forces(&mut l, &vec![F(1.0), F(2.0), F(3.0), F(4.0)]);
    assert_eq!(coords(&l.speeds.points), vec![-1.0, -2.0, -3.0, -4.0]);
}

#[test]
fn iteration_keeps_sizes_and_masses() {
    let n = 6;
    let mut l = layout(ring(n), n, settings(2), &spread(n, 2));
    let masses = coords(&l.masses);
    assert_eq!(masses, vec![2.0; 6]);
    for _ in 0..5 {
        let before = coords(&l.speeds.points);
        forceatlas2::forces::apply_attraction(&mut l);
        apply_repulsion(&mut l);
        let pre = coords(&l.speeds.points);
        assert_eq!(before, vec![0.0; 12]);
        apply_forces(&mut l);
        assert_eq!(coords(&l.old_speeds.points), pre);
        assert_eq!(coords(&l.speeds.points), vec![0.0; 12]);
        assert_eq!(l.points.points.len(), 12);
        assert_eq!(coords(&l.masses), masses);
    }
}

#[test]
fn degrees_count_both_endpoints() {
    assert_eq!(degree_counts(&vec![(0, 1), (1, 2), (0, 2), (2, 3)], 5), vec![2, 2, 3, 1, 0]);
    assert_eq!(degree_counts(&vec![], 3), vec![0, 0, 0]);
}

#[test]
fn build_errors_are_reported() {
    let pos = vec![F(0.0); 4];
    let e = |r: Result<Layout<F>, LayoutError>| r.err();
    assert_eq!(e(Layout::from_graph(vec![(0, 1)], Nodes::Degree(2), None, settings(4), pos.clone())), Some(LayoutError::BadDimensions));
    let mut s = settings(2);
    s.chunk_size = Some(0);
    assert_eq!(e(Layout::from_graph(vec![(0, 1)], Nodes::Degree(2), None, s, pos.clone())), Some(LayoutError::ZeroChunkSize));
    assert_eq!(e(Layout::from_graph(vec![(1, 0)], Nodes::Degree(2), None, settings(2), pos.clone())), Some(LayoutError::BadEdge));
    assert_eq!(e(Layout::from_graph(vec![(0, 2)], Nodes::Degree(2), None, settings(2), pos.clone())), Some(LayoutError::BadEdge));
    assert_eq!(e(Layout::from_graph(vec![(0, 1)], Nodes::Degree(2), Some(vec![]), settings(2), pos.clone())), Some(LayoutError::WeightCount));
    assert_eq!(e(Layout::from_graph(vec![(0, 1)], Nodes::Degree(2), None, settings(2), vec![F(0.0); 3])), Some(LayoutError::PositionCount));
    let l = Layout::from_graph(vec![(0, 1)], Nodes::Mass(vec![F(5.0), F(7.0)]), Some(vec![F(2.0)]), settings(2), pos).unwrap();
    assert_eq!(coords(&l.masses), vec![5.0, 7.0]);
}

#[test]
fn chunks_cover_nodes_in_order() {
    assert_eq!(chunk_bounds(10, 4), vec![(0, 4), (4, 8), (8, 10)]);
    assert_eq!(chunk_bounds(8, 4), vec![(0, 4), (4, 8)]);
    assert_eq!(chunk_bounds(0, 4), vec![]);
    assert_eq!(chunk_bounds(3, 100), vec![(0, 3)]);
}

#[test]
fn step_with_given_repulsion_matches_exact_step() {
    let n = 7;
    let mut s = settings(2);
    s.kg = F(1.0);
    let pos = spread(n, 2);
    let mut a = layout(ring(n), n, clone_settings(&s), &pos);
    let mut b = layout(ring(n), n, clone_settings(&s), &pos);
    let mut probe = layout(ring(n), n, clone_settings(&s), &pos);
    apply_repulsion(&mut probe);
    let forces: Vec<F> = probe.speeds.points.iter().map(|x| F(-x.0)).collect();
    a.iteration();
    b.iteration_with_repulsion(&forces);
    assert!(close(&coords(&a.points.points), &coords(&b.points.points), 1e-12));
    assert_eq!(coords(&b.speeds.points), vec![0.0; 14]);
}

#[test]
fn point_list_reads_vectors() {
    let l = layout(vec![(0, 1), (1, 2)], 3, settings(3), &[1.0, 2.0, 3.0, 4.0, 5.0, 6.0, 7.0, 8.0, 9.0]);
    assert_eq!(l.points.len(), 3);
    assert_eq!(l.len(), 3);
    assert_eq!(l.points.get(1, 2), F(6.0));
    assert_eq!(l.points.get(2, 0), F(7.0));
    assert_eq!(coords(&l.masses), vec![1.0, 2.0, 1.0]);
}

#[test]
fn attraction_leaves_nodes_without_edges_alone() {
    let mut l = layout(vec![(0, 2)], 4, settings(2), &[0.0, 0.0, 5.0, 5.0, 1.0, 0.0, -3.0, 2.0]);
    forceatlas2::forces::apply_attraction(&mut l);
    assert_eq!(coords(&l.speeds.points), vec![1.0, 0.0, 0.0, 0.0, -1.0, 0.0, 0.0, 0.0]);
}

#[test]
fn attraction_variants_exact_values() {
    // One edge of length 2 along y, weight 3, masses 1 and 1.
    let pos = [0.0, 0.0, 0.0, 2.0];
    let mut s = settings(2);
    s.ka = F(2.0);
    let mk = |s: Settings<F>| {
        Layout::from_graph(vec![(0, 1)], Nodes::Degree(2), Some(vec![F(3.0)]), s, pos.iter().map(|&x| F(x)).collect())
            .unwrap()
    };
    // Linear: f = ka * w = 6, d = (0, 2).
    let mut l = mk(clone_settings(&s));
    forceatlas2::forces::apply_attraction(&mut l);
    assert_eq!(coords(&l.speeds.points), vec![0.0, 12.0, 0.0, -12.0]);
    // Hubs dissuaded: divided by mass + 1 = 2.
    let mut s2 = clone_settings(&s);
    s2.dissuade_hubs = true;
    let mut l = mk(s2);
    forceatlas2::forces::apply_attraction(&mut l);
    assert_eq!(coords(&l.speeds.points), vec![0.0, 6.0, 0.0, -6.0]);
    // Lin-log: times ln(1 + 2) / 2.
    let mut s3 = clone_settings(&s);
    s3.lin_log = true;
    let mut l = mk(s3);
    forceatlas2::forces::apply_attraction(&mut l);
    let f = 6.0 * 2.0f64.ln_1p() / 2.0;
    assert_eq!(coords(&l.speeds.points), vec![0.0, f * 2.0, 0.0, -(f * 2.0)]);
    // Overlap prevention: divided by |d| - node_size = 1.5; none when touching.
    let mut s4 = clone_settings(&s);
    s4.prevent_overlapping = Some((F(0.5), F(1.0)));
    let mut l = mk(s4);
    forceatlas2::forces::apply_attraction(&mut l);
    assert_eq!(coords(&l.speeds.points), vec![0.0, 6.0 / 1.5 * 2.0, 0.0, -(6.0 / 1.5 * 2.0)]);
    let mut s5 = clone_settings(&s);
    s5.prevent_overlapping = Some((F(2.5), F(1.0)));
    let mut l = mk(s5);
    forceatlas2::forces::apply_attraction(&mut l);
    assert_eq!(coords(&l.speeds.points), vec![0.0; 4]);
}

#[test]
fn gravity_exact_values() {
    // Node 0 at (3, 4), r = 5, mass 0 + 1; node 1 at the origin is skipped.
    let mut s = settings(2);
    s.kg = F(2.0);
    let mut l = layout(vec![], 2, clone_settings(&s), &[3.0, 4.0, 0.0, 0.0]);
    forceatlas2::forces::apply_gravity(&mut l);
    assert_eq!(coords(&l.speeds.points), vec![-(2.0 / 5.0 / 5.0 * 3.0), -(2.0 / 5.0 / 5.0 * 4.0), 0.0, 0.0]);
    let mut s2 = clone_settings(&s);
    s2.strong_gravity = true;
    let mut l = layout(vec![], 2, s2, &[3.0, 4.0, 0.0, 0.0]);
    forceatlas2::forces::apply_gravity(&mut l);
    assert_eq!(coords(&l.speeds.points), vec![-(2.0 / 5.0 * 3.0), -(2.0 / 5.0 * 4.0), 0.0, 0.0]);
    let mut s3 = clone_settings(&s);
    s3.prevent_overlapping = Some((F(6.0), F(1.0)));
    let mut l = layout(vec![], 2, s3, &[3.0, 4.0, 0.0, 0.0]);
    forceatlas2::forces::apply_gravity(&mut l);
    assert_eq!(coords(&l.speeds.points), vec![0.0; 4]);
}

#[test]
fn views_show_the_layout() {
    let l = layout(vec![(0, 1)], 2, settings(2), &[0.5, 1.5, 2.5, 3.5]);
    assert_eq!(coords(l.points()), vec![0.5, 1.5, 2.5, 3.5]);
    assert_eq!(coords(l.masses()), vec![1.0, 1.0]);
    assert_eq!(l.edges(), &vec![(0, 1)]);
}
