use crate::coord::Coord;
use crate::schedule::filled;
use vstd::prelude::*;

verus! {

/// A flat buffer of `n` vectors of `dimensions` scalars each: the vector of
/// node `i` is the run `[i * dimensions, (i + 1) * dimensions)`.
pub struct PointList<T> {
    pub dimensions: usize,
    pub points: Vec<T>,
}

impl<T: Coord> PointList<T> {
    pub open spec fn wf(&self) -> bool {
        self.dimensions > 0 && self.points@.len() as int % (self.dimensions as int) == 0
    }

    /// The number of vectors held.
    pub open spec fn count(&self) -> nat {
        self.points@.len() / (self.dimensions as nat)
    }

    /// The scalar `k` of vector `i`.
    pub open spec fn at(&self, i: int, k: int) -> T {
        self.points@[i * self.dimensions + k]
    }

    /// The buffer holds exactly `count()` whole vectors.
    pub proof fn lemma_count(&self)
        requires
            self.wf(),
        ensures
            self.count() * self.dimensions == self.points@.len(),
    {
        let x = self.points@.len() as int;
        let d = self.dimensions as int;
        vstd::arithmetic::div_mod::lemma_fundamental_div_mod(x, d);
        vstd::arithmetic::mul::lemma_mul_is_commutative(d, x / d);
        assert(self.count() == x / d);
    }

    /// The number of vectors held.
    pub fn len(&self) -> (r: usize)
        requires
            self.wf(),
        ensures
            r == self.count(),
    {
        self.points.len() / self.dimensions
    }

    /// Scalar `k` of vector `i`.
    pub fn get(&self, i: usize, k: usize) -> (r: T)
        requires
            self.wf(),
            i < self.count(),
            k < self.dimensions,
        ensures
            r == self.at(i as int, k as int),
    {
        let len = self.points.len();
        proof {
            self.lemma_count();
            lemma_slot(i as int, k as int, self.count() as int, self.dimensions as int);
        }
        self.points[i * self.dimensions + k]
    }
}

/// Slot `k` of vector `i` lies inside a buffer of `n` vectors of `d` scalars.
pub proof fn lemma_slot(i: int, k: int, n: int, d: int)
    requires
        0 <= i < n,
        0 <= k < d,
    ensures
        0 <= i * d + k < n * d,
        i * d + d <= n * d,
{
    assert(0 <= i * d + k < n * d && i * d + d <= n * d) by (nonlinear_arith)
        requires
            0 <= i < n,
            0 <= k < d,
    ;
}

/// How node masses are given when a layout is built.
pub enum Nodes<T> {
    /// Masses are the node degrees, counted from the edges, for this many nodes.
    Degree(usize),
    /// Masses given by the caller, one per node.
    Mass(Vec<T>),
}

/// The per-run parameters of a layout.
pub struct Settings<T> {
    /// Opening-angle threshold of the Barnes–Hut approximation, if used.
    pub barnes_hut: Option<T>,
    /// Number of outer nodes per work chunk; `None` runs sequentially.
    pub chunk_size: Option<usize>,
    /// 2 or 3.
    pub dimensions: usize,
    pub dissuade_hubs: bool,
    /// Attraction coefficient.
    pub ka: T,
    /// Gravity coefficient.
    pub kg: T,
    /// Repulsion coefficient.
    pub kr: T,
    pub lin_log: bool,
    /// `(node_size, kr_prime)`: node radius and the repulsion coefficient
    /// used between overlapping nodes.
    pub prevent_overlapping: Option<(T, T)>,
    /// Global integration step.
    pub speed: T,
    pub strong_gravity: bool,
}

/// Why a layout could not be built.
#[derive(Debug, Clone, Copy, PartialEq, Eq)]
pub enum LayoutError {
    /// The dimension count is neither 2 nor 3.
    BadDimensions,
    /// A chunk size of zero was asked for.
    ZeroChunkSize,
    /// An edge `(u, v)` breaks `u < v < n`.
    BadEdge,
    /// The weights are not one per edge.
    WeightCount,
    /// The initial positions are not `n * dimensions` scalars.
    PositionCount,
}

/// A graph being laid out: positions, velocities and masses of its nodes,
/// its edges, and the settings of the run.
pub struct Layout<T> {
    pub edges: Vec<(usize, usize)>,
    pub masses: Vec<T>,
    pub points: PointList<T>,
    pub settings: Settings<T>,
    pub speeds: PointList<T>,
    pub old_speeds: PointList<T>,
    pub weights: Option<Vec<T>>,
}

/// The edges hold `u < v < n` each.
pub open spec fn edges_valid(edges: Seq<(usize, usize)>, n: nat) -> bool {
    forall|e: int| 0 <= e < edges.len() ==> edges[e].0 < edges[e].1 && edges[e].1 < n
}

/// The number of edges among `edges` that have `i` as an endpoint.
pub open spec fn degree(edges: Seq<(usize, usize)>, i: nat) -> nat
    decreases edges.len(),
{
    if edges.len() == 0 {
        0
    } else {
        let e = edges.last();
        degree(edges.drop_last(), i) + if e.0 == i || e.1 == i {
            1nat
        } else {
            0nat
        }
    }
}

impl<T: Coord> Layout<T> {
    /// The number of nodes.
    pub open spec fn count(&self) -> nat {
        self.masses@.len()
    }

    pub open spec fn dims(&self) -> nat {
        self.settings.dimensions as nat
    }

    /// The buffers agree in size with the node count and the dimension
    /// count, and every edge names two distinct nodes in order.
    pub open spec fn wf(&self) -> bool {
        let d = self.settings.dimensions;
        let n = self.masses@.len();
        &&& 2 <= d <= 3
        &&& self.settings.chunk_size != Some(0usize)
        &&& self.points.dimensions == d
        &&& self.speeds.dimensions == d
        &&& self.old_speeds.dimensions == d
        &&& self.points.points.len() == n * d
        &&& self.speeds.points.len() == n * d
        &&& self.old_speeds.points.len() == n * d
        &&& edges_valid(self.edges@, n)
        &&& (self.weights matches Some(w) ==> w.len() == self.edges.len())
    }

    /// `self` differs from `prev` at most in the values held in `speeds`.
    pub open spec fn same_but_speeds(&self, prev: Layout<T>) -> bool {
        &&& self.edges == prev.edges
        &&& self.masses == prev.masses
        &&& self.points == prev.points
        &&& self.settings == prev.settings
        &&& self.old_speeds == prev.old_speeds
        &&& self.weights == prev.weights
        &&& self.speeds.dimensions == prev.speeds.dimensions
        &&& self.speeds.points.len() == prev.speeds.points.len()
    }

    /// The number of nodes.
    pub fn len(&self) -> (r: usize)
        requires
            self.wf(),
        ensures
            r == self.count(),
    {
        self.masses.len()
    }

    /// The node positions, `dimensions` scalars per node.
    pub fn points(&self) -> (r: &Vec<T>)
        ensures
            r == &self.points.points,
    {
        &self.points.points
    }

    /// The node masses.
    pub fn masses(&self) -> (r: &Vec<T>)
        ensures
            r == &self.masses,
    {
        &self.masses
    }

    /// The edges, each with its smaller end first.
    pub fn edges(&self) -> (r: &Vec<(usize, usize)>)
        ensures
            r == &self.edges,
    {
        &self.edges
    }
}

/// `degree` counts at most one per edge.
pub proof fn lemma_degree_bound(edges: Seq<(usize, usize)>, i: nat)
    ensures
        degree(edges, i) <= edges.len(),
    decreases edges.len(),
{
    if edges.len() > 0 {
        lemma_degree_bound(edges.drop_last(), i);
    }
}

/// The degree of each node `0 .. n`: the number of edges that name it.
pub fn degree_counts(edges: &Vec<(usize, usize)>, n: usize) -> (r: Vec<usize>)
    ensures
        r.len() == n,
        forall|i: int| 0 <= i < n ==> r[i] == degree(edges@, i as nat),
{
    let mut r = filled(n, 0usize);
    let mut j: usize = 0;
    while j < edges.len()
        invariant
            j <= edges.len(),
            r.len() == n,
            forall|i: int| 0 <= i < n ==> r[i] == degree(edges@.take(j as int), i as nat),
        decreases edges.len() - j,
    {
        let (u, v) = edges[j];
        proof {
            assert(edges@.take(j as int + 1).drop_last() =~= edges@.take(j as int));
            lemma_degree_bound(edges@.take(j as int), u as nat);
            lemma_degree_bound(edges@.take(j as int), v as nat);
        }
        if u < n {
            r[u] = r[u] + 1;
        }
        if v < n && v != u {
            r[v] = r[v] + 1;
        }
        j += 1;
    }
    assert(edges@.take(edges.len() as int) =~= edges@);
    r
}

/// The number of nodes that `nodes` describes.
pub open spec fn node_count<T>(nodes: &Nodes<T>) -> nat {
    match nodes {
        Nodes::Degree(n) => *n as nat,
        Nodes::Mass(m) => m@.len(),
    }
}

/// The first thing wrong with the parts of a layout, if any.
pub open spec fn build_error<T>(
    edges: Seq<(usize, usize)>,
    n: nat,
    weights: Option<Vec<T>>,
    settings: Settings<T>,
    positions: nat,
) -> Option<LayoutError> {
    if !(2 <= settings.dimensions <= 3) {
        Some(LayoutError::BadDimensions)
    } else if settings.chunk_size == Some(0usize) {
        Some(LayoutError::ZeroChunkSize)
    } else if !edges_valid(edges, n) {
        Some(LayoutError::BadEdge)
    } else if weights matches Some(w) && w@.len() != edges.len() {
        Some(LayoutError::WeightCount)
    } else if positions != n * settings.dimensions {
        Some(LayoutError::PositionCount)
    } else {
        None
    }
}

impl<T: Coord> Layout<T> {
    /// Builds a layout from its edges, its node masses (or the node count,
    /// the masses then being the degrees), optional edge weights, the
    /// settings, and the initial positions, `dimensions` scalars per node.
    /// Both velocity buffers start cleared.
    pub fn from_graph(
        edges: Vec<(usize, usize)>,
        nodes: Nodes<T>,
        weights: Option<Vec<T>>,
        settings: Settings<T>,
        positions: Vec<T>,
    ) -> (r: Result<Layout<T>, LayoutError>)
        ensures
            match r {
                Ok(l) => {
                    &&& build_error(edges@, node_count(&nodes), weights, settings, positions@.len())
                        is None
                    &&& l.wf()
                    &&& l.edges == edges
                    &&& l.weights == weights
                    &&& l.settings == settings
                    &&& l.points.points == positions
                    &&& l.count() == node_count(&nodes)
                    &&& (nodes matches Nodes::Mass(m) ==> l.masses == m)
                    &&& (nodes matches Nodes::Degree(count) ==> forall|i: int|
                        0 <= i < count ==> #[trigger] l.masses@[i] == T::spec_from_count(
                            degree(edges@, i as nat) as usize,
                        ))
                    &&& l.speeds.points@ == Seq::new(positions@.len(), |_m: int| T::spec_zero())
                    &&& l.old_speeds.points@ == l.speeds.points@
                },
                Err(e) => build_error(edges@, node_count(&nodes), weights, settings, positions@.len())
                    == Some(e),
            },
    {
        let d = settings.dimensions;
        if d < 2 || d > 3 {
            return Err(LayoutError::BadDimensions);
        }
        match settings.chunk_size {
            Some(size) => {
                if size == 0 {
                    return Err(LayoutError::ZeroChunkSize);
                }
            },
            None => {},
        }
        let n = match &nodes {
            Nodes::Degree(n) => *n,
            Nodes::Mass(m) => m.len(),
        };
        assert(n == node_count(&nodes));
        let mut e: usize = 0;
        while e < edges.len()
            invariant
                e <= edges.len(),
                d == settings.dimensions,
                2 <= d <= 3,
                settings.chunk_size != Some(0usize),
                n == node_count(&nodes),
                forall|j: int| 0 <= j < e ==> edges[j].0 < edges[j].1 && edges[j].1 < n,
            decreases edges.len() - e,
        {
            let (u, v) = edges[e];
            if !(u < v && v < n) {
                assert(!(edges@[e as int].0 < edges@[e as int].1 && edges@[e as int].1 < n));
                assert(!edges_valid(edges@, n as nat));
                return Err(LayoutError::BadEdge);
            }
            e += 1;
        }
        match &weights {
            Some(w) => {
                if w.len() != edges.len() {
                    return Err(LayoutError::WeightCount);
                }
            },
            None => {},
        }
        let len = positions.len();
        proof {
            vstd::arithmetic::div_mod::lemma_fundamental_div_mod(len as int, d as int);
            vstd::arithmetic::mul::lemma_mul_is_commutative(d as int, n as int);
            vstd::arithmetic::mul::lemma_mul_is_commutative(d as int, len as int / d as int);
        }
        if len % d != 0 || len / d != n {
            proof {
                if len as int == n * d {
                    vstd::arithmetic::div_mod::lemma_div_multiples_vanish(n as int, d as int);
                    vstd::arithmetic::div_mod::lemma_mod_multiples_basic(n as int, d as int);
                }
            }
            return Err(LayoutError::PositionCount);
        }
        let masses = match nodes {
            Nodes::Degree(count) => {
                let degrees = degree_counts(&edges, count);
                let mut masses: Vec<T> = Vec::with_capacity(count);
                let mut i: usize = 0;
                while i < count
                    invariant
                        i <= count,
                        degrees.len() == count,
                        masses.len() == i,
                        forall|i: int| 0 <= i < count ==> #[trigger] degrees[i] == degree(edges@, i as nat),
                        forall|j: int| 0 <= j < i ==> #[trigger] masses@[j] == T::spec_from_count(degrees[j]),
                    decreases count - i,
                {
                    masses.push(T::from_count(degrees[i]));
                    i += 1;
                }
                masses
            },
            Nodes::Mass(m) => m,
        };
        let z = T::zero();
        let speeds = filled(len, z);
        let old_speeds = filled(len, z);
        Ok(Layout {
            edges,
            masses,
            points: PointList { dimensions: d, points: positions },
            settings,
            speeds: PointList { dimensions: d, points: speeds },
            old_speeds: PointList { dimensions: d, points: old_speeds },
            weights,
        })
    }
}

} // verus!
