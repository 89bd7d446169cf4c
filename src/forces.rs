use crate::coord::Coord;
use crate::layout::{lemma_slot, Layout};
use crate::repulsion::{in_run, offset, offsets, push_upto, repel, sq_dist};
use crate::schedule::filled;
use vstd::prelude::*;

verus! {

/// Node `i` is an end of none of `edges`.
pub open spec fn isolated(edges: Seq<(usize, usize)>, i: int) -> bool {
    forall|e: int| 0 <= e < edges.len() ==> edges[e].0 != i && #[trigger] edges[e].1 != i
}

/// A slot of vector `i` belongs to vector `j` only where `i == j`.
proof fn lemma_run_owner(i: int, j: int, k: int, d: int)
    requires
        0 <= i,
        0 <= j,
        0 <= k < d,
        in_run(i * d + k, j, d),
    ensures
        i == j,
{
    assert(i == j) by (nonlinear_arith)
        requires
            0 <= i,
            0 <= j,
            0 <= k < d,
            j * d <= i * d + k < j * d + d,
    ;
}

/// The attraction factor of edge `e` from `n1` to `n2`: `None` where the
/// ends coincide or overlap. Else `ka`, times the edge weight where weights
/// are given, times `ln(1 + |d|) / |d|` in lin-log mode, divided by
/// `mass[n1] + 1` when hubs are dissuaded, and divided by `|d| - node_size`
/// under overlap prevention.
pub open spec fn attraction_factor<T: Coord>(l: Layout<T>, e: int) -> Option<T> {
    let (n1, n2) = l.edges@[e];
    let d2 = sq_dist(l.points.points@, l.settings.dimensions as int, n1 as int, n2 as int);
    if d2.spec_is_zero() {
        None
    } else {
        let f0 = match l.weights {
            Some(w) => l.settings.ka.spec_mul(w@[e]),
            None => l.settings.ka,
        };
        let dist = d2.spec_sqrt();
        let f1 = if l.settings.lin_log {
            f0.spec_mul(dist.spec_ln_1p()).spec_div(dist)
        } else {
            f0
        };
        let f2 = if l.settings.dissuade_hubs {
            f1.spec_div(l.masses@[n1 as int].spec_add(T::spec_one()))
        } else {
            f1
        };
        match l.settings.prevent_overlapping {
            None => Some(f2),
            Some((node_size, _)) => {
                let dprime = dist.spec_sub(node_size);
                if dprime.spec_positive() {
                    Some(f2.spec_div(dprime))
                } else {
                    None
                }
            },
        }
    }
}

/// `s` after the attraction of the first `e` edges of `l`, in order: for an
/// edge with factor `f`, `s[n1] += f * d` and `s[n2] -= f * d`.
pub open spec fn attraction_upto<T: Coord>(l: Layout<T>, s: Seq<T>, e: int) -> Seq<T>
    decreases e,
{
    if e <= 0 {
        s
    } else {
        let p = attraction_upto(l, s, e - 1);
        let (n1, n2) = l.edges@[e - 1];
        let d = l.settings.dimensions as int;
        match attraction_factor(l, e - 1) {
            // Drawing n1 toward n2 along the offset pushes n2 away from n1.
            Some(f) => push_upto(p, d, n2 as int, n1 as int, f, offsets(l.points.points@, d, n1 as int, n2 as int), d),
            None => p,
        }
    }
}

/// `s` after the attraction of every edge of `l`.
pub open spec fn attraction_model<T: Coord>(l: Layout<T>, s: Seq<T>) -> Seq<T> {
    attraction_upto(l, s, l.edges@.len() as int)
}

/// Attraction along every edge `(n1, n2)`, added into `speeds` as
/// `attraction_model` says. Nodes at no edge keep their speeds.
pub fn apply_attraction<T: Coord>(layout: &mut Layout<T>)
    requires
        old(layout).wf(),
    ensures
        final(layout).wf(),
        final(layout).same_but_speeds(*old(layout)),
        final(layout).speeds.points@ == attraction_model(*old(layout), old(layout).speeds.points@),
        forall|i: int, k: int|
            0 <= i < old(layout).count() && 0 <= k < old(layout).dims() && isolated(old(layout).edges@, i)
                ==> #[trigger] final(layout).speeds.points@[i * old(layout).dims() + k]
                == old(layout).speeds.points@[i * old(layout).dims() + k],
{
    let n = layout.masses.len();
    let d = layout.settings.dimensions;
    let ka = layout.settings.ka;
    let lin_log = layout.settings.lin_log;
    let dissuade_hubs = layout.settings.dissuade_hubs;
    let overlap = layout.settings.prevent_overlapping;
    let ghost l0 = *old(layout);
    let mut di = filled(d, T::zero());
    let mut e: usize = 0;
    while e < layout.edges.len()
        invariant
            layout.wf(),
            layout.same_but_speeds(*old(layout)),
            l0 == *old(layout),
            n == layout.masses.len(),
            d == layout.settings.dimensions,
            ka == layout.settings.ka,
            lin_log == layout.settings.lin_log,
            dissuade_hubs == layout.settings.dissuade_hubs,
            overlap == layout.settings.prevent_overlapping,
            di.len() == d,
            e <= layout.edges.len(),
            layout.speeds.points@ == attraction_upto(l0, l0.speeds.points@, e as int),
            forall|i: int, k: int|
                0 <= i < n && 0 <= k < d && (forall|f: int| 0 <= f < e ==> layout.edges[f].0 != i && #[trigger] layout.edges[f].1 != i)
                    ==> #[trigger] layout.speeds.points@[i * d + k] == old(layout).speeds.points@[i * d + k],
        decreases layout.edges.len() - e,
    {
        let (n1, n2) = layout.edges[e];
        let ghost before = layout.speeds.points@;
        let d2 = offset(&layout.points.points, n, d, n1, n2, &mut di);
        let mut factor: Option<T> = None;
        if !d2.is_zero() {
            let mut f = ka;
            match &layout.weights {
                Some(w) => {
                    f = f.mul(w[e]);
                },
                None => {},
            }
            let dist = d2.sqrt();
            if lin_log {
                f = f.mul(dist.ln_1p()).div(dist);
            }
            if dissuade_hubs {
                f = f.div(layout.masses[n1].add(T::one()));
            }
            factor = match overlap {
                None => Some(f),
                Some((node_size, _)) => {
                    let dprime = dist.sub(node_size);
                    if dprime.positive() {
                        Some(f.div(dprime))
                    } else {
                        None
                    }
                },
            };
        }
        assert(factor == attraction_factor(l0, e as int));
        match factor {
            Some(f) => {
                // Drawing n1 toward n2 along `di` pushes n2 away from n1 along `-di`.
                repel(&mut layout.speeds.points, d, n, n2, n1, f, &di);
            },
            None => {},
        }
        proof {
            assert forall|i: int, k: int|
                0 <= i < n && 0 <= k < d && (forall|f: int| 0 <= f < e + 1 ==> layout.edges[f].0 != i && #[trigger] layout.edges[f].1 != i)
                    implies #[trigger] layout.speeds.points@[i * d + k] == old(layout).speeds.points@[i * d + k] by {
                assert(layout.edges[e as int].0 != i && layout.edges[e as int].1 != i);
                lemma_slot(i, k, n as int, d as int);
                if in_run(i * d + k, n1 as int, d as int) {
                    lemma_run_owner(i, n1 as int, k, d as int);
                }
                if in_run(i * d + k, n2 as int, d as int) {
                    lemma_run_owner(i, n2 as int, k, d as int);
                }
                assert(layout.speeds.points@[i * d + k] == before[i * d + k]);
            }
        }
        e += 1;
    }
}

/// The sum of the squares of the first `k` coordinates of node `i`.
pub open spec fn norm_upto<T: Coord>(pos: Seq<T>, d: int, i: int, k: int) -> T
    decreases k,
{
    if k <= 1 {
        pos[i * d].spec_mul(pos[i * d])
    } else {
        norm_upto(pos, d, i, k - 1).spec_add(pos[i * d + k - 1].spec_mul(pos[i * d + k - 1]))
    }
}

/// The gravity coefficient `c` of node `i`, whose pull is `c * pos[i]`:
/// `None` at the origin, or within `node_size` of it under overlap
/// prevention. With `r` that distance (less `node_size` under overlap
/// prevention) and `g = (mass[i] + 1) * kg`, `c` is `g / r` when gravity is
/// strong and `g / r / r` otherwise.
pub open spec fn gravity_coefficient<T: Coord>(l: Layout<T>, i: int) -> Option<T> {
    let d = l.settings.dimensions as int;
    let r2 = norm_upto(l.points.points@, d, i, d);
    if r2.spec_is_zero() {
        None
    } else {
        let r = r2.spec_sqrt();
        let reach = match l.settings.prevent_overlapping {
            None => Some(r),
            Some((node_size, _)) => {
                let rprime = r.spec_sub(node_size);
                if rprime.spec_positive() {
                    Some(rprime)
                } else {
                    None
                }
            },
        };
        match reach {
            Some(dist) => {
                let g = l.masses@[i].spec_add(T::spec_one()).spec_mul(l.settings.kg);
                Some(
                    if l.settings.strong_gravity {
                        g.spec_div(dist)
                    } else {
                        g.spec_div(dist).spec_div(dist)
                    },
                )
            },
            None => None,
        }
    }
}

/// `s` after `s[i] -= c * pos[i]` on the first `k` components.
pub open spec fn pull_upto<T: Coord>(s: Seq<T>, pos: Seq<T>, d: int, i: int, c: T, k: int) -> Seq<T>
    decreases k,
{
    if k <= 0 {
        s
    } else {
        let p = pull_upto(s, pos, d, i, c, k - 1);
        let m = i * d + k - 1;
        p.update(m, p[m].spec_sub(c.spec_mul(pos[m])))
    }
}

/// `s` after the gravity of the first `i` nodes of `l`.
pub open spec fn gravity_upto<T: Coord>(l: Layout<T>, s: Seq<T>, i: int) -> Seq<T>
    decreases i,
{
    if i <= 0 {
        s
    } else {
        let p = gravity_upto(l, s, i - 1);
        match gravity_coefficient(l, i - 1) {
            Some(c) => pull_upto(p, l.points.points@, l.settings.dimensions as int, i - 1, c, l.settings.dimensions as int),
            None => p,
        }
    }
}

/// `s` after the gravity of every node of `l`.
pub open spec fn gravity_model<T: Coord>(l: Layout<T>, s: Seq<T>) -> Seq<T> {
    gravity_upto(l, s, l.masses@.len() as int)
}

/// Gravity toward the origin, added into `speeds` as `gravity_model` says:
/// `speeds[i] -= c * pos[i]` with `c` the node's `gravity_coefficient`.
pub fn apply_gravity<T: Coord>(layout: &mut Layout<T>)
    requires
        old(layout).wf(),
    ensures
        final(layout).wf(),
        final(layout).same_but_speeds(*old(layout)),
        final(layout).speeds.points@ == gravity_model(*old(layout), old(layout).speeds.points@),
{
    let n = layout.masses.len();
    let d = layout.settings.dimensions;
    let kg = layout.settings.kg;
    let strong = layout.settings.strong_gravity;
    let overlap = layout.settings.prevent_overlapping;
    let ghost l0 = *old(layout);
    let ghost dd = d as int;
    let mut i: usize = 0;
    while i < n
        invariant
            layout.wf(),
            layout.same_but_speeds(*old(layout)),
            l0 == *old(layout),
            n == layout.masses.len(),
            d == layout.settings.dimensions,
            dd == d,
            kg == layout.settings.kg,
            strong == layout.settings.strong_gravity,
            overlap == layout.settings.prevent_overlapping,
            i <= n,
            layout.speeds.points@ == gravity_upto(l0, l0.speeds.points@, i as int),
        decreases n - i,
    {
        proof {
            lemma_slot(i as int, 0, n as int, d as int);
        }
        let p0 = layout.points.points[i * d];
        let mut r2 = p0.mul(p0);
        let mut k: usize = 1;
        while k < d
            invariant
                1 <= k <= d,
                i < n,
                layout.wf(),
                layout.points == l0.points,
                n == layout.masses.len(),
                d == layout.settings.dimensions,
                dd == d,
                r2 == norm_upto(l0.points.points@, dd, i as int, k as int),
            decreases d - k,
        {
            proof {
                lemma_slot(i as int, k as int, n as int, d as int);
            }
            let p = layout.points.points[i * d + k];
            r2 = r2.add(p.mul(p));
            k += 1;
        }
        let mut coef: Option<T> = None;
        if !r2.is_zero() {
            let r = r2.sqrt();
            let reach = match overlap {
                None => Some(r),
                Some((node_size, _)) => {
                    let rprime = r.sub(node_size);
                    if rprime.positive() {
                        Some(rprime)
                    } else {
                        None
                    }
                },
            };
            coef = match reach {
                Some(dist) => {
                    let g = layout.masses[i].add(T::one()).mul(kg);
                    Some(
                        if strong {
                            g.div(dist)
                        } else {
                            g.div(dist).div(dist)
                        },
                    )
                },
                None => None,
            };
        }
        assert(coef == gravity_coefficient(l0, i as int));
        match coef {
            Some(c) => {
                let ghost p = layout.speeds.points@;
                let mut k: usize = 0;
                while k < d
                    invariant
                        k <= d,
                        i < n,
                        layout.wf(),
                        layout.same_but_speeds(*old(layout)),
                        l0 == *old(layout),
                        n == layout.masses.len(),
                        d == layout.settings.dimensions,
                        dd == d,
                        layout.speeds.points@ == pull_upto(p, l0.points.points@, dd, i as int, c, k as int),
                    decreases d - k,
                {
                    proof {
                        lemma_slot(i as int, k as int, n as int, d as int);
                    }
                    let m = i * d + k;
                    let s = c.mul(layout.points.points[m]);
                    layout.speeds.points[m] = layout.speeds.points[m].sub(s);
                    k += 1;
                }
            },
            None => {},
        }
        i += 1;
    }
}

} // verus!
