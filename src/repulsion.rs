use crate::coord::Coord;
use crate::layout::{lemma_slot, Layout};
use crate::schedule::{chunk_bounds, chunked_by, filled};
use rayon::iter::{IntoParallelIterator, ParallelIterator};
use vstd::prelude::*;

verus! {

/// Slot `m` of a buffer of `d`-vectors belongs to vector `i`.
pub open spec fn in_run(m: int, i: int, d: int) -> bool {
    i * d <= m < i * d + d
}

/// Component `k` of the offset `pos[n2] - pos[n1]`.
pub open spec fn comp<T: Coord>(pos: Seq<T>, d: int, n1: int, n2: int, k: int) -> T {
    pos[n2 * d + k].spec_sub(pos[n1 * d + k])
}

/// The offset `pos[n2] - pos[n1]`, component by component.
pub open spec fn offsets<T: Coord>(pos: Seq<T>, d: int, n1: int, n2: int) -> Seq<T> {
    Seq::new(d as nat, |k: int| comp(pos, d, n1, n2, k))
}

/// The sum of the squares of the first `k` components of the offset from
/// `n1` to `n2`, summed from the first component on.
pub open spec fn sq_upto<T: Coord>(pos: Seq<T>, d: int, n1: int, n2: int, k: int) -> T
    decreases k,
{
    if k <= 1 {
        comp(pos, d, n1, n2, 0).spec_mul(comp(pos, d, n1, n2, 0))
    } else {
        sq_upto(pos, d, n1, n2, k - 1).spec_add(
            comp(pos, d, n1, n2, k - 1).spec_mul(comp(pos, d, n1, n2, k - 1)),
        )
    }
}

/// The squared distance from `n1` to `n2`.
pub open spec fn sq_dist<T: Coord>(pos: Seq<T>, d: int, n1: int, n2: int) -> T {
    sq_upto(pos, d, n1, n2, d)
}

/// The repulsion factor of the pair `(n1, n2)`: `None` at distance zero,
/// else `(mass[n1] + 1) * (mass[n2] + 1) / d² * c`, where `c` is `kr`, or
/// under overlap prevention `kr / (d - node_size)` while that is positive
/// and `kr_prime` after.
pub open spec fn repulsion_factor<T: Coord>(
    pos: Seq<T>,
    masses: Seq<T>,
    d: int,
    kr: T,
    overlap: Option<(T, T)>,
    n1: int,
    n2: int,
) -> Option<T> {
    let d2 = sq_dist(pos, d, n1, n2);
    if d2.spec_is_zero() {
        None
    } else {
        let m = masses[n1].spec_add(T::spec_one()).spec_mul(masses[n2].spec_add(T::spec_one()));
        let c = match overlap {
            None => kr,
            Some((node_size, kr_prime)) => {
                let dprime = d2.spec_sqrt().spec_sub(node_size);
                if dprime.spec_positive() {
                    kr.spec_div(dprime)
                } else {
                    kr_prime
                }
            },
        };
        Some(m.spec_div(d2).spec_mul(c))
    }
}

/// `s` after `s[n1] -= f * di` and `s[n2] += f * di` on the first `k`
/// components, one component at a time.
pub open spec fn push_upto<T: Coord>(s: Seq<T>, d: int, n1: int, n2: int, f: T, di: Seq<T>, k: int) -> Seq<T>
    decreases k,
{
    if k <= 0 {
        s
    } else {
        let p = push_upto(s, d, n1, n2, f, di, k - 1);
        let i1 = n1 * d + k - 1;
        let i2 = n2 * d + k - 1;
        let v = f.spec_mul(di[k - 1]);
        let q = p.update(i1, p[i1].spec_sub(v));
        q.update(i2, q[i2].spec_add(v))
    }
}

/// `s` after `s[node] += f * di` on the first `k` components.
pub open spec fn add_upto<T: Coord>(s: Seq<T>, d: int, node: int, f: T, di: Seq<T>, k: int) -> Seq<T>
    decreases k,
{
    if k <= 0 {
        s
    } else {
        let p = add_upto(s, d, node, f, di, k - 1);
        let i = node * d + k - 1;
        p.update(i, p[i].spec_add(f.spec_mul(di[k - 1])))
    }
}

/// `s` after `s[node] -= v` on the first `k` components.
pub open spec fn sub_upto<T: Coord>(s: Seq<T>, d: int, node: int, v: Seq<T>, k: int) -> Seq<T>
    decreases k,
{
    if k <= 0 {
        s
    } else {
        let p = sub_upto(s, d, node, v, k - 1);
        let i = node * d + k - 1;
        p.update(i, p[i].spec_sub(v[k - 1]))
    }
}

/// The repulsion of one pair applied to `s`: unchanged at distance zero.
pub open spec fn pair_step<T: Coord>(
    s: Seq<T>,
    pos: Seq<T>,
    masses: Seq<T>,
    d: int,
    kr: T,
    overlap: Option<(T, T)>,
    n1: int,
    n2: int,
) -> Seq<T> {
    match repulsion_factor(pos, masses, d, kr, overlap, n1, n2) {
        Some(f) => push_upto(s, d, n1, n2, f, offsets(pos, d, n1, n2), d),
        None => s,
    }
}

/// The pairs `(n1, n2)` for `n2` in `[from, to)` applied to `s` in order.
pub open spec fn tail_model<T: Coord>(
    s: Seq<T>,
    pos: Seq<T>,
    masses: Seq<T>,
    d: int,
    kr: T,
    overlap: Option<(T, T)>,
    n1: int,
    from: int,
    to: int,
) -> Seq<T>
    decreases to - from,
{
    if to <= from {
        s
    } else {
        pair_step(tail_model(s, pos, masses, d, kr, overlap, n1, from, to - 1), pos, masses, d, kr, overlap, n1, to - 1)
    }
}

/// Whether one of the first `j` members of the lane from `b` on has a factor.
pub open spec fn lane_any<T: Coord>(
    pos: Seq<T>,
    masses: Seq<T>,
    d: int,
    kr: T,
    overlap: Option<(T, T)>,
    n1: int,
    b: int,
    j: int,
) -> bool
    decreases j,
{
    if j <= 0 {
        false
    } else {
        lane_any(pos, masses, d, kr, overlap, n1, b, j - 1) || repulsion_factor(pos, masses, d, kr, overlap, n1, b + j - 1) is Some
    }
}

/// Component `k` of the sum of the pushes of the first `j` members of the
/// lane from `b` on, added up in member order.
pub open spec fn lane_sum<T: Coord>(
    pos: Seq<T>,
    masses: Seq<T>,
    d: int,
    kr: T,
    overlap: Option<(T, T)>,
    n1: int,
    b: int,
    j: int,
    k: int,
) -> T
    decreases j,
{
    if j <= 0 {
        T::spec_zero()
    } else {
        let prev = lane_sum(pos, masses, d, kr, overlap, n1, b, j - 1, k);
        match repulsion_factor(pos, masses, d, kr, overlap, n1, b + j - 1) {
            Some(f) => {
                let v = f.spec_mul(comp(pos, d, n1, b + j - 1, k));
                if lane_any(pos, masses, d, kr, overlap, n1, b, j - 1) {
                    prev.spec_add(v)
                } else {
                    v
                }
            },
            None => prev,
        }
    }
}

/// `s` after the first `j` members of the lane from `b` on are pushed away
/// from `n1`.
pub open spec fn lane_pushes<T: Coord>(
    s: Seq<T>,
    pos: Seq<T>,
    masses: Seq<T>,
    d: int,
    kr: T,
    overlap: Option<(T, T)>,
    n1: int,
    b: int,
    j: int,
) -> Seq<T>
    decreases j,
{
    if j <= 0 {
        s
    } else {
        let prev = lane_pushes(s, pos, masses, d, kr, overlap, n1, b, j - 1);
        match repulsion_factor(pos, masses, d, kr, overlap, n1, b + j - 1) {
            Some(f) => add_upto(prev, d, b + j - 1, f, offsets(pos, d, n1, b + j - 1), d),
            None => prev,
        }
    }
}

/// The lane of `w` nodes from `b` on, against `n1`, applied to `s`: each
/// member is pushed away, then the lane's sum is taken from `n1` once.
pub open spec fn lane_model<T: Coord>(
    s: Seq<T>,
    pos: Seq<T>,
    masses: Seq<T>,
    d: int,
    kr: T,
    overlap: Option<(T, T)>,
    n1: int,
    b: int,
    w: int,
) -> Seq<T> {
    let t = lane_pushes(s, pos, masses, d, kr, overlap, n1, b, w);
    if lane_any(pos, masses, d, kr, overlap, n1, b, w) {
        sub_upto(t, d, n1, Seq::new(d as nat, |k: int| lane_sum(pos, masses, d, kr, overlap, n1, b, w, k)), d)
    } else {
        t
    }
}

/// The lanes of `w` nodes that start below `b`, from 0 on, applied to `s`.
pub open spec fn lanes_model<T: Coord>(
    s: Seq<T>,
    pos: Seq<T>,
    masses: Seq<T>,
    d: int,
    kr: T,
    overlap: Option<(T, T)>,
    n1: int,
    w: int,
    b: int,
) -> Seq<T>
    decreases b,
{
    if w <= 0 || b < w {
        s
    } else {
        lane_model(lanes_model(s, pos, masses, d, kr, overlap, n1, w, b - w), pos, masses, d, kr, overlap, n1, b - w, w)
    }
}

/// Where the whole lanes of width `w` below `n1` end: `n1` rounded down to
/// a multiple of `w`.
pub open spec fn lane_stop(n1: int, w: int) -> int
    decreases n1,
{
    if w <= 0 || n1 < w {
        0
    } else {
        lane_stop(n1 - w, w) + w
    }
}

/// Row `n1` applied to `s`: `n1` against every `n2 < n1`, in lanes of `w`
/// where `w > 1` and one by one after.
pub open spec fn row_model<T: Coord>(
    s: Seq<T>,
    pos: Seq<T>,
    masses: Seq<T>,
    d: int,
    kr: T,
    overlap: Option<(T, T)>,
    w: int,
    n1: int,
) -> Seq<T> {
    if w > 1 {
        let e = lane_stop(n1, w);
        tail_model(lanes_model(s, pos, masses, d, kr, overlap, n1, w, e), pos, masses, d, kr, overlap, n1, e, n1)
    } else {
        tail_model(s, pos, masses, d, kr, overlap, n1, 0, n1)
    }
}

/// The rows `n1` in `[start, end)` applied to `s` in order.
pub open spec fn rows_model<T: Coord>(
    s: Seq<T>,
    pos: Seq<T>,
    masses: Seq<T>,
    d: int,
    kr: T,
    overlap: Option<(T, T)>,
    w: int,
    start: int,
    end: int,
) -> Seq<T>
    decreases end - start,
{
    if end <= start {
        s
    } else {
        row_model(rows_model(s, pos, masses, d, kr, overlap, w, start, end - 1), pos, masses, d, kr, overlap, w, end - 1)
    }
}

/// Repulsion of one pair writes the vectors of its two nodes alone: every
/// other slot of the accumulator keeps its value.
pub proof fn lemma_pair_writes_two_nodes<T: Coord>(
    s: Seq<T>,
    d: int,
    n1: int,
    n2: int,
    f: T,
    di: Seq<T>,
    k: int,
    m: int,
    n: int,
)
    requires
        0 <= n1 < n,
        0 <= n2 < n,
        s.len() == n * d,
        0 <= m < s.len(),
        0 <= k <= d,
        !in_run(m, n1, d),
        !in_run(m, n2, d),
    ensures
        push_upto(s, d, n1, n2, f, di, k).len() == s.len(),
        push_upto(s, d, n1, n2, f, di, k)[m] == s[m],
    decreases k,
{
    if k > 0 {
        lemma_pair_writes_two_nodes(s, d, n1, n2, f, di, k - 1, m, n);
        lemma_slot(n1, k - 1, n, d);
        lemma_slot(n2, k - 1, n, d);
    }
}

/// Every pair of the first `n` nodes reads as at distance zero.
pub open spec fn coincident<T: Coord>(pos: Seq<T>, d: int, n: int) -> bool {
    forall|n1: int, n2: int| 0 <= n1 < n && 0 <= n2 < n ==> (#[trigger] sq_dist(pos, d, n1, n2)).spec_is_zero()
}

proof fn lemma_coincident_lanes<T: Coord>(
    s: Seq<T>,
    pos: Seq<T>,
    masses: Seq<T>,
    d: int,
    kr: T,
    overlap: Option<(T, T)>,
    w: int,
    n1: int,
    n: int,
    b: int,
)
    requires
        coincident(pos, d, n),
        0 <= n1 < n,
        0 <= b <= n1,
        w > 0,
    ensures
        lanes_model(s, pos, masses, d, kr, overlap, n1, w, b) == s,
    decreases b,
{
    if b >= w {
        lemma_coincident_lanes(s, pos, masses, d, kr, overlap, w, n1, n, b - w);
        lemma_coincident_lane(s, pos, masses, d, kr, overlap, n1, n, b - w, w);
    }
}

proof fn lemma_coincident_tail<T: Coord>(
    s: Seq<T>,
    pos: Seq<T>,
    masses: Seq<T>,
    d: int,
    kr: T,
    overlap: Option<(T, T)>,
    n1: int,
    n: int,
    from: int,
    to: int,
)
    requires
        coincident(pos, d, n),
        0 <= n1 < n,
        0 <= from,
        to <= n1,
    ensures
        tail_model(s, pos, masses, d, kr, overlap, n1, from, to) == s,
    decreases to - from,
{
    if from < to {
        lemma_coincident_tail(s, pos, masses, d, kr, overlap, n1, n, from, to - 1);
        assert(sq_dist(pos, d, n1, to - 1).spec_is_zero());
    }
}

proof fn lemma_coincident_lane<T: Coord>(
    s: Seq<T>,
    pos: Seq<T>,
    masses: Seq<T>,
    d: int,
    kr: T,
    overlap: Option<(T, T)>,
    n1: int,
    n: int,
    b: int,
    j: int,
)
    requires
        coincident(pos, d, n),
        0 <= n1 < n,
        0 <= b,
        b + j <= n1,
    ensures
        lane_pushes(s, pos, masses, d, kr, overlap, n1, b, j) == s,
        !lane_any(pos, masses, d, kr, overlap, n1, b, j),
        lane_model(s, pos, masses, d, kr, overlap, n1, b, j) == s,
    decreases j,
{
    if j > 0 {
        lemma_coincident_lane(s, pos, masses, d, kr, overlap, n1, n, b, j - 1);
        assert(sq_dist(pos, d, n1, b + j - 1).spec_is_zero());
    }
}

/// Nodes that all sit at one place do not repel one another: where every
/// pair reads as at distance zero, every row of the exact repulsion, lanes
/// or not, with overlap prevention or not, leaves the accumulator as it is.
pub proof fn lemma_coincident_nodes_unchanged<T: Coord>(
    s: Seq<T>,
    pos: Seq<T>,
    masses: Seq<T>,
    d: int,
    kr: T,
    overlap: Option<(T, T)>,
    w: int,
    start: int,
    end: int,
    n: int,
)
    requires
        coincident(pos, d, n),
        0 <= start,
        end <= n,
        w >= 1,
    ensures
        rows_model(s, pos, masses, d, kr, overlap, w, start, end) == s,
    decreases end - start,
{
    if start < end {
        lemma_coincident_nodes_unchanged(s, pos, masses, d, kr, overlap, w, start, end - 1, n);
        let n1 = end - 1;
        if w > 1 {
            lemma_lane_stop_bound(n1, w);
            lemma_coincident_lanes(s, pos, masses, d, kr, overlap, w, n1, n, lane_stop(n1, w));
        }
        lemma_coincident_tail(s, pos, masses, d, kr, overlap, n1, n, if w > 1 { lane_stop(n1, w) } else { 0 }, n1);
    }
}

proof fn lemma_lane_stop_bound(n1: int, w: int)
    requires
        w > 0,
        n1 >= 0,
    ensures
        0 <= lane_stop(n1, w) <= n1,
    decreases n1,
{
    if n1 >= w {
        lemma_lane_stop_bound(n1 - w, w);
    }
}

/// Writes the offset `pos[n2] - pos[n1]` into `di` and returns its squared
/// length, summed from the first component on.
pub(crate) fn offset<T: Coord>(pos: &Vec<T>, n: usize, d: usize, n1: usize, n2: usize, di: &mut Vec<T>) -> (d2: T)
    requires
        d >= 1,
        n1 < n,
        n2 < n,
        pos.len() == n * d,
        old(di).len() == d,
    ensures
        final(di)@ == offsets(pos@, d as int, n1 as int, n2 as int),
        d2 == sq_dist(pos@, d as int, n1 as int, n2 as int),
{
    proof {
        lemma_slot(n1 as int, 0, n as int, d as int);
        lemma_slot(n2 as int, 0, n as int, d as int);
    }
    let a = n1 * d;
    let b = n2 * d;
    let v0 = pos[b].sub(pos[a]);
    di[0] = v0;
    let mut d2 = v0.mul(v0);
    let mut k: usize = 1;
    while k < d
        invariant
            1 <= k <= d,
            di.len() == d,
            a == n1 * d,
            b == n2 * d,
            n1 < n,
            n2 < n,
            pos.len() == n * d,
            forall|j: int| 0 <= j < k ==> di[j] == #[trigger] comp(pos@, d as int, n1 as int, n2 as int, j),
            d2 == sq_upto(pos@, d as int, n1 as int, n2 as int, k as int),
        decreases d - k,
    {
        proof {
            lemma_slot(n1 as int, k as int, n as int, d as int);
            lemma_slot(n2 as int, k as int, n as int, d as int);
        }
        let v = pos[b + k].sub(pos[a + k]);
        di[k] = v;
        d2 = d2.add(v.mul(v));
        k += 1;
    }
    assert(di@ =~= offsets(pos@, d as int, n1 as int, n2 as int));
    d2
}

/// The offset from node `n1` to node `n2`, written into `di`, and their
/// repulsion factor, as `repulsion_factor` gives it.
fn pair_factor<T: Coord>(
    pos: &Vec<T>,
    masses: &Vec<T>,
    d: usize,
    n1: usize,
    n2: usize,
    n1_mass: T,
    kr: T,
    overlap: Option<(T, T)>,
    di: &mut Vec<T>,
) -> (r: Option<T>)
    requires
        d >= 1,
        n1 < masses.len(),
        n2 < masses.len(),
        pos.len() == masses.len() * d,
        old(di).len() == d,
        n1_mass == masses[n1 as int].spec_add(T::spec_one()),
    ensures
        final(di)@ == offsets(pos@, d as int, n1 as int, n2 as int),
        r == repulsion_factor(pos@, masses@, d as int, kr, overlap, n1 as int, n2 as int),
{
    let d2 = offset(pos, masses.len(), d, n1, n2, di);
    if d2.is_zero() {
        return None;
    }
    let m = n1_mass.mul(masses[n2].add(T::one()));
    let c = match overlap {
        None => kr,
        Some((node_size, kr_prime)) => {
            let dprime = d2.sqrt().sub(node_size);
            if dprime.positive() {
                kr.div(dprime)
            } else {
                kr_prime
            }
        },
    };
    Some(m.div(d2).mul(c))
}

/// Pushes nodes `n1` and `n2` apart: `speeds[n1] -= f * di` and
/// `speeds[n2] += f * di`. No other vector of the buffer is written.
pub(crate) fn repel<T: Coord>(speeds: &mut Vec<T>, d: usize, n: usize, n1: usize, n2: usize, f: T, di: &Vec<T>)
    requires
        d >= 1,
        n1 < n,
        n2 < n,
        n1 != n2,
        old(speeds).len() == n * d,
        di.len() == d,
    ensures
        final(speeds).len() == n * d,
        final(speeds)@ == push_upto(old(speeds)@, d as int, n1 as int, n2 as int, f, di@, d as int),
        forall|m: int|
            0 <= m < n * d && !in_run(m, n1 as int, d as int) && !in_run(m, n2 as int, d as int)
                ==> final(speeds)[m] == old(speeds)[m],
{
    let mut k: usize = 0;
    while k < d
        invariant
            k <= d,
            n1 < n,
            n2 < n,
            di.len() == d,
            speeds.len() == n * d,
            speeds@ == push_upto(old(speeds)@, d as int, n1 as int, n2 as int, f, di@, k as int),
            forall|m: int|
                0 <= m < n * d && !in_run(m, n1 as int, d as int) && !in_run(
                    m,
                    n2 as int,
                    d as int,
                ) ==> speeds[m] == old(speeds)[m],
        decreases d - k,
    {
        proof {
            lemma_slot(n1 as int, k as int, n as int, d as int);
            lemma_slot(n2 as int, k as int, n as int, d as int);
        }
        let s = f.mul(di[k]);
        let i1 = n1 * d + k;
        let i2 = n2 * d + k;
        speeds[i1] = speeds[i1].sub(s);
        speeds[i2] = speeds[i2].add(s);
        k += 1;
    }
}

/// Repulsion of node `n1` from the `w` nodes `start .. start + w`, handled
/// as one lane group: each of them is pushed away from `n1`, and the sum of
/// the lane's pushes is taken from `n1` once.
fn repel_lane<T: Coord>(
    pos: &Vec<T>,
    masses: &Vec<T>,
    speeds: &mut Vec<T>,
    d: usize,
    n1: usize,
    start: usize,
    w: usize,
    n1_mass: T,
    kr: T,
    overlap: Option<(T, T)>,
    di: &mut Vec<T>,
    acc: &mut Vec<T>,
)
    requires
        d >= 1,
        start + w <= n1,
        n1 < masses.len(),
        pos.len() == masses.len() * d,
        old(speeds).len() == masses.len() * d,
        old(di).len() == d,
        old(acc).len() == d,
        n1_mass == masses[n1 as int].spec_add(T::spec_one()),
    ensures
        final(speeds).len() == masses.len() * d,
        final(speeds)@ == lane_model(old(speeds)@, pos@, masses@, d as int, kr, overlap, n1 as int, start as int, w as int),
        final(di).len() == d,
        final(acc).len() == d,
{
    let n = masses.len();
    let ghost s0 = speeds@;
    let ghost dd = d as int;
    let mut any = false;
    let mut j: usize = 0;
    while j < w
        invariant
            j <= w,
            start + w <= n1,
            n1 < n,
            n == masses.len(),
            d >= 1,
            dd == d,
            pos.len() == n * d,
            speeds.len() == n * d,
            di.len() == d,
            acc.len() == d,
            n1_mass == masses[n1 as int].spec_add(T::spec_one()),
            speeds@ == lane_pushes(s0, pos@, masses@, dd, kr, overlap, n1 as int, start as int, j as int),
            any == lane_any(pos@, masses@, dd, kr, overlap, n1 as int, start as int, j as int),
            any ==> forall|k: int| 0 <= k < d ==> acc[k] == #[trigger] lane_sum(pos@, masses@, dd, kr, overlap, n1 as int, start as int, j as int, k),
        decreases w - j,
    {
        let n2 = start + j;
        let ghost before = speeds@;
        let ghost acc0 = acc@;
        match pair_factor(pos, masses, d, n1, n2, n1_mass, kr, overlap, di) {
            Some(f) => {
                let mut k: usize = 0;
                while k < d
                    invariant
                        k <= d,
                        n2 < n,
                        n2 == start + j,
                        n == masses.len(),
                        dd == d,
                        di.len() == d,
                        acc.len() == d,
                        speeds.len() == n * d,
                        di@ == offsets(pos@, dd, n1 as int, n2 as int),
                        speeds@ == add_upto(before, dd, n2 as int, f, di@, k as int),
                        any == lane_any(pos@, masses@, dd, kr, overlap, n1 as int, start as int, j as int),
                        forall|kk: int| 0 <= kk < k ==> acc[kk] == (if any {
                            acc0[kk].spec_add(f.spec_mul(comp(pos@, dd, n1 as int, n2 as int, kk)))
                        } else {
                            f.spec_mul(comp(pos@, dd, n1 as int, n2 as int, kk))
                        }),
                        forall|kk: int| k <= kk < d ==> acc[kk] == acc0[kk],
                    decreases d - k,
                {
                    proof {
                        lemma_slot(n2 as int, k as int, n as int, d as int);
                    }
                    let s = f.mul(di[k]);
                    let i2 = n2 * d + k;
                    speeds[i2] = speeds[i2].add(s);
                    acc[k] = if any {
                        acc[k].add(s)
                    } else {
                        s
                    };
                    k += 1;
                }
                proof {
                    assert forall|k: int| 0 <= k < d implies acc[k] == #[trigger] lane_sum(pos@, masses@, dd, kr, overlap, n1 as int, start as int, j + 1, k) by {
                        if any {
                            assert(acc0[k] == lane_sum(pos@, masses@, dd, kr, overlap, n1 as int, start as int, j as int, k));
                        }
                    }
                }
                any = true;
            },
            None => {
                proof {
                    if any {
                        assert forall|k: int| 0 <= k < d implies acc[k] == #[trigger] lane_sum(pos@, masses@, dd, kr, overlap, n1 as int, start as int, j + 1, k) by {
                            assert(acc0[k] == lane_sum(pos@, masses@, dd, kr, overlap, n1 as int, start as int, j as int, k));
                        }
                    }
                }
            },
        }
        j += 1;
    }
    let ghost t = speeds@;
    let ghost sums = Seq::new(d as nat, |k: int| lane_sum(pos@, masses@, dd, kr, overlap, n1 as int, start as int, w as int, k));
    if any {
        let mut k: usize = 0;
        while k < d
            invariant
                k <= d,
                n1 < n,
                n == masses.len(),
                dd == d,
                acc.len() == d,
                speeds.len() == n * d,
                forall|kk: int| 0 <= kk < d ==> acc[kk] == #[trigger] sums[kk],
                speeds@ == sub_upto(t, dd, n1 as int, sums, k as int),
            decreases d - k,
        {
            proof {
                lemma_slot(n1 as int, k as int, n as int, d as int);
            }
            let i1 = n1 * d + k;
            speeds[i1] = speeds[i1].sub(acc[k]);
            k += 1;
        }
    }
}

/// Exact repulsion for the outer nodes `n1` in `[start, end)`, each against
/// every node `n2 < n1`, accumulated into `speeds` as `rows_model` says.
///
/// With `lanes > 1` the inner nodes are taken in groups of `lanes`
/// consecutive nodes from 0 on, and the rest one by one.
pub fn repel_rows<T: Coord>(
    pos: &Vec<T>,
    masses: &Vec<T>,
    speeds: &mut Vec<T>,
    d: usize,
    kr: T,
    overlap: Option<(T, T)>,
    lanes: usize,
    start: usize,
    end: usize,
)
    requires
        d >= 1,
        lanes >= 1,
        start <= end <= masses.len(),
        pos.len() == masses.len() * d,
        old(speeds).len() == masses.len() * d,
    ensures
        final(speeds).len() == old(speeds).len(),
        final(speeds)@ == rows_model(old(speeds)@, pos@, masses@, d as int, kr, overlap, lanes as int, start as int, end as int),
{
    let n = masses.len();
    let ghost dd = d as int;
    let ghost w = lanes as int;
    let mut di = filled(d, T::zero());
    let mut acc = filled(d, T::zero());
    let mut n1: usize = start;
    while n1 < end
        invariant
            start <= n1 <= end,
            end <= n,
            n == masses.len(),
            d >= 1,
            dd == d,
            w == lanes,
            lanes >= 1,
            pos.len() == n * d,
            speeds.len() == n * d,
            di.len() == d,
            acc.len() == d,
            speeds@ == rows_model(old(speeds)@, pos@, masses@, dd, kr, overlap, w, start as int, n1 as int),
        decreases end - n1,
    {
        let ghost row_s = speeds@;
        let n1_mass = masses[n1].add(T::one());
        let mut n2: usize = 0;
        if lanes > 1 {
            while n1 - n2 >= lanes
                invariant
                    n2 <= n1,
                    n1 < n,
                    n == masses.len(),
                    d >= 1,
                    dd == d,
                    w == lanes,
                    lanes > 1,
                    pos.len() == n * d,
                    speeds.len() == n * d,
                    di.len() == d,
                    acc.len() == d,
                    n1_mass == masses[n1 as int].spec_add(T::spec_one()),
                    lane_stop(n1 as int, w) == n2 + lane_stop(n1 - n2, w),
                    speeds@ == lanes_model(row_s, pos@, masses@, dd, kr, overlap, n1 as int, w, n2 as int),
                decreases n1 - n2,
            {
                repel_lane(pos, masses, speeds, d, n1, n2, lanes, n1_mass, kr, overlap, &mut di, &mut acc);
                proof {
                    assert(lane_stop(n1 - n2, w) == lane_stop(n1 - n2 - w, w) + w);
                    assert(lanes_model(row_s, pos@, masses@, dd, kr, overlap, n1 as int, w, n2 + w)
                        == lane_model(lanes_model(row_s, pos@, masses@, dd, kr, overlap, n1 as int, w, n2 as int), pos@, masses@, dd, kr, overlap, n1 as int, n2 as int, w));
                }
                n2 += lanes;
            }
            proof {
                assert(lane_stop(n1 - n2, w) == 0);
            }
        }
        let ghost e = n2 as int;
        let ghost tail_s = speeds@;
        proof {
            if w > 1 {
                assert(e == lane_stop(n1 as int, w));
            } else {
                assert(e == 0);
            }
        }
        while n2 < n1
            invariant
                e <= n2 <= n1,
                n1 < n,
                n == masses.len(),
                d >= 1,
                dd == d,
                pos.len() == n * d,
                speeds.len() == n * d,
                di.len() == d,
                n1_mass == masses[n1 as int].spec_add(T::spec_one()),
                speeds@ == tail_model(tail_s, pos@, masses@, dd, kr, overlap, n1 as int, e, n2 as int),
            decreases n1 - n2,
        {
            match pair_factor(pos, masses, d, n1, n2, n1_mass, kr, overlap, &mut di) {
                Some(f) => repel(speeds, d, n, n1, n2, f, &di),
                None => {},
            }
            n2 += 1;
        }
        n1 += 1;
    }
}

/// The exact repulsion of a whole layout applied to its velocity
/// accumulator: every pair of distinct nodes once, row by row.
pub open spec fn repulsion_model<T: Coord>(l: Layout<T>, overlap: Option<(T, T)>, lanes: int) -> Seq<T> {
    rows_model(
        l.speeds.points@,
        l.points.points@,
        l.masses@,
        l.settings.dimensions as int,
        l.settings.kr,
        overlap,
        lanes,
        0,
        l.masses@.len() as int,
    )
}

/// The share of the chunk of outer nodes `[start, end)`: its rows applied
/// to a buffer of zeros of the size of `speeds`.
pub open spec fn chunk_model<T: Coord>(l: Layout<T>, overlap: Option<(T, T)>, lanes: int, start: int, end: int) -> Seq<T> {
    rows_model(
        Seq::new(l.speeds.points@.len(), |_m: int| T::spec_zero()),
        l.points.points@,
        l.masses@,
        l.settings.dimensions as int,
        l.settings.kr,
        overlap,
        lanes,
        start,
        end,
    )
}

/// `s` with each of the first `c` buffers of `deltas` added in, slot by
/// slot, in order.
pub open spec fn added<T: Coord>(s: Seq<T>, deltas: Seq<Seq<T>>, c: int) -> Seq<T>
    decreases c,
{
    if c <= 0 {
        s
    } else {
        let p = added(s, deltas, c - 1);
        Seq::new(p.len(), |m: int| p[m].spec_add(deltas[c - 1][m]))
    }
}

/// `s` after repulsion over `chunks`: each chunk's share, computed from the
/// positions and masses of `l`, added in, in chunk order.
pub open spec fn chunked_model<T: Coord>(
    l: Layout<T>,
    s: Seq<T>,
    overlap: Option<(T, T)>,
    lanes: int,
    chunks: Seq<(usize, usize)>,
) -> Seq<T> {
    added(
        s,
        Seq::new(chunks.len(), |c: int| chunk_model(l, overlap, lanes, chunks[c].0 as int, chunks[c].1 as int)),
        chunks.len() as int,
    )
}

/// Repulsion of the outer nodes `[start, end)` alone, accumulated from zero
/// into a buffer of its own of the size of `speeds`: the share of one work
/// chunk, which no other chunk writes.
pub fn chunk_repulsion<T: Coord>(
    layout: &Layout<T>,
    start: usize,
    end: usize,
    overlap: Option<(T, T)>,
    lanes: usize,
) -> (r: Vec<T>)
    requires
        layout.wf(),
        lanes >= 1,
        start <= end <= layout.count(),
    ensures
        r@ == chunk_model(*layout, overlap, lanes as int, start as int, end as int),
        r.len() == layout.speeds.points.len(),
{
    let d = layout.settings.dimensions;
    let mut acc = filled(layout.speeds.points.len(), T::zero());
    repel_rows(&layout.points.points, &layout.masses, &mut acc, d, layout.settings.kr, overlap, lanes, start, end);
    acc
}

/// Runs `chunk_repulsion` on every chunk on rayon's worker pool.
///
/// Relies on rayon's `IntoParallelIterator::into_par_iter` for `Vec`,
/// `ParallelIterator::map` and `collect` into a `Vec`: an indexed parallel
/// iterator collects one result per item, in item order, each the
/// closure's result on that item.
#[verifier::external_body]
fn par_chunk_repulsion<T: Coord>(
    layout: &Layout<T>,
    chunks: Vec<(usize, usize)>,
    overlap: Option<(T, T)>,
    lanes: usize,
) -> (r: Vec<Vec<T>>)
    requires
        layout.wf(),
        lanes >= 1,
        forall|c: int| 0 <= c < chunks.len() ==> #[trigger] chunks[c].0 <= chunks[c].1 <= layout.count(),
    ensures
        r.len() == chunks.len(),
        forall|c: int|
            0 <= c < chunks.len() ==> call_ensures(
                chunk_repulsion::<T>,
                (layout, chunks[c].0, chunks[c].1, overlap, lanes),
                #[trigger] r[c],
            ),
{
    chunks.into_par_iter().map(|(start, end)| chunk_repulsion(layout, start, end, overlap, lanes)).collect()
}

/// Adds each buffer of `deltas` into `speeds`, slot by slot, in order.
fn add_deltas<T: Coord>(speeds: &mut Vec<T>, deltas: &Vec<Vec<T>>)
    requires
        forall|c: int| 0 <= c < deltas.len() ==> (#[trigger] deltas[c]).len() == old(speeds).len(),
    ensures
        final(speeds).len() == old(speeds).len(),
        final(speeds)@ == added(old(speeds)@, deltas@.map_values(|v: Vec<T>| v@), deltas.len() as int),
{
    let ghost ds = deltas@.map_values(|v: Vec<T>| v@);
    let len = speeds.len();
    let mut c: usize = 0;
    while c < deltas.len()
        invariant
            speeds.len() == len,
            c <= deltas.len(),
            ds == deltas@.map_values(|v: Vec<T>| v@),
            forall|c: int| 0 <= c < deltas.len() ==> (#[trigger] deltas[c]).len() == len,
            speeds@ == added(old(speeds)@, ds, c as int),
        decreases deltas.len() - c,
    {
        let delta = &deltas[c];
        let ghost p = speeds@;
        let mut m: usize = 0;
        while m < len
            invariant
                speeds.len() == len,
                delta.len() == len,
                p.len() == len,
                m <= len,
                forall|i: int| 0 <= i < m ==> speeds[i] == #[trigger] p[i].spec_add(delta[i]),
                forall|i: int| m <= i < len ==> speeds[i] == #[trigger] p[i],
            decreases len - m,
        {
            speeds[m] = speeds[m].add(delta[m]);
            m += 1;
        }
        proof {
            assert(ds[c as int] == delta@);
            assert(speeds@ =~= Seq::new(p.len(), |i: int| p[i].spec_add(ds[c as int][i])));
        }
        c += 1;
    }
}

/// `added` of the collected shares is the chunked model.
proof fn lemma_added_chunks<T: Coord>(
    l: Layout<T>,
    overlap: Option<(T, T)>,
    lanes: int,
    chunks: Seq<(usize, usize)>,
    ds: Seq<Seq<T>>,
    c: int,
)
    requires
        ds.len() == chunks.len(),
        0 <= c <= chunks.len(),
        forall|i: int| 0 <= i < chunks.len() ==> #[trigger] ds[i] == chunk_model(l, overlap, lanes, chunks[i].0 as int, chunks[i].1 as int),
    ensures
        added(l.speeds.points@, ds, c) == added(
            l.speeds.points@,
            Seq::new(chunks.len(), |i: int| chunk_model(l, overlap, lanes, chunks[i].0 as int, chunks[i].1 as int)),
            c,
        ),
    decreases c,
{
    if c > 0 {
        lemma_added_chunks(l, overlap, lanes, chunks, ds, c - 1);
        let shares = Seq::new(chunks.len(), |i: int| chunk_model(l, overlap, lanes, chunks[i].0 as int, chunks[i].1 as int));
        assert(ds[c - 1] == shares[c - 1]);
    }
}

/// Exact repulsion over chunks of `chunk_size` outer nodes, run in parallel.
/// Each chunk accumulates into a buffer of its own, and the buffers are then
/// added into `speeds` in chunk order, so no two tasks write one slot.
fn repel_chunked<T: Coord>(layout: &mut Layout<T>, overlap: Option<(T, T)>, lanes: usize)
    requires
        old(layout).wf(),
        old(layout).settings.chunk_size is Some,
        lanes >= 1,
    ensures
        final(layout).wf(),
        final(layout).same_but_speeds(*old(layout)),
        exists|chunks: Seq<(usize, usize)>|
            chunked_by(chunks, old(layout).count(), old(layout).settings.chunk_size.unwrap() as nat)
                && final(layout).speeds.points@ == #[trigger] chunked_model(*old(layout), old(layout).speeds.points@, overlap, lanes as int, chunks),
{
    let size = layout.settings.chunk_size.unwrap();
    let n = layout.masses.len();
    let chunks = chunk_bounds(n, size);
    let ghost cs = chunks@;
    assert forall|c: int| 0 <= c < chunks.len() implies #[trigger] chunks[c].0 <= chunks[c].1 <= n by {
        assert(chunks[c].0 < chunks[c].1);
        assert(chunks[c].1 <= n);
    }
    let deltas = par_chunk_repulsion(&*layout, chunks, overlap, lanes);
    let ghost ds = deltas@.map_values(|v: Vec<T>| v@);
    assert forall|c: int| 0 <= c < deltas.len() implies (#[trigger] deltas[c]).len() == layout.speeds.points.len() by {
        assert(call_ensures(chunk_repulsion::<T>, (&*layout, cs[c].0, cs[c].1, overlap, lanes), deltas[c]));
    }
    assert forall|i: int| 0 <= i < cs.len() implies #[trigger] ds[i] == chunk_model(*layout, overlap, lanes as int, cs[i].0 as int, cs[i].1 as int) by {
        assert(call_ensures(chunk_repulsion::<T>, (&*layout, cs[i].0, cs[i].1, overlap, lanes), deltas[i]));
    }
    let ghost before = *layout;
    add_deltas(&mut layout.speeds.points, &deltas);
    proof {
        lemma_added_chunks(before, overlap, lanes as int, cs, ds, cs.len() as int);
        assert(layout.speeds.points@ == chunked_model(before, before.speeds.points@, overlap, lanes as int, cs));
    }
}

/// Exact repulsion between every pair of distinct nodes, in any dimension
/// count, added into `speeds`; pairs at distance zero are skipped.
pub fn apply_repulsion<T: Coord>(layout: &mut Layout<T>)
    requires
        old(layout).wf(),
    ensures
        final(layout).wf(),
        final(layout).same_but_speeds(*old(layout)),
        final(layout).speeds.points@ == repulsion_model(*old(layout), None, 1),
{
    let n = layout.masses.len();
    let d = layout.settings.dimensions;
    let kr = layout.settings.kr;
    repel_rows(&layout.points.points, &layout.masses, &mut layout.speeds.points, d, kr, None, 1, 0, n);
}

/// `apply_repulsion` over chunks of `chunk_size` outer nodes run in
/// parallel: each chunk's share is added into `speeds` in chunk order.
pub fn apply_repulsion_parallel<T: Coord>(layout: &mut Layout<T>)
    requires
        old(layout).wf(),
        old(layout).settings.chunk_size is Some,
    ensures
        final(layout).wf(),
        final(layout).same_but_speeds(*old(layout)),
        exists|chunks: Seq<(usize, usize)>|
            chunked_by(chunks, old(layout).count(), old(layout).settings.chunk_size.unwrap() as nat)
                && final(layout).speeds.points@ == #[trigger] chunked_model(*old(layout), old(layout).speeds.points@, None, 1, chunks),
{
    repel_chunked(layout, None, 1);
}

/// Exact repulsion on a two-dimensional layout.
pub fn apply_repulsion_2d<T: Coord>(layout: &mut Layout<T>)
    requires
        old(layout).wf(),
        old(layout).settings.dimensions == 2,
    ensures
        final(layout).wf(),
        final(layout).same_but_speeds(*old(layout)),
        final(layout).speeds.points@ == repulsion_model(*old(layout), None, 1),
{
    apply_repulsion(layout);
}

/// `apply_repulsion_2d` over chunks run in parallel.
pub fn apply_repulsion_2d_parallel<T: Coord>(layout: &mut Layout<T>)
    requires
        old(layout).wf(),
        old(layout).settings.dimensions == 2,
        old(layout).settings.chunk_size is Some,
    ensures
        final(layout).wf(),
        final(layout).same_but_speeds(*old(layout)),
        exists|chunks: Seq<(usize, usize)>|
            chunked_by(chunks, old(layout).count(), old(layout).settings.chunk_size.unwrap() as nat)
                && final(layout).speeds.points@ == #[trigger] chunked_model(*old(layout), old(layout).speeds.points@, None, 1, chunks),
{
    repel_chunked(layout, None, 1);
}

/// Exact two-dimensional repulsion with the inner nodes taken in lanes of
/// two, the width of a 256-bit vector of double-precision scalars.
pub fn apply_repulsion_2d_simd_f64<T: Coord>(layout: &mut Layout<T>)
    requires
        old(layout).wf(),
        old(layout).settings.dimensions == 2,
    ensures
        final(layout).wf(),
        final(layout).same_but_speeds(*old(layout)),
        final(layout).speeds.points@ == repulsion_model(*old(layout), None, 2),
{
    let n = layout.masses.len();
    let kr = layout.settings.kr;
    repel_rows(&layout.points.points, &layout.masses, &mut layout.speeds.points, 2, kr, None, 2, 0, n);
}

/// Exact two-dimensional repulsion with the inner nodes taken in lanes of
/// four, the width of a 256-bit vector of single-precision pairs.
pub fn apply_repulsion_2d_simd_f32<T: Coord>(layout: &mut Layout<T>)
    requires
        old(layout).wf(),
        old(layout).settings.dimensions == 2,
    ensures
        final(layout).wf(),
        final(layout).same_but_speeds(*old(layout)),
        final(layout).speeds.points@ == repulsion_model(*old(layout), None, 4),
{
    let n = layout.masses.len();
    let kr = layout.settings.kr;
    repel_rows(&layout.points.points, &layout.masses, &mut layout.speeds.points, 2, kr, None, 4, 0, n);
}

/// `apply_repulsion_2d_simd_f64` over chunks run in parallel.
pub fn apply_repulsion_2d_simd_f64_parallel<T: Coord>(layout: &mut Layout<T>)
    requires
        old(layout).wf(),
        old(layout).settings.dimensions == 2,
        old(layout).settings.chunk_size is Some,
    ensures
        final(layout).wf(),
        final(layout).same_but_speeds(*old(layout)),
        exists|chunks: Seq<(usize, usize)>|
            chunked_by(chunks, old(layout).count(), old(layout).settings.chunk_size.unwrap() as nat)
                && final(layout).speeds.points@ == #[trigger] chunked_model(*old(layout), old(layout).speeds.points@, None, 2, chunks),
{
    repel_chunked(layout, None, 2);
}

/// `apply_repulsion_2d_simd_f32` over chunks run in parallel.
pub fn apply_repulsion_2d_simd_f32_parallel<T: Coord>(layout: &mut Layout<T>)
    requires
        old(layout).wf(),
        old(layout).settings.dimensions == 2,
        old(layout).settings.chunk_size is Some,
    ensures
        final(layout).wf(),
        final(layout).same_but_speeds(*old(layout)),
        exists|chunks: Seq<(usize, usize)>|
            chunked_by(chunks, old(layout).count(), old(layout).settings.chunk_size.unwrap() as nat)
                && final(layout).speeds.points@ == #[trigger] chunked_model(*old(layout), old(layout).speeds.points@, None, 4, chunks),
{
    repel_chunked(layout, None, 4);
}

/// Exact repulsion on a three-dimensional layout.
pub fn apply_repulsion_3d<T: Coord>(layout: &mut Layout<T>)
    requires
        old(layout).wf(),
        old(layout).settings.dimensions == 3,
    ensures
        final(layout).wf(),
        final(layout).same_but_speeds(*old(layout)),
        final(layout).speeds.points@ == repulsion_model(*old(layout), None, 1),
{
    apply_repulsion(layout);
}

/// `apply_repulsion_3d` over chunks run in parallel.
pub fn apply_repulsion_3d_parallel<T: Coord>(layout: &mut Layout<T>)
    requires
        old(layout).wf(),
        old(layout).settings.dimensions == 3,
        old(layout).settings.chunk_size is Some,
    ensures
        final(layout).wf(),
        final(layout).same_but_speeds(*old(layout)),
        exists|chunks: Seq<(usize, usize)>|
            chunked_by(chunks, old(layout).count(), old(layout).settings.chunk_size.unwrap() as nat)
                && final(layout).speeds.points@ == #[trigger] chunked_model(*old(layout), old(layout).speeds.points@, None, 1, chunks),
{
    repel_chunked(layout, None, 1);
}

/// Exact three-dimensional repulsion over chunks run in parallel, with the
/// inner nodes taken in lanes of two.
pub fn apply_repulsion_3d_simd_f32_parallel<T: Coord>(layout: &mut Layout<T>)
    requires
        old(layout).wf(),
        old(layout).settings.dimensions == 3,
        old(layout).settings.chunk_size is Some,
    ensures
        final(layout).wf(),
        final(layout).same_but_speeds(*old(layout)),
        exists|chunks: Seq<(usize, usize)>|
            chunked_by(chunks, old(layout).count(), old(layout).settings.chunk_size.unwrap() as nat)
                && final(layout).speeds.points@ == #[trigger] chunked_model(*old(layout), old(layout).speeds.points@, None, 2, chunks),
{
    repel_chunked(layout, None, 2);
}

/// Exact repulsion with overlap prevention: the coefficient is
/// `kr / (d - node_size)` for nodes further apart than `node_size`, and
/// `kr_prime` for nodes that touch.
pub fn apply_repulsion_po<T: Coord>(layout: &mut Layout<T>)
    requires
        old(layout).wf(),
        old(layout).settings.prevent_overlapping is Some,
    ensures
        final(layout).wf(),
        final(layout).same_but_speeds(*old(layout)),
        final(layout).speeds.points@ == repulsion_model(*old(layout), old(layout).settings.prevent_overlapping, 1),
{
    let n = layout.masses.len();
    let d = layout.settings.dimensions;
    let kr = layout.settings.kr;
    let overlap = layout.settings.prevent_overlapping;
    repel_rows(&layout.points.points, &layout.masses, &mut layout.speeds.points, d, kr, overlap, 1, 0, n);
}

/// Subtracts from each node's velocity accumulator the force of the same
/// node in `forces`, a buffer laid out as `speeds`. This is how forces
/// computed elsewhere, such as a Barnes–Hut tree walk, enter the layout.
pub fn subtract_forces<T: Coord>(layout: &mut Layout<T>, forces: &Vec<T>)
    requires
        old(layout).wf(),
        forces.len() == old(layout).speeds.points.len(),
    ensures
        final(layout).wf(),
        final(layout).same_but_speeds(*old(layout)),
        final(layout).speeds.points@ == Seq::new(
            forces@.len(),
            |m: int| old(layout).speeds.points@[m].spec_sub(forces@[m]),
        ),
{
    let len = layout.speeds.points.len();
    let mut m: usize = 0;
    while m < len
        invariant
            layout.speeds.points.len() == len,
            forces.len() == len,
            m <= len,
            layout.wf(),
            layout.same_but_speeds(*old(layout)),
            forall|i: int| 0 <= i < m ==> layout.speeds.points@[i] == #[trigger] old(layout).speeds.points@[i].spec_sub(forces@[i]),
            forall|i: int| m <= i < len ==> layout.speeds.points@[i] == #[trigger] old(layout).speeds.points@[i],
        decreases len - m,
    {
        layout.speeds.points[m] = layout.speeds.points[m].sub(forces[m]);
        m += 1;
    }
    assert(layout.speeds.points@ =~= Seq::new(forces@.len(), |m: int| old(layout).speeds.points@[m].spec_sub(forces@[m])));
}

} // verus!
