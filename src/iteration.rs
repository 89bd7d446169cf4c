use crate::coord::Coord;
use crate::forces::{apply_attraction, apply_gravity, attraction_model, gravity_model};
use crate::layout::{lemma_slot, Layout};
use crate::repulsion::{
    apply_repulsion_2d,
    apply_repulsion_2d_parallel,
    apply_repulsion_3d,
    apply_repulsion_3d_parallel,
    apply_repulsion_po,
    chunk_model,
    chunked_model,
    rows_model,
    subtract_forces,
};
use crate::schedule::chunked_by;
use vstd::prelude::*;

verus! {

/// The sum of the squares of the first `k` components of the change of
/// node `i`'s force, from the previous forces `olds` to `s`.
pub open spec fn swing_upto<T: Coord>(s: Seq<T>, olds: Seq<T>, d: int, i: int, k: int) -> T
    decreases k,
{
    if k <= 1 {
        s[i * d].spec_sub(olds[i * d]).spec_mul(s[i * d].spec_sub(olds[i * d]))
    } else {
        swing_upto(s, olds, d, i, k - 1).spec_add(
            s[i * d + k - 1].spec_sub(olds[i * d + k - 1]).spec_mul(s[i * d + k - 1].spec_sub(olds[i * d + k - 1])),
        )
    }
}

/// The step of node `i` under forces `s`: `speed / (1 + √(speed · swg))`,
/// with `swg` the length of the change of its force.
pub open spec fn move_factor<T: Coord>(l: Layout<T>, s: Seq<T>, i: int) -> T {
    let d = l.settings.dimensions as int;
    let swg = swing_upto(s, l.old_speeds.points@, d, i, d).spec_sqrt();
    l.settings.speed.spec_div(T::spec_one().spec_add(l.settings.speed.spec_mul(swg).spec_sqrt()))
}

/// `p` with the first `k` coordinates of node `i` moved by `f` times its
/// force in `s`.
pub open spec fn move_upto<T: Coord>(p: Seq<T>, d: int, i: int, f: T, s: Seq<T>, k: int) -> Seq<T>
    decreases k,
{
    if k <= 0 {
        p
    } else {
        let q = move_upto(p, d, i, f, s, k - 1);
        let m = i * d + k - 1;
        q.update(m, q[m].spec_add(f.spec_mul(s[m])))
    }
}

/// The positions of `l` with its first `i` nodes moved under forces `s`.
pub open spec fn moved_upto<T: Coord>(l: Layout<T>, s: Seq<T>, i: int) -> Seq<T>
    decreases i,
{
    if i <= 0 {
        l.points.points@
    } else {
        let d = l.settings.dimensions as int;
        move_upto(moved_upto(l, s, i - 1), d, i - 1, move_factor(l, s, i - 1), s, d)
    }
}

/// `after` is `before` advanced by one step under the accumulated forces
/// `forces`: every node moved by its step times its force, the forces kept
/// as the previous forces, the accumulator set to zero, and the graph, the
/// masses and the settings those of `before`.
pub open spec fn integrated<T: Coord>(after: Layout<T>, before: Layout<T>, forces: Seq<T>) -> bool {
    &&& after.edges == before.edges
    &&& after.masses == before.masses
    &&& after.settings == before.settings
    &&& after.weights == before.weights
    &&& after.points.dimensions == before.points.dimensions
    &&& after.points.points@ == moved_upto(before, forces, before.masses@.len() as int)
    &&& after.old_speeds.dimensions == before.old_speeds.dimensions
    &&& after.speeds.dimensions == before.speeds.dimensions
    &&& after.old_speeds.points@ == forces
    &&& after.speeds.points@ == Seq::new(forces.len(), |_m: int| T::spec_zero())
}

/// `r` is what the exact repulsion that `iteration` picks for `l` makes of
/// the accumulator `s`: with overlap prevention where it is set, else over
/// work chunks where a chunk size is set, else sequentially.
pub open spec fn repulsion_step<T: Coord>(l: Layout<T>, s: Seq<T>, r: Seq<T>) -> bool {
    let pos = l.points.points@;
    let d = l.settings.dimensions as int;
    let n = l.masses@.len() as int;
    if l.settings.prevent_overlapping is Some {
        r == rows_model(s, pos, l.masses@, d, l.settings.kr, l.settings.prevent_overlapping, 1, 0, n)
    } else if l.settings.chunk_size is Some {
        exists|chunks: Seq<(usize, usize)>|
            chunked_by(chunks, n as nat, l.settings.chunk_size.unwrap() as nat)
                && r == #[trigger] chunked_model(l, s, None, 1, chunks)
    } else {
        r == rows_model(s, pos, l.masses@, d, l.settings.kr, None, 1, 0, n)
    }
}

/// Moves every node by its accumulated force and resets the accumulator.
///
/// For node `i` with force `v` and previous force `v_old`, the swinging is
/// `swg = |v - v_old|` and the node moves by `speed / (1 + √(speed · swg)) · v`.
/// Then the forces become the previous forces and the accumulator is set to
/// zero.
pub fn apply_forces<T: Coord>(layout: &mut Layout<T>)
    requires
        old(layout).wf(),
    ensures
        final(layout).wf(),
        integrated(*final(layout), *old(layout), old(layout).speeds.points@),
{
    let n = layout.masses.len();
    let d = layout.settings.dimensions;
    let speed = layout.settings.speed;
    let ghost l0 = *old(layout);
    let ghost s0 = old(layout).speeds.points@;
    let ghost dd = d as int;
    let mut i: usize = 0;
    while i < n
        invariant
            layout.wf(),
            l0 == *old(layout),
            s0 == l0.speeds.points@,
            layout.edges == l0.edges,
            layout.masses == l0.masses,
            layout.settings == l0.settings,
            layout.weights == l0.weights,
            layout.speeds == l0.speeds,
            layout.old_speeds == l0.old_speeds,
            layout.points.dimensions == l0.points.dimensions,
            n == layout.masses.len(),
            d == layout.settings.dimensions,
            dd == d,
            speed == layout.settings.speed,
            i <= n,
            layout.points.points@ == moved_upto(l0, s0, i as int),
        decreases n - i,
    {
        proof {
            lemma_slot(i as int, 0, n as int, d as int);
        }
        let a = i * d;
        let w0 = layout.speeds.points[a].sub(layout.old_speeds.points[a]);
        let mut swg2 = w0.mul(w0);
        let mut k: usize = 1;
        while k < d
            invariant
                1 <= k <= d,
                i < n,
                a == i * d,
                layout.wf(),
                layout.speeds == l0.speeds,
                layout.old_speeds == l0.old_speeds,
                layout.settings == l0.settings,
                s0 == l0.speeds.points@,
                n == layout.masses.len(),
                d == layout.settings.dimensions,
                dd == d,
                swg2 == swing_upto(s0, l0.old_speeds.points@, dd, i as int, k as int),
            decreases d - k,
        {
            proof {
                lemma_slot(i as int, k as int, n as int, d as int);
            }
            let w = layout.speeds.points[a + k].sub(layout.old_speeds.points[a + k]);
            swg2 = swg2.add(w.mul(w));
            k += 1;
        }
        let swg = swg2.sqrt();
        let factor = speed.div(T::one().add(speed.mul(swg).sqrt()));
        assert(factor == move_factor(l0, s0, i as int));
        let ghost p = layout.points.points@;
        let mut k: usize = 0;
        while k < d
            invariant
                k <= d,
                i < n,
                a == i * d,
                layout.wf(),
                l0 == *old(layout),
                s0 == l0.speeds.points@,
                layout.edges == l0.edges,
                layout.masses == l0.masses,
                layout.settings == l0.settings,
                layout.weights == l0.weights,
                layout.speeds == l0.speeds,
                layout.old_speeds == l0.old_speeds,
                layout.points.dimensions == l0.points.dimensions,
                n == layout.masses.len(),
                d == layout.settings.dimensions,
                dd == d,
                factor == move_factor(l0, s0, i as int),
                layout.points.points@ == move_upto(p, dd, i as int, factor, s0, k as int),
            decreases d - k,
        {
            proof {
                lemma_slot(i as int, k as int, n as int, d as int);
            }
            let m = a + k;
            layout.points.points[m] = layout.points.points[m].add(factor.mul(layout.speeds.points[m]));
            k += 1;
        }
        i += 1;
    }
    std::mem::swap(&mut layout.speeds.points, &mut layout.old_speeds.points);
    let z = T::zero();
    let len = layout.speeds.points.len();
    let mut m: usize = 0;
    while m < len
        invariant
            layout.wf(),
            layout.edges == old(layout).edges,
            layout.masses == old(layout).masses,
            layout.settings == old(layout).settings,
            layout.weights == old(layout).weights,
            layout.old_speeds.points@ == old(layout).speeds.points@,
            layout.speeds.dimensions == old(layout).speeds.dimensions,
            layout.old_speeds.dimensions == old(layout).old_speeds.dimensions,
            layout.points.dimensions == old(layout).points.dimensions,
            layout.points.points@ == moved_upto(l0, s0, n as int),
            l0 == *old(layout),
            s0 == l0.speeds.points@,
            n == l0.masses@.len(),
            len == layout.speeds.points.len(),
            z == T::spec_zero(),
            m <= len,
            forall|j: int| 0 <= j < m ==> layout.speeds.points@[j] == z,
        decreases len - m,
    {
        layout.speeds.points[m] = z;
        m += 1;
    }
    assert(layout.speeds.points@ =~= Seq::new(s0.len(), |_m: int| T::spec_zero()));
}

/// The models of one step read no accumulator but the one they are given:
/// layouts that differ in `speeds` alone give the same results.
proof fn lemma_models_ignore_speeds<T: Coord>(a: Layout<T>, b: Layout<T>, s: Seq<T>, i: int)
    requires
        a.same_but_speeds(b),
    ensures
        crate::forces::gravity_upto(a, s, i) == crate::forces::gravity_upto(b, s, i),
        moved_upto(a, s, i) == moved_upto(b, s, i),
    decreases i,
{
    if i > 0 {
        lemma_models_ignore_speeds(a, b, s, i - 1);
    }
}

/// The chunked repulsion reads no accumulator but the one it is given.
proof fn lemma_chunked_ignores_speeds<T: Coord>(
    a: Layout<T>,
    b: Layout<T>,
    s: Seq<T>,
    chunks: Seq<(usize, usize)>,
)
    requires
        a.same_but_speeds(b),
    ensures
        chunked_model(a, s, None, 1, chunks) == chunked_model(b, s, None, 1, chunks),
{
    assert(Seq::new(chunks.len(), |c: int| chunk_model(a, None, 1, chunks[c].0 as int, chunks[c].1 as int))
        =~= Seq::new(chunks.len(), |c: int| chunk_model(b, None, 1, chunks[c].0 as int, chunks[c].1 as int)));
}

impl<T: Coord> Layout<T> {
    /// Runs one step of the simulation: attraction, exact repulsion and
    /// gravity are accumulated into `speeds`, which then moves the nodes.
    ///
    /// Repulsion takes overlap prevention into account where it is set, and
    /// otherwise runs over work chunks in parallel where a chunk size is set.
    pub fn iteration(&mut self)
        requires
            old(self).wf(),
            old(self).settings.barnes_hut is None,
        ensures
            final(self).wf(),
            exists|r: Seq<T>|
                repulsion_step(*old(self), attraction_model(*old(self), old(self).speeds.points@), r)
                    && integrated(*final(self), *old(self), #[trigger] gravity_model(*old(self), r)),
    {
        let ghost l0 = *self;
        apply_attraction(self);
        let ghost l1 = *self;
        if self.settings.prevent_overlapping.is_some() {
            apply_repulsion_po(self);
        } else if self.settings.chunk_size.is_some() {
            if self.settings.dimensions == 2 {
                apply_repulsion_2d_parallel(self);
            } else {
                apply_repulsion_3d_parallel(self);
            }
        } else if self.settings.dimensions == 2 {
            apply_repulsion_2d(self);
        } else {
            apply_repulsion_3d(self);
        }
        let ghost l2 = *self;
        let ghost r = self.speeds.points@;
        proof {
            if l0.settings.prevent_overlapping is None && l0.settings.chunk_size is Some {
                let chunks = choose|chunks: Seq<(usize, usize)>|
                    chunked_by(chunks, l1.count(), l1.settings.chunk_size.unwrap() as nat)
                        && r == #[trigger] chunked_model(l1, l1.speeds.points@, None, 1, chunks);
                lemma_chunked_ignores_speeds(l1, l0, l1.speeds.points@, chunks);
            }
            assert(repulsion_step(l0, attraction_model(l0, l0.speeds.points@), r));
        }
        apply_gravity(self);
        let ghost forces = self.speeds.points@;
        proof {
            lemma_models_ignore_speeds(l2, l0, r, l0.masses@.len() as int);
        }
        let ghost l3 = *self;
        apply_forces(self);
        proof {
            lemma_models_ignore_speeds(l3, l0, forces, l0.masses@.len() as int);
            assert(integrated(*self, l0, gravity_model(l0, r)));
        }
    }

    /// Runs one step of the simulation with a repulsion computed elsewhere
    /// (an approximate one such as a Barnes–Hut walk): `repulsion` is
    /// subtracted from the accumulated forces between attraction and gravity.
    pub fn iteration_with_repulsion(&mut self, repulsion: &Vec<T>)
        requires
            old(self).wf(),
            repulsion.len() == old(self).speeds.points.len(),
        ensures
            final(self).wf(),
            integrated(
                *final(self),
                *old(self),
                gravity_model(
                    *old(self),
                    Seq::new(
                        repulsion@.len(),
                        |m: int| attraction_model(*old(self), old(self).speeds.points@)[m].spec_sub(repulsion@[m]),
                    ),
                ),
            ),
    {
        let ghost l0 = *self;
        apply_attraction(self);
        subtract_forces(self, repulsion);
        let ghost l2 = *self;
        let ghost r = self.speeds.points@;
        apply_gravity(self);
        let ghost forces = self.speeds.points@;
        proof {
            lemma_models_ignore_speeds(l2, l0, r, l0.masses@.len() as int);
        }
        let ghost l3 = *self;
        apply_forces(self);
        proof {
            lemma_models_ignore_speeds(l3, l0, forces, l0.masses@.len() as int);
        }
    }
}

} // verus!
