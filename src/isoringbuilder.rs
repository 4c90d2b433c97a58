//! The ring-stitching engine: the segments of every cell, met in raster order,
//! are joined end to end into closed rings.
use vstd::prelude::*;

use crate::cases::{
    case_segments, case_table, cell_code, corner_code, lemma_placed_in_lattice, place, Segment,
};
use crate::error::{Error, ErrorKind};
use crate::geometry::{lemma_views_push, views, Point, Ring};
use rustc_hash::FxHashMap;
use slab::Slab;

verus! {

#[verifier::external_type_specification]
#[verifier::external_body]
pub struct ExFxBuildHasher(rustc_hash::FxBuildHasher);

#[verifier::external_type_specification]
#[verifier::external_body]
#[verifier::reject_recursive_types(T)]
pub struct ExSlab<T>(slab::Slab<T>);

/// A ring under construction: its vertices so far, and the lattice keys of its
/// first and last vertex.
#[derive(Debug, Clone)]
pub struct Fragment {
    pub start: usize,
    pub end: usize,
    pub ring: Ring,
}

pub open spec fn no_fragments() -> Map<usize, Fragment> {
    Map::empty()
}

pub open spec fn no_keys() -> Map<usize, usize> {
    Map::empty()
}

/// The fragments that a slab holds, by slab key.
pub uninterp spec fn slab_fragments(s: Slab<Fragment>) -> Map<usize, Fragment>;

/// Relies on `Slab::new`: a slab that holds nothing.
#[verifier::external_body]
fn slab_new() -> (r: Slab<Fragment>)
    ensures
        slab_fragments(r) == no_fragments(),
{
    Slab::new()
}

/// Relies on `Slab::insert`: the value is stored under a key that was vacant,
/// which is returned.
#[verifier::external_body]
fn slab_insert(s: &mut Slab<Fragment>, f: Fragment) -> (r: usize)
    ensures
        !slab_fragments(*old(s)).contains_key(r),
        slab_fragments(*final(s)) == slab_fragments(*old(s)).insert(r, f),
{
    s.insert(f)
}

/// Relies on `Slab::try_remove`: the value under `k` is taken out, if there is one.
#[verifier::external_body]
fn slab_try_remove(s: &mut Slab<Fragment>, k: usize) -> (r: Option<Fragment>)
    ensures
        slab_fragments(*final(s)) == slab_fragments(*old(s)).remove(k),
        r == (if slab_fragments(*old(s)).contains_key(k) {
            Some(slab_fragments(*old(s))[k])
        } else {
            None::<Fragment>
        }),
{
    s.try_remove(k)
}

/// Relies on `Slab::get_mut`: the value under `k`, if there is one, is
/// exchanged for `f` in place, under the same key.
#[verifier::external_body]
fn slab_replace(s: &mut Slab<Fragment>, k: usize, f: Fragment) -> (r: Option<Fragment>)
    ensures
        r == (if slab_fragments(*old(s)).contains_key(k) {
            Some(slab_fragments(*old(s))[k])
        } else {
            None::<Fragment>
        }),
        slab_fragments(*final(s)) == (if slab_fragments(*old(s)).contains_key(k) {
            slab_fragments(*old(s)).insert(k, f)
        } else {
            slab_fragments(*old(s))
        }),
{
    match s.get_mut(k) {
        Some(slot) => Some(std::mem::replace(slot, f)),
        None => None,
    }
}

/// Relies on `Slab::clear`: the slab holds nothing afterwards.
#[verifier::external_body]
fn slab_clear(s: &mut Slab<Fragment>)
    ensures
        slab_fragments(*final(s)) == no_fragments(),
{
    s.clear()
}

/// Relies on `HashMap::default` with rustc_hash's deterministic `FxBuildHasher`:
/// an empty map.
#[verifier::external_body]
fn key_map_new() -> (r: FxHashMap<usize, usize>)
    ensures
        r@ == no_keys(),
{
    FxHashMap::default()
}

/// Relies on `HashMap::contains_key` with rustc_hash's `FxBuildHasher`.
#[verifier::external_body]
fn key_map_contains(m: &FxHashMap<usize, usize>, k: usize) -> (r: bool)
    ensures
        r == m@.contains_key(k),
{
    m.contains_key(&k)
}

/// Relies on `HashMap::remove` with rustc_hash's `FxBuildHasher`: the entry of
/// `k` is taken out and its value returned.
#[verifier::external_body]
fn key_map_remove(m: &mut FxHashMap<usize, usize>, k: usize) -> (r: Option<usize>)
    ensures
        final(m)@ == old(m)@.remove(k),
        r == (if old(m)@.contains_key(k) {
            Some(old(m)@[k])
        } else {
            None::<usize>
        }),
{
    m.remove(&k)
}

/// Relies on `HashMap::insert` with rustc_hash's `FxBuildHasher`: `k` maps to
/// `v` afterwards, the other entries unchanged.
#[verifier::external_body]
fn key_map_insert(m: &mut FxHashMap<usize, usize>, k: usize, v: usize)
    ensures
        final(m)@ == old(m)@.insert(k, v),
{
    m.insert(k, v);
}

/// Relies on `HashMap::clear` with rustc_hash's `FxBuildHasher`.
#[verifier::external_body]
fn key_map_clear(m: &mut FxHashMap<usize, usize>)
    ensures
        final(m)@ == no_keys(),
{
    m.clear()
}

/// The grids whose lattice coordinates fit a `u32` and whose lattice keys fit
/// a `usize`.
pub open spec fn grid_fits(dx: int, dy: int) -> bool {
    &&& 0 <= dx
    &&& 0 <= dy
    &&& 2 * dx + 2 <= u32::MAX
    &&& 2 * dy + 2 <= u32::MAX
    &&& (2 * dx + 2) * (2 * dy + 2) <= usize::MAX
}

/// The vertex lies on the lattice `[0, 2 * dx] x [0, 2 * dy]` of a `dx * dy` grid.
pub open spec fn in_lattice(p: Point, dx: int, dy: int) -> bool {
    p.x <= 2 * dx && p.y <= 2 * dy
}

/// The lookup key of a lattice vertex.
pub open spec fn key_of(p: Point, dx: int) -> int {
    p.x + p.y * (2 * dx + 2)
}

/// A ring as the stitching engine hands it out: closed, its last vertex being
/// its first, with at least three vertices, all on the grid's lattice.
pub open spec fn closed_ring(r: Seq<Point>, dx: int, dy: int) -> bool {
    &&& r.len() >= 3
    &&& r[0] == r[r.len() - 1]
    &&& forall|i: int| 0 <= i < r.len() ==> in_lattice(#[trigger] r[i], dx, dy)
}

pub open spec fn all_closed(rs: Seq<Ring>, dx: int, dy: int) -> bool {
    forall|i: int| 0 <= i < rs.len() ==> closed_ring(#[trigger] rs[i]@, dx, dy)
}

proof fn lemma_key_bounds(p: Point, dx: int, dy: int)
    requires
        grid_fits(dx, dy),
        in_lattice(p, dx, dy),
    ensures
        0 <= key_of(p, dx) < (2 * dx + 2) * (2 * dy + 2),
{
    let w = 2 * dx + 2;
    assert(p.y * w <= (2 * dy) * w) by (nonlinear_arith)
        requires
            p.y <= 2 * dy,
            w >= 0,
    ;
    assert((2 * dy) * w + w == (2 * dy + 2) * w - w) by (nonlinear_arith);
    assert(0 <= p.y * w) by (nonlinear_arith)
        requires
            p.y >= 0,
            w >= 0,
    ;
    assert((2 * dy + 2) * w == w * (2 * dy + 2)) by (nonlinear_arith);
}

proof fn lemma_area_fits(dx: int, dy: int)
    requires
        grid_fits(dx, dy),
    ensures
        0 <= dx * dy <= usize::MAX,
{
    assert(0 <= dx * dy <= (2 * dx + 2) * (2 * dy + 2)) by (nonlinear_arith)
        requires
            0 <= dx,
            0 <= dy,
    ;
}

/// Two lattice vertices with the same key are the same vertex.
proof fn lemma_key_injective(p: Point, q: Point, dx: int, dy: int)
    requires
        grid_fits(dx, dy),
        in_lattice(p, dx, dy),
        in_lattice(q, dx, dy),
        key_of(p, dx) == key_of(q, dx),
    ensures
        p == q,
{
    let w = 2 * dx + 2;
    if p.y < q.y {
        assert(p.y * w + w <= q.y * w) by (nonlinear_arith)
            requires
                p.y < q.y,
                w >= 0,
        ;
    } else if q.y < p.y {
        assert(q.y * w + w <= p.y * w) by (nonlinear_arith)
            requires
                q.y < p.y,
                w >= 0,
        ;
    }
}

pub open spec fn frag_wf(f: Fragment, dx: int, dy: int) -> bool {
    &&& f.ring@.len() >= 2
    &&& forall|i: int| 0 <= i < f.ring@.len() ==> in_lattice(#[trigger] f.ring@[i], dx, dy)
    &&& key_of(f.ring@[0], dx) == f.start
    &&& key_of(f.ring@[f.ring@.len() - 1], dx) == f.end
}

/// A fragment as the model sees it: the keys of its ends and its vertices.
pub struct Frag {
    pub start: usize,
    pub end: usize,
    pub ring: Seq<Point>,
}

/// The state of stitching: the open fragments by identity, the two key maps,
/// the next fresh identity, and the rings closed so far, in order.
pub struct StitchState {
    pub frags: Map<nat, Frag>,
    pub by_start: Map<usize, nat>,
    pub by_end: Map<usize, nat>,
    pub fresh: nat,
    pub done: Seq<Seq<Point>>,
}

/// Nothing stitched yet.
pub open spec fn initial_state() -> StitchState {
    StitchState {
        frags: Map::empty(),
        by_start: Map::empty(),
        by_end: Map::empty(),
        fresh: 0,
        done: seq![],
    }
}

/// Joins the segment `s -> e` to the state: when a fragment ends where the
/// segment starts and a fragment starts where it ends, the fragment closes
/// into a ring (the same fragment) or the two are joined (different ones);
/// when only one of them exists it is extended at that end; otherwise the
/// segment starts a fragment of its own.
pub open spec fn stitch_step(st: StitchState, s: Point, e: Point, dx: int) -> StitchState {
    let sk = key_of(s, dx) as usize;
    let ek = key_of(e, dx) as usize;
    if st.by_end.contains_key(sk) {
        let f = st.by_end[sk];
        let ff = st.frags[f];
        if st.by_start.contains_key(ek) {
            let g = st.by_start[ek];
            let gg = st.frags[g];
            let be = st.by_end.remove(sk);
            let bs = st.by_start.remove(ek);
            if f == g {
                StitchState {
                    frags: st.frags.remove(f),
                    by_start: bs,
                    by_end: be,
                    fresh: st.fresh,
                    done: st.done.push(ff.ring.push(e)),
                }
            } else {
                StitchState {
                    frags: st.frags.remove(f).remove(g).insert(
                        st.fresh,
                        Frag { start: ff.start, end: gg.end, ring: ff.ring + gg.ring },
                    ),
                    by_start: bs.insert(ff.start, st.fresh),
                    by_end: be.insert(gg.end, st.fresh),
                    fresh: st.fresh + 1,
                    done: st.done,
                }
            }
        } else {
            StitchState {
                frags: st.frags.insert(f, Frag { start: ff.start, end: ek, ring: ff.ring.push(e) }),
                by_start: st.by_start,
                by_end: st.by_end.remove(sk).insert(ek, f),
                fresh: st.fresh,
                done: st.done,
            }
        }
    } else if st.by_start.contains_key(ek) {
        let f = st.by_start[ek];
        let ff = st.frags[f];
        StitchState {
            frags: st.frags.insert(f, Frag { start: sk, end: ff.end, ring: seq![s] + ff.ring }),
            by_start: st.by_start.remove(ek).insert(sk, f),
            by_end: st.by_end,
            fresh: st.fresh,
            done: st.done,
        }
    } else {
        StitchState {
            frags: st.frags.insert(st.fresh, Frag { start: sk, end: ek, ring: seq![s, e] }),
            by_start: st.by_start.insert(sk, st.fresh),
            by_end: st.by_end.insert(ek, st.fresh),
            fresh: st.fresh + 1,
            done: st.done,
        }
    }
}

/// A vertex of a cell's table segment, moved to the cell `(cx, cy)`.
pub open spec fn placed(p: Point, cx: int, cy: int) -> Point {
    Point { x: place(p, cx, cy).0 as u32, y: place(p, cx, cy).1 as u32 }
}

/// The state after stitching the first `k` segments of `segs`, moved to the
/// cell `(cx, cy)`.
pub open spec fn segments_step(
    st: StitchState,
    segs: Seq<Segment>,
    cx: int,
    cy: int,
    dx: int,
    k: int,
) -> StitchState
    decreases k,
{
    if k <= 0 {
        st
    } else {
        let prev = segments_step(st, segs, cx, cy, dx, k - 1);
        stitch_step(prev, placed(segs[k - 1].0, cx, cy), placed(segs[k - 1].1, cx, cy), dx)
    }
}

/// The state after the cell `(cx, cy)`.
pub open spec fn cell_step(st: StitchState, mask: Seq<bool>, dx: int, dy: int, cx: int, cy: int) -> StitchState {
    let segs = case_table(cell_code(mask, dx, dy, cx, cy));
    segments_step(st, segs, cx, cy, dx, segs.len() as int)
}

/// The state after the first `n` cells of row `cy`.
pub open spec fn row_step(st: StitchState, mask: Seq<bool>, dx: int, dy: int, cy: int, n: int) -> StitchState
    decreases n,
{
    if n <= 0 {
        st
    } else {
        cell_step(row_step(st, mask, dx, dy, cy, n - 1), mask, dx, dy, n - 1, cy)
    }
}

/// The state after the first `m` rows of cells, each of `dx + 1` cells.
pub open spec fn rows_step(mask: Seq<bool>, dx: int, dy: int, m: int) -> StitchState
    decreases m,
{
    if m <= 0 {
        initial_state()
    } else {
        row_step(rows_step(mask, dx, dy, m - 1), mask, dx, dy, m - 1, dx + 1)
    }
}

/// The isorings of a level mask: the rings closed while the `(dx + 1) * (dy + 1)`
/// cells are stitched in raster order, in the order they close.
pub open spec fn rings_of(mask: Seq<bool>, dx: int, dy: int) -> Seq<Seq<Point>> {
    rows_step(mask, dx, dy, dy + 1).done
}

/// A model fragment is a lattice polyline of at least two vertices whose end
/// keys are those of its first and last vertex.
pub open spec fn frag_model_wf(f: Frag, dx: int, dy: int) -> bool {
    &&& f.ring.len() >= 2
    &&& forall|i: int| 0 <= i < f.ring.len() ==> in_lattice(#[trigger] f.ring[i], dx, dy)
    &&& key_of(f.ring[0], dx) == f.start
    &&& key_of(f.ring[f.ring.len() - 1], dx) == f.end
}

/// The model's fragments are well formed, its key maps point at live
/// fragments with that key at the matching end, identities stay below the
/// fresh one, and every ring closed so far is closed.
pub open spec fn model_wf(st: StitchState, dx: int, dy: int) -> bool {
    &&& forall|a: nat| #[trigger] st.frags.contains_key(a) ==> frag_model_wf(st.frags[a], dx, dy) && a < st.fresh
    &&& forall|k: usize| #[trigger]
        st.by_start.contains_key(k) ==> st.frags.contains_key(st.by_start[k])
            && st.frags[st.by_start[k]].start == k
    &&& forall|k: usize| #[trigger]
        st.by_end.contains_key(k) ==> st.frags.contains_key(st.by_end[k]) && st.frags[st.by_end[k]].end
            == k
    &&& forall|i: int| 0 <= i < st.done.len() ==> closed_ring(#[trigger] st.done[i], dx, dy)
}

proof fn lemma_stitch_step_wf(st: StitchState, s: Point, e: Point, dx: int, dy: int)
    requires
        grid_fits(dx, dy),
        model_wf(st, dx, dy),
        in_lattice(s, dx, dy),
        in_lattice(e, dx, dy),
    ensures
        model_wf(stitch_step(st, s, e, dx), dx, dy),
{
    lemma_key_bounds(s, dx, dy);
    lemma_key_bounds(e, dx, dy);
    let sk = key_of(s, dx) as usize;
    let ek = key_of(e, dx) as usize;
    let next = stitch_step(st, s, e, dx);
    if st.by_end.contains_key(sk) {
        let f = st.by_end[sk];
        let ff = st.frags[f];
        if st.by_start.contains_key(ek) {
            let g = st.by_start[ek];
            let gg = st.frags[g];
            if f == g {
                lemma_key_injective(ff.ring[0], e, dx, dy);
                let r = ff.ring.push(e);
                assert(closed_ring(r, dx, dy));
                assert forall|i: int| 0 <= i < next.done.len() implies closed_ring(
                    #[trigger] next.done[i],
                    dx,
                    dy,
                ) by {
                    if i < st.done.len() {
                        assert(next.done[i] == st.done[i]);
                    }
                }
            } else {
                let m = Frag { start: ff.start, end: gg.end, ring: ff.ring + gg.ring };
                assert(m.ring[0] == ff.ring[0]);
                assert(m.ring[m.ring.len() - 1] == gg.ring[gg.ring.len() - 1]);
                assert forall|i: int| 0 <= i < m.ring.len() implies in_lattice(
                    #[trigger] m.ring[i],
                    dx,
                    dy,
                ) by {
                    if i < ff.ring.len() {
                        assert(m.ring[i] == ff.ring[i]);
                    } else {
                        assert(m.ring[i] == gg.ring[i - ff.ring.len()]);
                    }
                }
                assert(frag_model_wf(m, dx, dy));
            }
        } else {
            let nf = Frag { start: ff.start, end: ek, ring: ff.ring.push(e) };
            assert(nf.ring[0] == ff.ring[0]);
            assert forall|i: int| 0 <= i < nf.ring.len() implies in_lattice(
                #[trigger] nf.ring[i],
                dx,
                dy,
            ) by {
                if i < ff.ring.len() {
                    assert(nf.ring[i] == ff.ring[i]);
                }
            }
            assert(frag_model_wf(nf, dx, dy));
        }
    } else if st.by_start.contains_key(ek) {
        let f = st.by_start[ek];
        let ff = st.frags[f];
        let nf = Frag { start: sk, end: ff.end, ring: seq![s] + ff.ring };
        assert(nf.ring[nf.ring.len() - 1] == ff.ring[ff.ring.len() - 1]);
        assert forall|i: int| 0 <= i < nf.ring.len() implies in_lattice(
            #[trigger] nf.ring[i],
            dx,
            dy,
        ) by {
            if i > 0 {
                assert(nf.ring[i] == ff.ring[i - 1]);
            }
        }
        assert(frag_model_wf(nf, dx, dy));
    } else {
        let nf = Frag { start: sk, end: ek, ring: seq![s, e] };
        assert(frag_model_wf(nf, dx, dy));
    }
}

proof fn lemma_segments_step_wf(
    st: StitchState,
    mask: Seq<bool>,
    dx: int,
    dy: int,
    cx: int,
    cy: int,
    k: int,
)
    requires
        grid_fits(dx, dy),
        model_wf(st, dx, dy),
        0 <= cx <= dx,
        0 <= cy <= dy,
        0 <= k <= case_table(cell_code(mask, dx, dy, cx, cy)).len(),
    ensures
        model_wf(
            segments_step(st, case_table(cell_code(mask, dx, dy, cx, cy)), cx, cy, dx, k),
            dx,
            dy,
        ),
    decreases k,
{
    if k > 0 {
        let segs = case_table(cell_code(mask, dx, dy, cx, cy));
        lemma_segments_step_wf(st, mask, dx, dy, cx, cy, k - 1);
        lemma_placed_in_lattice(mask, dx, dy, cx, cy, k - 1);
        lemma_stitch_step_wf(
            segments_step(st, segs, cx, cy, dx, k - 1),
            placed(segs[k - 1].0, cx, cy),
            placed(segs[k - 1].1, cx, cy),
            dx,
            dy,
        );
    }
}

proof fn lemma_row_step_wf(st: StitchState, mask: Seq<bool>, dx: int, dy: int, cy: int, n: int)
    requires
        grid_fits(dx, dy),
        model_wf(st, dx, dy),
        0 <= cy <= dy,
        0 <= n <= dx + 1,
    ensures
        model_wf(row_step(st, mask, dx, dy, cy, n), dx, dy),
    decreases n,
{
    if n > 0 {
        lemma_row_step_wf(st, mask, dx, dy, cy, n - 1);
        let segs = case_table(cell_code(mask, dx, dy, n - 1, cy));
        lemma_segments_step_wf(
            row_step(st, mask, dx, dy, cy, n - 1),
            mask,
            dx,
            dy,
            n - 1,
            cy,
            segs.len() as int,
        );
    }
}

proof fn lemma_rows_step_wf(mask: Seq<bool>, dx: int, dy: int, m: int)
    requires
        grid_fits(dx, dy),
        0 <= m <= dy + 1,
    ensures
        model_wf(rows_step(mask, dx, dy, m), dx, dy),
    decreases m,
{
    if m > 0 {
        lemma_rows_step_wf(mask, dx, dy, m - 1);
        lemma_row_step_wf(rows_step(mask, dx, dy, m - 1), mask, dx, dy, m - 1, dx + 1);
    }
}

/// Closure: every ring that stitching a level mask hands out is closed, its
/// last vertex being its first, with at least three vertices, all on the
/// grid's lattice.
pub proof fn lemma_rings_closed(mask: Seq<bool>, dx: int, dy: int)
    requires
        grid_fits(dx, dy),
    ensures
        forall|i: int|
            0 <= i < rings_of(mask, dx, dy).len() ==> closed_ring(
                #[trigger] rings_of(mask, dx, dy)[i],
                dx,
                dy,
            ),
{
    lemma_rows_step_wf(mask, dx, dy, dy + 1);
}

pub open spec fn frag_model(f: Fragment) -> Frag {
    Frag { start: f.start, end: f.end, ring: f.ring@ }
}

/// Isoring generator to compute marching squares with isolines stitched into rings.
pub struct IsoRingBuilder {
    fragment_by_start: FxHashMap<usize, usize>,
    fragment_by_end: FxHashMap<usize, usize>,
    f: Slab<Fragment>,
    dx: usize,
    dy: usize,
    is_empty: bool,
    model: Ghost<StitchState>,
    ids: Ghost<Map<usize, nat>>,
    keys: Ghost<Map<nat, usize>>,
}

impl IsoRingBuilder {
    /// The number of columns of the grid.
    pub closed spec fn spec_dx(&self) -> usize {
        self.dx
    }

    /// The number of rows of the grid.
    pub closed spec fn spec_dy(&self) -> usize {
        self.dy
    }

    /// The two key maps point only at live fragments whose matching end has
    /// that key, and every live fragment is a well-formed lattice polyline.
    pub closed spec fn wf(&self) -> bool {
        let frags = slab_fragments(self.f);
        let by_s = self.fragment_by_start@;
        let by_e = self.fragment_by_end@;
        &&& grid_fits(self.dx as int, self.dy as int)
        &&& forall|i: usize| #[trigger]
            frags.contains_key(i) ==> frag_wf(frags[i], self.dx as int, self.dy as int)
        &&& forall|k: usize| #[trigger]
            by_s.contains_key(k) ==> frags.contains_key(by_s[k]) && frags[by_s[k]].start == k
        &&& forall|k: usize| #[trigger]
            by_e.contains_key(k) ==> frags.contains_key(by_e[k]) && frags[by_e[k]].end == k
        &&& self.refines()
        &&& self.is_empty ==> self.model@ == initial_state()
    }

    /// The state of stitching that the builder holds.
    pub closed spec fn model(&self) -> StitchState {
        self.model@
    }

    /// The slab, the key maps and the model agree, through a one-to-one
    /// pairing of slab keys and model identities.
    closed spec fn refines(&self) -> bool {
        let frags = slab_fragments(self.f);
        let m = self.model@;
        let ids = self.ids@;
        let keys = self.keys@;
        &&& ids.dom() == frags.dom()
        &&& keys.dom() == m.frags.dom()
        &&& forall|k: usize| #[trigger]
            frags.contains_key(k) ==> m.frags.contains_key(ids[k]) && keys[ids[k]] == k
                && m.frags[ids[k]] == frag_model(frags[k])
        &&& forall|a: nat| #[trigger]
            m.frags.contains_key(a) ==> frags.contains_key(keys[a]) && ids[keys[a]] == a && a
                < m.fresh
        &&& m.by_start.dom() == self.fragment_by_start@.dom()
        &&& forall|k: usize| #[trigger]
            self.fragment_by_start@.contains_key(k) ==> m.by_start[k]
                == ids[self.fragment_by_start@[k]]
        &&& m.by_end.dom() == self.fragment_by_end@.dom()
        &&& forall|k: usize| #[trigger]
            self.fragment_by_end@.contains_key(k) ==> m.by_end[k] == ids[self.fragment_by_end@[k]]
    }

    /// Constructs a new isoring generator for a grid with `dx` * `dy` dimension.
    pub fn new(dx: usize, dy: usize) -> (r: Self)
        requires
            grid_fits(dx as int, dy as int),
        ensures
            r.wf(),
            r.spec_dx() == dx,
            r.spec_dy() == dy,
            r.model() == initial_state(),
    {
        IsoRingBuilder {
            fragment_by_start: key_map_new(),
            fragment_by_end: key_map_new(),
            f: slab_new(),
            dx,
            dy,
            is_empty: true,
            model: Ghost(initial_state()),
            ids: Ghost(Map::empty()),
            keys: Ghost(Map::empty()),
        }
    }

    /// Drops every fragment under construction.
    pub fn clear(&mut self)
        requires
            old(self).wf(),
        ensures
            final(self).wf(),
            final(self).spec_dx() == old(self).spec_dx(),
            final(self).spec_dy() == old(self).spec_dy(),
            final(self).model() == initial_state(),
    {
        slab_clear(&mut self.f);
        key_map_clear(&mut self.fragment_by_end);
        key_map_clear(&mut self.fragment_by_start);
        self.is_empty = true;
        self.model = Ghost(initial_state());
        self.ids = Ghost(Map::empty());
        self.keys = Ghost(Map::empty());
        assert(self.fragment_by_start@.dom() =~= Set::empty());
        assert(self.fragment_by_end@.dom() =~= Set::empty());
        assert(slab_fragments(self.f).dom() =~= Set::empty());
    }

    fn index(&self, p: &Point) -> (r: usize)
        requires
            grid_fits(self.dx as int, self.dy as int),
            in_lattice(*p, self.dx as int, self.dy as int),
        ensures
            r as int == key_of(*p, self.dx as int),
    {
        proof {
            lemma_key_bounds(*p, self.dx as int, self.dy as int);
        }
        p.x as usize + p.y as usize * (2 * self.dx + 2)
    }

    /// Joins the segment `start -> end` to the fragments: it closes a fragment
    /// into a ring, joins two fragments into one, extends one at either end, or
    /// starts a new one.
    fn stitch(&mut self, start: Point, end: Point, result: &mut Vec<Ring>) -> (r: Result<(), Error>)
        requires
            old(self).wf(),
            !old(self).is_empty,
            in_lattice(start, old(self).dx as int, old(self).dy as int),
            in_lattice(end, old(self).dx as int, old(self).dy as int),
            all_closed(old(result)@, old(self).dx as int, old(self).dy as int),
            views(old(result)@) == old(self).model().done,
        ensures
            final(self).wf(),
            final(self).dx == old(self).dx,
            final(self).dy == old(self).dy,
            !final(self).is_empty,
            all_closed(final(result)@, old(self).dx as int, old(self).dy as int),
            final(self).model() == stitch_step(old(self).model(), start, end, old(self).dx as int),
            views(final(result)@) == final(self).model().done,
            r is Ok,
    {
        let ghost dx = self.dx as int;
        let ghost dy = self.dy as int;
        let ghost m0 = self.model@;
        let ghost ids0 = self.ids@;
        let ghost keys0 = self.keys@;
        let ghost fr0 = slab_fragments(self.f);
        let ghost bs0 = self.fragment_by_start@;
        let ghost be0 = self.fragment_by_end@;
        let ghost res0 = result@;
        let ghost next = stitch_step(m0, start, end, dx);
        let start_index = self.index(&start);
        let end_index = self.index(&end);
        if key_map_contains(&self.fragment_by_end, start_index) {
            if key_map_contains(&self.fragment_by_start, end_index) {
                let f_ix = match key_map_remove(&mut self.fragment_by_end, start_index) {
                    Some(i) => i,
                    None => return Err(Error::new(ErrorKind::Unexpected)),
                };
                let g_ix = match key_map_remove(&mut self.fragment_by_start, end_index) {
                    Some(i) => i,
                    None => return Err(Error::new(ErrorKind::Unexpected)),
                };
                if f_ix == g_ix {
                    let mut f = match slab_try_remove(&mut self.f, f_ix) {
                        Some(f) => f,
                        None => return Err(Error::new(ErrorKind::Unexpected)),
                    };
                    proof {
                        lemma_key_injective(f.ring@[0], end, dx, dy);
                    }
                    let ghost a = ids0[f_ix];
                    f.ring.push(end);
                    proof {
                        lemma_views_push(result@, f.ring);
                    }
                    result.push(f.ring);
                    proof {
                        self.model = Ghost(next);
                        self.ids = Ghost(ids0.remove(f_ix));
                        self.keys = Ghost(keys0.remove(a));
                        assert(self.ids@.dom() =~= slab_fragments(self.f).dom());
                        assert(self.keys@.dom() =~= next.frags.dom());
                        assert(next.by_start.dom() =~= self.fragment_by_start@.dom());
                        assert(next.by_end.dom() =~= self.fragment_by_end@.dom());
                    }
                    assert(self.wf());
                } else {
                    let mut f = match slab_try_remove(&mut self.f, f_ix) {
                        Some(f) => f,
                        None => return Err(Error::new(ErrorKind::Unexpected)),
                    };
                    let mut g = match slab_try_remove(&mut self.f, g_ix) {
                        Some(g) => g,
                        None => return Err(Error::new(ErrorKind::Unexpected)),
                    };
                    let ghost a = ids0[f_ix];
                    let ghost b = ids0[g_ix];
                    let ghost fr = f.ring@;
                    let ghost gr = g.ring@;
                    f.ring.append(&mut g.ring);
                    let f_start = f.start;
                    let g_end = g.end;
                    let merged = Fragment { start: f_start, end: g_end, ring: f.ring };
                    assert(merged.ring@ == fr + gr);
                    assert(merged.ring@[0] == fr[0]);
                    assert(merged.ring@[merged.ring@.len() - 1] == gr[gr.len() - 1]);
                    assert(forall|i: int|
                        0 <= i < merged.ring@.len() ==> in_lattice(
                            #[trigger] merged.ring@[i],
                            dx,
                            dy,
                        )) by {
                        assert forall|i: int| 0 <= i < merged.ring@.len() implies in_lattice(
                            #[trigger] merged.ring@[i],
                            dx,
                            dy,
                        ) by {
                            if i < fr.len() {
                                assert(merged.ring@[i] == fr[i]);
                            } else {
                                assert(merged.ring@[i] == gr[i - fr.len()]);
                            }
                        }
                    }
                    let ix = slab_insert(&mut self.f, merged);
                    key_map_insert(&mut self.fragment_by_start, f_start, ix);
                    key_map_insert(&mut self.fragment_by_end, g_end, ix);
                    proof {
                        let fresh = m0.fresh;
                        self.model = Ghost(next);
                        self.ids = Ghost(ids0.remove(f_ix).remove(g_ix).insert(ix, fresh));
                        self.keys = Ghost(keys0.remove(a).remove(b).insert(fresh, ix));
                        assert(self.ids@.dom() =~= slab_fragments(self.f).dom());
                        assert(self.keys@.dom() =~= next.frags.dom());
                        assert(next.by_start.dom() =~= self.fragment_by_start@.dom());
                        assert(next.by_end.dom() =~= self.fragment_by_end@.dom());
                    }
                    assert(self.wf());
                }
            } else {
                let f_ix = match key_map_remove(&mut self.fragment_by_end, start_index) {
                    Some(i) => i,
                    None => return Err(Error::new(ErrorKind::Unexpected)),
                };
                let empty = Fragment { start: 0, end: 0, ring: Vec::new() };
                let mut f = match slab_replace(&mut self.f, f_ix, empty) {
                    Some(f) => f,
                    None => return Err(Error::new(ErrorKind::Unexpected)),
                };
                let ghost fr = f.ring@;
                f.ring.push(end);
                f.end = end_index;
                assert(f.ring@[0] == fr[0]);
                assert(forall|i: int|
                    0 <= i < f.ring@.len() ==> in_lattice(#[trigger] f.ring@[i], dx, dy)) by {
                    assert forall|i: int| 0 <= i < f.ring@.len() implies in_lattice(
                        #[trigger] f.ring@[i],
                        dx,
                        dy,
                    ) by {
                        if i < fr.len() {
                            assert(f.ring@[i] == fr[i]);
                        }
                    }
                }
                let _ = slab_replace(&mut self.f, f_ix, f);
                key_map_insert(&mut self.fragment_by_end, end_index, f_ix);
                proof {
                    self.model = Ghost(next);
                    assert(self.ids@.dom() =~= slab_fragments(self.f).dom());
                    assert(self.keys@.dom() =~= next.frags.dom());
                    assert(next.by_start.dom() =~= self.fragment_by_start@.dom());
                    assert(next.by_end.dom() =~= self.fragment_by_end@.dom());
                }
                assert(self.wf());
            }
        } else if key_map_contains(&self.fragment_by_start, end_index) {
            let f_ix = match key_map_remove(&mut self.fragment_by_start, end_index) {
                Some(i) => i,
                None => return Err(Error::new(ErrorKind::Unexpected)),
            };
            let empty = Fragment { start: 0, end: 0, ring: Vec::new() };
            let mut f = match slab_replace(&mut self.f, f_ix, empty) {
                Some(f) => f,
                None => return Err(Error::new(ErrorKind::Unexpected)),
            };
            let ghost fr = f.ring@;
            f.ring.insert(0, start);
            f.start = start_index;
            assert(f.ring@ == seq![start] + fr);
            assert(f.ring@[f.ring@.len() - 1] == fr[fr.len() - 1]);
            assert(forall|i: int|
                0 <= i < f.ring@.len() ==> in_lattice(#[trigger] f.ring@[i], dx, dy)) by {
                assert forall|i: int| 0 <= i < f.ring@.len() implies in_lattice(
                    #[trigger] f.ring@[i],
                    dx,
                    dy,
                ) by {
                    if i > 0 {
                        assert(f.ring@[i] == fr[i - 1]);
                    }
                }
            }
            let _ = slab_replace(&mut self.f, f_ix, f);
            key_map_insert(&mut self.fragment_by_start, start_index, f_ix);
            proof {
                self.model = Ghost(next);
                assert(self.ids@.dom() =~= slab_fragments(self.f).dom());
                assert(self.keys@.dom() =~= next.frags.dom());
                assert(next.by_start.dom() =~= self.fragment_by_start@.dom());
                assert(next.by_end.dom() =~= self.fragment_by_end@.dom());
            }
            assert(self.wf());
        } else {
            let ring = vec![start, end];
            assert(ring@ == seq![start, end]);
            let ix = slab_insert(
                &mut self.f,
                Fragment { start: start_index, end: end_index, ring },
            );
            key_map_insert(&mut self.fragment_by_start, start_index, ix);
            key_map_insert(&mut self.fragment_by_end, end_index, ix);
            proof {
                let fresh = m0.fresh;
                self.model = Ghost(next);
                self.ids = Ghost(ids0.insert(ix, fresh));
                self.keys = Ghost(keys0.insert(fresh, ix));
                assert(self.ids@.dom() =~= slab_fragments(self.f).dom());
                assert(self.keys@.dom() =~= next.frags.dom());
                assert(next.by_start.dom() =~= self.fragment_by_start@.dom());
                assert(next.by_end.dom() =~= self.fragment_by_end@.dom());
            }
            assert(self.wf());
        }
        Ok(())
    }

    /// Computes the isorings of the grid for one level mask (`mask[y * dx + x]`
    /// is whether the sample at column `x`, row `y` is at or above the
    /// threshold): the inside of each ring is where the samples are at or above
    /// it. Whatever a former call left behind is dropped first.
    pub fn compute(&mut self, mask: &Vec<bool>) -> (r: Result<Vec<Ring>, Error>)
        requires
            old(self).wf(),
        ensures
            final(self).wf(),
            final(self).spec_dx() == old(self).spec_dx(),
            final(self).spec_dy() == old(self).spec_dy(),
            mask@.len() == old(self).spec_dx() * old(self).spec_dy() <==> r is Ok,
            match r {
                Ok(rings) => {
                    &&& all_closed(rings@, old(self).spec_dx() as int, old(self).spec_dy() as int)
                    &&& views(rings@) == rings_of(
                        mask@,
                        old(self).spec_dx() as int,
                        old(self).spec_dy() as int,
                    )
                },
                Err(e) => e.kind == ErrorKind::BadDimension,
            },
    {
        proof {
            lemma_area_fits(self.dx as int, self.dy as int);
        }
        if mask.len() != self.dx * self.dy {
            return Err(Error::new(ErrorKind::BadDimension));
        }
        if !self.is_empty {
            self.clear();
        }
        self.is_empty = false;
        let ghost m = mask@;
        let dx = self.dx;
        let dy = self.dy;
        let mut result: Vec<Ring> = Vec::new();
        assert(views(result@) =~= initial_state().done);
        let mut cy: usize = 0;
        while cy <= dy
            invariant
                self.wf(),
                self.dx == dx,
                self.dy == dy,
                !self.is_empty,
                m == mask@,
                mask@.len() == dx * dy,
                cy <= dy + 1,
                all_closed(result@, dx as int, dy as int),
                self.model() == rows_step(m, dx as int, dy as int, cy as int),
                views(result@) == self.model().done,
            decreases dy + 1 - cy,
        {
            let ghost row0 = rows_step(m, dx as int, dy as int, cy as int);
            let mut cx: usize = 0;
            while cx <= dx
                invariant
                    self.wf(),
                    self.dx == dx,
                    self.dy == dy,
                    !self.is_empty,
                    m == mask@,
                    cy <= dy,
                    cx <= dx + 1,
                    mask@.len() == dx * dy,
                    all_closed(result@, dx as int, dy as int),
                    row0 == rows_step(m, dx as int, dy as int, cy as int),
                    self.model() == row_step(row0, m, dx as int, dy as int, cy as int, cx as int),
                    views(result@) == self.model().done,
                decreases dx + 1 - cx,
            {
                let ghost cell0 = self.model();
                let code = corner_code(mask, dx, dy, cx, cy);
                let segments = case_segments(code);
                let mut k: usize = 0;
                while k < segments.len()
                    invariant
                        self.wf(),
                        self.dx == dx,
                        self.dy == dy,
                        !self.is_empty,
                        cx <= dx,
                        cy <= dy,
                        k <= segments@.len(),
                        segments@ == case_table(cell_code(m, dx as int, dy as int, cx as int, cy as int)),
                        all_closed(result@, dx as int, dy as int),
                        self.model() == segments_step(cell0, segments@, cx as int, cy as int, dx as int, k as int),
                        views(result@) == self.model().done,
                    decreases segments.len() - k,
                {
                    let seg: Segment = segments[k];
                    proof {
                        lemma_placed_in_lattice(m, dx as int, dy as int, cx as int, cy as int, k as int);
                    }
                    let start = Point {
                        x: (2 * cx as u64 + seg.0.x as u64 - 2) as u32,
                        y: (2 * cy as u64 + seg.0.y as u64 - 2) as u32,
                    };
                    let end = Point {
                        x: (2 * cx as u64 + seg.1.x as u64 - 2) as u32,
                        y: (2 * cy as u64 + seg.1.y as u64 - 2) as u32,
                    };
                    assert(start == placed(seg.0, cx as int, cy as int));
                    assert(end == placed(seg.1, cx as int, cy as int));
                    match self.stitch(start, end, &mut result) {
                        Ok(()) => {},
                        Err(e) => return Err(e),
                    }
                    k = k + 1;
                }
                cx = cx + 1;
            }
            cy = cy + 1;
        }
        self.is_empty = false;
        Ok(result)
    }
}

} // verus!

verus! {

/// Computes the isorings of a `dx * dy` grid for one level mask (see
/// [`IsoRingBuilder::compute`]).
pub fn contour_rings(mask: &Vec<bool>, dx: usize, dy: usize) -> (r: Result<Vec<Ring>, Error>)
    requires
        grid_fits(dx as int, dy as int),
    ensures
        mask@.len() == dx * dy <==> r is Ok,
        match r {
            Ok(rings) => {
                &&& all_closed(rings@, dx as int, dy as int)
                &&& views(rings@) == rings_of(mask@, dx as int, dy as int)
            },
            Err(e) => e.kind == ErrorKind::BadDimension,
        },
{
    let mut isoring = IsoRingBuilder::new(dx, dy);
    isoring.compute(mask)
}

} // verus!
