//! Per-agent state and the per-tick update rule: neighbour discovery over
//! the grid snapshot, bounded top-K selection by toroidal distance, the
//! pairwise attraction/repulsion force model, integration, gravity wells,
//! and the periodic boundary wrap.
//!
//! The canonical rule set here: species is a scalar hue; the aggregate
//! force is scaled by a flat `max_acc` and the velocity is then clamped to
//! `max_acc` (the `limit` variant); the taper exponent is two; the top-K
//! bound is configurable, zero meaning unlimited. Aggregate force
//! components saturate at `WANTED_SAT`, a fixed-point range guard.

use vstd::prelude::*;
use crate::affinity::{AffinityMatrix, HUE_LIMIT};
use crate::fp::{
    abs, clamp_spec, exp_fp, exp_fp_spec, fp_mul, is_sqrt, isqrt, lemma_fp_mul_bound,
    lemma_mul_abs_bound, lemma_sqrt_unique, lemma_tdiv_abs, mul_fp, sqrt_i, tdiv, clamp_i64,
    SCALE,
};
use crate::latex::{filter_keep, Entry, HasPosition, Latex2D};
use crate::vec2::{
    dist_mod_spec, dist_mod_sq_spec, lemma_abs_sq, lemma_sq_nonneg, limit_axis, mag_sq_of,
    norm_axis, rel_x_spec, rel_y_spec, Vec2,
};

verus! {

/// Interaction cutoff distance.
pub const MAX_DIST: i64 = 120_000;

/// Preferred separation between attracting agents.
pub const WANTED_DP_LEN: i64 = 4_000;

/// Default acceleration scale.
pub const MAXACC: i64 = 5;

/// Default drag.
pub const DRAG: i64 = 20;

/// Default top-K bound on retained neighbours.
pub const KEEP: usize = 3;

/// Largest world extent the engine accepts.
pub const WORLD_CAP: i64 = 100_000_000;

/// Velocity components stay within this bound across ticks.
pub const VEL_LIMIT: i64 = 20_000_000;

/// Largest `max_acc` accepted.
pub const ACC_LIMIT: i64 = 100_000;

/// Smallest drag accepted; a positive floor keeps velocities bounded.
pub const DRAG_MIN: i64 = 1;

/// Largest gravity softening coefficient accepted.
pub const GRAV_LIMIT: i64 = 10_000;

/// Largest view range accepted.
pub const VIEW_LIMIT: i64 = 100_000_000;

/// Bound on the inert shape parameters.
pub const PARAM_LIMIT: i64 = 100_000_000;

/// Aggregate force components saturate here.
pub const WANTED_SAT: i64 = 4_000_000;

/// Most gravity wells a tick accepts.
pub const GRAVITY_MAX_POINTS: usize = 16;

/// Per-component bound on one pairwise force contribution.
pub const CONTRIB_LIMIT: i64 = 100_000_000;

#[derive(Clone, Copy, PartialEq, Eq, Structural, Debug)]
pub struct Agent {
    pub id: usize,
    pub pos: Vec2,
    pub vel: Vec2,
    pub radius: i64,
    pub view_range: i64,
    pub pos_w: i64,
    pub vel_w: i64,
    pub drag: i64,
    pub max_acc: i64,
    pub weirdness: i64,
    pub s_in_range: usize,
    pub s_vel: i64,
    pub color: i64,
}

/// The read-only context of one tick: world size, gravity wells with their
/// softening coefficient, the affinity matrix and the top-K bound.
pub struct Update {
    pub w: i64,
    pub h: i64,
    pub gravity_f: i64,
    pub gravity: Vec<Vec2>,
    pub matrix: AffinityMatrix,
    pub keep: usize,
}

/// An agent whose state the tick accepts: inside the world, bounded
/// velocity and parameters, hue in range.
pub open spec fn agent_ok(a: Agent, w: int, h: int) -> bool {
    &&& 0 <= a.pos.x < w
    &&& 0 <= a.pos.y < h
    &&& a.vel.in_bounds(VEL_LIMIT as int)
    &&& 0 <= a.color < HUE_LIMIT
    &&& 1 <= a.view_range <= VIEW_LIMIT
    &&& 0 <= a.max_acc <= ACC_LIMIT
    &&& DRAG_MIN <= a.drag <= SCALE
    &&& abs(a.radius as int) <= PARAM_LIMIT as int
    &&& abs(a.pos_w as int) <= PARAM_LIMIT as int
    &&& abs(a.vel_w as int) <= PARAM_LIMIT as int
    &&& abs(a.weirdness as int) <= PARAM_LIMIT as int
    &&& abs(a.s_vel as int) <= PARAM_LIMIT as int
}

/// A tick context the engine accepts.
pub open spec fn update_ok(u: Update) -> bool {
    &&& 1 <= u.w <= WORLD_CAP
    &&& 1 <= u.h <= WORLD_CAP
    &&& 0 <= u.gravity_f <= GRAV_LIMIT
    &&& u.gravity@.len() <= GRAVITY_MAX_POINTS
    &&& forall|i: int|
        0 <= i < u.gravity@.len() ==> (#[trigger] u.gravity@[i]).in_bounds(WORLD_CAP as int)
    &&& u.matrix.wf()
}

/// Every agent of the snapshot is acceptable.
pub open spec fn snapshot_ok(snap: Seq<Agent>, w: int, h: int) -> bool {
    forall|i: int| 0 <= i < snap.len() ==> agent_ok(#[trigger] snap[i], w, h)
}

/// Every element the grid stores indexes into the snapshot.
pub open spec fn grid_ids_ok(g: Latex2D, n: int) -> bool {
    forall|k: (i16, i16), i: int|
        #![trigger g.contents()[k][i]]
        g.contents().dom().contains(k) && 0 <= i < g.contents()[k].len()
            ==> g.contents()[k][i].0 < n
}

/// The first index of the sorted list whose distance exceeds `d`; the
/// insertion point that keeps the list ordered and stable.
pub open spec fn find_slot(top: Seq<(int, Entry)>, d: int) -> int
    decreases top.len(),
{
    if top.len() == 0 {
        0
    } else if top[0].0 > d {
        0
    } else {
        1 + find_slot(top.drop_first(), d)
    }
}

/// Insert a neighbour into the sorted bounded list: place it at its slot,
/// then evict the tail when a positive bound `keep` is exceeded.
pub open spec fn insert_bounded(top: Seq<(int, Entry)>, d: int, t: Entry, keep: int) -> Seq<
    (int, Entry),
> {
    let ins = top.insert(find_slot(top, d), (d, t));
    if keep > 0 && ins.len() > keep {
        ins.drop_last()
    } else {
        ins
    }
}

/// One neighbour through the selection: skipped if it is the agent itself
/// or its species affinity is zero, otherwise filed by squared toroidal
/// distance.
pub open spec fn topk_step(
    a: Agent,
    m: AffinityMatrix,
    keep: int,
    w: int,
    h: int,
    snap: Seq<Agent>,
    top: Seq<(int, Entry)>,
    t: Entry,
) -> Seq<(int, Entry)> {
    if t.0 == a.id {
        top
    } else if m.affinity_spec(a.color as int, snap[t.0 as int].color as int) == 0 {
        top
    } else {
        insert_bounded(top, dist_mod_sq_spec(a.pos, Vec2 { x: t.1, y: t.2 }, w, h), t, keep)
    }
}

/// The selection state after processing `ns[j..]`, last entry first, as
/// popping from the end visits them.
pub open spec fn topk_suffix(
    a: Agent,
    m: AffinityMatrix,
    keep: int,
    w: int,
    h: int,
    snap: Seq<Agent>,
    ns: Seq<Entry>,
    j: int,
) -> Seq<(int, Entry)>
    decreases ns.len() - j,
{
    if j < 0 || j >= ns.len() {
        Seq::empty()
    } else {
        topk_step(a, m, keep, w, h, snap, topk_suffix(a, m, keep, w, h, snap, ns, j + 1), ns[j])
    }
}

/// How many entries of `ns[j..]` are other agents.
pub open spec fn count_others(ns: Seq<Entry>, id: int, j: int) -> int
    decreases ns.len() - j,
{
    if j < 0 || j >= ns.len() {
        0
    } else {
        count_others(ns, id, j + 1) + if ns[j].0 != id {
            1int
        } else {
            0int
        }
    }
}

/// One normalized direction component.
pub open spec fn dir_axis(dp: int, magsq: int) -> int {
    norm_axis(dp, SCALE as int, sqrt_i(magsq))
}

/// The attraction magnitude toward a neighbour at distance `dist` with
/// affinity `f > 0`: spring toward the preferred separation, tapered
/// quadratically to zero at the cutoff.
pub open spec fn attract_factor(dist: int, f: int) -> int {
    let taper = SCALE - tdiv(dist * SCALE, MAX_DIST as int);
    fp_mul(fp_mul(tdiv(7 * (dist - WANTED_DP_LEN), 10), f), fp_mul(taper, taper))
}

/// The repulsion magnitude from a neighbour at distance `dist` with
/// affinity `f < 0`: exponentially decaying push, tapered like attraction.
pub open spec fn repulse_factor(dist: int, f: int) -> int {
    let taper = SCALE - tdiv(dist * SCALE, MAX_DIST as int);
    let denom = 100 + exp_fp_spec(tdiv(10 * SCALE * dist, MAX_DIST as int));
    fp_mul(tdiv(100 * SCALE * f, denom), fp_mul(taper, taper))
}

/// The force one retained neighbour contributes, by component. Zero
/// beyond the cutoff, for zero affinity, and for a coincident neighbour
/// (whose direction cannot be normalized).
pub open spec fn pair_contrib(
    a: Agent,
    m: AffinityMatrix,
    snap: Seq<Agent>,
    w: int,
    h: int,
    d2: int,
    t: Entry,
) -> (int, int) {
    let dist = sqrt_i(d2);
    if dist > MAX_DIST {
        (0, 0)
    } else {
        let f = m.affinity_spec(a.color as int, snap[t.0 as int].color as int);
        if f == 0 {
            (0, 0)
        } else {
            let tv = Vec2 { x: t.1, y: t.2 };
            let dpx = rel_x_spec(a.pos, tv, w) - a.pos.x;
            let dpy = rel_y_spec(a.pos, tv, h) - a.pos.y;
            let factor = if f > 0 {
                attract_factor(dist, f)
            } else {
                repulse_factor(dist, f)
            };
            (fp_mul(dir_axis(dpx, d2), factor), fp_mul(dir_axis(dpy, d2), factor))
        }
    }
}

/// Saturating accumulation of force components.
pub open spec fn addsat(acc: (int, int), c: (int, int)) -> (int, int) {
    (clamp_spec(acc.0 + c.0, WANTED_SAT as int), clamp_spec(acc.1 + c.1, WANTED_SAT as int))
}

/// The aggregate force of the first `j` retained neighbours.
pub open spec fn force_pre(
    a: Agent,
    m: AffinityMatrix,
    snap: Seq<Agent>,
    w: int,
    h: int,
    top: Seq<(int, Entry)>,
    j: int,
) -> (int, int)
    decreases j,
{
    if j <= 0 {
        (0, 0)
    } else {
        addsat(
            force_pre(a, m, snap, w, h, top, j - 1),
            pair_contrib(a, m, snap, w, h, top[j - 1].0, top[j - 1].1),
        )
    }
}

/// The aggregate force an agent feels from its neighbour list.
pub open spec fn wanted_of(
    a: Agent,
    m: AffinityMatrix,
    keep: int,
    w: int,
    h: int,
    snap: Seq<Agent>,
    ns: Seq<Entry>,
) -> (int, int) {
    let top = topk_suffix(a, m, keep, w, h, snap, ns, 0);
    force_pre(a, m, snap, w, h, top, top.len() as int)
}

/// The velocity after the aggregate force is applied: scaled by the flat
/// `max_acc`, added, then clamped to `max_acc`. A zero force leaves the
/// velocity untouched.
pub open spec fn vel_after_force(a: Agent, wanted: (int, int)) -> (int, int) {
    if wanted.0 == 0 && wanted.1 == 0 {
        (a.vel.x as int, a.vel.y as int)
    } else {
        let vx = a.vel.x + fp_mul(wanted.0, a.max_acc as int);
        let vy = a.vel.y + fp_mul(wanted.1, a.max_acc as int);
        let m = sqrt_i(vx * vx + vy * vy);
        (limit_axis(vx, a.max_acc as int, m), limit_axis(vy, a.max_acc as int, m))
    }
}

/// The neighbour list the agent sees: the exhaustive query around its
/// position with its view range.
pub open spec fn neighbours_of(a: Agent, g: Latex2D, w: int, h: int) -> Seq<Entry> {
    filter_keep(g.scan_seq(), a.pos, a.view_range as int, w, h)
}

/// Velocity after the drag and the gravity wells `gs[..j]`: each well
/// pulls with an inverse-square-like force softened near its centre.
pub open spec fn gravity_fold(
    gs: Seq<Vec2>,
    vel: (int, int),
    pos: (int, int),
    k: int,
    j: int,
) -> (int, int)
    decreases j,
{
    if j <= 0 {
        vel
    } else {
        let prev = gravity_fold(gs, vel, pos, k, j - 1);
        let gx = gs[j - 1].x - pos.0;
        let gy = gs[j - 1].y - pos.1;
        let denom = 100 * SCALE as int + tdiv(gx * gx + gy * gy, SCALE as int);
        (prev.0 + tdiv(gx * k, denom), prev.1 + tdiv(gy * k, denom))
    }
}

/// The insertion slot lies within the list.
proof fn lemma_find_slot_range(top: Seq<(int, Entry)>, d: int)
    ensures
        0 <= find_slot(top, d) <= top.len(),
    decreases top.len(),
{
    if top.len() != 0 && !(top[0].0 > d) {
        lemma_find_slot_range(top.drop_first(), d);
    }
}

/// The taper is a fraction of one.
proof fn lemma_taper_range(dist: int)
    requires
        0 <= dist <= MAX_DIST as int,
    ensures
        0 <= SCALE - tdiv(dist * SCALE, MAX_DIST as int) <= SCALE,
        0 <= fp_mul(
            SCALE - tdiv(dist * SCALE, MAX_DIST as int),
            SCALE - tdiv(dist * SCALE, MAX_DIST as int),
        ) <= SCALE,
{
    let t = tdiv(dist * SCALE, MAX_DIST as int);
    vstd::arithmetic::div_mod::lemma_div_is_ordered(dist * SCALE, MAX_DIST as int * SCALE,
        MAX_DIST as int);
    lemma_tdiv_abs(dist * SCALE, MAX_DIST as int);
    assert(MAX_DIST as int * SCALE / (MAX_DIST as int) == SCALE);
    let taper = SCALE - t;
    lemma_fp_mul_bound(taper, taper, SCALE as int, SCALE as int);
    lemma_mul_abs_bound(taper, taper, SCALE as int, SCALE as int);
    lemma_sq_nonneg(taper);
    lemma_tdiv_abs(taper * taper, SCALE as int);
}

/// The fixed-point exponential stays within its range, at spec level.
proof fn lemma_exp_spec_bounds(x: int)
    requires
        0 <= x <= 10 * SCALE as int,
    ensures
        SCALE as int <= exp_fp_spec(x) <= 100_000_000,
{
    let n = x / 1000;
    let r = x % 1000;
    crate::fp::lemma_mod_range(x, 1000);
    assert(0 <= r < 1000);
    let e = crate::fp::exp_int_spec(n);
    assert(1000 <= e <= 22026465);
    lemma_mul_abs_bound(r, r, 1000, 1000);
    lemma_sq_nonneg(r);
    lemma_tdiv_abs(r * r, 2000);
    lemma_tdiv_abs(r * r, 1000);
    lemma_tdiv_abs(tdiv(r * r, 1000) * r, 6000);
    lemma_mul_abs_bound(tdiv(r * r, 1000), r, 1000, 1000);
    let poly = crate::fp::exp_poly_spec(r);
    assert(1000 <= poly <= 3700);
    assert(e * poly >= 1000 * 1000) by (nonlinear_arith)
        requires
            e >= 1000,
            poly >= 1000,
        ;
    lemma_mul_abs_bound(e, poly, 22026465, 3700);
    lemma_tdiv_abs(e * poly, 1000);
    assert(exp_fp_spec(x) == tdiv(e * poly, 1000));
    assert(tdiv(e * poly, 1000) >= 1000) by (nonlinear_arith)
        requires
            e * poly >= 1000 * 1000,
        ;
}

/// Both force factors stay within the contribution bound.
proof fn lemma_factor_bounds(dist: int, f: int)
    requires
        0 <= dist <= MAX_DIST as int,
        abs(f) <= crate::affinity::AFFINITY_LIMIT as int,
    ensures
        abs(attract_factor(dist, f)) <= CONTRIB_LIMIT as int,
        abs(repulse_factor(dist, f)) <= CONTRIB_LIMIT as int,
{
    lemma_taper_range(dist);
    let taper = SCALE - tdiv(dist * SCALE, MAX_DIST as int);
    let taper2 = fp_mul(taper, taper);
    // attraction
    let t1 = tdiv(7 * (dist - WANTED_DP_LEN), 10);
    lemma_tdiv_abs(7 * (dist - WANTED_DP_LEN), 10);
    assert(abs(t1) <= 86800);
    lemma_fp_mul_bound(t1, f, 86800, crate::affinity::AFFINITY_LIMIT as int);
    let t2 = fp_mul(t1, f);
    lemma_fp_mul_bound(t2, taper2, 86800000, SCALE as int);
    // repulsion
    let x = tdiv(10 * SCALE * dist, MAX_DIST as int);
    lemma_tdiv_abs(10 * SCALE * dist, MAX_DIST as int);
    assert(10 * SCALE * dist <= 10 * SCALE * MAX_DIST) by (nonlinear_arith)
        requires
            dist <= MAX_DIST as int,
        ;
    vstd::arithmetic::div_mod::lemma_div_is_ordered(10 * SCALE * dist,
        10 * SCALE * MAX_DIST as int, MAX_DIST as int);
    assert(10 * SCALE as int * MAX_DIST as int / (MAX_DIST as int) == 10 * SCALE);
    lemma_exp_spec_bounds(x);
    let denom = 100 + exp_fp_spec(x);
    let num = 100 * SCALE as int * f;
    lemma_mul_abs_bound(100 * SCALE as int, f, 100 * SCALE as int,
        crate::affinity::AFFINITY_LIMIT as int);
    lemma_tdiv_abs(num, denom);
    vstd::arithmetic::div_mod::lemma_div_is_ordered_by_denominator(abs(num), 1100, denom);
    assert(abs(num) / 1100 <= 100_000_000) by (nonlinear_arith)
        requires
            abs(num) <= 100_000_000_000,
        ;
    let q = tdiv(num, denom);
    lemma_fp_mul_bound(q, taper2, 100_000_000, SCALE as int);
}

/// A normalized direction component is at most one.
proof fn lemma_dir_axis_bound(dpx: int, dpy: int, d2: int)
    requires
        d2 == mag_sq_of(dpx, dpy),
    ensures
        abs(dir_axis(dpx, d2)) <= SCALE as int,
        abs(dir_axis(dpy, d2)) <= SCALE as int,
{
    lemma_sq_nonneg(dpx);
    lemma_sq_nonneg(dpy);
    crate::fp::lemma_sqrt_exists(d2 as nat);
    let m = sqrt_i(d2);
    crate::vec2::lemma_component_le_mag(dpx, dpy, m);
    if m > 0 {
        lemma_tdiv_abs(dpx * SCALE, m);
        lemma_tdiv_abs(dpy * SCALE, m);
        assert(abs(dpx * SCALE) / m <= SCALE as int) by (nonlinear_arith)
            requires
                abs(dpx) <= m,
                m >= 1,
            ;
        assert(abs(dpy * SCALE) / m <= SCALE as int) by (nonlinear_arith)
            requires
                abs(dpy) <= m,
                m >= 1,
            ;
    } else {
        assert(m == 0);
        assert(abs(dpx) <= 0 && abs(dpy) <= 0);
    }
}

/// One pairwise contribution stays within the contribution bound.
proof fn lemma_contrib_bound(
    a: Agent,
    m: AffinityMatrix,
    snap: Seq<Agent>,
    w: int,
    h: int,
    d2: int,
    t: Entry,
)
    requires
        m.wf(),
        0 <= a.color < HUE_LIMIT,
        0 <= t.0 < snap.len(),
        0 <= snap[t.0 as int].color < HUE_LIMIT,
        d2 == dist_mod_sq_spec(a.pos, Vec2 { x: t.1, y: t.2 }, w, h),
    ensures
        abs(pair_contrib(a, m, snap, w, h, d2, t).0) <= CONTRIB_LIMIT as int,
        abs(pair_contrib(a, m, snap, w, h, d2, t).1) <= CONTRIB_LIMIT as int,
{
    let tv = Vec2 { x: t.1, y: t.2 };
    let dpx = rel_x_spec(a.pos, tv, w) - a.pos.x;
    let dpy = rel_y_spec(a.pos, tv, h) - a.pos.y;
    assert(d2 == mag_sq_of(dpx, dpy)) by (nonlinear_arith)
        requires
            d2 == mag_sq_of(
                a.pos.x - rel_x_spec(a.pos, tv, w),
                a.pos.y - rel_y_spec(a.pos, tv, h),
            ),
            dpx == rel_x_spec(a.pos, tv, w) - a.pos.x,
            dpy == rel_y_spec(a.pos, tv, h) - a.pos.y,
        ;
    lemma_sq_nonneg(dpx);
    lemma_sq_nonneg(dpy);
    crate::fp::lemma_sqrt_exists(d2 as nat);
    let dist = sqrt_i(d2);
    if dist <= MAX_DIST {
        let f = m.affinity_spec(a.color as int, snap[t.0 as int].color as int);
        if f != 0 {
            crate::affinity::lemma_bucket_total(m, a.color as int);
            crate::affinity::lemma_bucket_total(m, snap[t.0 as int].color as int);
            let ba = m.bucket_spec(a.color as int);
            let bb = m.bucket_spec(snap[t.0 as int].color as int);
            assert(0 <= ba * m.n + bb < m.n * m.n) by (nonlinear_arith)
                requires
                    0 <= ba < m.n,
                    0 <= bb < m.n,
                ;
            assert(abs(m.entries@[ba * m.n + bb] as int)
                <= crate::affinity::AFFINITY_LIMIT as int);
            assert(abs(f) <= crate::affinity::AFFINITY_LIMIT as int);
            lemma_dir_axis_bound(dpx, dpy, d2);
            lemma_factor_bounds(dist, f);
            let factor = if f > 0 {
                attract_factor(dist, f)
            } else {
                repulse_factor(dist, f)
            };
            lemma_fp_mul_bound(dir_axis(dpx, d2), factor, SCALE as int, CONTRIB_LIMIT as int);
            lemma_fp_mul_bound(dir_axis(dpy, d2), factor, SCALE as int, CONTRIB_LIMIT as int);
        }
    }
}


/// The integer view of the retained-neighbour list.
pub open spec fn lift(s: Seq<(i64, Entry)>) -> Seq<(int, Entry)> {
    Seq::new(s.len(), |i: int| (s[i].0 as int, s[i].1))
}

/// A neighbour list whose entries have bounded positions and index into a
/// snapshot of `n` agents.
pub open spec fn ns_ok(ns: Seq<Entry>, n: int) -> bool {
    forall|j: int|
        0 <= j < ns.len() ==> Latex2D::entry_ok(#[trigger] ns[j]) && 0 <= ns[j].0 < n
}

/// A retained list whose entries are sound: bounded positions, snapshot
/// indexes, and the recorded squared toroidal distance.
pub open spec fn top_ok(s: Seq<(i64, Entry)>, a: Agent, n: int, w: int, h: int) -> bool {
    forall|j: int|
        #![trigger s[j]]
        0 <= j < s.len() ==> {
            &&& Latex2D::entry_ok(s[j].1)
            &&& 0 <= s[j].1.0 < n
            &&& s[j].0 as int == dist_mod_sq_spec(
                a.pos,
                Vec2 { x: s[j].1.1, y: s[j].1.2 },
                w,
                h,
            )
            &&& 0 <= s[j].0
        }
}

/// The linear scan that stops at the first larger distance finds the slot.
proof fn lemma_find_slot_char(top: Seq<(int, Entry)>, d: int, i: int)
    requires
        0 <= i <= top.len(),
        forall|j: int| 0 <= j < i ==> #[trigger] top[j].0 <= d,
        i == top.len() || top[i].0 > d,
    ensures
        find_slot(top, d) == i,
    decreases top.len(),
{
    if top.len() == 0 {
    } else if top[0].0 > d {
        assert(i == 0);
    } else {
        assert(i >= 1);
        let rest = top.drop_first();
        assert forall|j: int| 0 <= j < i - 1 implies #[trigger] rest[j].0 <= d by {
            assert(rest[j] == top[j + 1]);
        }
        if i < top.len() {
            assert(rest[i - 1] == top[i]);
        }
        lemma_find_slot_char(rest, d, i - 1);
    }
}

/// Lifting commutes with insertion.
proof fn lemma_lift_insert(s: Seq<(i64, Entry)>, i: int, v: (i64, Entry))
    requires
        0 <= i <= s.len(),
    ensures
        lift(s.insert(i, v)) =~= lift(s).insert(i, (v.0 as int, v.1)),
{
    let a = lift(s.insert(i, v));
    let b = lift(s).insert(i, (v.0 as int, v.1));
    assert(a.len() == b.len());
    assert forall|j: int| 0 <= j < a.len() implies a[j] == b[j] by {
        if j < i {
            assert(s.insert(i, v)[j] == s[j]);
            assert(b[j] == lift(s)[j]);
        } else if j == i {
            assert(s.insert(i, v)[j] == v);
        } else {
            assert(s.insert(i, v)[j] == s[j - 1]);
            assert(b[j] == lift(s)[j - 1]);
        }
    }
}

/// Lifting commutes with dropping the tail.
proof fn lemma_lift_drop_last(s: Seq<(i64, Entry)>)
    requires
        s.len() > 0,
    ensures
        lift(s.drop_last()) =~= lift(s).drop_last(),
{
    assert forall|j: int| 0 <= j < s.len() - 1 implies lift(s.drop_last())[j] == lift(
        s,
    ).drop_last()[j] by {
        assert(s.drop_last()[j] == s[j]);
    }
}

impl Agent {
    /// A freshly created agent: the given position and velocity, zeroed
    /// statistics, default force parameters, and a species hue drawn at
    /// random among the default buckets.
    pub fn new(id: usize, pos: Vec2, vel: Vec2) -> (a: Agent)
        ensures
            a.id == id && a.pos == pos && a.vel == vel,
            a.s_vel == 0 && a.s_in_range == 0,
            a.color == 0 || a.color == 180_000,
            a.radius == 2 * SCALE,
            a.view_range == MAX_DIST,
            a.pos_w == -100 && a.vel_w == SCALE,
            a.drag == DRAG && a.max_acc == MAXACC,
            a.weirdness == SCALE,
    {
        let species = crate::utils::rand_int(2);
        Agent {
            id,
            pos,
            vel,
            s_vel: 0,
            s_in_range: 0,
            color: (species as i64) * 180_000,
            radius: 2 * SCALE,
            view_range: MAX_DIST,
            pos_w: -100,
            vel_w: SCALE,
            drag: DRAG,
            max_acc: MAXACC,
            weirdness: SCALE,
        }
    }
}

impl HasPosition for Agent {
    open spec fn latex_pos_spec(&self) -> Vec2 {
        self.pos
    }

    fn get_latex_pos(&self) -> (r: &Vec2) {
        &self.pos
    }
}

/// The default two-species affinity matrix.
pub fn default_matrix() -> (m: AffinityMatrix)
    ensures
        m.wf(),
        m.n == 2,
        m.entries@ =~= seq![1000i64, -100i64, 1000i64, 100i64],
{
    let mut entries: Vec<i64> = Vec::new();
    entries.push(1000);
    entries.push(-100);
    entries.push(1000);
    entries.push(100);
    let m = AffinityMatrix::new(2, entries);
    proof {
        assert(m is Some);
    }
    m.unwrap()
}


impl Agent {
    /// One force pass: discover neighbours in the grid snapshot, keep the
    /// nearest `keep` of them (all of them when `keep` is zero), sum the
    /// tapered pairwise forces, and apply the result to the velocity,
    /// clamped to `max_acc`. Also records the neighbour count.
    pub fn new_update(&mut self, update: &Update, latex: &Latex2D, snapshot: &Vec<Agent>)
        requires
            agent_ok(*old(self), update.w as int, update.h as int),
            update_ok(*update),
            latex.wf(),
            latex.w == update.w,
            latex.h == update.h,
            snapshot_ok(snapshot@, update.w as int, update.h as int),
            grid_ids_ok(*latex, snapshot@.len() as int),
        ensures
            ({
                let ns = neighbours_of(*old(self), *latex, update.w as int, update.h as int);
                let wanted = wanted_of(
                    *old(self),
                    update.matrix,
                    update.keep as int,
                    update.w as int,
                    update.h as int,
                    snapshot@,
                    ns,
                );
                let v = vel_after_force(*old(self), wanted);
                &&& final(self).vel.x as int == v.0
                &&& final(self).vel.y as int == v.1
                &&& final(self).s_in_range as int == count_others(ns, old(self).id as int, 0)
            }),
            final(self).vel.in_bounds(VEL_LIMIT as int),
            final(self).pos == old(self).pos,
            final(self).id == old(self).id,
            final(self).radius == old(self).radius,
            final(self).view_range == old(self).view_range,
            final(self).pos_w == old(self).pos_w,
            final(self).vel_w == old(self).vel_w,
            final(self).drag == old(self).drag,
            final(self).max_acc == old(self).max_acc,
            final(self).weirdness == old(self).weirdness,
            final(self).s_vel == old(self).s_vel,
            final(self).color == old(self).color,
    {
        let ghost a0 = *old(self);
        let ghost w = update.w as int;
        let ghost h = update.h as int;
        let ghost snap = snapshot@;
        let ghost keepg = update.keep as int;
        let mut neighbours: Vec<Entry> = latex.get_safe(
            (self.pos.x, self.pos.y),
            self.view_range,
        );
        let ghost ns0 = neighbours@;
        proof {
            assert(Vec2 { x: a0.pos.x, y: a0.pos.y } == a0.pos);
            assert(ns0 == neighbours_of(a0, *latex, w, h));
            crate::latex::lemma_filter_keep_subset(
                latex.scan_seq(),
                a0.pos,
                a0.view_range as int,
                w,
                h,
            );
            crate::latex::lemma_scan_from_buckets(*latex);
            assert forall|j: int| 0 <= j < ns0.len() implies Latex2D::entry_ok(#[trigger] ns0[j])
                && 0 <= ns0[j].0 < snap.len() by {
                assert(ns0.contains(ns0[j]));
                assert(latex.scan_seq().contains(ns0[j]));
                let wit = choose|i: int|
                    0 <= i < latex.scan_seq().len() && latex.scan_seq()[i] == ns0[j];
                assert(crate::latex::in_some_bucket(*latex, latex.scan_seq()[wit]));
                let (k, i) = choose|k: (i16, i16), i: int|
                    #![auto]
                    latex.contents().dom().contains(k) && 0 <= i < latex.contents()[k].len()
                        && latex.contents()[k][i] == ns0[j];
                assert(Latex2D::entry_ok(latex.contents()[k][i]));
                assert(latex.contents()[k][i].0 < snap.len());
            }
            assert(ns_ok(ns0, snap.len() as int));
        }
        let nslen: usize = neighbours.len();
        proof {
            assert(ns0.len() == nslen);
        }
        let mut top_keep: Vec<(i64, Entry)> = Vec::new();
        let mut cnt: usize = 0;
        while neighbours.len() > 0
            invariant
                *self == a0,
                agent_ok(a0, w, h),
                update_ok(*update),
                w == update.w as int,
                h == update.h as int,
                snap == snapshot@,
                keepg == update.keep as int,
                snapshot_ok(snap, w, h),
                ns_ok(ns0, snap.len() as int),
                neighbours@ == ns0.subrange(0, neighbours@.len() as int),
                neighbours@.len() <= ns0.len(),
                lift(top_keep@) == topk_suffix(
                    a0,
                    update.matrix,
                    keepg,
                    w,
                    h,
                    snap,
                    ns0,
                    neighbours@.len() as int,
                ),
                top_ok(top_keep@, a0, snap.len() as int, w, h),
                cnt as int == count_others(ns0, a0.id as int, neighbours@.len() as int),
                cnt <= ns0.len() - neighbours@.len(),
                ns0.len() <= usize::MAX,
            decreases neighbours@.len(),
        {
            let ghost rem0 = neighbours@;
            let n_opt = neighbours.pop();
            let n = n_opt.unwrap();
            proof {
                assert(rem0 == ns0.subrange(0, rem0.len() as int));
                assert(n == rem0[rem0.len() - 1]);
                assert(n == ns0[rem0.len() - 1]);
                assert(neighbours@ =~= ns0.subrange(0, neighbours@.len() as int));
                assert(Latex2D::entry_ok(n) && 0 <= n.0 < snap.len());
            }
            let ghost j = neighbours@.len() as int;
            if n.0 != self.id {
                cnt = cnt + 1;
                let f = update.matrix.affinity(self.color, snapshot[n.0].color);
                if f != 0 {
                    let tv = Vec2 { x: n.1, y: n.2 };
                    let npos = self.pos.rel(&tv, update.w, update.h);
                    let d2 = npos.squared_dist(&self.pos);
                    proof {
                        assert(d2 as int == dist_mod_sq_spec(a0.pos, tv, w, h))
                            by (nonlinear_arith)
                            requires
                                d2 as int == mag_sq_of(
                                    npos.x as int - a0.pos.x,
                                    npos.y as int - a0.pos.y,
                                ),
                                npos.x as int == rel_x_spec(a0.pos, tv, w),
                                npos.y as int == rel_y_spec(a0.pos, tv, h),
                                dist_mod_sq_spec(a0.pos, tv, w, h) == mag_sq_of(
                                    a0.pos.x - rel_x_spec(a0.pos, tv, w),
                                    a0.pos.y - rel_y_spec(a0.pos, tv, h),
                                ),
                        ;
                    }
                    let ghost tk0 = top_keep@;
                    let mut si: usize = 0;
                    while si < top_keep.len() && top_keep[si].0 <= d2
                        invariant
                            top_keep@ == tk0,
                            0 <= si <= top_keep@.len(),
                            forall|jj: int| 0 <= jj < si ==> #[trigger] top_keep@[jj].0 <= d2,
                        decreases top_keep@.len() - si,
                    {
                        si = si + 1;
                    }
                    proof {
                        assert forall|jj: int| 0 <= jj < si implies #[trigger] lift(
                            tk0,
                        )[jj].0 <= d2 as int by {
                            assert(tk0[jj].0 <= d2);
                        }
                        if si < tk0.len() {
                            assert(lift(tk0)[si as int].0 == tk0[si as int].0 as int);
                        }
                        lemma_find_slot_char(lift(tk0), d2 as int, si as int);
                        lemma_find_slot_range(lift(tk0), d2 as int);
                    }
                    top_keep.insert(si, (d2, n));
                    proof {
                        lemma_lift_insert(tk0, si as int, (d2, n));
                    }
                    if update.keep > 0 && top_keep.len() > update.keep {
                        let ghost tk1 = top_keep@;
                        top_keep.pop();
                        proof {
                            lemma_lift_drop_last(tk1);
                        }
                    }
                    proof {
                        assert(lift(top_keep@) == topk_step(
                            a0,
                            update.matrix,
                            keepg,
                            w,
                            h,
                            snap,
                            topk_suffix(a0, update.matrix, keepg, w, h, snap, ns0, j + 1),
                            ns0[j],
                        ));
                        let tknew = top_keep@;
                        assert forall|jj: int| 0 <= jj < tknew.len() implies {
                            &&& Latex2D::entry_ok(#[trigger] tknew[jj].1)
                            &&& 0 <= tknew[jj].1.0 < snap.len()
                            &&& tknew[jj].0 as int == dist_mod_sq_spec(
                                a0.pos,
                                Vec2 { x: tknew[jj].1.1, y: tknew[jj].1.2 },
                                w,
                                h,
                            )
                            &&& 0 <= tknew[jj].0
                        } by {
                            let ins = tk0.insert(si as int, (d2, n));
                            if jj < si {
                                assert(ins[jj] == tk0[jj]);
                                assert(tknew[jj] == tk0[jj]);
                            } else if jj == si {
                                assert(ins[jj] == (d2, n));
                                assert(tknew[jj] == (d2, n));
                                crate::vec2::lemma_sq_nonneg(
                                    a0.pos.x - rel_x_spec(a0.pos, tv, w),
                                );
                                crate::vec2::lemma_sq_nonneg(
                                    a0.pos.y - rel_y_spec(a0.pos, tv, h),
                                );
                            } else {
                                assert(ins[jj] == tk0[jj - 1]);
                                assert(tknew[jj] == tk0[jj - 1]);
                            }
                        }
                    }
                } else {
                    proof {
                        assert(lift(top_keep@) == topk_suffix(
                            a0,
                            update.matrix,
                            keepg,
                            w,
                            h,
                            snap,
                            ns0,
                            j,
                        ));
                    }
                }
            } else {
                proof {
                    assert(lift(top_keep@) == topk_suffix(
                        a0,
                        update.matrix,
                        keepg,
                        w,
                        h,
                        snap,
                        ns0,
                        j,
                    ));
                }
            }
        }
        proof {
            assert(neighbours@.len() == 0);
            assert(lift(top_keep@) == topk_suffix(a0, update.matrix, keepg, w, h, snap, ns0, 0));
        }
        let ghost topseq = lift(top_keep@);
        let mut wx: i64 = 0;
        let mut wy: i64 = 0;
        let mut fj: usize = 0;
        while fj < top_keep.len()
            invariant
                *self == a0,
                agent_ok(a0, w, h),
                update_ok(*update),
                w == update.w as int,
                h == update.h as int,
                snap == snapshot@,
                snapshot_ok(snap, w, h),
                topseq == lift(top_keep@),
                top_ok(top_keep@, a0, snap.len() as int, w, h),
                0 <= fj <= top_keep@.len(),
                abs(wx as int) <= WANTED_SAT as int,
                abs(wy as int) <= WANTED_SAT as int,
                (wx as int, wy as int) == force_pre(
                    a0,
                    update.matrix,
                    snap,
                    w,
                    h,
                    topseq,
                    fj as int,
                ),
            decreases top_keep@.len() - fj,
        {
            let (d2, n) = top_keep[fj];
            proof {
                assert(top_keep@[fj as int].0 == d2 && top_keep@[fj as int].1 == n);
                assert(topseq[fj as int] == (d2 as int, n));
                lemma_contrib_bound(a0, update.matrix, snap, w, h, d2 as int, n);
            }
            let distance = isqrt(d2 as u64) as i64;
            proof {
                lemma_sqrt_unique(d2 as int, distance as int);
            }
            if distance <= MAX_DIST {
                let f = update.matrix.affinity(self.color, snapshot[n.0].color);
                if f != 0 {
                    let tv = Vec2 { x: n.1, y: n.2 };
                    let npos = self.pos.rel(&tv, update.w, update.h);
                    let mut dp = npos;
                    dp.sub(&self.pos);
                    let mut dir = dp;
                    proof {
                        assert(mag_sq_of(dp.x as int, dp.y as int) == d2 as int)
                            by (nonlinear_arith)
                            requires
                                dp.x as int == rel_x_spec(a0.pos, tv, w) - a0.pos.x,
                                dp.y as int == rel_y_spec(a0.pos, tv, h) - a0.pos.y,
                                d2 as int == mag_sq_of(
                                    a0.pos.x - rel_x_spec(a0.pos, tv, w),
                                    a0.pos.y - rel_y_spec(a0.pos, tv, h),
                                ),
                        ;
                    }
                    dir.norm(SCALE);
                    proof {
                        assert(dir.x as int == dir_axis(
                            rel_x_spec(a0.pos, tv, w) - a0.pos.x,
                            d2 as int,
                        ));
                        assert(dir.y as int == dir_axis(
                            rel_y_spec(a0.pos, tv, h) - a0.pos.y,
                            d2 as int,
                        ));
                        lemma_taper_range(distance as int);
                    }
                    let taper = SCALE - (distance * SCALE) / MAX_DIST;
                    let taper2 = mul_fp(taper, taper);
                    let factor: i64 = if f > 0 {
                        proof {
                            lemma_tdiv_abs(7 * (distance as int - WANTED_DP_LEN as int), 10);
                            lemma_fp_mul_bound(
                                tdiv(7 * (distance as int - WANTED_DP_LEN as int), 10),
                                f as int,
                                868000,
                                crate::affinity::AFFINITY_LIMIT as int,
                            );
                            lemma_fp_mul_bound(
                                fp_mul(
                                    tdiv(7 * (distance as int - WANTED_DP_LEN as int), 10),
                                    f as int,
                                ),
                                fp_mul(
                                    SCALE - tdiv(distance as int * SCALE, MAX_DIST as int),
                                    SCALE - tdiv(distance as int * SCALE, MAX_DIST as int),
                                ),
                                868000000,
                                SCALE as int,
                            );
                        }
                        let t1 = (7 * (distance - WANTED_DP_LEN)) / 10;
                        mul_fp(mul_fp(t1, f), taper2)
                    } else {
                        proof {
                            lemma_tdiv_abs(10 * SCALE as int * distance as int, MAX_DIST as int);
                            assert(10 * SCALE * distance <= 10 * SCALE * MAX_DIST)
                                by (nonlinear_arith)
                                requires
                                    distance <= MAX_DIST as int,
                            ;
                            vstd::arithmetic::div_mod::lemma_div_is_ordered(
                                10 * SCALE * distance,
                                10 * SCALE * MAX_DIST as int,
                                MAX_DIST as int,
                            );
                            assert(10 * SCALE as int * MAX_DIST as int / (MAX_DIST as int)
                                == 10 * SCALE);
                        }
                        let x = (10 * SCALE * distance) / MAX_DIST;
                        let e = exp_fp(x);
                        proof {
                            lemma_mul_abs_bound(
                                100 * SCALE as int,
                                f as int,
                                100 * SCALE as int,
                                crate::affinity::AFFINITY_LIMIT as int,
                            );
                            lemma_tdiv_abs(100 * SCALE as int * f as int, 100 + e as int);
                            vstd::arithmetic::div_mod::lemma_div_is_ordered_by_denominator(
                                abs(100 * SCALE as int * f as int),
                                1100,
                                100 + e as int,
                            );
                            assert(abs(100 * SCALE as int * f as int) / 1100 <= 100_000_000)
                                by (nonlinear_arith)
                                requires
                                    abs(100 * SCALE as int * f as int) <= 100_000_000_000,
                            ;
                            lemma_fp_mul_bound(
                                tdiv(100 * SCALE as int * f as int, 100 + e as int),
                                fp_mul(
                                    SCALE - tdiv(distance as int * SCALE, MAX_DIST as int),
                                    SCALE - tdiv(distance as int * SCALE, MAX_DIST as int),
                                ),
                                100_000_000,
                                SCALE as int,
                            );
                        }
                        let q = (100 * SCALE * f) / (100 + e);
                        mul_fp(q, taper2)
                    };
                    proof {
                        lemma_factor_bounds(distance as int, f as int);
                        lemma_dir_axis_bound(
                            rel_x_spec(a0.pos, tv, w) - a0.pos.x,
                            rel_y_spec(a0.pos, tv, h) - a0.pos.y,
                            d2 as int,
                        );
                        lemma_fp_mul_bound(
                            dir.x as int,
                            factor as int,
                            SCALE as int,
                            CONTRIB_LIMIT as int,
                        );
                        lemma_fp_mul_bound(
                            dir.y as int,
                            factor as int,
                            SCALE as int,
                            CONTRIB_LIMIT as int,
                        );
                    }
                    let cx = mul_fp(dir.x, factor);
                    let cy = mul_fp(dir.y, factor);
                    wx = clamp_i64(wx + cx, WANTED_SAT);
                    wy = clamp_i64(wy + cy, WANTED_SAT);
                    proof {
                        assert((wx as int, wy as int) == addsat(
                            force_pre(a0, update.matrix, snap, w, h, topseq, fj as int),
                            pair_contrib(a0, update.matrix, snap, w, h, d2 as int, n),
                        ));
                    }
                } else {
                    proof {
                        assert(pair_contrib(a0, update.matrix, snap, w, h, d2 as int, n)
                            == (0int, 0int));
                    }
                }
            } else {
                proof {
                    assert(pair_contrib(a0, update.matrix, snap, w, h, d2 as int, n)
                        == (0int, 0int));
                }
            }
            fj = fj + 1;
        }
        if !(wx == 0 && wy == 0) {
            proof {
                lemma_fp_mul_bound(wx as int, a0.max_acc as int, WANTED_SAT as int,
                    ACC_LIMIT as int);
                lemma_fp_mul_bound(wy as int, a0.max_acc as int, WANTED_SAT as int,
                    ACC_LIMIT as int);
            }
            let ax = mul_fp(wx, self.max_acc);
            let ay = mul_fp(wy, self.max_acc);
            self.vel.add(&Vec2 { x: ax, y: ay });
            let ghost v2 = self.vel;
            self.vel.limit(self.max_acc);
            proof {
                lemma_sq_nonneg(v2.x as int);
                lemma_sq_nonneg(v2.y as int);
                crate::fp::lemma_sqrt_exists(mag_sq_of(v2.x as int, v2.y as int) as nat);
                crate::vec2::lemma_component_le_mag(v2.x as int, v2.y as int, v2.mag_spec());
            }
        }
        self.s_in_range = cnt;
    }
}


/// How one tick transforms an agent: the force pass, integration, drag,
/// gravity, boundary wrap and stats capture, each pinned as an equation
/// over the frozen snapshot. A pure function of the old agent and the
/// snapshot: what makes tick results independent of update order.
pub open spec fn step_rel(a: Agent, b: Agent, u: Update, g: Latex2D, snap: Seq<Agent>) -> bool {
    let ns = neighbours_of(a, g, u.w as int, u.h as int);
    let wanted = wanted_of(a, u.matrix, u.keep as int, u.w as int, u.h as int, snap, ns);
    let v3 = vel_after_force(a, wanted);
    let posmx = a.pos.x + v3.0;
    let posmy = a.pos.y + v3.1;
    let vd = (fp_mul(v3.0, SCALE - a.drag), fp_mul(v3.1, SCALE - a.drag));
    let vg = gravity_fold(
        u.gravity@,
        vd,
        (posmx, posmy),
        u.gravity_f as int,
        u.gravity@.len() as int,
    );
    &&& b.pos.x as int == posmx % (u.w as int)
    &&& b.pos.y as int == posmy % (u.h as int)
    &&& b.vel.x as int == vg.0
    &&& b.vel.y as int == vg.1
    &&& b.s_vel as int == sqrt_i(mag_sq_of(vg.0, vg.1))
    &&& b.s_in_range as int == count_others(ns, a.id as int, 0)
    &&& b.id == a.id
    &&& b.radius == a.radius
    &&& b.view_range == a.view_range
    &&& b.pos_w == a.pos_w
    &&& b.vel_w == a.vel_w
    &&& b.drag == a.drag
    &&& b.max_acc == a.max_acc
    &&& b.weirdness == a.weirdness
    &&& b.color == a.color
}

/// One gravity well nudges a velocity component by a bounded amount: the
/// softened denominator dominates the pull everywhere.
proof fn lemma_gravity_contrib(gx: int, gy: int, k: int, denom: int)
    requires
        abs(gx) <= 300_000_000,
        abs(gy) <= 300_000_000,
        0 <= k <= GRAV_LIMIT as int,
        denom == 100 * SCALE as int + tdiv(gx * gx + gy * gy, SCALE as int),
    ensures
        denom >= 100 * SCALE as int,
        abs(tdiv(gx * k, denom)) <= 600,
{
    lemma_sq_nonneg(gx);
    lemma_sq_nonneg(gy);
    lemma_tdiv_abs(gx * gx + gy * gy, SCALE as int);
    vstd::arithmetic::div_mod::lemma_div_is_ordered(gx * gx, gx * gx + gy * gy, SCALE as int);
    vstd::arithmetic::div_mod::lemma_fundamental_div_mod(gx * gx, SCALE as int);
    crate::fp::lemma_mod_range(gx * gx, SCALE as int);
    assert(1000 * (gx * gx / 1000) > gx * gx - 1000);
    assert((abs(gx) - 10000) * (abs(gx) - 10000) >= 0) by (nonlinear_arith);
    lemma_abs_sq(gx);
    assert(gx * gx + 100_000_000 >= 20000 * abs(gx)) by (nonlinear_arith)
        requires
            (abs(gx) - 10000) * (abs(gx) - 10000) >= 0,
            abs(gx) * abs(gx) == gx * gx,
        ;
    assert(1000 * denom >= 20000 * abs(gx) - 1000) by (nonlinear_arith)
        requires
            denom == 100 * 1000 + tdiv(gx * gx + gy * gy, 1000),
            tdiv(gx * gx + gy * gy, 1000) >= gx * gx / 1000,
            1000 * (gx * gx / 1000) > gx * gx - 1000,
            gx * gx + 100_000_000 >= 20000 * abs(gx),
        ;
    lemma_mul_abs_bound(gx, k, abs(gx), GRAV_LIMIT as int);
    lemma_tdiv_abs(gx * k, denom);
    assert(abs(gx * k) / denom <= 600) by (nonlinear_arith)
        requires
            abs(gx * k) <= abs(gx) * GRAV_LIMIT as int,
            1000 * denom >= 20000 * abs(gx) - 1000,
            denom >= 100 * 1000,
            0 <= abs(gx),
        ;
}

impl Agent {
    /// One full tick for this agent against the frozen snapshot: force
    /// pass, position integration, drag, gravity pull, boundary wrap into
    /// `[0, w) x [0, h)`, and stats capture.
    pub fn update(&mut self, update: &Update, latex: &Latex2D, snapshot: &Vec<Agent>)
        requires
            agent_ok(*old(self), update.w as int, update.h as int),
            update_ok(*update),
            latex.wf(),
            latex.w == update.w,
            latex.h == update.h,
            snapshot_ok(snapshot@, update.w as int, update.h as int),
            grid_ids_ok(*latex, snapshot@.len() as int),
        ensures
            step_rel(*old(self), *final(self), *update, *latex, snapshot@),
            agent_ok(*final(self), update.w as int, update.h as int),
    {
        let ghost a0 = *old(self);
        let ghost w = update.w as int;
        let ghost h = update.h as int;
        self.new_update(update, latex, snapshot);
        let v3 = self.vel;
        proof {
            assert(abs(v3.x as int) <= VEL_LIMIT as int && abs(v3.y as int) <= VEL_LIMIT as int);
        }
        self.pos.add(&v3);
        let ghost posm = self.pos;
        proof {
            lemma_fp_mul_bound(v3.x as int, SCALE as int - a0.drag, VEL_LIMIT as int,
                SCALE as int - DRAG_MIN as int);
            lemma_fp_mul_bound(v3.y as int, SCALE as int - a0.drag, VEL_LIMIT as int,
                SCALE as int - DRAG_MIN as int);
        }
        self.vel.mul(SCALE - self.drag);
        let ghost vd = (self.vel.x as int, self.vel.y as int);
        let ghost apre = *self;
        let mut gi: usize = 0;
        while gi < update.gravity.len()
            invariant
                update_ok(*update),
                w == update.w as int,
                h == update.h as int,
                0 <= gi <= update.gravity@.len(),
                abs(posm.x as int) <= WORLD_CAP as int + VEL_LIMIT as int,
                abs(posm.y as int) <= WORLD_CAP as int + VEL_LIMIT as int,
                abs(vd.0) <= 19_980_000,
                abs(vd.1) <= 19_980_000,
                (*self == (Agent { vel: self.vel, ..apre })),
                apre.pos == posm,
                (self.vel.x as int, self.vel.y as int) == gravity_fold(
                    update.gravity@,
                    vd,
                    (posm.x as int, posm.y as int),
                    update.gravity_f as int,
                    gi as int,
                ),
                abs(self.vel.x as int) <= 19_980_000 + 600 * gi,
                abs(self.vel.y as int) <= 19_980_000 + 600 * gi,
            decreases update.gravity@.len() - gi,
        {
            let g = update.gravity[gi];
            let gx = g.x - self.pos.x;
            let gy = g.y - self.pos.y;
            proof {
                lemma_mul_abs_bound(gx as int, gx as int, 300_000_000, 300_000_000);
                lemma_mul_abs_bound(gy as int, gy as int, 300_000_000, 300_000_000);
                lemma_sq_nonneg(gx as int);
                lemma_sq_nonneg(gy as int);
            }
            let msq = gx * gx + gy * gy;
            let denom = 100 * SCALE + msq / SCALE;
            proof {
                lemma_gravity_contrib(gx as int, gy as int, update.gravity_f as int,
                    denom as int);
                lemma_gravity_contrib(gy as int, gx as int, update.gravity_f as int,
                    100 * SCALE as int + tdiv(gy as int * gy as int + gx as int * gx as int,
                    SCALE as int));
                lemma_mul_abs_bound(gx as int, update.gravity_f as int, 300_000_000,
                    GRAV_LIMIT as int);
                lemma_mul_abs_bound(gy as int, update.gravity_f as int, 300_000_000,
                    GRAV_LIMIT as int);
                assert(gy as int * gy as int + gx as int * gx as int == msq as int);
            }
            let cx = (gx * update.gravity_f) / denom;
            let cy = (gy * update.gravity_f) / denom;
            self.vel.add(&Vec2 { x: cx, y: cy });
            gi = gi + 1;
        }
        let ghost vg = (self.vel.x as int, self.vel.y as int);
        let ghost agrav = *self;
        while self.pos.x >= update.w
            invariant
                1 <= update.w,
                w == update.w as int,
                -300_000_000 <= self.pos.x <= 300_000_000,
                self.pos.x as int % w == posm.x as int % w,
                (*self == (Agent { pos: Vec2 { x: self.pos.x, y: agrav.pos.y }, ..agrav })),
            decreases self.pos.x,
        {
            proof {
                vstd::arithmetic::div_mod::lemma_mod_multiples_vanish(1,
                    self.pos.x as int - w, w);
            }
            self.pos.x = self.pos.x - update.w;
        }
        while self.pos.x < 0
            invariant
                1 <= update.w <= WORLD_CAP,
                w == update.w as int,
                -300_000_000 <= self.pos.x <= 300_000_000,
                self.pos.x < update.w,
                self.pos.x as int % w == posm.x as int % w,
                (*self == (Agent { pos: Vec2 { x: self.pos.x, y: agrav.pos.y }, ..agrav })),
            decreases w - self.pos.x,
        {
            proof {
                vstd::arithmetic::div_mod::lemma_mod_multiples_vanish(1, self.pos.x as int, w);
            }
            self.pos.x = self.pos.x + update.w;
        }
        proof {
            vstd::arithmetic::div_mod::lemma_small_mod(self.pos.x as nat, w as nat);
        }
        let ghost awx = *self;
        while self.pos.y >= update.h
            invariant
                1 <= update.h,
                h == update.h as int,
                -300_000_000 <= self.pos.y <= 300_000_000,
                self.pos.y as int % h == posm.y as int % h,
                (*self == (Agent { pos: Vec2 { x: awx.pos.x, y: self.pos.y }, ..awx })),
            decreases self.pos.y,
        {
            proof {
                vstd::arithmetic::div_mod::lemma_mod_multiples_vanish(1,
                    self.pos.y as int - h, h);
            }
            self.pos.y = self.pos.y - update.h;
        }
        while self.pos.y < 0
            invariant
                1 <= update.h <= WORLD_CAP,
                h == update.h as int,
                -300_000_000 <= self.pos.y <= 300_000_000,
                self.pos.y < update.h,
                self.pos.y as int % h == posm.y as int % h,
                (*self == (Agent { pos: Vec2 { x: awx.pos.x, y: self.pos.y }, ..awx })),
            decreases h - self.pos.y,
        {
            proof {
                vstd::arithmetic::div_mod::lemma_mod_multiples_vanish(1, self.pos.y as int, h);
            }
            self.pos.y = self.pos.y + update.h;
        }
        proof {
            vstd::arithmetic::div_mod::lemma_small_mod(self.pos.y as nat, h as nat);
        }
        let sv = self.vel.mag();
        proof {
            assert(sv as int <= PARAM_LIMIT as int) by (nonlinear_arith)
                requires
                    is_sqrt(mag_sq_of(agrav.vel.x as int, agrav.vel.y as int), sv as int),
                    abs(agrav.vel.x as int) <= 20_000_000,
                    abs(agrav.vel.y as int) <= 20_000_000,
                    PARAM_LIMIT == 100_000_000i64,
            ;
        }
        self.s_vel = sv;
    }
}


/// The radius of the chase rule's candidate query.
pub const CHASE_RANGE: i64 = 1_000_000;

/// The candidate the chase rule settles on after scanning `cands[..j]`:
/// the first farthest other agent by toroidal distance, as a distance
/// and snapshot index, or `None` while only the agent itself was seen.
pub open spec fn chase_pick(
    a: Agent,
    snap: Seq<Agent>,
    w: int,
    h: int,
    cands: Seq<usize>,
    j: int,
) -> Option<(int, int)>
    decreases j,
{
    if j <= 0 {
        None
    } else {
        let prev = chase_pick(a, snap, w, h, cands, j - 1);
        let c = cands[j - 1] as int;
        if c == a.id {
            prev
        } else {
            let d = dist_mod_spec(a.pos, snap[c].pos, w, h);
            match prev {
                None => Some((d, c)),
                Some(p) => if d > p.0 {
                    Some((d, c))
                } else {
                    Some(p)
                },
            }
        }
    }
}

/// The velocity nudge of the chase rule: pulled toward `other`, limited
/// to a thousandth of the toroidal distance.
pub open spec fn chase_rel(a: Agent, b: Agent, other: Agent, w: int, h: int) -> bool {
    let dist = dist_mod_spec(a.pos, other.pos, w, h);
    let dpx = other.pos.x - a.pos.x;
    let dpy = other.pos.y - a.pos.y;
    let m = sqrt_i(mag_sq_of(dpx, dpy));
    &&& b.vel.x as int == a.vel.x + limit_axis(dpx, tdiv(dist, 1000), m)
    &&& b.vel.y as int == a.vel.y + limit_axis(dpy, tdiv(dist, 1000), m)
}

impl Agent {
    /// The alternative chase rule: among the candidates the windowed query
    /// returns for `CHASE_RANGE`, pick the farthest other agent by
    /// toroidal distance (the first such on ties) and drift toward it,
    /// the pull limited to a thousandth of that distance. With no other
    /// candidate nothing moves.
    pub fn new_update2(&mut self, update: &Update, latex: &Latex2D, snapshot: &Vec<Agent>)
        requires
            agent_ok(*old(self), update.w as int, update.h as int),
            update_ok(*update),
            latex.wf(),
            latex.w == update.w,
            latex.h == update.h,
            snapshot_ok(snapshot@, update.w as int, update.h as int),
            grid_ids_ok(*latex, snapshot@.len() as int),
        ensures
            final(self).pos == old(self).pos,
            final(self).id == old(self).id,
            final(self).s_in_range == old(self).s_in_range,
            final(self).s_vel == old(self).s_vel,
            final(self).color == old(self).color,
            final(self).drag == old(self).drag,
            final(self).max_acc == old(self).max_acc,
            final(self).view_range == old(self).view_range,
            final(self).radius == old(self).radius,
            final(self).pos_w == old(self).pos_w,
            final(self).vel_w == old(self).vel_w,
            final(self).weirdness == old(self).weirdness,
            ({
                let cands = latex.windowed_ids(
                    old(self).pos.x as int,
                    old(self).pos.y as int,
                    CHASE_RANGE as int,
                );
                match chase_pick(
                    *old(self),
                    snapshot@,
                    update.w as int,
                    update.h as int,
                    cands,
                    cands.len() as int,
                ) {
                    None => *final(self) == *old(self),
                    Some(p) => {
                        &&& 0 <= p.1 < snapshot@.len()
                        &&& p.1 != old(self).id as int
                        &&& p.0 == dist_mod_spec(
                            old(self).pos,
                            snapshot@[p.1].pos,
                            update.w as int,
                            update.h as int,
                        )
                        &&& chase_rel(
                            *old(self),
                            *final(self),
                            snapshot@[p.1],
                            update.w as int,
                            update.h as int,
                        )
                    },
                }
            }),
            final(self).vel.in_bounds(VEL_LIMIT as int + 5_000_000),
    {
        let ghost a0 = *old(self);
        let ghost w = update.w as int;
        let ghost h = update.h as int;
        let by_dist = latex.get((self.pos.x, self.pos.y), CHASE_RANGE);
        proof {
            assert(by_dist@ == latex.windowed_ids(a0.pos.x as int, a0.pos.y as int,
                CHASE_RANGE as int));
        }
        let mut best_dist: i64 = 0;
        let mut best_id: usize = 0;
        let mut found = false;
        let mut ci: usize = 0;
        while ci < by_dist.len()
            invariant
                *self == a0,
                agent_ok(a0, w, h),
                update_ok(*update),
                w == update.w as int,
                h == update.h as int,
                snapshot_ok(snapshot@, w, h),
                grid_ids_ok(*latex, snapshot@.len() as int),
                latex.wf(),
                latex.sound_ids(by_dist@),
                0 <= ci <= by_dist@.len(),
                found <==> chase_pick(a0, snapshot@, w, h, by_dist@, ci as int) is Some,
                found ==> chase_pick(a0, snapshot@, w, h, by_dist@, ci as int) == Some(
                    (best_dist as int, best_id as int),
                ),
                found ==> 0 <= best_id < snapshot@.len() && best_id != a0.id && best_dist as int
                    == dist_mod_spec(a0.pos, snapshot@[best_id as int].pos, w, h)
                    && 0 <= best_dist < 4294967296,
            decreases by_dist@.len() - ci,
        {
            let cand = by_dist[ci];
            proof {
                assert(latex.id_in_grid(by_dist@[ci as int]));
                let (k, i) = choose|k: (i16, i16), i: int|
                    #![auto]
                    latex.contents().dom().contains(k) && 0 <= i < latex.contents()[k].len()
                        && latex.contents()[k][i].0 == by_dist@[ci as int];
                assert(latex.contents()[k][i].0 < snapshot@.len());
            }
            if cand != self.id {
                let other = snapshot[cand];
                let d = self.pos.dist_mod(&other.pos, update.w, update.h);
                if !found || d > best_dist {
                    best_dist = d;
                    best_id = cand;
                    found = true;
                }
            }
            ci = ci + 1;
        }
        if found {
            let other = snapshot[best_id];
            let mut dirv = other.pos;
            dirv.sub(&self.pos);
            let ghost dp = dirv;
            dirv.limit(best_dist / 1000);
            proof {
                lemma_sq_nonneg(dp.x as int);
                lemma_sq_nonneg(dp.y as int);
                crate::fp::lemma_sqrt_exists(mag_sq_of(dp.x as int, dp.y as int) as nat);
                crate::vec2::lemma_component_le_mag(dp.x as int, dp.y as int, dp.mag_spec());
            }
            self.vel.add(&dirv);
            proof {
                assert(chase_rel(a0, *self, snapshot@[best_id as int], w, h));
            }
        }
    }
}

/// A neighbour list offering only the agent itself and zero-affinity
/// species yields an empty selection.
proof fn lemma_topk_all_skipped(
    a: Agent,
    m: AffinityMatrix,
    keep: int,
    w: int,
    h: int,
    snap: Seq<Agent>,
    ns: Seq<Entry>,
    j: int,
)
    requires
        forall|i: int|
            0 <= i < ns.len() ==> ((#[trigger] ns[i]).0 == a.id || m.affinity_spec(
                a.color as int,
                snap[ns[i].0 as int].color as int,
            ) == 0),
    ensures
        topk_suffix(a, m, keep, w, h, snap, ns, j) == Seq::<(int, Entry)>::empty(),
    decreases ns.len() - j,
{
    if 0 <= j < ns.len() {
        lemma_topk_all_skipped(a, m, keep, w, h, snap, ns, j + 1);
    }
}

/// An agent whose every in-range neighbour is itself or of a species it
/// ignores (affinity zero) feels no pairwise force: across the tick its
/// velocity owes nothing to those neighbours — only drag and the gravity
/// wells act on it — and its position moves by exactly its old velocity.
pub proof fn lemma_zero_affinity_only_drag_gravity(
    a: Agent,
    b: Agent,
    u: Update,
    g: Latex2D,
    snap: Seq<Agent>,
)
    requires
        step_rel(a, b, u, g, snap),
        forall|i: int|
            0 <= i < neighbours_of(a, g, u.w as int, u.h as int).len() ==> ((
            #[trigger] neighbours_of(a, g, u.w as int, u.h as int)[i]).0 == a.id
                || u.matrix.affinity_spec(
                a.color as int,
                snap[neighbours_of(a, g, u.w as int, u.h as int)[i].0 as int].color as int,
            ) == 0),
    ensures
        ({
            let vd = (
                fp_mul(a.vel.x as int, SCALE as int - a.drag),
                fp_mul(a.vel.y as int, SCALE as int - a.drag),
            );
            let vg = gravity_fold(
                u.gravity@,
                vd,
                (a.pos.x + a.vel.x, a.pos.y + a.vel.y),
                u.gravity_f as int,
                u.gravity@.len() as int,
            );
            b.vel.x as int == vg.0 && b.vel.y as int == vg.1
        }),
        b.pos.x as int == (a.pos.x + a.vel.x) % (u.w as int),
        b.pos.y as int == (a.pos.y + a.vel.y) % (u.h as int),
{
    let ns = neighbours_of(a, g, u.w as int, u.h as int);
    lemma_topk_all_skipped(a, u.matrix, u.keep as int, u.w as int, u.h as int, snap, ns, 0);
    assert(wanted_of(a, u.matrix, u.keep as int, u.w as int, u.h as int, snap, ns)
        == (0int, 0int));
    assert(vel_after_force(a, (0int, 0int)) == (a.vel.x as int, a.vel.y as int));
}

/// An agent with no neighbours in range feels no force: with no gravity
/// wells its velocity keeps its direction and is only scaled by the drag
/// factor, and its position moves by exactly that velocity.
pub proof fn lemma_isolated_agent_drag(
    a: Agent,
    b: Agent,
    u: Update,
    g: Latex2D,
    snap: Seq<Agent>,
)
    requires
        step_rel(a, b, u, g, snap),
        forall|i: int|
            0 <= i < neighbours_of(a, g, u.w as int, u.h as int).len() ==> (
            #[trigger] neighbours_of(a, g, u.w as int, u.h as int)[i]).0 == a.id,
        u.gravity@.len() == 0,
    ensures
        b.vel.x as int == fp_mul(a.vel.x as int, SCALE as int - a.drag),
        b.vel.y as int == fp_mul(a.vel.y as int, SCALE as int - a.drag),
        b.pos.x as int == (a.pos.x + a.vel.x) % (u.w as int),
        b.pos.y as int == (a.pos.y + a.vel.y) % (u.h as int),
{
    let ns = neighbours_of(a, g, u.w as int, u.h as int);
    lemma_topk_all_skipped(a, u.matrix, u.keep as int, u.w as int, u.h as int, snap, ns, 0);
    assert(wanted_of(a, u.matrix, u.keep as int, u.w as int, u.h as int, snap, ns)
        == (0int, 0int));
    assert(vel_after_force(a, (0int, 0int)) == (a.vel.x as int, a.vel.y as int));
}

/// One tick is a function of the frozen snapshot: two agents standing in
/// the step relation to the same old agent over the same snapshot are
/// equal. With every per-agent update reading only that snapshot, any
/// schedule of the updates — sequential or parallel — yields the same
/// states.
pub proof fn lemma_step_deterministic(
    a: Agent,
    b1: Agent,
    b2: Agent,
    u: Update,
    g: Latex2D,
    snap: Seq<Agent>,
)
    requires
        step_rel(a, b1, u, g, snap),
        step_rel(a, b2, u, g, snap),
    ensures
        b1 == b2,
{
    assert(b1.pos.x == b2.pos.x && b1.pos.y == b2.pos.y);
    assert(b1.vel.x == b2.vel.x && b1.vel.y == b2.vel.y);
    assert(b1.pos == b2.pos && b1.vel == b2.vel);
    assert(b1.s_vel == b2.s_vel && b1.s_in_range == b2.s_in_range);
}

} // verus!
