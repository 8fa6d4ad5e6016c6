//! The simulation engine: population state, per-tick orchestration
//! (grid snapshot build, per-agent update against the frozen snapshot,
//! stats pass), configuration validation, and the pointer-brush write
//! accessor.

use vstd::prelude::*;
use crate::affinity::AffinityMatrix;
use crate::ag::{
    agent_ok, grid_ids_ok, snapshot_ok, step_rel, update_ok, Agent, Update, GRAV_LIMIT,
    GRAVITY_MAX_POINTS, VEL_LIMIT, WORLD_CAP,
};
use crate::fp::{abs, fp_mul, lemma_fp_mul_bound, mul_fp, sqrt_i, tdiv, SCALE};
use crate::latex::{HasPosition, Latex2D, GRID_DIM_LIMIT};
use crate::vec2::{dist_mod_spec, mag_sq_of, Vec2, VEC_LIMIT};

verus! {

/// How many tick statistics the rolling windows keep.
pub const ST_LEN: usize = 40;

/// Why a configuration was rejected at engine construction.
#[derive(Clone, Copy, Debug, PartialEq, Eq, Structural)]
pub enum ConfigError {
    /// World extents outside `[1, WORLD_CAP]`.
    BadWorld,
    /// Cell divisor yielding no cell, or too many cells for the grid.
    BadResolution,
    /// Matrix not square, empty, or with an out-of-range weight.
    BadMatrix,
    /// Gravity coefficient outside `[0, GRAV_LIMIT]`.
    BadGravity,
}

pub struct MyGame {
    pub agents: Vec<Agent>,
    pub latex: Latex2D,
    pub up: Update,
    pub resx: i64,
    pub resy: i64,
    pub latex_div: i64,
    pub frames: u64,
    pub fast: usize,
    pub avg_stats_vel: Vec<i64>,
    pub avg_stats_range: Vec<i64>,
}

/// A valid cell divisor for extent `w`: it yields cells of at least one
/// unit and a grid that fits the coordinate range.
pub open spec fn div_ok(w: int, d: int) -> bool {
    &&& 1 <= d
    &&& 1 <= w / d
    &&& w / (w / d) <= GRID_DIM_LIMIT as int
}

impl MyGame {
    /// A sound engine state: valid configuration, every agent inside the
    /// world with its index as id, and a grid over the same world whose
    /// entries index into the population.
    pub open spec fn wf(self) -> bool {
        &&& update_ok(self.up)
        &&& self.latex.wf()
        &&& self.latex.w == self.up.w
        &&& self.latex.h == self.up.h
        &&& self.latex.resx == self.resx
        &&& self.latex.resy == self.resy
        &&& self.resx as int == self.up.w as int / self.latex_div as int
        &&& self.resy as int == self.up.h as int / self.latex_div as int
        &&& div_ok(self.up.w as int, self.latex_div as int)
        &&& div_ok(self.up.h as int, self.latex_div as int)
        &&& snapshot_ok(self.agents@, self.up.w as int, self.up.h as int)
        &&& forall|i: int|
            0 <= i < self.agents@.len() ==> (#[trigger] self.agents@[i]).id == i
        &&& grid_ids_ok(self.latex, self.agents@.len() as int)
    }

    /// Validate a configuration and build an engine with an empty
    /// population over an empty grid. Each reason for rejection comes
    /// back exactly when its condition fails, checked in the order world,
    /// resolution, matrix, gravity.
    pub fn new(
        w: i64,
        h: i64,
        latex_div: i64,
        matrix_n: usize,
        matrix_entries: Vec<i64>,
        gravity_f: i64,
        keep: usize,
    ) -> (r: Result<MyGame, ConfigError>)
        ensures
            ({
                let world_ok = 1 <= w <= WORLD_CAP && 1 <= h <= WORLD_CAP;
                let res_ok = div_ok(w as int, latex_div as int) && div_ok(
                    h as int,
                    latex_div as int,
                );
                let matrix_ok = {
                    &&& 1 <= matrix_n <= crate::affinity::SPECIES_LIMIT
                    &&& matrix_entries@.len() == matrix_n * matrix_n
                    &&& forall|i: int|
                        0 <= i < matrix_entries@.len() ==> abs(
                            #[trigger] matrix_entries@[i] as int,
                        ) <= crate::affinity::AFFINITY_LIMIT as int
                };
                let gravity_ok = 0 <= gravity_f <= GRAV_LIMIT;
                &&& (r is Ok <==> world_ok && res_ok && matrix_ok && gravity_ok)
                &&& (r == Result::<MyGame, ConfigError>::Err(ConfigError::BadWorld)
                    <==> !world_ok)
                &&& (r == Result::<MyGame, ConfigError>::Err(ConfigError::BadResolution)
                    <==> world_ok && !res_ok)
                &&& (r == Result::<MyGame, ConfigError>::Err(ConfigError::BadMatrix)
                    <==> world_ok && res_ok && !matrix_ok)
                &&& (r == Result::<MyGame, ConfigError>::Err(ConfigError::BadGravity)
                    <==> world_ok && res_ok && matrix_ok && !gravity_ok)
            }),
            r is Ok ==> {
                let s = r.unwrap();
                &&& s.wf()
                &&& s.agents@.len() == 0
                &&& s.up.w == w && s.up.h == h
                &&& s.up.gravity_f == gravity_f
                &&& s.up.keep == keep
                &&& s.up.matrix.n == matrix_n
                &&& s.up.matrix.entries@ == matrix_entries@
                &&& s.latex_div == latex_div
                &&& s.frames == 0
            },
    {
        if !(1 <= w && w <= WORLD_CAP && 1 <= h && h <= WORLD_CAP) {
            return Err(ConfigError::BadWorld);
        }
        if latex_div < 1 {
            return Err(ConfigError::BadResolution);
        }
        let resx = w / latex_div;
        let resy = h / latex_div;
        if resx < 1 || resy < 1 {
            return Err(ConfigError::BadResolution);
        }
        if w / resx > GRID_DIM_LIMIT || h / resy > GRID_DIM_LIMIT {
            return Err(ConfigError::BadResolution);
        }
        let matrix_opt = AffinityMatrix::new(matrix_n, matrix_entries);
        let matrix = match matrix_opt {
            Some(m) => m,
            None => {
                return Err(ConfigError::BadMatrix);
            },
        };
        if gravity_f < 0 || gravity_f > GRAV_LIMIT {
            return Err(ConfigError::BadGravity);
        }
        let latex = Latex2D::new(resx, resy, w, h);
        let up = Update { w, h, gravity_f, gravity: Vec::new(), matrix, keep };
        Ok(
            MyGame {
                agents: Vec::new(),
                latex,
                up,
                resx,
                resy,
                latex_div,
                frames: 0,
                fast: 0,
                avg_stats_vel: Vec::new(),
                avg_stats_range: Vec::new(),
            },
        )
    }
}


/// Agent `i` of the snapshot is filed in the grid under its wrapped cell.
pub open spec fn agent_in_grid(g: Latex2D, agents: Seq<Agent>, i: int) -> bool {
    let k = (
        g.cell_x(agents[i].pos.x as int) as i16,
        g.cell_y(agents[i].pos.y as int) as i16,
    );
    &&& g.contents().dom().contains(k)
    &&& exists|j: int|
        0 <= j < g.contents()[k].len() && g.contents()[k][j] == (
            i as usize,
            agents[i].pos.x,
            agents[i].pos.y,
        )
}

/// Every grid entry records some agent of the snapshot at its position.
pub open spec fn grid_entries_match(g: Latex2D, agents: Seq<Agent>) -> bool {
    forall|k: (i16, i16), j: int|
        #![trigger g.contents()[k][j]]
        g.contents().dom().contains(k) && 0 <= j < g.contents()[k].len() ==> {
            let t = g.contents()[k][j];
            &&& 0 <= t.0 < agents.len()
            &&& t.1 == agents[t.0 as int].pos.x
            &&& t.2 == agents[t.0 as int].pos.y
        }
}

/// The wrapped cell key of position `p` on a grid with cells of
/// `resx` by `resy` over a `w` by `h` world.
pub open spec fn cell_key_of(resx: int, resy: int, w: int, h: int, p: Vec2) -> (int, int) {
    ((p.x as int / resx) % (w / resx), (p.y as int / resy) % (h / resy))
}

/// What a fresh grid build files under key `k` from `agents[..j]`: the
/// agents whose position falls in that cell, in increasing index order,
/// each recorded at its position.
pub open spec fn cell_agents(
    resx: int,
    resy: int,
    w: int,
    h: int,
    agents: Seq<Agent>,
    k: (i16, i16),
    j: int,
) -> Seq<crate::latex::Entry>
    decreases j,
{
    if j <= 0 {
        Seq::empty()
    } else {
        let pre = cell_agents(resx, resy, w, h, agents, k, j - 1);
        if cell_key_of(resx, resy, w, h, agents[j - 1].pos) == (k.0 as int, k.1 as int) {
            pre.push(((j - 1) as usize, agents[j - 1].pos.x, agents[j - 1].pos.y))
        } else {
            pre
        }
    }
}

/// The larger of two values, zero-floored as the stats fold starts.
pub open spec fn max_svel(agents: Seq<Agent>, j: int) -> int
    decreases j,
{
    if j <= 0 {
        0
    } else if agents[j - 1].s_vel as int > max_svel(agents, j - 1) {
        agents[j - 1].s_vel as int
    } else {
        max_svel(agents, j - 1)
    }
}

/// The largest neighbour count seen, zero-floored.
pub open spec fn max_range(agents: Seq<Agent>, j: int) -> int
    decreases j,
{
    if j <= 0 {
        0
    } else if agents[j - 1].s_in_range as int > max_range(agents, j - 1) {
        agents[j - 1].s_in_range as int
    } else {
        max_range(agents, j - 1)
    }
}

/// A rolling window: push, then drop the oldest value past `ST_LEN`.
pub open spec fn push_trim(s: Seq<i64>, v: i64) -> Seq<i64> {
    let p = s.push(v);
    if p.len() > ST_LEN {
        p.subrange(1, p.len() as int)
    } else {
        p
    }
}

/// How the pointer brush changes one agent: one within `radius` of the
/// pointer gets the drag delta `d` scaled by a factor decaying linearly
/// from 0.3 at the pointer to zero at the radius, the velocity then kept
/// within `VEL_LIMIT`; one farther away is untouched.
pub open spec fn brush_rel(
    a: Agent,
    b: Agent,
    p: Vec2,
    d: Vec2,
    radius: int,
    w: int,
    h: int,
) -> bool {
    let dist = dist_mod_spec(a.pos, p, w, h);
    if dist > radius {
        b == a
    } else {
        let factor = fp_mul(SCALE - tdiv(dist * SCALE, radius), 300);
        let vx = a.vel.x + fp_mul(d.x as int, factor);
        let vy = a.vel.y + fp_mul(d.y as int, factor);
        let m = sqrt_i(mag_sq_of(vx, vy));
        &&& b.vel.x as int == crate::vec2::limit_axis(vx, VEL_LIMIT as int, m)
        &&& b.vel.y as int == crate::vec2::limit_axis(vy, VEL_LIMIT as int, m)
        &&& b.pos == a.pos
        &&& b.id == a.id
        &&& b.radius == a.radius
        &&& b.view_range == a.view_range
        &&& b.pos_w == a.pos_w
        &&& b.vel_w == a.vel_w
        &&& b.drag == a.drag
        &&& b.max_acc == a.max_acc
        &&& b.weirdness == a.weirdness
        &&& b.s_in_range == a.s_in_range
        &&& b.s_vel == a.s_vel
        &&& b.color == a.color
    }
}

impl MyGame {
    /// Populate the world: `pop` agents with their index as id, a random
    /// position inside the world, zero velocity, and default parameters.
    pub fn init_agents(&mut self, pop: usize)
        requires
            old(self).wf(),
        ensures
            final(self).wf(),
            final(self).agents@.len() == pop,
            forall|i: int|
                0 <= i < pop ==> {
                    let a = #[trigger] final(self).agents@[i];
                    &&& a.id == i
                    &&& a.vel == (Vec2 { x: 0i64, y: 0i64 })
                    &&& 0 <= a.pos.x < old(self).up.w
                    &&& 0 <= a.pos.y < old(self).up.h
                    &&& a.s_vel == 0 && a.s_in_range == 0
                    &&& (a.color == 0 || a.color == 180_000)
                    &&& a.radius == 2 * SCALE
                    &&& a.view_range == crate::ag::MAX_DIST
                    &&& a.pos_w == -100 && a.vel_w == SCALE
                    &&& a.drag == crate::ag::DRAG && a.max_acc == crate::ag::MAXACC
                    &&& a.weirdness == SCALE
                },
            final(self).up == old(self).up,
            final(self).frames == old(self).frames,
    {
        let mut agents: Vec<Agent> = Vec::new();
        let w = self.up.w;
        let h = self.up.h;
        while agents.len() < pop
            invariant
                old(self).wf(),
                *self == *old(self),
                w == self.up.w,
                h == self.up.h,
                agents@.len() <= pop,
                forall|i: int|
                    0 <= i < agents@.len() ==> agent_ok(
                        #[trigger] agents@[i],
                        w as int,
                        h as int,
                    ),
                forall|i: int|
                    0 <= i < agents@.len() ==> {
                        let a = #[trigger] agents@[i];
                        &&& a.id == i
                        &&& a.vel == (Vec2 { x: 0i64, y: 0i64 })
                        &&& 0 <= a.pos.x < w
                        &&& 0 <= a.pos.y < h
                        &&& a.s_vel == 0 && a.s_in_range == 0
                        &&& (a.color == 0 || a.color == 180_000)
                        &&& a.radius == 2 * SCALE
                        &&& a.view_range == crate::ag::MAX_DIST
                        &&& a.pos_w == -100 && a.vel_w == SCALE
                        &&& a.drag == crate::ag::DRAG && a.max_acc == crate::ag::MAXACC
                        &&& a.weirdness == SCALE
                    },
            decreases pop - agents@.len(),
        {
            let px = crate::utils::rand_usize(w as usize) as i64;
            let py = crate::utils::rand_usize(h as usize) as i64;
            let a = Agent::new(
                agents.len(),
                Vec2 { x: px, y: py },
                Vec2 { x: 0, y: 0 },
            );
            agents.push(a);
        }
        self.agents = agents;
        self.latex = Latex2D::new(self.resx, self.resy, self.up.w, self.up.h);
    }

    /// Rebuild the spatial grid from the current agent positions: a fresh
    /// snapshot in which every agent is filed exactly under the wrapped
    /// cell of its position, and every entry records a live agent.
    pub fn update_latex(&mut self)
        requires
            old(self).wf(),
        ensures
            final(self).wf(),
            final(self).latex.wf(),
            final(self).latex.w == old(self).up.w,
            final(self).latex.h == old(self).up.h,
            final(self).latex.resx == old(self).resx,
            final(self).latex.resy == old(self).resy,
            forall|i: int|
                0 <= i < final(self).agents@.len() ==> agent_in_grid(
                    final(self).latex,
                    final(self).agents@,
                    i,
                ),
            grid_entries_match(final(self).latex, final(self).agents@),
            grid_ids_ok(final(self).latex, final(self).agents@.len() as int),
            forall|k: (i16, i16)| #![trigger final(self).latex.bucket_of(k)]
                final(self).latex.bucket_of(k) == cell_agents(
                    old(self).resx as int,
                    old(self).resy as int,
                    old(self).up.w as int,
                    old(self).up.h as int,
                    old(self).agents@,
                    k,
                    old(self).agents@.len() as int,
                ),
            final(self).agents == old(self).agents,
            final(self).up == old(self).up,
            final(self).frames == old(self).frames,
            final(self).avg_stats_vel == old(self).avg_stats_vel,
            final(self).avg_stats_range == old(self).avg_stats_range,
            final(self).resx == old(self).resx,
            final(self).resy == old(self).resy,
            final(self).latex_div == old(self).latex_div,
            final(self).fast == old(self).fast,
    {
        let mut latex = Latex2D::new(self.resx, self.resy, self.up.w, self.up.h);
        let mut i: usize = 0;
        while i < self.agents.len()
            invariant
                old(self).wf(),
                *self == *old(self),
                0 <= i <= self.agents@.len(),
                latex.wf(),
                latex.resx == self.resx,
                latex.resy == self.resy,
                latex.w == self.up.w,
                latex.h == self.up.h,
                forall|j: int| 0 <= j < i ==> agent_in_grid(latex, self.agents@, j),
                grid_entries_match(latex, self.agents@),
                forall|k: (i16, i16), j: int|
                    #![trigger latex.contents()[k][j]]
                    latex.contents().dom().contains(k) && 0 <= j < latex.contents()[k].len()
                        ==> latex.contents()[k][j].0 < i,
                forall|k: (i16, i16)| #![trigger latex.bucket_of(k)]
                    latex.bucket_of(k) == cell_agents(
                        self.resx as int,
                        self.resy as int,
                        self.up.w as int,
                        self.up.h as int,
                        self.agents@,
                        k,
                        i as int,
                    ),
            decreases self.agents@.len() - i,
        {
            let a = self.agents[i];
            let apos = *a.get_latex_pos();
            let ghost g0 = latex;
            latex.add((apos.x, apos.y), i);
            proof {
                let ghost agents = self.agents@;
                let k = (
                    g0.cell_x(a.pos.x as int) as i16,
                    g0.cell_y(a.pos.y as int) as i16,
                );
                let newb = g0.bucket_of(k).push((i, a.pos.x, a.pos.y));
                assert(latex.contents() == g0.contents().insert(k, newb));
                assert(latex.contents()[k][newb.len() - 1] == (i, a.pos.x, a.pos.y));
                assert forall|j: int| 0 <= j < i + 1 implies agent_in_grid(
                    latex,
                    agents,
                    j,
                ) by {
                    assert(latex.cell_x(agents[j].pos.x as int) == g0.cell_x(
                        agents[j].pos.x as int,
                    ));
                    assert(latex.cell_y(agents[j].pos.y as int) == g0.cell_y(
                        agents[j].pos.y as int,
                    ));
                    if j < i {
                        assert(agent_in_grid(g0, agents, j));
                        let kj = (
                            g0.cell_x(agents[j].pos.x as int) as i16,
                            g0.cell_y(agents[j].pos.y as int) as i16,
                        );
                        assert(g0.contents().dom().contains(kj));
                        let wit = choose|jj: int|
                            0 <= jj < g0.contents()[kj].len() && g0.contents()[kj][jj] == (
                                j as usize,
                                agents[j].pos.x,
                                agents[j].pos.y,
                            );
                        if kj == k {
                            assert(latex.contents()[kj] == newb);
                            assert(g0.bucket_of(k) == g0.contents()[k]);
                            assert(newb[wit] == g0.contents()[kj][wit]);
                        } else {
                            assert(latex.contents()[kj] == g0.contents()[kj]);
                        }
                        assert(latex.contents()[kj][wit] == (
                            j as usize,
                            agents[j].pos.x,
                            agents[j].pos.y,
                        ));
                        assert(latex.contents().dom().contains(kj));
                    } else {
                        assert(latex.contents().dom().contains(k));
                        assert(latex.contents()[k][newb.len() - 1] == (
                            i as usize,
                            agents[j].pos.x,
                            agents[j].pos.y,
                        ));
                    }
                }
                assert forall|kk: (i16, i16), j: int|
                    latex.contents().dom().contains(kk) && 0 <= j < latex.contents()[kk].len()
                    implies {
                        let t = #[trigger] latex.contents()[kk][j];
                        &&& t.0 < i + 1
                        &&& 0 <= t.0 < agents.len()
                        &&& t.1 == agents[t.0 as int].pos.x
                        &&& t.2 == agents[t.0 as int].pos.y
                    } by {
                    if kk == k {
                        let ob = g0.bucket_of(k);
                        if j < ob.len() {
                            assert(g0.contents().dom().contains(k));
                            assert(latex.contents()[kk][j] == g0.contents()[kk][j]);
                        } else {
                            assert(latex.contents()[kk][j] == (i as usize, a.pos.x, a.pos.y));
                        }
                    } else {
                        assert(g0.contents().dom().contains(kk));
                        assert(latex.contents()[kk][j] == g0.contents()[kk][j]);
                    }
                }
                crate::fp::lemma_mod_range(a.pos.x as int / g0.resx as int, g0.vx());
                crate::fp::lemma_mod_range(a.pos.y as int / g0.resy as int, g0.vy());
                assert(cell_key_of(
                    self.resx as int,
                    self.resy as int,
                    self.up.w as int,
                    self.up.h as int,
                    a.pos,
                ) == (k.0 as int, k.1 as int));
                assert forall|kk: (i16, i16)| #![trigger latex.bucket_of(kk)]
                    latex.bucket_of(kk) == cell_agents(
                        self.resx as int,
                        self.resy as int,
                        self.up.w as int,
                        self.up.h as int,
                        agents,
                        kk,
                        i as int + 1,
                    ) by {
                    assert(g0.bucket_of(kk) == cell_agents(
                        self.resx as int,
                        self.resy as int,
                        self.up.w as int,
                        self.up.h as int,
                        agents,
                        kk,
                        i as int,
                    ));
                    if kk == k {
                        assert(latex.bucket_of(kk) == newb);
                    } else {
                        assert(latex.bucket_of(kk) == g0.bucket_of(kk));
                        assert((k.0 as int, k.1 as int) != (kk.0 as int, kk.1 as int));
                    }
                }
            }
            i = i + 1;
        }
        self.latex = latex;
    }

    /// The sequential stats pass: record the largest agent speed and the
    /// largest neighbour count into the rolling windows.
    pub fn update_stats(&mut self)
        ensures
            final(self).avg_stats_vel@ == push_trim(
                old(self).avg_stats_vel@,
                max_svel(old(self).agents@, old(self).agents@.len() as int) as i64,
            ),
            final(self).avg_stats_range@ == push_trim(
                old(self).avg_stats_range@,
                max_range(old(self).agents@, old(self).agents@.len() as int) as i64,
            ),
            max_svel(old(self).agents@, old(self).agents@.len() as int) <= i64::MAX as int,
            max_range(old(self).agents@, old(self).agents@.len() as int) <= usize::MAX as int,
            final(self).agents == old(self).agents,
            final(self).latex == old(self).latex,
            final(self).up == old(self).up,
            final(self).frames == old(self).frames,
            final(self).resx == old(self).resx,
            final(self).resy == old(self).resy,
            final(self).latex_div == old(self).latex_div,
            final(self).fast == old(self).fast,
    {
        let mut maxv: i64 = 0;
        let mut maxr: usize = 0;
        let mut i: usize = 0;
        while i < self.agents.len()
            invariant
                *self == *old(self),
                0 <= i <= self.agents@.len(),
                maxv as int == max_svel(self.agents@, i as int),
                maxr as int == max_range(self.agents@, i as int),
            decreases self.agents@.len() - i,
        {
            let a = self.agents[i];
            if a.s_vel > maxv {
                maxv = a.s_vel;
            }
            if a.s_in_range > maxr {
                maxr = a.s_in_range;
            }
            i = i + 1;
        }
        self.avg_stats_vel.push(maxv);
        if self.avg_stats_vel.len() > ST_LEN {
            self.avg_stats_vel.remove(0);
        }
        self.avg_stats_range.push(maxr as i64);
        if self.avg_stats_range.len() > ST_LEN {
            self.avg_stats_range.remove(0);
        }
        proof {
            assert(final(self).avg_stats_vel@ =~= push_trim(
                old(self).avg_stats_vel@,
                max_svel(old(self).agents@, old(self).agents@.len() as int) as i64,
            ));
            assert(final(self).avg_stats_range@ =~= push_trim(
                old(self).avg_stats_range@,
                max_range(old(self).agents@, old(self).agents@.len() as int) as i64,
            ));
        }
    }
}


impl MyGame {
    /// One full tick: rebuild the grid snapshot from the current
    /// positions, update every agent against that frozen snapshot with
    /// the given gravity wells, then run the stats pass.
    ///
    /// Each resulting agent stands in `step_rel` to its old self over the
    /// frozen snapshot alone, so the result does not depend on the order
    /// in which the agents are processed: any schedule, sequential or
    /// parallel, yields these same states.
    pub fn update_agents(&mut self, gravity: Vec<Vec2>)
        requires
            old(self).wf(),
            gravity@.len() <= GRAVITY_MAX_POINTS,
            forall|i: int|
                0 <= i < gravity@.len() ==> (#[trigger] gravity@[i]).in_bounds(
                    WORLD_CAP as int,
                ),
            old(self).frames < u64::MAX,
        ensures
            final(self).wf(),
            final(self).agents@.len() == old(self).agents@.len(),
            final(self).up == (Update { gravity: gravity, ..old(self).up }),
            forall|i: int|
                0 <= i < old(self).agents@.len() ==> step_rel(
                    old(self).agents@[i],
                    #[trigger] final(self).agents@[i],
                    final(self).up,
                    final(self).latex,
                    old(self).agents@,
                ),
            forall|i: int|
                0 <= i < final(self).agents@.len() ==> agent_in_grid(
                    final(self).latex,
                    old(self).agents@,
                    i,
                ),
            grid_entries_match(final(self).latex, old(self).agents@),
            forall|k: (i16, i16)| #![trigger final(self).latex.bucket_of(k)]
                final(self).latex.bucket_of(k) == cell_agents(
                    old(self).resx as int,
                    old(self).resy as int,
                    old(self).up.w as int,
                    old(self).up.h as int,
                    old(self).agents@,
                    k,
                    old(self).agents@.len() as int,
                ),
            final(self).frames == old(self).frames + 1,
            final(self).avg_stats_vel@ == push_trim(
                old(self).avg_stats_vel@,
                max_svel(final(self).agents@, final(self).agents@.len() as int) as i64,
            ),
            final(self).avg_stats_range@ == push_trim(
                old(self).avg_stats_range@,
                max_range(final(self).agents@, final(self).agents@.len() as int) as i64,
            ),
    {
        let ghost s0 = *old(self);
        self.update_latex();
        self.up.gravity = gravity;
        let ghost upg = self.up;
        proof {
            assert(update_ok(upg));
        }
        let mut newagents: Vec<Agent> = Vec::new();
        let mut i: usize = 0;
        while i < self.agents.len()
            invariant
                s0.wf(),
                self.agents == s0.agents,
                self.up == (Update { gravity: gravity, ..s0.up }),
                upg == self.up,
                update_ok(upg),
                self.latex.wf(),
                self.latex.w == self.up.w,
                self.latex.h == self.up.h,
                grid_ids_ok(self.latex, self.agents@.len() as int),
                0 <= i <= self.agents@.len(),
                newagents@.len() == i,
                forall|j: int|
                    0 <= j < i ==> step_rel(
                        s0.agents@[j],
                        #[trigger] newagents@[j],
                        upg,
                        self.latex,
                        s0.agents@,
                    ),
                forall|j: int|
                    0 <= j < i ==> agent_ok(
                        #[trigger] newagents@[j],
                        self.up.w as int,
                        self.up.h as int,
                    ) && newagents@[j].id == j,
            decreases self.agents@.len() - i,
        {
            let mut a = self.agents[i];
            a.update(&self.up, &self.latex, &self.agents);
            newagents.push(a);
            i = i + 1;
        }
        self.agents = newagents;
        self.frames = self.frames + 1;
        self.update_stats();
    }

    /// The pointer brush: every agent within toroidal `radius` of the
    /// pointer `p` receives the pointer's drag `d` scaled by a factor
    /// that decays linearly from 0.3 at the pointer to zero at the rim,
    /// its velocity then kept within `VEL_LIMIT`; agents beyond the
    /// radius are untouched. An external mutation applied between ticks,
    /// not part of the force model.
    pub fn brush(&mut self, p: Vec2, d: Vec2, radius: i64)
        requires
            old(self).wf(),
            p.in_bounds(VEC_LIMIT as int),
            d.in_bounds(1_000_000),
            1 <= radius <= VEC_LIMIT,
        ensures
            final(self).wf(),
            final(self).agents@.len() == old(self).agents@.len(),
            forall|i: int|
                0 <= i < old(self).agents@.len() ==> brush_rel(
                    old(self).agents@[i],
                    #[trigger] final(self).agents@[i],
                    p,
                    d,
                    radius as int,
                    old(self).up.w as int,
                    old(self).up.h as int,
                ),
            final(self).latex == old(self).latex,
            final(self).up == old(self).up,
            final(self).frames == old(self).frames,
    {
        let ghost s0 = *old(self);
        let mut i: usize = 0;
        while i < self.agents.len()
            invariant
                s0.wf(),
                p.in_bounds(VEC_LIMIT as int),
                d.in_bounds(1_000_000),
                1 <= radius <= VEC_LIMIT,
                (*self == (MyGame { agents: self.agents, ..s0 })),
                self.agents@.len() == s0.agents@.len(),
                0 <= i <= self.agents@.len(),
                forall|j: int|
                    0 <= j < i ==> brush_rel(
                        s0.agents@[j],
                        #[trigger] self.agents@[j],
                        p,
                        d,
                        radius as int,
                        s0.up.w as int,
                        s0.up.h as int,
                    ),
                forall|j: int|
                    i <= j < self.agents@.len() ==> self.agents@[j] == s0.agents@[j],
                forall|j: int|
                    0 <= j < self.agents@.len() ==> agent_ok(
                        #[trigger] self.agents@[j],
                        s0.up.w as int,
                        s0.up.h as int,
                    ) && self.agents@[j].id == j,
            decreases self.agents@.len() - i,
        {
            let a = self.agents[i];
            let dist = a.pos.dist_mod(&p, self.up.w, self.up.h);
            if dist <= radius {
                proof {
                    crate::fp::lemma_tdiv_abs(dist as int * SCALE, radius as int);
                    vstd::arithmetic::div_mod::lemma_div_is_ordered(
                        dist as int * SCALE,
                        radius as int * SCALE,
                        radius as int,
                    );
                    assert(radius as int * SCALE / (radius as int) == SCALE)
                        by (nonlinear_arith)
                        requires
                            radius >= 1,
                    ;
                    assert(dist as int * SCALE <= radius as int * SCALE) by (nonlinear_arith)
                        requires
                            dist <= radius,
                            SCALE == 1000i64,
                    ;
                }
                let taper_b = SCALE - (dist * SCALE) / radius;
                proof {
                    lemma_fp_mul_bound(taper_b as int, 300, SCALE as int, 300);
                }
                let factor = mul_fp(taper_b, 300);
                proof {
                    lemma_fp_mul_bound(d.x as int, factor as int, 1_000_000, 300);
                    lemma_fp_mul_bound(d.y as int, factor as int, 1_000_000, 300);
                }
                let ix = mul_fp(d.x, factor);
                let iy = mul_fp(d.y, factor);
                let mut b = a;
                b.vel.add(&Vec2 { x: ix, y: iy });
                let ghost v2 = b.vel;
                b.vel.limit(VEL_LIMIT);
                proof {
                    crate::vec2::lemma_sq_nonneg(v2.x as int);
                    crate::vec2::lemma_sq_nonneg(v2.y as int);
                    crate::fp::lemma_sqrt_exists(
                        mag_sq_of(v2.x as int, v2.y as int) as nat,
                    );
                    crate::vec2::lemma_component_le_mag(
                        v2.x as int,
                        v2.y as int,
                        v2.mag_spec(),
                    );
                }
                self.agents.set(i, b);
            }
            i = i + 1;
        }
    }
}


/// Tick determinism: two populations that each stand in the step
/// relation to the same frozen snapshot, context and grid are the same
/// population. Together with `update_agents`'s contract this says a tick
/// has exactly one possible outcome, however its per-agent work is
/// scheduled.
pub proof fn lemma_tick_deterministic(
    olds: Seq<Agent>,
    n1: Seq<Agent>,
    n2: Seq<Agent>,
    u: Update,
    g: Latex2D,
)
    requires
        n1.len() == olds.len(),
        n2.len() == olds.len(),
        forall|i: int| 0 <= i < olds.len() ==> step_rel(olds[i], #[trigger] n1[i], u, g, olds),
        forall|i: int| 0 <= i < olds.len() ==> step_rel(olds[i], #[trigger] n2[i], u, g, olds),
    ensures
        n1 =~= n2,
{
    assert forall|i: int| 0 <= i < olds.len() implies n1[i] == n2[i] by {
        crate::ag::lemma_step_deterministic(olds[i], n1[i], n2[i], u, g, olds);
    }
}


/// Positions stay inside the world: in any sound engine state every
/// agent satisfies `0 <= pos.x < w` and `0 <= pos.y < h`, and a tick
/// hands back a sound state, so this holds after any number of ticks.
pub proof fn lemma_agents_inside_world(s: MyGame)
    requires
        s.wf(),
    ensures
        forall|i: int|
            0 <= i < s.agents@.len() ==> {
                &&& 0 <= (#[trigger] s.agents@[i]).pos.x < s.up.w
                &&& 0 <= s.agents@[i].pos.y < s.up.h
            },
{
    assert forall|i: int| 0 <= i < s.agents@.len() implies {
        &&& 0 <= (#[trigger] s.agents@[i]).pos.x < s.up.w
        &&& 0 <= s.agents@[i].pos.y < s.up.h
    } by {
        assert(agent_ok(s.agents@[i], s.up.w as int, s.up.h as int));
    }
}

} // verus!
