//! The toroidal spatial grid: a uniform partition of the wrap-around world,
//! rebuilt from scratch every tick, answering neighbourhood queries.
//!
//! Cell coordinates are the floor of the position over the cell resolution,
//! wrapped into `[0, vx) x [0, vy)`. `get` walks a wrapped window of cells
//! around the query point and unions their buckets: a candidate set that may
//! over-return. `get_safe` scans every cell and filters by true toroidal
//! distance: the exact reference answer.

use vstd::prelude::*;
use vstd::arithmetic::div_mod::{
    lemma_div_is_ordered, lemma_fundamental_div_mod, lemma_mod_multiples_vanish,
    lemma_small_mod,
};
use crate::cellmap::{cell_map_contents, CellMap};
use crate::fp::{abs, emod, fdiv, lemma_mod_range};
use crate::vec2::{dist_mod_spec, Vec2, VEC_LIMIT, WORLD_LIMIT};

verus! {

/// Largest grid dimension on either axis.
pub const GRID_DIM_LIMIT: i64 = 32767;

/// Something that can be filed in the grid by a position of its own.
pub trait HasPosition {
    /// The position this value is filed under.
    spec fn latex_pos_spec(&self) -> Vec2;

    fn get_latex_pos(&self) -> (r: &Vec2)
        ensures
            *r == self.latex_pos_spec(),
    ;
}

/// A grid entry: the stored element and the position it was filed under.
pub type Entry = (usize, i64, i64);

pub struct Latex2D {
    pub resx: i64,
    pub resy: i64,
    pub w: i64,
    pub h: i64,
    pub cells: CellMap,
}

/// Wrapped offset of cell `c` from cell `s` on an axis of `n` cells.
pub open spec fn wofs(s: int, c: int, n: int) -> int {
    (c - s) % n
}

/// The cell the window starts from, walking `i` wrapped steps, lands at
/// offset `i`.
proof fn lemma_wofs_roundtrip(s: int, i: int, n: int)
    requires
        0 < n,
        0 <= i < n,
    ensures
        wofs(s, (s + i) % n, n) == i,
{
    let t = (s + i) % n;
    lemma_fundamental_div_mod(s + i, n);
    let q = (s + i) / n;
    assert(t - s == i - n * q);
    lemma_mod_multiples_vanish(-q, i, n);
    assert(n * (-q) + i == i - n * q) by (nonlinear_arith);
    lemma_small_mod(i as nat, n as nat);
}

/// A cell is reached from the window start after exactly its wrapped
/// offset many steps.
proof fn lemma_wofs_inverse(s: int, c: int, n: int)
    requires
        0 < n,
        0 <= c < n,
    ensures
        (s + wofs(s, c, n)) % n == c,
{
    let o = wofs(s, c, n);
    lemma_fundamental_div_mod(c - s, n);
    let q = (c - s) / n;
    assert(s + o == c - n * q);
    lemma_mod_multiples_vanish(-q, c, n);
    assert(n * (-q) + c == c - n * q) by (nonlinear_arith);
    lemma_small_mod(c as nat, n as nat);
}

/// The number of cells an un-wrapped interval of cells spans on one axis.
pub open spec fn raw_span(p: int, radius: int, res: int) -> int {
    (p + radius) / res - (p - radius) / res + 1
}

/// Does a kept entry lie within toroidal `radius` of `pos`?
pub open spec fn keep_entry(t: Entry, pos: Vec2, radius: int, w: int, h: int) -> bool {
    dist_mod_spec(Vec2 { x: t.1, y: t.2 }, pos, w, h) < radius
}

/// The entries of `s` within toroidal `radius` of `pos`, in order.
pub open spec fn filter_keep(s: Seq<Entry>, pos: Vec2, radius: int, w: int, h: int) -> Seq<Entry>
    decreases s.len(),
{
    if s.len() == 0 {
        Seq::empty()
    } else {
        let pre = filter_keep(s.drop_last(), pos, radius, w, h);
        if keep_entry(s.last(), pos, radius, w, h) {
            pre.push(s.last())
        } else {
            pre
        }
    }
}

impl Latex2D {
    /// The abstract cell store: bucket sequences by wrapped cell coordinate.
    pub open spec fn contents(self) -> Map<(i16, i16), Seq<Entry>> {
        cell_map_contents(self.cells)
    }

    /// Number of cells along x.
    pub open spec fn vx(self) -> int {
        self.w as int / self.resx as int
    }

    /// Number of cells along y.
    pub open spec fn vy(self) -> int {
        self.h as int / self.resy as int
    }

    /// The wrapped x cell coordinate of a position.
    pub open spec fn cell_x(self, px: int) -> int {
        (px / self.resx as int) % self.vx()
    }

    /// The wrapped y cell coordinate of a position.
    pub open spec fn cell_y(self, py: int) -> int {
        (py / self.resy as int) % self.vy()
    }

    /// A key that lies on the grid.
    pub open spec fn valid_key(self, k: (i16, i16)) -> bool {
        0 <= k.0 < self.vx() && 0 <= k.1 < self.vy()
    }

    /// A stored entry whose position the vector operations accept.
    pub open spec fn entry_ok(t: Entry) -> bool {
        abs(t.1 as int) <= VEC_LIMIT as int && abs(t.2 as int) <= VEC_LIMIT as int
    }

    /// Well-formed grid: sane extents and resolution, dimensions on both
    /// axes in range, and every bucket filed under an on-grid key with
    /// bounded positions.
    pub open spec fn wf(self) -> bool {
        &&& 1 <= self.resx <= self.w <= WORLD_LIMIT
        &&& 1 <= self.resy <= self.h <= WORLD_LIMIT
        &&& 1 <= self.vx() <= GRID_DIM_LIMIT as int
        &&& 1 <= self.vy() <= GRID_DIM_LIMIT as int
        &&& forall|k: (i16, i16)| #[trigger]
            self.contents().dom().contains(k) ==> self.valid_key(k)
        &&& forall|k: (i16, i16), i: int|
            #![trigger self.contents()[k][i]]
            self.contents().dom().contains(k) && 0 <= i < self.contents()[k].len()
                ==> Self::entry_ok(self.contents()[k][i])
    }

    /// An empty grid over a `w` by `h` world with cells of `resx` by `resy`.
    pub fn new(resx: i64, resy: i64, w: i64, h: i64) -> (r: Latex2D)
        requires
            1 <= resx <= w <= WORLD_LIMIT,
            1 <= resy <= h <= WORLD_LIMIT,
            w as int / resx as int <= GRID_DIM_LIMIT as int,
            h as int / resy as int <= GRID_DIM_LIMIT as int,
        ensures
            r.wf(),
            r.resx == resx && r.resy == resy && r.w == w && r.h == h,
            forall|k: (i16, i16)| !r.contents().dom().contains(k),
    {
        proof {
            assert(w as int / resx as int >= 1) by (nonlinear_arith)
                requires
                    1 <= resx <= w,
                ;
            assert(h as int / resy as int >= 1) by (nonlinear_arith)
                requires
                    1 <= resy <= h,
                ;
        }
        Latex2D { resx, resy, w, h, cells: CellMap::new() }
    }

    /// The grid dimensions `(vx, vy)`.
    pub fn vsize(&self) -> (r: (i16, i16))
        requires
            self.wf(),
        ensures
            r.0 as int == self.vx(),
            r.1 as int == self.vy(),
            1 <= r.0,
            1 <= r.1,
    {
        ((self.w / self.resx) as i16, (self.h / self.resy) as i16)
    }

    /// The wrapped cell coordinate holding position `p`.
    fn hash(&self, p: (i64, i64)) -> (r: (i16, i16))
        requires
            self.wf(),
            abs(p.0 as int) <= 2 * VEC_LIMIT as int,
            abs(p.1 as int) <= 2 * VEC_LIMIT as int,
        ensures
            r.0 as int == self.cell_x(p.0 as int),
            r.1 as int == self.cell_y(p.1 as int),
            self.valid_key(r),
    {
        let vs = self.vsize();
        proof {
            lemma_mod_range(p.0 as int, self.resx as int);
            lemma_mod_range(p.1 as int, self.resy as int);
        }
        let qx = fdiv(p.0, self.resx);
        let qy = fdiv(p.1, self.resy);
        let cx = emod(qx, vs.0 as i64);
        let cy = emod(qy, vs.1 as i64);
        (cx as i16, cy as i16)
    }

    /// The bucket at key `k`, or the empty sequence.
    pub open spec fn bucket_of(self, k: (i16, i16)) -> Seq<Entry> {
        if self.contents().dom().contains(k) {
            self.contents()[k]
        } else {
            Seq::empty()
        }
    }

    /// `v` is the element of some entry filed somewhere in the grid.
    pub open spec fn id_in_grid(self, v: usize) -> bool {
        exists|k: (i16, i16), i: int|
            #![auto]
            self.contents().dom().contains(k) && 0 <= i < self.contents()[k].len()
                && self.contents()[k][i].0 == v
    }

    /// Every element of `r` is filed somewhere in the grid.
    pub open spec fn sound_ids(self, r: Seq<usize>) -> bool {
        forall|j: int| #![trigger r[j]] 0 <= j < r.len() ==> self.id_in_grid(r[j])
    }

    /// File `element` under the cell holding `pos`.
    pub fn add(&mut self, pos: (i64, i64), element: usize)
        requires
            old(self).wf(),
            abs(pos.0 as int) <= VEC_LIMIT as int,
            abs(pos.1 as int) <= VEC_LIMIT as int,
        ensures
            final(self).wf(),
            final(self).resx == old(self).resx && final(self).resy == old(self).resy,
            final(self).w == old(self).w && final(self).h == old(self).h,
            ({
                let k = (
                    old(self).cell_x(pos.0 as int) as i16,
                    old(self).cell_y(pos.1 as int) as i16,
                );
                final(self).contents() == old(self).contents().insert(
                    k,
                    old(self).bucket_of(k).push((element, pos.0, pos.1)),
                )
            }),
    {
        let k = self.hash(pos);
        let entry = (element, pos.0, pos.1);
        if self.cells.contains_key(k) {
            let bucket_opt = self.cells.get(k);
            let mut bucket = bucket_opt.unwrap();
            bucket.push(entry);
            self.cells.insert(k, bucket);
        } else {
            let mut bucket: Vec<Entry> = Vec::new();
            bucket.push(entry);
            self.cells.insert(k, bucket);
        }
        proof {
            let oldg = *old(self);
            assert forall|kk: (i16, i16)| #[trigger]
                self.contents().dom().contains(kk) implies self.valid_key(kk) by {
                if kk != k {
                    assert(oldg.contents().dom().contains(kk));
                }
            }
            assert forall|kk: (i16, i16), i: int|
                self.contents().dom().contains(kk) && 0 <= i < self.contents()[kk].len()
                implies Self::entry_ok(#[trigger] self.contents()[kk][i]) by {
                if kk == k {
                    let ob = oldg.bucket_of(k);
                    if i < ob.len() {
                        assert(oldg.contents().dom().contains(k) && ob[i]
                            == oldg.contents()[k][i]);
                    } else {
                        assert(self.contents()[kk][i] == entry);
                    }
                } else {
                    assert(oldg.contents().dom().contains(kk));
                    assert(self.contents()[kk][i] == oldg.contents()[kk][i]);
                }
            }
        }
    }

    /// The first `xs` buckets of row `y`, concatenated.
    pub open spec fn row_pre(self, y: int, xs: int) -> Seq<Entry>
        decreases xs,
    {
        if xs <= 0 {
            Seq::empty()
        } else {
            self.row_pre(y, xs - 1) + self.bucket_of(((xs - 1) as i16, y as i16))
        }
    }

    /// The first `ys` full rows of the grid, concatenated.
    pub open spec fn scan_pre(self, ys: int) -> Seq<Entry>
        decreases ys,
    {
        if ys <= 0 {
            Seq::empty()
        } else {
            self.scan_pre(ys - 1) + self.row_pre(ys - 1, self.vx())
        }
    }

    /// Every entry of every cell, row by row: the exhaustive scan.
    pub open spec fn scan_seq(self) -> Seq<Entry> {
        self.scan_pre(self.vy())
    }

    /// A radius that reaches half of the smaller world extent degrades
    /// the windowed query to a full scan of both axes, so it can never
    /// undercount however the wrapped window would fold.
    pub open spec fn full_span(self, radius: int) -> bool {
        2 * radius >= self.w || 2 * radius >= self.h
    }

    /// How many cells the windowed query walks along x.
    pub open spec fn win_steps_x(self, px: int, radius: int) -> int {
        if self.full_span(radius) || raw_span(px, radius, self.resx as int) >= self.vx() {
            self.vx()
        } else {
            raw_span(px, radius, self.resx as int)
        }
    }

    /// The cell the windowed query starts from along x.
    pub open spec fn win_start_x(self, px: int, radius: int) -> int {
        if self.full_span(radius) || raw_span(px, radius, self.resx as int) >= self.vx() {
            0
        } else {
            self.cell_x(px - radius)
        }
    }

    /// How many cells the windowed query walks along y.
    pub open spec fn win_steps_y(self, py: int, radius: int) -> int {
        if self.full_span(radius) || raw_span(py, radius, self.resy as int) >= self.vy() {
            self.vy()
        } else {
            raw_span(py, radius, self.resy as int)
        }
    }

    /// The cell the windowed query starts from along y.
    pub open spec fn win_start_y(self, py: int, radius: int) -> int {
        if self.full_span(radius) || raw_span(py, radius, self.resy as int) >= self.vy() {
            0
        } else {
            self.cell_y(py - radius)
        }
    }

    /// The element ids of the bucket at `k`, in insertion order.
    pub open spec fn bucket_ids(self, k: (i16, i16)) -> Seq<usize> {
        self.bucket_of(k).map_values(|t: Entry| t.0)
    }

    /// Ids collected walking `steps` wrapped cells of row `y`, starting
    /// from column `s`.
    pub open spec fn win_row_ids(self, s: int, y: int, steps: int) -> Seq<usize>
        decreases steps,
    {
        if steps <= 0 {
            Seq::empty()
        } else {
            self.win_row_ids(s, y, steps - 1) + self.bucket_ids(
                (((s + steps - 1) % self.vx()) as i16, y as i16),
            )
        }
    }

    /// Ids collected walking the whole wrapped window: `steps` rows from
    /// `sy`, each `stepsx` cells from `sx`, row by row.
    pub open spec fn win_rows_ids(self, sx: int, stepsx: int, sy: int, steps: int) -> Seq<usize>
        decreases steps,
    {
        if steps <= 0 {
            Seq::empty()
        } else {
            self.win_rows_ids(sx, stepsx, sy, steps - 1) + self.win_row_ids(
                sx,
                (sy + steps - 1) % self.vy(),
                stepsx,
            )
        }
    }

    /// Exactly what the windowed query returns: the ids of the window's
    /// buckets, concatenated in walk order.
    pub open spec fn windowed_ids(self, px: int, py: int, radius: int) -> Seq<usize> {
        self.win_rows_ids(
            self.win_start_x(px, radius),
            self.win_steps_x(px, radius),
            self.win_start_y(py, radius),
            self.win_steps_y(py, radius),
        )
    }

    /// Does cell column `c` lie in the wrapped query window?
    pub open spec fn in_win_x(self, px: int, radius: int, c: int) -> bool {
        wofs(self.win_start_x(px, radius), c, self.vx()) < self.win_steps_x(px, radius)
    }

    /// Does cell row `c` lie in the wrapped query window?
    pub open spec fn in_win_y(self, py: int, radius: int, c: int) -> bool {
        wofs(self.win_start_y(py, radius), c, self.vy()) < self.win_steps_y(py, radius)
    }

    /// The exhaustive query: scan every cell, keep the elements whose
    /// recorded position lies within toroidal `radius` of `pos`.
    /// Always exact; the windowed `get` is only a candidate set.
    pub fn get_safe(&self, pos: (i64, i64), radius: i64) -> (r: Vec<Entry>)
        requires
            self.wf(),
            abs(pos.0 as int) <= VEC_LIMIT as int,
            abs(pos.1 as int) <= VEC_LIMIT as int,
            0 <= radius,
        ensures
            r@ == filter_keep(
                self.scan_seq(),
                Vec2 { x: pos.0, y: pos.1 },
                radius as int,
                self.w as int,
                self.h as int,
            ),
    {
        let ghost posv = Vec2 { x: pos.0, y: pos.1 };
        let posvec = Vec2 { x: pos.0, y: pos.1 };
        let vs = self.vsize();
        let mut r: Vec<Entry> = Vec::new();
        let mut iy: i16 = 0;
        while iy < vs.1
            invariant
                self.wf(),
                vs.0 as int == self.vx(),
                vs.1 as int == self.vy(),
                0 <= iy <= vs.1,
                posv == (Vec2 { x: pos.0, y: pos.1 }),
                posvec == posv,
                posv.in_bounds(VEC_LIMIT as int),
                0 <= radius,
                r@ == filter_keep(
                    self.scan_pre(iy as int),
                    posv,
                    radius as int,
                    self.w as int,
                    self.h as int,
                ),
            decreases vs.1 - iy,
        {
            let mut ix: i16 = 0;
            while ix < vs.0
                invariant
                    self.wf(),
                    vs.0 as int == self.vx(),
                    vs.1 as int == self.vy(),
                    0 <= iy < vs.1,
                    0 <= ix <= vs.0,
                    posv == (Vec2 { x: pos.0, y: pos.1 }),
                    posvec == posv,
                    posv.in_bounds(VEC_LIMIT as int),
                    0 <= radius,
                    r@ == filter_keep(
                        self.scan_pre(iy as int) + self.row_pre(iy as int, ix as int),
                        posv,
                        radius as int,
                        self.w as int,
                        self.h as int,
                    ),
                decreases vs.0 - ix,
            {
                match self.cells.get((ix, iy)) {
                    Some(bucket) => {
                        let ghost pre = self.scan_pre(iy as int) + self.row_pre(
                            iy as int,
                            ix as int,
                        );
                        let mut j: usize = 0;
                        while j < bucket.len()
                            invariant
                                self.wf(),
                                posv == (Vec2 { x: pos.0, y: pos.1 }),
                                posvec == posv,
                                posv.in_bounds(VEC_LIMIT as int),
                                0 <= radius,
                                0 <= j <= bucket.len(),
                                self.contents().dom().contains((ix, iy)),
                                bucket@ == self.contents()[(ix, iy)],
                                r@ == filter_keep(
                                    pre + bucket@.subrange(0, j as int),
                                    posv,
                                    radius as int,
                                    self.w as int,
                                    self.h as int,
                                ),
                            decreases bucket.len() - j,
                        {
                            let t = bucket[j];
                            let ghost s1 = pre + bucket@.subrange(0, j as int + 1);
                            proof {
                                assert(self.contents()[(ix, iy)][j as int] == t);
                                assert(Self::entry_ok(t));
                                assert(s1.drop_last() =~= pre + bucket@.subrange(0, j as int));
                                assert(s1.last() == t);
                            }
                            let tv = Vec2 { x: t.1, y: t.2 };
                            if tv.dist_mod(&posvec, self.w, self.h) < radius {
                                r.push(t);
                            }
                            j = j + 1;
                        }
                        proof {
                            assert(bucket@.subrange(0, bucket@.len() as int) =~= bucket@);
                            assert(pre + bucket@ =~= self.scan_pre(iy as int) + self.row_pre(
                                iy as int,
                                ix as int + 1,
                            ));
                        }
                    },
                    None => {
                        proof {
                            assert(self.bucket_of((ix, iy)) =~= Seq::empty());
                            assert(self.scan_pre(iy as int) + self.row_pre(iy as int, ix as int)
                                =~= self.scan_pre(iy as int) + self.row_pre(
                                iy as int,
                                ix as int + 1,
                            ));
                        }
                    },
                }
                ix = ix + 1;
            }
            proof {
                assert(self.scan_pre(iy as int) + self.row_pre(iy as int, self.vx())
                    =~= self.scan_pre(iy as int + 1));
            }
            iy = iy + 1;
        }
        r
    }

    /// The windowed query: walk the wrapped window of cells covering
    /// `pos` plus and minus `radius` and union their buckets. This is a
    /// candidate set that may over-return; exactness comes only from
    /// re-filtering by toroidal distance (or from `get_safe`). A window
    /// that would span more than one full wrap of the grid is clamped to
    /// the whole grid on that axis, so no cell is walked twice; a radius
    /// reaching half of the smaller world extent degrades to a full scan
    /// of the whole grid, so nothing is ever silently undercounted.
    pub fn get(&self, pos: (i64, i64), radius: i64) -> (r: Vec<usize>)
        requires
            self.wf(),
            abs(pos.0 as int) <= VEC_LIMIT as int,
            abs(pos.1 as int) <= VEC_LIMIT as int,
            0 <= radius <= VEC_LIMIT,
        ensures
            r@ == self.windowed_ids(pos.0 as int, pos.1 as int, radius as int),
            self.sound_ids(r@),
            forall|k: (i16, i16), i: int|
                #![auto]
                self.contents().dom().contains(k) && 0 <= i < self.contents()[k].len()
                    && self.in_win_x(pos.0 as int, radius as int, k.0 as int)
                    && self.in_win_y(pos.1 as int, radius as int, k.1 as int)
                    ==> r@.contains(self.contents()[k][i].0),
            self.full_span(radius as int) ==> forall|k: (i16, i16), i: int|
                #![auto]
                self.contents().dom().contains(k) && 0 <= i < self.contents()[k].len()
                    ==> r@.contains(self.contents()[k][i].0),
    {
        let vs = self.vsize();
        let vxl: i64 = vs.0 as i64;
        let vyl: i64 = vs.1 as i64;
        proof {
            lemma_div_is_ordered(pos.0 - radius, pos.0 + radius, self.resx as int);
            lemma_div_is_ordered(pos.1 - radius, pos.1 + radius, self.resy as int);
            lemma_mod_range((pos.0 - radius) as int, self.resx as int);
            lemma_mod_range((pos.1 - radius) as int, self.resy as int);
            lemma_mod_range((pos.0 + radius) as int, self.resx as int);
            lemma_mod_range((pos.1 + radius) as int, self.resy as int);
        }
        let full = 2 * radius >= self.w || 2 * radius >= self.h;
        let a0x = fdiv(pos.0 - radius, self.resx);
        let a1x = fdiv(pos.0 + radius, self.resx);
        let rawx: i64 = a1x - a0x + 1;
        let sx: i64 = if full || rawx >= vxl {
            0
        } else {
            emod(a0x, vxl)
        };
        let stepsx: i64 = if full || rawx >= vxl {
            vxl
        } else {
            rawx
        };
        let a0y = fdiv(pos.1 - radius, self.resy);
        let a1y = fdiv(pos.1 + radius, self.resy);
        let rawy: i64 = a1y - a0y + 1;
        let sy: i64 = if full || rawy >= vyl {
            0
        } else {
            emod(a0y, vyl)
        };
        let stepsy: i64 = if full || rawy >= vyl {
            vyl
        } else {
            rawy
        };
        assert(sx as int == self.win_start_x(pos.0 as int, radius as int));
        assert(stepsx as int == self.win_steps_x(pos.0 as int, radius as int));
        assert(sy as int == self.win_start_y(pos.1 as int, radius as int));
        assert(stepsy as int == self.win_steps_y(pos.1 as int, radius as int));
        let mut r: Vec<usize> = Vec::new();
        let mut iy: i64 = 0;
        while iy < stepsy
            invariant
                self.wf(),
                vxl as int == self.vx(),
                vyl as int == self.vy(),
                0 <= sx < vxl,
                1 <= stepsx <= vxl,
                0 <= sy < vyl,
                1 <= stepsy <= vyl,
                sx as int == self.win_start_x(pos.0 as int, radius as int),
                stepsx as int == self.win_steps_x(pos.0 as int, radius as int),
                sy as int == self.win_start_y(pos.1 as int, radius as int),
                stepsy as int == self.win_steps_y(pos.1 as int, radius as int),
                0 <= iy <= stepsy,
                r@ == self.win_rows_ids(sx as int, stepsx as int, sy as int, iy as int),
                self.sound_ids(r@),
                forall|k: (i16, i16), i: int|
                    #![auto]
                    self.contents().dom().contains(k) && 0 <= i < self.contents()[k].len()
                        && wofs(sy as int, k.1 as int, self.vy()) < iy
                        && self.in_win_x(pos.0 as int, radius as int, k.0 as int)
                        ==> r@.contains(self.contents()[k][i].0),
            decreases stepsy - iy,
        {
            let y: i64 = emod(sy + iy, vyl);
            proof {
                lemma_wofs_roundtrip(sy as int, iy as int, vyl as int);
            }
            let mut ix: i64 = 0;
            while ix < stepsx
                invariant
                    self.wf(),
                    vxl as int == self.vx(),
                    vyl as int == self.vy(),
                    0 <= sx < vxl,
                    1 <= stepsx <= vxl,
                    0 <= sy < vyl,
                    1 <= stepsy <= vyl,
                    sx as int == self.win_start_x(pos.0 as int, radius as int),
                    stepsx as int == self.win_steps_x(pos.0 as int, radius as int),
                    sy as int == self.win_start_y(pos.1 as int, radius as int),
                    stepsy as int == self.win_steps_y(pos.1 as int, radius as int),
                    0 <= iy < stepsy,
                    0 <= y < vyl,
                    wofs(sy as int, y as int, self.vy()) == iy as int,
                    0 <= ix <= stepsx,
                    r@ == self.win_rows_ids(sx as int, stepsx as int, sy as int, iy as int)
                        + self.win_row_ids(sx as int, y as int, ix as int),
                    self.sound_ids(r@),
                    forall|k: (i16, i16), i: int|
                        #![auto]
                        self.contents().dom().contains(k) && 0 <= i < self.contents()[k].len()
                            && wofs(sy as int, k.1 as int, self.vy()) < iy
                            && self.in_win_x(pos.0 as int, radius as int, k.0 as int)
                            ==> r@.contains(self.contents()[k][i].0),
                    forall|k: (i16, i16), i: int|
                        #![auto]
                        self.contents().dom().contains(k) && 0 <= i < self.contents()[k].len()
                            && k.1 as int == y as int
                            && wofs(sx as int, k.0 as int, self.vx()) < ix
                            ==> r@.contains(self.contents()[k][i].0),
                decreases stepsx - ix,
            {
                let x: i64 = emod(sx + ix, vxl);
                proof {
                    lemma_wofs_roundtrip(sx as int, ix as int, vxl as int);
                }
                let key = (x as i16, y as i16);
                let ghost pre_ids = r@;
                match self.cells.get(key) {
                    Some(bucket) => {
                        let ghost r_before_bucket = r@;
                        let mut j: usize = 0;
                        while j < bucket.len()
                            invariant
                                self.wf(),
                                self.contents().dom().contains(key),
                                bucket@ == self.contents()[key],
                                0 <= j <= bucket.len(),
                                r@.len() >= r_before_bucket.len(),
                                forall|jj: int|
                                    0 <= jj < r_before_bucket.len() ==> r@[jj]
                                        == r_before_bucket[jj],
                                r@ == r_before_bucket + bucket@.subrange(0, j as int).map_values(
                                    |t: Entry| t.0,
                                ),
                                self.sound_ids(r@),
                                forall|i: int|
                                    0 <= i < j ==> r@.contains(
                                        #[trigger] self.contents()[key][i].0,
                                    ),
                            decreases bucket.len() - j,
                        {
                            let e = bucket[j];
                            let ghost r_prev = r@;
                            r.push(e.0);
                            proof {
                                assert(r@[r@.len() - 1] == self.contents()[key][j as int].0);
                                assert(self.id_in_grid(e.0));
                                assert forall|jj: int| 0 <= jj < r@.len() implies self.id_in_grid(
                                    #[trigger] r@[jj],
                                ) by {
                                    if jj < r@.len() - 1 {
                                        assert(r@[jj] == r_prev[jj]);
                                    }
                                }
                                assert forall|i: int| 0 <= i < j + 1 implies r@.contains(
                                    #[trigger] self.contents()[key][i].0,
                                ) by {
                                    if i < j {
                                        assert(r_prev.contains(self.contents()[key][i].0));
                                        let wit = choose|wj: int|
                                            0 <= wj < r_prev.len() && r_prev[wj]
                                                == self.contents()[key][i].0;
                                        assert(r@[wit] == self.contents()[key][i].0);
                                    } else {
                                        assert(r@[r@.len() - 1] == self.contents()[key][i].0);
                                    }
                                }
                                assert(r@ =~= r_before_bucket + bucket@.subrange(
                                    0,
                                    j as int + 1,
                                ).map_values(|t: Entry| t.0));
                            }
                            j = j + 1;
                        }
                        proof {
                            lemma_preserved_contains(r_before_bucket, r@);
                            assert(bucket@.subrange(0, bucket@.len() as int) =~= bucket@);
                            assert(r@ =~= pre_ids + self.bucket_ids(key));
                        }
                    },
                    None => {
                        proof {
                            assert(self.bucket_of(key) =~= Seq::<Entry>::empty());
                            assert(self.bucket_ids(key) =~= Seq::<usize>::empty());
                            assert(r@ =~= pre_ids + self.bucket_ids(key));
                        }
                    },
                }
                proof {
                    assert(((sx as int + (ix as int + 1) - 1) % self.vx()) == x as int);
                    assert(self.win_row_ids(sx as int, y as int, ix as int + 1)
                        == self.win_row_ids(sx as int, y as int, ix as int) + self.bucket_ids(
                        key,
                    ));
                    assert(r@ =~= self.win_rows_ids(sx as int, stepsx as int, sy as int, iy as int)
                        + self.win_row_ids(sx as int, y as int, ix as int + 1));
                }
                proof {
                    assert forall|k: (i16, i16), i: int|
                        self.contents().dom().contains(k) && 0 <= i < self.contents()[k].len()
                            && k.1 as int == y as int
                            && wofs(sx as int, k.0 as int, self.vx()) < ix + 1
                        implies r@.contains(#[trigger] self.contents()[k][i].0) by {
                        lemma_mod_range(k.0 as int - sx as int, vxl as int);
                        if wofs(sx as int, k.0 as int, self.vx()) == ix as int {
                            lemma_wofs_inverse(sx as int, k.0 as int, vxl as int);
                            assert(k.0 as int == x as int);
                            assert(k == key);
                            assert(self.contents().dom().contains(key));
                        }
                    }
                }
                ix = ix + 1;
            }
            proof {
                assert(((sy as int + (iy as int + 1) - 1) % self.vy()) == y as int);
                assert(self.win_rows_ids(sx as int, stepsx as int, sy as int, iy as int + 1)
                    == self.win_rows_ids(sx as int, stepsx as int, sy as int, iy as int)
                    + self.win_row_ids(sx as int, y as int, stepsx as int));
                assert forall|k: (i16, i16), i: int|
                    self.contents().dom().contains(k) && 0 <= i < self.contents()[k].len()
                        && wofs(sy as int, k.1 as int, self.vy()) < iy + 1
                        && self.in_win_x(pos.0 as int, radius as int, k.0 as int)
                    implies r@.contains(#[trigger] self.contents()[k][i].0) by {
                    if wofs(sy as int, k.1 as int, self.vy()) == iy as int {
                        lemma_wofs_inverse(sy as int, k.1 as int, vyl as int);
                        assert(k.1 as int == y as int);
                        lemma_mod_range(k.0 as int - sx as int, vxl as int);
                    }
                }
            }
            iy = iy + 1;
        }
        proof {
            if self.full_span(radius as int) {
                assert forall|k: (i16, i16), i: int|
                    self.contents().dom().contains(k) && 0 <= i < self.contents()[k].len()
                    implies r@.contains(#[trigger] self.contents()[k][i].0) by {
                    assert(self.valid_key(k));
                    lemma_mod_range(k.0 as int - sx as int, vxl as int);
                    lemma_mod_range(k.1 as int - sy as int, vyl as int);
                    assert(self.in_win_x(pos.0 as int, radius as int, k.0 as int));
                    assert(self.in_win_y(pos.1 as int, radius as int, k.1 as int));
                }
            }
        }
        r
    }
}

/// A row prefix contains every entry of every bucket it has passed.
proof fn lemma_row_contains(g: Latex2D, y: int, xs: int, k: (i16, i16), i: int)
    requires
        g.wf(),
        g.contents().dom().contains(k),
        0 <= i < g.contents()[k].len(),
        k.1 as int == y,
        0 <= y <= GRID_DIM_LIMIT as int,
        0 <= k.0 as int,
        (k.0 as int) < xs,
        xs <= GRID_DIM_LIMIT as int,
    ensures
        g.row_pre(y, xs).contains(g.contents()[k][i]),
    decreases xs,
{
    let e = g.contents()[k][i];
    if k.0 as int == xs - 1 {
        let kk = ((xs - 1) as i16, y as i16);
        assert(kk == k);
        assert(g.bucket_of(k)[i] == e);
        let row = g.row_pre(y, xs);
        assert(row[g.row_pre(y, xs - 1).len() + i] == e);
    } else {
        lemma_row_contains(g, y, xs - 1, k, i);
        let pre = g.row_pre(y, xs - 1);
        let wit = choose|j: int| 0 <= j < pre.len() && pre[j] == e;
        assert(g.row_pre(y, xs)[wit] == e);
    }
}

/// A scan prefix contains every entry of every row it has passed.
proof fn lemma_scan_contains(g: Latex2D, ys: int, k: (i16, i16), i: int)
    requires
        g.wf(),
        g.contents().dom().contains(k),
        0 <= i < g.contents()[k].len(),
        0 <= k.1 as int,
        (k.1 as int) < ys,
        ys <= GRID_DIM_LIMIT as int,
    ensures
        g.scan_pre(ys).contains(g.contents()[k][i]),
    decreases ys,
{
    let e = g.contents()[k][i];
    if k.1 as int == ys - 1 {
        lemma_row_contains(g, ys - 1, g.vx(), k, i);
        let row = g.row_pre(ys - 1, g.vx());
        let wit = choose|j: int| 0 <= j < row.len() && row[j] == e;
        assert(g.scan_pre(ys)[g.scan_pre(ys - 1).len() + wit] == e);
    } else {
        lemma_scan_contains(g, ys - 1, k, i);
        let pre = g.scan_pre(ys - 1);
        let wit = choose|j: int| 0 <= j < pre.len() && pre[j] == e;
        assert(g.scan_pre(ys)[wit] == e);
    }
}

/// Every entry filed in the grid appears in the exhaustive scan.
pub proof fn lemma_entry_in_scan(g: Latex2D, k: (i16, i16), i: int)
    requires
        g.wf(),
        g.contents().dom().contains(k),
        0 <= i < g.contents()[k].len(),
    ensures
        g.scan_seq().contains(g.contents()[k][i]),
{
    lemma_scan_contains(g, g.vy(), k, i);
}

/// `v` names an entry that the exhaustive scan visits.
pub open spec fn id_in_scan(g: Latex2D, v: usize) -> bool {
    exists|t: Entry| #![auto] g.scan_seq().contains(t) && t.0 == v
}

/// The exhaustive scan covers the windowed query's candidates: every
/// element of a sequence that `sound_ids` describes — as `get`'s contract
/// describes its result — names an entry that the unfiltered full scan
/// behind `get_safe` visits. The windowed query can over-return but never
/// reach outside the grid's entries.
pub proof fn lemma_candidates_in_scan(g: Latex2D, ids: Seq<usize>)
    requires
        g.wf(),
        g.sound_ids(ids),
    ensures
        forall|j: int| #![trigger ids[j]]
            0 <= j < ids.len() ==> id_in_scan(g, ids[j]),
{
    assert forall|j: int| #![trigger ids[j]] 0 <= j < ids.len() implies id_in_scan(
        g,
        ids[j],
    ) by {
        assert(g.id_in_grid(ids[j]));
        let (k, i) = choose|k: (i16, i16), i: int|
            #![auto]
            g.contents().dom().contains(k) && 0 <= i < g.contents()[k].len()
                && g.contents()[k][i].0 == ids[j];
        lemma_entry_in_scan(g, k, i);
        assert(g.scan_seq().contains(g.contents()[k][i]) && g.contents()[k][i].0 == ids[j]);
    }
}

/// `t` is an entry of some bucket of the grid.
pub open spec fn in_some_bucket(g: Latex2D, t: Entry) -> bool {
    exists|k: (i16, i16), i: int|
        #![auto]
        g.contents().dom().contains(k) && 0 <= i < g.contents()[k].len()
            && g.contents()[k][i] == t
}

/// Every element of a row prefix is an entry of some bucket.
proof fn lemma_row_from_buckets(g: Latex2D, y: int, xs: int)
    ensures
        forall|j: int|
            0 <= j < g.row_pre(y, xs).len() ==> in_some_bucket(g, #[trigger] g.row_pre(y, xs)[j]),
    decreases xs,
{
    if xs > 0 {
        lemma_row_from_buckets(g, y, xs - 1);
        let pre = g.row_pre(y, xs - 1);
        let b = g.bucket_of(((xs - 1) as i16, y as i16));
        assert forall|j: int| 0 <= j < g.row_pre(y, xs).len() implies in_some_bucket(
            g,
            #[trigger] g.row_pre(y, xs)[j],
        ) by {
            if j < pre.len() {
                assert(g.row_pre(y, xs)[j] == pre[j]);
            } else {
                assert(g.row_pre(y, xs)[j] == b[j - pre.len()]);
                assert(g.contents().dom().contains(((xs - 1) as i16, y as i16)));
            }
        }
    }
}

/// Every element of the exhaustive scan is an entry of some bucket.
pub proof fn lemma_scan_from_buckets(g: Latex2D)
    ensures
        forall|j: int|
            0 <= j < g.scan_seq().len() ==> in_some_bucket(g, #[trigger] g.scan_seq()[j]),
{
    lemma_scan_pre_from_buckets(g, g.vy());
}

/// Every element of a scan prefix is an entry of some bucket.
proof fn lemma_scan_pre_from_buckets(g: Latex2D, ys: int)
    ensures
        forall|j: int|
            0 <= j < g.scan_pre(ys).len() ==> in_some_bucket(g, #[trigger] g.scan_pre(ys)[j]),
    decreases ys,
{
    if ys > 0 {
        lemma_scan_pre_from_buckets(g, ys - 1);
        lemma_row_from_buckets(g, ys - 1, g.vx());
        let pre = g.scan_pre(ys - 1);
        let row = g.row_pre(ys - 1, g.vx());
        assert forall|j: int| 0 <= j < g.scan_pre(ys).len() implies in_some_bucket(
            g,
            #[trigger] g.scan_pre(ys)[j],
        ) by {
            if j < pre.len() {
                assert(g.scan_pre(ys)[j] == pre[j]);
            } else {
                assert(g.scan_pre(ys)[j] == row[j - pre.len()]);
            }
        }
    }
}

/// What the distance filter keeps comes from the scanned sequence.
pub proof fn lemma_filter_keep_subset(s: Seq<Entry>, pos: Vec2, radius: int, w: int, h: int)
    ensures
        forall|t: Entry| #[trigger]
            filter_keep(s, pos, radius, w, h).contains(t) ==> s.contains(t),
    decreases s.len(),
{
    if s.len() != 0 {
        lemma_filter_keep_subset(s.drop_last(), pos, radius, w, h);
        assert forall|t: Entry| #[trigger]
            filter_keep(s, pos, radius, w, h).contains(t) implies s.contains(t) by {
            let f = filter_keep(s, pos, radius, w, h);
            let pre = filter_keep(s.drop_last(), pos, radius, w, h);
            let wit = choose|j: int| 0 <= j < f.len() && f[j] == t;
            if keep_entry(s.last(), pos, radius, w, h) && wit == f.len() - 1 {
                assert(s[s.len() - 1] == t);
            } else {
                assert(pre[wit] == t);
                assert(pre.contains(t));
                let wit2 = choose|j: int| 0 <= j < s.drop_last().len() && s.drop_last()[j] == t;
                assert(s[wit2] == t);
            }
        }
    }
}

/// A sequence that extends another, index by index, keeps everything the
/// shorter one contains.
proof fn lemma_preserved_contains(a: Seq<usize>, b: Seq<usize>)
    requires
        a.len() <= b.len(),
        forall|j: int| 0 <= j < a.len() ==> b[j] == a[j],
    ensures
        forall|v: usize| a.contains(v) ==> b.contains(v),
{
    assert forall|v: usize| a.contains(v) implies b.contains(v) by {
        let wit = choose|j: int| 0 <= j < a.len() && a[j] == v;
        assert(b[wit] == v);
    }
}

} // verus!
