use vstd::prelude::*;

use vstd::arithmetic::div_mod::lemma_div_denominator;
use vstd::arithmetic::div_mod::lemma_fundamental_div_mod;
use vstd::arithmetic::div_mod::lemma_small_mod;
use vstd::arithmetic::mul::lemma_mul_is_commutative;
use vstd::arithmetic::mul::lemma_mul_nonnegative;
use vstd::arithmetic::mul::lemma_mul_upper_bound;
use vstd::pervasive::VecAdditionalExecFns;

use crate::color::palette::Palette;
use crate::color::scale::ColorScale;

verus! {

/// One visit count bumped by one, saturating at the counter's ceiling so a
/// long-running simulation can never wrap a cell back toward zero.
pub open spec fn sat_inc(c: u64) -> u64 {
    if c == u64::MAX {
        c
    } else {
        (c + 1) as u64
    }
}

/// The grid after one visit at column `x`, row `y`: an in-bounds visit bumps
/// the addressed cell, an out-of-bounds visit is discarded unchanged.
pub open spec fn spec_record(g: Seq<Seq<u64>>, x: int, y: int) -> Seq<Seq<u64>> {
    if 0 <= y < g.len() && 0 <= x < g[y].len() {
        g.update(y, g[y].update(x, sat_inc(g[y][x])))
    } else {
        g
    }
}

/// The grid after a batch of visits, recorded left to right.
pub open spec fn spec_record_all(g: Seq<Seq<u64>>, pts: Seq<(i64, i64)>) -> Seq<Seq<u64>>
    decreases pts.len(),
{
    if pts.len() == 0 {
        g
    } else {
        spec_record_all(spec_record(g, pts[0].0 as int, pts[0].1 as int), pts.drop_first())
    }
}

/// One recorded visit keeps every dimension and never decreases any cell.
pub proof fn lemma_record_monotone(g: Seq<Seq<u64>>, x: int, y: int)
    ensures
        spec_record(g, x, y).len() == g.len(),
        forall|yy: int| 0 <= yy < g.len() ==> (#[trigger] spec_record(g, x, y)[yy]).len()
            == g[yy].len(),
        forall|yy: int, xx: int| 0 <= yy < g.len() && 0 <= xx < g[yy].len() ==> g[yy][xx] <= (
        #[trigger] spec_record(g, x, y)[yy][xx]),
{
}

/// No batch of recorded visits, however long, ever decreases any cell: the
/// histogram is monotone over the engine's whole lifetime.
pub proof fn lemma_record_all_monotone(g: Seq<Seq<u64>>, pts: Seq<(i64, i64)>)
    ensures
        spec_record_all(g, pts).len() == g.len(),
        forall|yy: int| 0 <= yy < g.len() ==> (#[trigger] spec_record_all(g, pts)[yy]).len()
            == g[yy].len(),
        forall|yy: int, xx: int| 0 <= yy < g.len() && 0 <= xx < g[yy].len() ==> g[yy][xx] <= (
        #[trigger] spec_record_all(g, pts)[yy][xx]),
    decreases pts.len(),
{
    if pts.len() == 0 {
    } else {
        let g1 = spec_record(g, pts[0].0 as int, pts[0].1 as int);
        lemma_record_monotone(g, pts[0].0 as int, pts[0].1 as int);
        lemma_record_all_monotone(g1, pts.drop_first());
    }
}

/// The shared 2D grid of visit counters that the engine fills and any number
/// of renderers read. Dimensions are fixed at construction.
pub struct FreqMap {
    cells: Vec<Vec<u64>>,
    width: usize,
    height: usize,
}

impl View for FreqMap {
    type V = Seq<Seq<u64>>;

    closed spec fn view(&self) -> Seq<Seq<u64>> {
        self.cells.deep_view()
    }
}

impl FreqMap {
    pub closed spec fn spec_width(self) -> usize {
        self.width
    }

    pub closed spec fn spec_height(self) -> usize {
        self.height
    }

    /// The grid is rectangular and matches its recorded dimensions.
    pub open spec fn wf(self) -> bool {
        &&& self@.len() == self.spec_height()
        &&& forall|y: int| 0 <= y < self@.len() ==> (#[trigger] self@[y]).len()
            == self.spec_width()
    }

    /// A fresh grid of the given dimensions with every counter at zero.
    pub fn new(width: usize, height: usize) -> (r: FreqMap)
        requires
            1 <= width,
            1 <= height,
        ensures
            r.wf(),
            r.spec_width() == width,
            r.spec_height() == height,
            forall|y: int, x: int| 0 <= y < height && 0 <= x < width ==> (#[trigger] r@[y][x])
                == 0,
    {
        let mut cells: Vec<Vec<u64>> = Vec::new();
        let mut y: usize = 0;
        while y < height
            invariant
                y <= height,
                cells@.len() == y,
                forall|yy: int| 0 <= yy < y ==> (#[trigger] cells@[yy])@.len() == width,
                forall|yy: int, xx: int| 0 <= yy < y && 0 <= xx < width ==> (#[trigger] cells@[yy]@[xx]) == 0,
            decreases height - y,
        {
            let mut row: Vec<u64> = Vec::new();
            let mut x: usize = 0;
            while x < width
                invariant
                    x <= width,
                    row@.len() == x,
                    forall|xx: int| 0 <= xx < x ==> (#[trigger] row@[xx]) == 0,
                decreases width - x,
            {
                row.push(0);
                x = x + 1;
            }
            cells.push(row);
            y = y + 1;
        }
        let r = FreqMap { cells, width, height };
        proof {
            assert forall|yy: int| 0 <= yy < height implies (#[trigger] r@[yy]).len() == width by {
                assert(r@[yy] =~= r.cells@[yy]@);
            }
            assert forall|yy: int, xx: int| 0 <= yy < height && 0 <= xx < width implies (
            #[trigger] r@[yy][xx]) == 0 by {
                assert(r@[yy] =~= r.cells@[yy]@);
            }
        }
        r
    }

    pub fn width(&self) -> (r: usize)
        ensures
            r == self.spec_width(),
    {
        self.width
    }

    pub fn height(&self) -> (r: usize)
        ensures
            r == self.spec_height(),
    {
        self.height
    }

    /// Reads one counter.
    pub fn get(&self, x: usize, y: usize) -> (r: u64)
        requires
            self.wf(),
            x < self.spec_width(),
            y < self.spec_height(),
        ensures
            r == self@[y as int][x as int],
    {
        proof {
            assert(self@[y as int] =~= self.cells@[y as int]@);
        }
        self.cells[y][x]
    }

    /// A borrowed view of the raw rows, for one whole-grid read pass.
    pub fn rows(&self) -> (r: &Vec<Vec<u64>>)
        ensures
            r.deep_view() == self@,
    {
        &self.cells
    }

    /// Records one visit: an in-bounds coordinate pair bumps the addressed
    /// cell by one (saturating), anything out of bounds is discarded and the
    /// grid is left unchanged. No cell ever decreases.
    pub fn record(&mut self, x: i64, y: i64)
        requires
            old(self).wf(),
        ensures
            final(self).wf(),
            final(self).spec_width() == old(self).spec_width(),
            final(self).spec_height() == old(self).spec_height(),
            final(self)@ == spec_record(old(self)@, x as int, y as int),
            forall|yy: int, xx: int|
                0 <= yy < old(self)@.len() && 0 <= xx < old(self)@[yy].len() ==> old(
                    self,
                )@[yy][xx] <= (#[trigger] final(self)@[yy][xx]),
    {
        proof {
            lemma_record_monotone(old(self)@, x as int, y as int);
        }
        if x >= 0 && y >= 0 {
            if (x as u128) < (self.width as u128) && (y as u128) < (self.height as u128) {
                let xu = x as usize;
                let yu = y as usize;
                proof {
                    assert(self@[yu as int] =~= self.cells@[yu as int]@);
                }
                let cur: u64 = self.cells[yu][xu];
                let nv: u64 = if cur == u64::MAX {
                    cur
                } else {
                    cur + 1
                };
                self.cells[yu][xu] = nv;
                proof {
                    let g0 = old(self)@;
                    let g1 = self.cells.deep_view();
                    let gr = spec_record(g0, x as int, y as int);
                    assert(g0[y as int] =~= old(self).cells@[y as int]@);
                    assert forall|yy: int| 0 <= yy < g1.len() implies g1[yy] =~= gr[yy] by {
                        assert(g1[yy] =~= self.cells@[yy]@);
                        assert(g0[yy] =~= old(self).cells@[yy]@);
                        if yy != y as int {
                            assert(self.cells@[yy] == old(self).cells@[yy]);
                        }
                    }
                    assert(g1 =~~= gr);
                }
                return ;
            }
        }
        proof {
            assert(self.cells.deep_view() =~~= old(self)@);
        }
    }
}

/// Recording a batch and then one more visit is the same as recording the
/// extended batch.
proof fn lemma_record_all_snoc(g: Seq<Seq<u64>>, pts: Seq<(i64, i64)>, i: int)
    requires
        0 <= i < pts.len(),
    ensures
        spec_record_all(g, pts.subrange(0, i + 1)) == spec_record(
            spec_record_all(g, pts.subrange(0, i)),
            pts[i].0 as int,
            pts[i].1 as int,
        ),
    decreases i,
{
    let s1 = pts.subrange(0, i + 1);
    let s0 = pts.subrange(0, i);
    if i == 0 {
        assert(s1.len() == 1);
        assert(s1[0] == pts[0]);
        assert(s0 =~= Seq::<(i64, i64)>::empty());
        assert(s1.drop_first() =~= Seq::<(i64, i64)>::empty());
        assert(spec_record_all(g, s0) == g);
        assert(spec_record_all(g, s1) == spec_record_all(
            spec_record(g, s1[0].0 as int, s1[0].1 as int),
            s1.drop_first(),
        ));
    } else {
        let g1 = spec_record(g, pts[0].0 as int, pts[0].1 as int);
        let rest = pts.drop_first();
        lemma_record_all_snoc(g1, rest, i - 1);
        assert(s1[0] == pts[0] && s0[0] == pts[0]);
        assert(rest.subrange(0, i) =~= s1.drop_first());
        assert(rest.subrange(0, i - 1) =~= s0.drop_first());
        assert(rest[i - 1] == pts[i]);
        assert(spec_record_all(g, s1) == spec_record_all(g1, s1.drop_first()));
        assert(spec_record_all(g, s0) == spec_record_all(g1, s0.drop_first()));
    }
}

impl FreqMap {
    /// Records a whole batch of visits under one borrow of the grid, so a
    /// driving loop can amortize its synchronization over many steps.
    /// Out-of-bounds visits are discarded; no cell ever decreases.
    #[verifier::loop_isolation(false)]
    pub fn record_many(&mut self, points: &Vec<(i64, i64)>)
        requires
            old(self).wf(),
        ensures
            final(self).wf(),
            final(self).spec_width() == old(self).spec_width(),
            final(self).spec_height() == old(self).spec_height(),
            final(self)@ == spec_record_all(old(self)@, points@),
            forall|yy: int, xx: int|
                0 <= yy < old(self)@.len() && 0 <= xx < old(self)@[yy].len() ==> old(
                    self,
                )@[yy][xx] <= (#[trigger] final(self)@[yy][xx]),
    {
        let n: usize = points.len();
        let mut i: usize = 0;
        proof {
            assert(points@.subrange(0, 0) =~= Seq::<(i64, i64)>::empty());
        }
        while i < n
            invariant
                i <= n,
                n == points@.len(),
                self.wf(),
                self.spec_width() == old(self).spec_width(),
                self.spec_height() == old(self).spec_height(),
                self@ == spec_record_all(old(self)@, points@.subrange(0, i as int)),
                forall|yy: int, xx: int|
                    0 <= yy < old(self)@.len() && 0 <= xx < old(self)@[yy].len() ==> old(
                        self,
                    )@[yy][xx] <= (#[trigger] self@[yy][xx]),
            decreases n - i,
        {
            let ghost mid = self@;
            let p = points[i];
            self.record(p.0, p.1);
            proof {
                lemma_record_all_snoc(old(self)@, points@, i as int);
                assert forall|yy: int, xx: int|
                    0 <= yy < old(self)@.len() && 0 <= xx < old(self)@[yy].len() implies old(
                    self,
                )@[yy][xx] <= (#[trigger] self@[yy][xx]) by {
                    assert(old(self)@[yy][xx] <= mid[yy][xx]);
                    assert(mid.len() == old(self)@.len());
                    assert(mid[yy].len() == old(self)@[yy].len());
                    assert(mid[yy][xx] <= self@[yy][xx]);
                }
            }
            i = i + 1;
        }
        proof {
            assert(points@.subrange(0, n as int) =~= points@);
        }
    }
}

/// A sum clamped into a 64-bit counter.
pub open spec fn spec_sat64(v: int) -> u64 {
    if v <= u64::MAX {
        v as u64
    } else {
        u64::MAX
    }
}

/// The count at column `x` of a row; columns outside the row count as zero.
pub open spec fn cell_at(row: Seq<u64>, x: int) -> int {
    if 0 <= x < row.len() {
        row[x] as int
    } else {
        0
    }
}

/// The sum of the counts at columns `[x0, x1)` of a row; columns outside
/// the row contribute zero.
pub open spec fn spec_row_sum(row: Seq<u64>, x0: int, x1: int) -> int
    decreases x1 - x0,
{
    if x0 >= x1 {
        0
    } else {
        spec_row_sum(row, x0, x1 - 1) + cell_at(row, x1 - 1)
    }
}

/// The row sum at row `y` of a grid; rows outside the grid contribute zero.
pub open spec fn row_sum_at(g: Seq<Seq<u64>>, y: int, x0: int, x1: int) -> int {
    if 0 <= y < g.len() {
        spec_row_sum(g[y], x0, x1)
    } else {
        0
    }
}

/// The sum of the counts in the cell rectangle with columns `[x0, x1)` and
/// rows `[y0, y1)`; cells outside the grid contribute zero.
pub open spec fn spec_rect_sum(g: Seq<Seq<u64>>, x0: int, x1: int, y0: int, y1: int) -> int
    decreases y1 - y0,
{
    if y0 >= y1 {
        0
    } else {
        spec_rect_sum(g, x0, x1, y0, y1 - 1) + row_sum_at(g, y1 - 1, x0, x1)
    }
}

proof fn lemma_row_sum_nonneg(row: Seq<u64>, x0: int, x1: int)
    ensures
        spec_row_sum(row, x0, x1) >= 0,
    decreases x1 - x0,
{
    if x0 >= x1 {
    } else {
        lemma_row_sum_nonneg(row, x0, x1 - 1);
    }
}

proof fn lemma_rect_sum_nonneg(g: Seq<Seq<u64>>, x0: int, x1: int, y0: int, y1: int)
    ensures
        spec_rect_sum(g, x0, x1, y0, y1) >= 0,
    decreases y1 - y0,
{
    if y0 >= y1 {
    } else {
        lemma_rect_sum_nonneg(g, x0, x1, y0, y1 - 1);
        if 0 <= y1 - 1 < g.len() {
            lemma_row_sum_nonneg(g[y1 - 1], x0, x1);
        }
    }
}

/// Sums one row slice, saturating at the counter's ceiling.
fn row_sum_sat(row: &Vec<u64>, x0: i128, x1: i128) -> (r: u64)
    ensures
        r == spec_sat64(spec_row_sum(row@, x0 as int, x1 as int)),
{
    if x0 >= x1 {
        return 0;
    }
    let mut cur: i128 = x0;
    let mut acc: u64 = 0;
    while cur < x1
        invariant
            x0 <= cur <= x1,
            acc == spec_sat64(spec_row_sum(row@, x0 as int, cur as int)),
        decreases x1 - cur,
    {
        let c: u64 = if cur >= 0 && cur < row.len() as i128 {
            row[cur as usize]
        } else {
            0
        };
        proof {
            lemma_row_sum_nonneg(row@, x0 as int, cur as int);
            assert(cell_at(row@, cur as int) == c);
        }
        acc = if acc > u64::MAX - c {
            u64::MAX
        } else {
            acc + c
        };
        cur = cur + 1;
    }
    acc
}

/// Sums one cell rectangle, saturating at the counter's ceiling. Cells
/// outside the grid contribute zero.
fn rect_sum_sat(g: &Vec<Vec<u64>>, x0: i128, x1: i128, y0: i128, y1: i128) -> (r: u64)
    ensures
        r == spec_sat64(spec_rect_sum(g.deep_view(), x0 as int, x1 as int, y0 as int, y1 as int)),
{
    let ghost gs = g.deep_view();
    if y0 >= y1 {
        return 0;
    }
    let mut cur: i128 = y0;
    let mut acc: u64 = 0;
    while cur < y1
        invariant
            y0 <= cur <= y1,
            gs == g.deep_view(),
            acc == spec_sat64(spec_rect_sum(gs, x0 as int, x1 as int, y0 as int, cur as int)),
        decreases y1 - cur,
    {
        let rs: u64 = if cur >= 0 && cur < g.len() as i128 {
            let row: &Vec<u64> = &g[cur as usize];
            proof {
                assert(gs[cur as int] =~= row@);
            }
            row_sum_sat(row, x0, x1)
        } else {
            0
        };
        proof {
            lemma_rect_sum_nonneg(gs, x0 as int, x1 as int, y0 as int, cur as int);
            if 0 <= cur < gs.len() {
                lemma_row_sum_nonneg(gs[cur as int], x0 as int, x1 as int);
            }
            assert(rs == spec_sat64(row_sum_at(gs, cur as int, x0 as int, x1 as int)));
        }
        acc = if acc > u64::MAX - rs {
            u64::MAX
        } else {
            acc + rs
        };
        cur = cur + 1;
    }
    acc
}

/// Floor division: the quotient rounded toward negative infinity, matching
/// the mathematical division on `int`.
fn floor_div(n: i128, d: i128) -> (r: i128)
    requires
        1 <= d <= 0x2_0000_0000,
        -0x1000_0000_0000_0000_0000_0000_0000 <= n <= 0x1000_0000_0000_0000_0000_0000_0000,
    ensures
        r == n as int / d as int,
        n >= 0 ==> 0 <= r <= n,
        n < 0 ==> n <= r <= 0,
{
    if n >= 0 {
        let q = ((n as u128) / (d as u128)) as i128;
        proof {
            vstd::arithmetic::div_mod::lemma_div_is_ordered(0, n as int, d as int);
            vstd::arithmetic::div_mod::lemma_div_is_ordered_by_denominator(n as int, 1, d as int);
            vstd::arithmetic::div_mod::lemma_div_basics(n as int);
        }
        q
    } else {
        let m: u128 = (-n) as u128;
        let q0: u128 = (m + (d as u128) - 1) / (d as u128);
        proof {
            let mi = m as int;
            let di = d as int;
            let q0i = q0 as int;
            vstd::arithmetic::div_mod::lemma_fundamental_div_mod(mi + di - 1, di);
            let rr = (mi + di - 1) % di;
            assert(mi + di - 1 == di * q0i + rr);
            let rem = di - 1 - rr;
            assert(n as int == (-q0i) * di + rem) by (nonlinear_arith)
                requires
                    n as int == -mi,
                    mi + di - 1 == di * q0i + rr,
                    rem == di - 1 - rr;
            vstd::arithmetic::div_mod::lemma_fundamental_div_mod_converse(
                n as int,
                di,
                -q0i,
                rem,
            );
            assert(q0i <= mi) by (nonlinear_arith)
                requires
                    mi >= 1,
                    di >= 1,
                    rr >= 0,
                    mi + di - 1 == di * q0i + rr;
        }
        -(q0 as i128)
    }
}

/// The render-side pan state, in simulation units.
#[derive(Clone, Copy, Debug, PartialEq, Eq, Structural)]
pub struct Position {
    pub horizontal: isize,
    pub vertical: isize,
}

impl Default for Position {
    /// The origin: no pan in either direction.
    fn default() -> (r: Position)
        ensures
            r.horizontal == 0,
            r.vertical == 0,
    {
        Position { horizontal: 0, vertical: 0 }
    }
}

/// How many simulation cells one output pixel covers along each axis:
/// the inverse zoom, truncated, and never less than one.
pub open spec fn spec_cells_per_px(zn: u32, zd: u32) -> int {
    let f = zd as int / zn as int;
    if f < 1 {
        1
    } else {
        f
    }
}

/// The first simulation coordinate a window coordinate covers:
/// `floor(c / zoom + (sim_total - win_total / zoom) / 2 + pan)`, which
/// centers the simulation grid in the window and then offsets by the pan.
pub open spec fn spec_sim_start(
    c: int,
    win_total: int,
    sim_total: int,
    zn: int,
    zd: int,
    pan: int,
) -> int {
    (2 * (c * zd) + sim_total * zn - win_total * zd + 2 * (pan * zn)) / (2 * zn)
}

/// Produces RGBA frames from histogram snapshots: owns the normalization
/// and palette stages plus the viewport (window width, zoom, pan).
pub struct Renderer {
    pub win_width: usize,
    pub zoom_num: u32,
    pub zoom_den: u32,
    pub color_scale: ColorScale,
    pub color_palette: Palette,
    pub position: Position,
}

impl Renderer {
    /// A usable viewport: a window at least one pixel wide, a positive
    /// rational zoom, and a valid palette.
    pub open spec fn wf(self) -> bool {
        &&& 1 <= self.win_width
        &&& 1 <= self.zoom_num
        &&& 1 <= self.zoom_den
        &&& self.color_palette.wf()
    }

    pub fn new(
        win_width: usize,
        zoom_num: u32,
        zoom_den: u32,
        color_scale: ColorScale,
        color_palette: Palette,
    ) -> (r: Renderer)
        requires
            1 <= win_width,
            1 <= zoom_num,
            1 <= zoom_den,
            color_palette.wf(),
        ensures
            r.wf(),
            r.win_width == win_width,
            r.zoom_num == zoom_num,
            r.zoom_den == zoom_den,
            r.color_scale == color_scale,
            r.color_palette == color_palette,
            r.position == (Position { horizontal: 0, vertical: 0 }),
    {
        Renderer {
            win_width,
            zoom_num,
            zoom_den,
            color_scale,
            color_palette,
            position: Position { horizontal: 0, vertical: 0 },
        }
    }

    /// The saturated count of the cell rectangle that output pixel `i`
    /// covers, given the histogram and the window height.
    pub open spec fn spec_pixel_freq(
        self,
        g: Seq<Seq<u64>>,
        sim_w: int,
        sim_h: int,
        win_h: int,
        i: int,
    ) -> u64 {
        let wx = i % (self.win_width as int);
        let wy = i / (self.win_width as int);
        let f = spec_cells_per_px(self.zoom_num, self.zoom_den);
        let sx = spec_sim_start(
            wx,
            self.win_width as int,
            sim_w,
            self.zoom_num as int,
            self.zoom_den as int,
            self.position.horizontal as int,
        );
        let sy = spec_sim_start(
            wy,
            win_h,
            sim_h,
            self.zoom_num as int,
            self.zoom_den as int,
            self.position.vertical as int,
        );
        spec_sat64(spec_rect_sum(g, sx, sx + f, sy, sy + f))
    }

    /// The four RGBA bytes of output pixel `i`: pixels whose covered cells
    /// hold no visits at all are forced to opaque white; every other count
    /// runs through the normalization and palette stages.
    pub open spec fn spec_pixel_rgba(
        self,
        g: Seq<Seq<u64>>,
        sim_w: int,
        sim_h: int,
        win_h: int,
        i: int,
    ) -> Seq<u8> {
        let fr = self.spec_pixel_freq(g, sim_w, sim_h, win_h, i);
        if fr == 0 {
            seq![255u8, 255u8, 255u8, 255u8]
        } else {
            self.color_palette.spec_color_from_scale(self.color_scale.spec_freq_to_scale(fr))
        }
    }
}

impl Renderer {
    /// Computes the RGBA bytes of one output pixel from one histogram
    /// snapshot, exactly as `spec_pixel_rgba` describes.
    #[verifier::rlimit(60)]
    fn pixel_rgba(&self, freqs: &FreqMap, win_h: usize, i: usize) -> (rgba: [u8; 4])
        requires
            self.wf(),
            freqs.wf(),
        ensures
            rgba@ == self.spec_pixel_rgba(
                freqs@,
                freqs.spec_width() as int,
                freqs.spec_height() as int,
                win_h as int,
                i as int,
            ),
    {
        let w: usize = self.win_width;
        let zn: u32 = self.zoom_num;
        let zd: u32 = self.zoom_den;
        let fq: u32 = zd / zn;
        let fpp: u32 = if fq < 1 {
            1
        } else {
            fq
        };
        let sim_w: usize = freqs.width();
        let sim_h: usize = freqs.height();
        let wx: usize = i % w;
        let wy: usize = i / w;
        let ph: isize = self.position.horizontal;
        let pv: isize = self.position.vertical;
        proof {
            lemma_mul_upper_bound(wx as int, usize::MAX as int, zd as int, u32::MAX as int);
            lemma_mul_nonnegative(wx as int, zd as int);
            lemma_mul_upper_bound(wy as int, usize::MAX as int, zd as int, u32::MAX as int);
            lemma_mul_nonnegative(wy as int, zd as int);
            lemma_mul_upper_bound(sim_w as int, usize::MAX as int, zn as int, u32::MAX as int);
            lemma_mul_nonnegative(sim_w as int, zn as int);
            lemma_mul_upper_bound(sim_h as int, usize::MAX as int, zn as int, u32::MAX as int);
            lemma_mul_nonnegative(sim_h as int, zn as int);
            lemma_mul_upper_bound(w as int, usize::MAX as int, zd as int, u32::MAX as int);
            lemma_mul_nonnegative(w as int, zd as int);
            lemma_mul_upper_bound(win_h as int, usize::MAX as int, zd as int, u32::MAX as int);
            lemma_mul_nonnegative(win_h as int, zd as int);
            assert(-0x8000_0000_0000_0000_0000_0000 <= (ph as int) * (zn as int)
                <= 0x8000_0000_0000_0000_0000_0000) by (nonlinear_arith)
                requires
                    -0x8000_0000_0000_0000 <= ph as int <= 0x7FFF_FFFF_FFFF_FFFF,
                    0 <= zn as int <= 0xFFFF_FFFF;
            assert(-0x8000_0000_0000_0000_0000_0000 <= (pv as int) * (zn as int)
                <= 0x8000_0000_0000_0000_0000_0000) by (nonlinear_arith)
                requires
                    -0x8000_0000_0000_0000 <= pv as int <= 0x7FFF_FFFF_FFFF_FFFF,
                    0 <= zn as int <= 0xFFFF_FFFF;
        }
        let nx: i128 = 2 * ((wx as i128) * (zd as i128)) + (sim_w as i128) * (zn as i128) - (
        w as i128) * (zd as i128) + 2 * ((ph as i128) * (zn as i128));
        let ny: i128 = 2 * ((wy as i128) * (zd as i128)) + (sim_h as i128) * (zn as i128) - (
        win_h as i128) * (zd as i128) + 2 * ((pv as i128) * (zn as i128));
        let sx: i128 = floor_div(nx, 2 * (zn as i128));
        let sy: i128 = floor_div(ny, 2 * (zn as i128));
        let fppi: i128 = fpp as i128;
        let freq: u64 = rect_sum_sat(freqs.rows(), sx, sx + fppi, sy, sy + fppi);
        proof {
            assert(freq == self.spec_pixel_freq(
                freqs@,
                sim_w as int,
                sim_h as int,
                win_h as int,
                i as int,
            ));
        }
        let rgba: [u8; 4] = if freq == 0 {
            [255, 255, 255, 255]
        } else {
            let sv = self.color_scale.freq_to_scale(freq);
            self.color_palette.color_from_scale(sv)
        };
        proof {
            assert(rgba@ =~= self.spec_pixel_rgba(
                freqs@,
                sim_w as int,
                sim_h as int,
                win_h as int,
                i as int,
            ));
        }
        rgba
    }
}

impl Renderer {
    /// Renders one frame into a caller-owned RGBA buffer from one histogram
    /// snapshot. The buffer length must be a whole number of pixel rows
    /// (`4 * win_width` bytes each); any other length is rejected unchanged.
    /// On success the scale stage is freshly calibrated against the snapshot
    /// and every pixel holds exactly the bytes of `spec_pixel_rgba`.
    #[verifier::loop_isolation(false)]
    #[verifier::rlimit(60)]
    pub fn draw(&mut self, freqs: &FreqMap, frame: &mut Vec<u8>) -> (ok: bool)
        requires
            old(self).wf(),
            freqs.wf(),
        ensures
            final(self).wf(),
            final(self).win_width == old(self).win_width,
            final(self).zoom_num == old(self).zoom_num,
            final(self).zoom_den == old(self).zoom_den,
            final(self).position == old(self).position,
            final(self).color_palette == old(self).color_palette,
            final(frame)@.len() == old(frame)@.len(),
            ok <==> old(frame)@.len() as int % (4 * old(self).win_width as int) == 0,
            !ok ==> *final(self) == *old(self) && final(frame)@ == old(frame)@,
            ok ==> final(self).color_scale.calibrated(freqs@),
            ok ==> final(self).color_scale.same_kind(old(self).color_scale),
            ok ==> ({
                let win_h = old(frame)@.len() as int / (4 * old(self).win_width as int);
                forall|j: int|
                    0 <= j < old(frame)@.len() as int / 4 ==> final(frame)@.subrange(
                        4 * j,
                        4 * j + 4,
                    ) == #[trigger] final(self).spec_pixel_rgba(
                        freqs@,
                        freqs.spec_width() as int,
                        freqs.spec_height() as int,
                        win_h,
                        j,
                    )
            }),
    {
        let w: usize = self.win_width;
        let len: usize = frame.len();
        let ok: bool = if w <= usize::MAX / 4 {
            len % (4 * w) == 0
        } else {
            len == 0
        };
        proof {
            if w > usize::MAX / 4 {
                lemma_small_mod(len as nat, (4 * w) as nat);
            }
        }
        if !ok {
            return false;
        }
        self.color_scale.init_from_freq(freqs.rows());
        let ghost snap = *self;
        let win_h: usize = len / 4 / w;
        proof {
            lemma_div_denominator(len as int, 4, w as int);
        }
        let npx: usize = len / 4;
        proof {
            lemma_fundamental_div_mod(len as int, 4);
            lemma_fundamental_div_mod(len as int, 4 * w as int);
            let k = len as int / (4 * w as int);
            assert(len as int == (4 * w as int) * k);
            vstd::arithmetic::mul::lemma_mul_is_associative(4, w as int, k);
            lemma_mul_is_commutative(w as int, k);
            lemma_mul_is_commutative(4, (w as int) * k);
            vstd::arithmetic::div_mod::lemma_mod_multiples_basic((w as int) * k, 4);
            assert(len as int % 4 == 0);
            assert(len == 4 * npx);
        }
        let mut i: usize = 0;
        while i < npx
            invariant
                *self == snap,
                frame@.len() == len,
                i <= npx,
                forall|j: int|
                    0 <= j < i ==> frame@.subrange(4 * j, 4 * j + 4)
                        == #[trigger] self.spec_pixel_rgba(
                        freqs@,
                        freqs.spec_width() as int,
                        freqs.spec_height() as int,
                        win_h as int,
                        j,
                    ),
            decreases npx - i,
        {
            let rgba: [u8; 4] = self.pixel_rgba(freqs, win_h, i);
            let ghost prev = frame@;
            let base: usize = 4 * i;
            frame.set(base, rgba[0]);
            frame.set(base + 1, rgba[1]);
            frame.set(base + 2, rgba[2]);
            frame.set(base + 3, rgba[3]);
            proof {
                assert forall|j: int|
                    0 <= j < i + 1 implies frame@.subrange(4 * j, 4 * j + 4)
                    == #[trigger] self.spec_pixel_rgba(
                    freqs@,
                    freqs.spec_width() as int,
                    freqs.spec_height() as int,
                    win_h as int,
                    j,
                ) by {
                    if j < i {
                        assert(frame@.subrange(4 * j, 4 * j + 4) =~= prev.subrange(
                            4 * j,
                            4 * j + 4,
                        ));
                    } else {
                        assert(frame@.subrange(4 * j, 4 * j + 4) =~= rgba@);
                    }
                }
            }
            i = i + 1;
        }
        proof {
            assert(win_h as int == len as int / (4 * w as int));
        }
        true
    }
}

/// Viewport identity: with zoom 1 and no pan, a window axis of even length
/// maps its center coordinate to the simulation axis's center cell, and the
/// center pixel's buffer index decomposes back into the two center
/// coordinates.
pub proof fn lemma_center_pixel_centers(r: Renderer, sim_w: int, sim_h: int, win_h: int)
    requires
        r.wf(),
        r.zoom_num == 1,
        r.zoom_den == 1,
        r.position.horizontal == 0,
        r.position.vertical == 0,
        r.win_width as int % 2 == 0,
        win_h % 2 == 0,
        1 <= win_h,
    ensures
        ({
            let w = r.win_width as int;
            let j = (win_h / 2) * w + w / 2;
            &&& j % w == w / 2
            &&& j / w == win_h / 2
            &&& spec_cells_per_px(r.zoom_num, r.zoom_den) == 1
            &&& spec_sim_start(w / 2, w, sim_w, 1, 1, 0) == sim_w / 2
            &&& spec_sim_start(win_h / 2, win_h, sim_h, 1, 1, 0) == sim_h / 2
        }),
{
    let w = r.win_width as int;
    let j = (win_h / 2) * w + w / 2;
    lemma_fundamental_div_mod(w, 2);
    lemma_fundamental_div_mod(win_h, 2);
    lemma_mul_is_commutative(win_h / 2, w);
    vstd::arithmetic::div_mod::lemma_fundamental_div_mod_converse(j, w, win_h / 2, w / 2);
    assert((w / 2) * 1 == w / 2);
    assert((win_h / 2) * 1 == win_h / 2);
    assert(sim_w * 1 == sim_w);
    assert(sim_h * 1 == sim_h);
    assert(w * 1 == w);
    assert(win_h * 1 == win_h);
    assert(0 * 1 == 0);
    assert(2 * ((w / 2) * 1) + sim_w * 1 - w * 1 + 2 * (0 * 1) == sim_w);
    assert(2 * ((win_h / 2) * 1) + sim_h * 1 - win_h * 1 + 2 * (0 * 1) == sim_h);
}

} // verus!
