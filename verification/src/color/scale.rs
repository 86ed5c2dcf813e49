use vstd::prelude::*;

use vstd::arithmetic::div_mod::lemma_fundamental_div_mod;
use vstd::arithmetic::mul::lemma_mul_inequality;
use vstd::arithmetic::power2::lemma2_to64;
use vstd::arithmetic::power2::lemma2_to64_rest;
use vstd::arithmetic::power2::lemma_pow2_adds;
use vstd::arithmetic::power2::lemma_pow2_strictly_increases;
use vstd::arithmetic::power2::pow2;

use crate::color::ScaleValue;

verus! {

// A histogram snapshot is modeled as a sequence of rows, each a sequence of
// visit counts. The scales below calibrate against the positive counts only:
// cells that were never visited must not drag the minimum down to zero.

/// Some cell of `g` holds a positive count.
pub open spec fn grid_has_pos(g: Seq<Seq<u64>>) -> bool {
    exists|y: int, x: int|
        0 <= y < g.len() && 0 <= x < g[y].len() && (#[trigger] g[y][x]) > 0
}

/// `m` is the least positive count appearing in `g`.
pub open spec fn is_min_pos(g: Seq<Seq<u64>>, m: u64) -> bool {
    &&& m > 0
    &&& exists|y: int, x: int|
        0 <= y < g.len() && 0 <= x < g[y].len() && (#[trigger] g[y][x]) == m
    &&& forall|y: int, x: int|
        0 <= y < g.len() && 0 <= x < g[y].len() && (#[trigger] g[y][x]) > 0 ==> m <= g[y][x]
}

/// `m` is the greatest count appearing in `g`, and some cell is positive.
pub open spec fn is_max_pos(g: Seq<Seq<u64>>, m: u64) -> bool {
    &&& m > 0
    &&& exists|y: int, x: int|
        0 <= y < g.len() && 0 <= x < g[y].len() && (#[trigger] g[y][x]) == m
    &&& forall|y: int, x: int|
        0 <= y < g.len() && 0 <= x < g[y].len() && (#[trigger] g[y][x]) > 0 ==> g[y][x] <= m
}

/// The least positive count is unique.
pub proof fn lemma_min_pos_unique(g: Seq<Seq<u64>>, a: u64, b: u64)
    requires
        is_min_pos(g, a),
        is_min_pos(g, b),
    ensures
        a == b,
{
}

/// The greatest count is unique.
pub proof fn lemma_max_pos_unique(g: Seq<Seq<u64>>, a: u64, b: u64)
    requires
        is_max_pos(g, a),
        is_max_pos(g, b),
    ensures
        a == b,
{
}

/// What a full scan of the grid reports: the least positive and greatest
/// counts when any cell is positive, and the idle sentinels otherwise.
pub open spec fn pos_bounds(g: Seq<Seq<u64>>, mn: u64, mx: u64) -> bool {
    &&& grid_has_pos(g) ==> is_min_pos(g, mn) && is_max_pos(g, mx)
    &&& !grid_has_pos(g) ==> mn == u64::MAX && mx == 0
}

/// Folds one row into a running (least positive, greatest positive) pair.
fn merge_row(row: &Vec<u64>, mn0: u64, mx0: u64) -> (r: (u64, u64))
    ensures
        r.0 <= mn0,
        mx0 <= r.1,
        forall|x: int| 0 <= x < row@.len() && (#[trigger] row@[x]) > 0 ==> r.0 <= row@[x] && row@[x] <= r.1,
        r.0 == mn0 || (r.0 > 0 && exists|x: int| 0 <= x < row@.len() && (#[trigger] row@[x]) == r.0),
        r.1 == mx0 || (r.1 > 0 && exists|x: int| 0 <= x < row@.len() && (#[trigger] row@[x]) == r.1),
{
    let mut mn: u64 = mn0;
    let mut mx: u64 = mx0;
    let n: usize = row.len();
    let mut i: usize = 0;
    while i < n
        invariant
            n == row@.len(),
            i <= n,
            mn <= mn0,
            mx0 <= mx,
            forall|x: int| 0 <= x < i && (#[trigger] row@[x]) > 0 ==> mn <= row@[x] && row@[x] <= mx,
            mn == mn0 || (mn > 0 && exists|x: int| 0 <= x < i && (#[trigger] row@[x]) == mn),
            mx == mx0 || (mx > 0 && exists|x: int| 0 <= x < i && (#[trigger] row@[x]) == mx),
        decreases n - i,
    {
        let v: u64 = row[i];
        if v > 0 {
            if v < mn {
                mn = v;
                assert(row@[i as int] == mn);
            }
            if v > mx {
                mx = v;
                assert(row@[i as int] == mx);
            }
        }
        i = i + 1;
    }
    (mn, mx)
}

/// Scans the whole grid once, reporting the least positive and the greatest
/// count, or `(u64::MAX, 0)` when every cell is zero.
pub fn scan_positive_bounds(freqs: &Vec<Vec<u64>>) -> (r: (u64, u64))
    ensures
        pos_bounds(freqs.deep_view(), r.0, r.1),
{
    let ghost g: Seq<Seq<u64>> = freqs.deep_view();
    let mut mn: u64 = u64::MAX;
    let mut mx: u64 = 0;
    let rows: usize = freqs.len();
    let mut y: usize = 0;
    while y < rows
        invariant
            g == freqs.deep_view(),
            rows == freqs@.len(),
            y <= rows,
            forall|yy: int, xx: int|
                0 <= yy < y && 0 <= xx < g[yy].len() && (#[trigger] g[yy][xx]) > 0
                    ==> mn <= g[yy][xx] && g[yy][xx] <= mx,
            mn == u64::MAX || (mn > 0 && exists|yy: int, xx: int|
                0 <= yy < y && 0 <= xx < g[yy].len() && (#[trigger] g[yy][xx]) == mn),
            mx == 0 || (mx > 0 && exists|yy: int, xx: int|
                0 <= yy < y && 0 <= xx < g[yy].len() && (#[trigger] g[yy][xx]) == mx),
        decreases rows - y,
    {
        let ghost mn_before = mn;
        let ghost mx_before = mx;
        let row: &Vec<u64> = &freqs[y];
        assert(g[y as int] =~= row@);
        let pair = merge_row(row, mn, mx);
        mn = pair.0;
        mx = pair.1;
        proof {
            if mn != mn_before {
                let x0 = choose|x: int| 0 <= x < row@.len() && (#[trigger] row@[x]) == mn;
                assert(g[y as int][x0] == mn);
            }
            if mx != mx_before {
                let x0 = choose|x: int| 0 <= x < row@.len() && (#[trigger] row@[x]) == mx;
                assert(g[y as int][x0] == mx);
            }
        }
        y = y + 1;
    }
    proof {
        if grid_has_pos(g) {
            let (y0, x0) = choose|y0: int, x0: int|
                0 <= y0 < g.len() && 0 <= x0 < g[y0].len() && (#[trigger] g[y0][x0]) > 0;
            assert(mn <= g[y0][x0] && g[y0][x0] <= mx);
            if mn == u64::MAX {
                assert(g[y0][x0] == u64::MAX);
            }
            assert(mx > 0);
        }
    }
    (mn, mx)
}

/// Linear normalization: a count `c` maps to `(c - min) / (max - min)`,
/// clamped into `[0, 1]`, with zero counts pinned to 0.
#[derive(Clone, Copy, Debug, PartialEq, Eq, Structural)]
pub struct LinearColorScale {
    pub min_freq: u64,
    pub max_freq: u64,
}

impl LinearColorScale {
    /// The calibration that one scan of `g` establishes.
    pub open spec fn calibrated(self, g: Seq<Seq<u64>>) -> bool {
        pos_bounds(g, self.min_freq, self.max_freq)
    }

    /// The exact fraction `freq_to_scale` returns in a given state.
    pub open spec fn spec_freq_to_scale(self, freq: u64) -> ScaleValue {
        if freq == 0 {
            ScaleValue { num: 0, den: 1 }
        } else if self.max_freq <= self.min_freq {
            ScaleValue { num: 1, den: 1 }
        } else {
            let den = (self.max_freq - self.min_freq) as u64;
            let val = if freq <= self.min_freq {
                0u64
            } else {
                (freq - self.min_freq) as u64
            };
            ScaleValue { num: if val <= den { val } else { den }, den: den }
        }
    }

    pub fn new(min_freq: u64, max_freq: u64) -> (r: LinearColorScale)
        ensures
            r == (LinearColorScale { min_freq, max_freq }),
    {
        LinearColorScale { min_freq, max_freq }
    }

    /// Recomputes the calibration from the current histogram snapshot. The
    /// result depends on the snapshot alone, never on the previous state.
    pub fn init_from_freq(&mut self, freqs: &Vec<Vec<u64>>)
        ensures
            final(self).calibrated(freqs.deep_view()),
    {
        let (mn, mx) = scan_positive_bounds(freqs);
        self.min_freq = mn;
        self.max_freq = mx;
    }

    /// Normalizes one count against the calibrated bounds.
    pub fn freq_to_scale(&self, freq: u64) -> (r: ScaleValue)
        ensures
            r == self.spec_freq_to_scale(freq),
            r.wf(),
    {
        if freq == 0 {
            ScaleValue { num: 0, den: 1 }
        } else if self.max_freq <= self.min_freq {
            ScaleValue { num: 1, den: 1 }
        } else {
            let den: u64 = self.max_freq - self.min_freq;
            let val: u64 = if freq <= self.min_freq {
                0
            } else {
                freq - self.min_freq
            };
            ScaleValue { num: if val <= den { val } else { den }, den }
        }
    }
}

/// A zero count maps to 0, and the greatest observed count maps to 1,
/// whenever the histogram holds any positive count at all. (On an all-zero
/// histogram there is no positive maximum, and zero counts still map to 0.)
pub proof fn lemma_linear_scale_extremes(s: LinearColorScale, g: Seq<Seq<u64>>)
    requires
        s.calibrated(g),
        grid_has_pos(g),
    ensures
        s.spec_freq_to_scale(0).is_zero(),
        forall|m: u64| #[trigger] is_max_pos(g, m) ==> s.spec_freq_to_scale(m).is_one(),
{
    assert forall|m: u64| #[trigger] is_max_pos(g, m) implies s.spec_freq_to_scale(m).is_one() by {
        lemma_max_pos_unique(g, m, s.max_freq);
    }
}

/// Calibrating against the same unmodified histogram always produces the same
/// state, so repeating `init_from_freq` cannot change any later
/// `freq_to_scale` output.
pub proof fn lemma_linear_calibration_unique(
    s1: LinearColorScale,
    s2: LinearColorScale,
    g: Seq<Seq<u64>>,
    freq: u64,
)
    requires
        s1.calibrated(g),
        s2.calibrated(g),
    ensures
        s1 == s2,
        s1.spec_freq_to_scale(freq) == s2.spec_freq_to_scale(freq),
{
    if grid_has_pos(g) {
        lemma_min_pos_unique(g, s1.min_freq, s2.min_freq);
        lemma_max_pos_unique(g, s1.max_freq, s2.max_freq);
    }
}

/// The floor of the base-2 logarithm; 0 for inputs 0 and 1.
pub open spec fn log2(n: nat) -> nat
    decreases n,
{
    if n <= 1 {
        0
    } else {
        (log2(n / 2) + 1) as nat
    }
}

proof fn lemma_pow2_log2_le(n: nat)
    requires
        n >= 1,
    ensures
        pow2(log2(n)) <= n,
    decreases n,
{
    lemma2_to64();
    if n <= 1 {
    } else {
        lemma_pow2_log2_le(n / 2);
        lemma_pow2_adds(log2(n / 2), 1);
        lemma_mul_inequality(pow2(log2(n / 2)) as int, (n / 2) as int, 2);
        lemma_fundamental_div_mod(n as int, 2);
    }
}

/// Every `u64` count has a base-2 logarithm of at most 63.
pub proof fn lemma_log2_u64_bound(n: u64)
    ensures
        log2(n as nat) <= 63,
{
    if n >= 1 && log2(n as nat) > 63 {
        lemma_pow2_log2_le(n as nat);
        if log2(n as nat) > 64 {
            lemma_pow2_strictly_increases(64, log2(n as nat));
        }
        lemma2_to64();
        lemma2_to64_rest();
    }
}

/// The floor of the base-2 logarithm of a positive count.
pub fn log2_floor(n: u64) -> (r: u32)
    requires
        n >= 1,
    ensures
        r == log2(n as nat),
{
    proof {
        lemma_log2_u64_bound(n);
    }
    let mut v: u64 = n;
    let mut r: u32 = 0;
    while v > 1
        invariant
            v >= 1,
            log2(n as nat) == r + log2(v as nat),
            log2(n as nat) <= 63,
            r <= 63,
        decreases v,
    {
        v = v / 2;
        r = r + 1;
    }
    r
}

/// Logarithmic normalization: counts are first reduced to the floor of their
/// base-2 logarithm, then mapped linearly over the calibrated log range.
#[derive(Clone, Copy, Debug, PartialEq, Eq, Structural)]
pub struct LogColorScale {
    pub min_log: u64,
    pub max_log: u64,
}

impl LogColorScale {
    /// The calibration that one scan of `g` establishes: the logs of the
    /// least positive and greatest counts, or the idle sentinels when every
    /// cell is zero.
    pub open spec fn calibrated(self, g: Seq<Seq<u64>>) -> bool {
        &&& grid_has_pos(g) ==> exists|mn: u64, mx: u64|
            #[trigger] is_min_pos(g, mn) && #[trigger] is_max_pos(g, mx)
                && self.min_log == log2(mn as nat) && self.max_log == log2(mx as nat)
        &&& !grid_has_pos(g) ==> self.min_log == u64::MAX && self.max_log == 0
    }

    /// The exact fraction `freq_to_scale` returns in a given state.
    pub open spec fn spec_freq_to_scale(self, freq: u64) -> ScaleValue {
        if freq == 0 {
            ScaleValue { num: 0, den: 1 }
        } else if self.max_log <= self.min_log {
            ScaleValue { num: 1, den: 1 }
        } else {
            let den = (self.max_log - self.min_log) as u64;
            let lg = log2(freq as nat);
            let val: u64 = if lg <= self.min_log {
                0u64
            } else {
                (lg - self.min_log) as u64
            };
            ScaleValue { num: if val <= den { val } else { den }, den: den }
        }
    }

    pub fn new(min_log: u64, max_log: u64) -> (r: LogColorScale)
        ensures
            r == (LogColorScale { min_log, max_log }),
    {
        LogColorScale { min_log, max_log }
    }

    /// Recomputes the calibration from the current histogram snapshot. The
    /// result depends on the snapshot alone, never on the previous state.
    pub fn init_from_freq(&mut self, freqs: &Vec<Vec<u64>>)
        ensures
            final(self).calibrated(freqs.deep_view()),
    {
        let (mn, mx) = scan_positive_bounds(freqs);
        if mx == 0 {
            self.min_log = u64::MAX;
            self.max_log = 0;
        } else {
            self.min_log = log2_floor(mn) as u64;
            self.max_log = log2_floor(mx) as u64;
        }
    }

    /// Normalizes one count against the calibrated log bounds.
    pub fn freq_to_scale(&self, freq: u64) -> (r: ScaleValue)
        ensures
            r == self.spec_freq_to_scale(freq),
            r.wf(),
    {
        if freq == 0 {
            ScaleValue { num: 0, den: 1 }
        } else if self.max_log <= self.min_log {
            ScaleValue { num: 1, den: 1 }
        } else {
            let den: u64 = self.max_log - self.min_log;
            let lg: u64 = log2_floor(freq) as u64;
            let val: u64 = if lg <= self.min_log {
                0
            } else {
                lg - self.min_log
            };
            ScaleValue { num: if val <= den { val } else { den }, den }
        }
    }
}

/// As for the linear scale: zero maps to 0 and the greatest observed count
/// maps to 1 whenever any cell is positive.
pub proof fn lemma_log_scale_extremes(s: LogColorScale, g: Seq<Seq<u64>>)
    requires
        s.calibrated(g),
        grid_has_pos(g),
    ensures
        s.spec_freq_to_scale(0).is_zero(),
        forall|m: u64| #[trigger] is_max_pos(g, m) ==> s.spec_freq_to_scale(m).is_one(),
{
    let (mn0, mx0) = choose|mn: u64, mx: u64|
        #[trigger] is_min_pos(g, mn) && #[trigger] is_max_pos(g, mx)
            && s.min_log == log2(mn as nat) && s.max_log == log2(mx as nat);
    assert forall|m: u64| #[trigger] is_max_pos(g, m) implies s.spec_freq_to_scale(m).is_one() by {
        lemma_max_pos_unique(g, m, mx0);
        if s.max_log > s.min_log {
            assert(log2(m as nat) == s.max_log);
        }
    }
}

/// Calibrating the log scale against the same histogram always produces the
/// same state, hence the same later outputs.
pub proof fn lemma_log_calibration_unique(
    s1: LogColorScale,
    s2: LogColorScale,
    g: Seq<Seq<u64>>,
    freq: u64,
)
    requires
        s1.calibrated(g),
        s2.calibrated(g),
    ensures
        s1 == s2,
        s1.spec_freq_to_scale(freq) == s2.spec_freq_to_scale(freq),
{
    if grid_has_pos(g) {
        let (mn1, mx1) = choose|mn: u64, mx: u64|
            #[trigger] is_min_pos(g, mn) && #[trigger] is_max_pos(g, mx)
                && s1.min_log == log2(mn as nat) && s1.max_log == log2(mx as nat);
        let (mn2, mx2) = choose|mn: u64, mx: u64|
            #[trigger] is_min_pos(g, mn) && #[trigger] is_max_pos(g, mx)
                && s2.min_log == log2(mn as nat) && s2.max_log == log2(mx as nat);
        lemma_min_pos_unique(g, mn1, mn2);
        lemma_max_pos_unique(g, mx1, mx2);
    }
}

/// The closed set of normalization strategies a renderer can be handed,
/// dispatched by variant.
#[derive(Clone, Copy, Debug, PartialEq, Eq, Structural)]
pub enum ColorScale {
    Linear(LinearColorScale),
    Log(LogColorScale),
}

impl ColorScale {
    pub open spec fn calibrated(self, g: Seq<Seq<u64>>) -> bool {
        match self {
            ColorScale::Linear(s) => s.calibrated(g),
            ColorScale::Log(s) => s.calibrated(g),
        }
    }

    pub open spec fn spec_freq_to_scale(self, freq: u64) -> ScaleValue {
        match self {
            ColorScale::Linear(s) => s.spec_freq_to_scale(freq),
            ColorScale::Log(s) => s.spec_freq_to_scale(freq),
        }
    }

    /// Both values use the same normalization strategy.
    pub open spec fn same_kind(self, other: ColorScale) -> bool {
        self is Linear <==> other is Linear
    }

    /// Recomputes the calibration from the current histogram snapshot.
    pub fn init_from_freq(&mut self, freqs: &Vec<Vec<u64>>)
        ensures
            final(self).calibrated(freqs.deep_view()),
            final(self).same_kind(*old(self)),
    {
        match *self {
            ColorScale::Linear(mut s) => {
                s.init_from_freq(freqs);
                *self = ColorScale::Linear(s);
            },
            ColorScale::Log(mut s) => {
                s.init_from_freq(freqs);
                *self = ColorScale::Log(s);
            },
        }
    }

    /// Normalizes one count against the calibrated bounds.
    pub fn freq_to_scale(&self, freq: u64) -> (r: ScaleValue)
        ensures
            r == self.spec_freq_to_scale(freq),
            r.wf(),
    {
        match self {
            ColorScale::Linear(s) => s.freq_to_scale(freq),
            ColorScale::Log(s) => s.freq_to_scale(freq),
        }
    }
}

/// Whichever strategy is calibrated against a histogram with any visits at
/// all: a zero count normalizes to 0 and the greatest observed count
/// normalizes to 1.
pub proof fn lemma_scale_extremes(s: ColorScale, g: Seq<Seq<u64>>)
    requires
        s.calibrated(g),
        grid_has_pos(g),
    ensures
        s.spec_freq_to_scale(0).is_zero(),
        forall|m: u64| #[trigger] is_max_pos(g, m) ==> s.spec_freq_to_scale(m).is_one(),
{
    match s {
        ColorScale::Linear(a) => lemma_linear_scale_extremes(a, g),
        ColorScale::Log(a) => lemma_log_scale_extremes(a, g),
    }
}

/// Calibrating twice from the same unmodified histogram yields identical
/// subsequent `freq_to_scale` outputs, whichever strategy is in use.
pub proof fn lemma_calibration_unique(s1: ColorScale, s2: ColorScale, g: Seq<Seq<u64>>, freq: u64)
    requires
        s1.calibrated(g),
        s2.calibrated(g),
        s1.same_kind(s2),
    ensures
        s1.spec_freq_to_scale(freq) == s2.spec_freq_to_scale(freq),
{
    match s1 {
        ColorScale::Linear(a) => {
            let b = s2->Linear_0;
            lemma_linear_calibration_unique(a, b, g, freq);
        },
        ColorScale::Log(a) => {
            let b = s2->Log_0;
            lemma_log_calibration_unique(a, b, g, freq);
        },
    }
}

impl Default for LinearColorScale {
    /// The uncalibrated state: both bounds zero.
    fn default() -> (r: LinearColorScale)
        ensures
            r.min_freq == 0,
            r.max_freq == 0,
    {
        LinearColorScale { min_freq: 0, max_freq: 0 }
    }
}

impl Default for LogColorScale {
    /// The uncalibrated state: both bounds zero.
    fn default() -> (r: LogColorScale)
        ensures
            r.min_log == 0,
            r.max_log == 0,
    {
        LogColorScale { min_log: 0, max_log: 0 }
    }
}

} // verus!
