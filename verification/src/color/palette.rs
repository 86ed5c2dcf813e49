use vstd::prelude::*;

use vstd::arithmetic::div_mod::lemma_div_is_ordered;
use vstd::arithmetic::div_mod::lemma_div_multiples_vanish;
use vstd::arithmetic::div_mod::lemma_fundamental_div_mod_converse;
use vstd::arithmetic::mul::lemma_mul_basics;
use vstd::arithmetic::mul::lemma_mul_inequality;
use vstd::arithmetic::mul::lemma_mul_is_commutative;
use vstd::arithmetic::mul::lemma_mul_upper_bound;

use crate::color::ScaleValue;

verus! {

/// A flat ramp from white (scale 0) to black (scale 1), fully opaque.
pub struct Grayscale {}

/// The gray level for a normalized value: `(1 - s) * 255`, truncated.
pub open spec fn gray_level(s: ScaleValue) -> u8 {
    (((s.den - s.num) * 255) / (s.den as int)) as u8
}

/// The four RGBA bytes Grayscale produces for a normalized value.
pub open spec fn gray_rgba(s: ScaleValue) -> Seq<u8> {
    seq![gray_level(s), gray_level(s), gray_level(s), 255u8]
}

impl Grayscale {
    pub fn color_from_scale(&self, s: ScaleValue) -> (r: [u8; 4])
        requires
            s.wf(),
        ensures
            r@ == gray_rgba(s),
    {
        let num128 = s.num as u128;
        let den128 = s.den as u128;
        let val128: u128 = (den128 - num128) * 255 / den128;
        proof {
            lemma_mul_inequality((s.den - s.num) as int, s.den as int, 255);
            lemma_div_is_ordered((s.den - s.num) * 255, s.den * 255, s.den as int);
            lemma_div_multiples_vanish(255, s.den as int);
        }
        let val: u8 = val128 as u8;
        [val, val, val, 255]
    }
}

/// A gradient stop: an exact fraction `num / den` with 16-bit terms. The
/// small terms keep every later cross-multiplication inside 128 bits.
#[derive(Clone, Copy, Debug, PartialEq, Eq, Structural)]
pub struct Stop {
    pub num: u16,
    pub den: u16,
}

/// Strict order between two stops, by cross-multiplication.
pub open spec fn stop_lt(a: Stop, b: Stop) -> bool {
    a.num * b.den < b.num * a.den
}

/// The normalized value `s` is at most the stop `b`.
pub open spec fn scale_le_stop(s: ScaleValue, b: Stop) -> bool {
    s.num * b.den <= b.num * s.den
}

/// An interior stop lies strictly within `(0, 1)`.
pub open spec fn stop_interior(a: Stop) -> bool {
    0 < a.num < a.den
}

/// Every interior stop lies strictly within `(0, 1)`.
pub open spec fn stops_interior(stops: Seq<Stop>) -> bool {
    forall|i: int| 0 <= i < stops.len() ==> stop_interior(#[trigger] stops[i])
}

/// Adjacent stops are strictly increasing.
pub open spec fn stops_strictly_increasing(stops: Seq<Stop>) -> bool {
    forall|i: int| 0 <= i < stops.len() - 1 ==> stop_lt(#[trigger] stops[i], stops[i + 1])
}

/// Why a gradient description was rejected.
#[derive(Clone, Copy, Debug, PartialEq, Eq, Structural)]
pub enum GradientError {
    /// The color list must hold exactly two more entries than the stop list.
    CountMismatch,
    /// The stops must be strictly increasing.
    UnsortedStops,
    /// Every stop must lie strictly between 0 and 1.
    StopOutOfRange,
}

/// A piecewise-linear gradient: `colors[i]` sits at `stops[i]`, with the
/// implicit endpoints 0 and 1 stored explicitly at the ends of `stops`.
pub struct NaiveGradient {
    pub colors: Vec<[u8; 4]>,
    pub stops: Vec<Stop>,
}

impl NaiveGradient {
    /// The shape `try_from` establishes: one stop per color, endpoints
    /// pinned to 0 and 1, interior stops inside `(0, 1)`, strictly
    /// increasing throughout.
    pub open spec fn wf(self) -> bool {
        &&& self.colors@.len() == self.stops@.len()
        &&& self.stops@.len() >= 2
        &&& self.stops@[0] == (Stop { num: 0, den: 1 })
        &&& self.stops@[self.stops@.len() - 1] == (Stop { num: 1, den: 1 })
        &&& forall|i: int| 0 <= i < self.stops@.len() ==> (#[trigger] self.stops@[i]).den >= 1
        &&& stops_strictly_increasing(self.stops@)
    }

    /// Validates a gradient description: `colors` must hold exactly
    /// `stops.len() + 2` entries (the endpoint stops 0 and 1 are implicit),
    /// the stops must be strictly increasing, and each must lie strictly
    /// between 0 and 1.
    #[verifier::loop_isolation(false)]
    #[verifier::rlimit(60)]
    pub fn try_from(colors: Vec<[u8; 4]>, stops: Vec<Stop>) -> (r: Result<
        NaiveGradient,
        GradientError,
    >)
        ensures
            r is Ok <==> {
                &&& colors@.len() == stops@.len() + 2
                &&& stops_strictly_increasing(stops@)
                &&& stops_interior(stops@)
            },
            r == Err::<NaiveGradient, GradientError>(GradientError::CountMismatch) <==> colors@.len()
                != stops@.len() + 2,
            r == Err::<NaiveGradient, GradientError>(GradientError::UnsortedStops) <==> (
            colors@.len() == stops@.len() + 2 && !stops_strictly_increasing(stops@)),
            r == Err::<NaiveGradient, GradientError>(GradientError::StopOutOfRange) <==> (
            colors@.len() == stops@.len() + 2 && stops_strictly_increasing(stops@)
                && !stops_interior(stops@)),
            r matches Ok(g) ==> {
                &&& g.wf()
                &&& g.colors@ == colors@
                &&& g.stops@.len() == stops@.len() + 2
                &&& forall|i: int| 0 <= i < stops@.len() ==> g.stops@[i + 1] == #[trigger] stops@[i]
            },
    {
        if colors.len() < 2 || colors.len() - 2 != stops.len() {
            return Err(GradientError::CountMismatch);
        }
        let n: usize = stops.len();
        let mut i: usize = 1;
        while i < n
            invariant
                n == stops@.len(),
                1 <= i,
                forall|j: int| 0 <= j < i - 1 ==> stop_lt(#[trigger] stops@[j], stops@[j + 1]),
            decreases n - i,
        {
            let a = stops[i - 1];
            let b = stops[i];
            proof {
                lemma_mul_inequality(a.num as int, 0xFFFF, b.den as int);
                lemma_mul_inequality(b.den as int, 0xFFFF, 0xFFFF);
                lemma_mul_inequality(b.num as int, 0xFFFF, a.den as int);
                lemma_mul_inequality(a.den as int, 0xFFFF, 0xFFFF);
            }
            if !((a.num as u64) * (b.den as u64) < (b.num as u64) * (a.den as u64)) {
                return Err(GradientError::UnsortedStops);
            }
            i = i + 1;
        }
        let mut k: usize = 0;
        while k < n
            invariant
                n == stops@.len(),
                k <= n,
                forall|j: int| 0 <= j < k ==> stop_interior(#[trigger] stops@[j]),
            decreases n - k,
        {
            let a = stops[k];
            if !(0 < a.num && a.num < a.den) {
                return Err(GradientError::StopOutOfRange);
            }
            k = k + 1;
        }
        let mut full: Vec<Stop> = Vec::new();
        full.push(Stop { num: 0, den: 1 });
        let mut m: usize = 0;
        while m < n
            invariant
                n == stops@.len(),
                m <= n,
                full@.len() == m + 1,
                full@[0] == (Stop { num: 0, den: 1 }),
                forall|j: int| 0 <= j < m ==> full@[j + 1] == #[trigger] stops@[j],
            decreases n - m,
        {
            full.push(stops[m]);
            m = m + 1;
        }
        full.push(Stop { num: 1, den: 1 });
        let g = NaiveGradient { colors, stops: full };
        proof {
            let fs = g.stops@;
            assert(fs.len() == n + 2);
            assert(fs[0] == (Stop { num: 0, den: 1 }));
            assert(fs[n + 1] == (Stop { num: 1, den: 1 }));
            assert forall|j: int| 0 <= j < n implies fs[j + 1] == #[trigger] stops@[j] by {
                assert(full@[j + 1] == stops@[j]);
            }
            assert forall|i2: int| 0 <= i2 < fs.len() implies (#[trigger] fs[i2]).den >= 1 by {
                if 0 < i2 < fs.len() - 1 {
                    assert(fs[i2] == stops@[i2 - 1]);
                    assert(stop_interior(stops@[i2 - 1]));
                }
            }
            assert forall|i2: int| 0 <= i2 < fs.len() - 1 implies stop_lt(
                #[trigger] fs[i2],
                fs[i2 + 1],
            ) by {
                if i2 == 0 {
                    if n > 0 {
                        assert(fs[1] == stops@[0]);
                        assert(stop_interior(stops@[0]));
                        lemma_mul_basics(stops@[0].den as int);
                        lemma_mul_basics(stops@[0].num as int);
                        assert(stop_lt(fs[0], fs[1]));
                    } else {
                        assert(fs[1] == (Stop { num: 1, den: 1 }));
                        lemma_mul_basics(1);
                        assert(stop_lt(fs[0], fs[1]));
                    }
                } else if i2 == fs.len() - 2 {
                    assert(fs[i2] == stops@[n - 1]);
                    assert(stop_interior(stops@[n - 1]));
                    assert(fs[i2 + 1] == (Stop { num: 1, den: 1 }));
                    lemma_mul_basics(stops@[n - 1].den as int);
                    lemma_mul_basics(stops@[n - 1].num as int);
                    assert(stop_lt(fs[i2], fs[i2 + 1]));
                } else {
                    assert(fs[i2] == stops@[i2 - 1]);
                    assert(fs[i2 + 1] == stops@[i2]);
                    assert(stop_lt(stops@[i2 - 1], stops@[i2]));
                    assert(stop_lt(fs[i2], fs[i2 + 1]));
                }
            }
        }
        Ok(g)
    }
}

/// A hard-cutoff palette: the unit interval is split into `colors.len()`
/// equal buckets and the scale picks one color with no interpolation.
pub struct Buckets {
    pub colors: Vec<[u8; 4]>,
}

/// The bucket a normalized value falls in among `k` buckets:
/// `floor(s * k)`, clamped to the last bucket so that 1 stays in range.
pub open spec fn bucket_index(s: ScaleValue, k: int) -> int {
    let i = s.num * k / (s.den as int);
    if i <= k - 1 {
        i
    } else {
        k - 1
    }
}

impl Buckets {
    /// A bucket palette must offer at least one color.
    pub open spec fn wf(self) -> bool {
        self.colors@.len() >= 1
    }

    pub open spec fn spec_color_from_scale(self, s: ScaleValue) -> Seq<u8> {
        self.colors@[bucket_index(s, self.colors@.len() as int)]@
    }

    pub fn color_from_scale(&self, s: ScaleValue) -> (r: [u8; 4])
        requires
            self.wf(),
            s.wf(),
        ensures
            r@ == self.spec_color_from_scale(s),
    {
        let k: usize = self.colors.len();
        proof {
            lemma_mul_upper_bound(s.num as int, u64::MAX as int, k as int, usize::MAX as int);
            lemma_mul_inequality(s.num as int, s.den as int, k as int);
            lemma_div_is_ordered(s.num * k, s.den * k, s.den as int);
            lemma_mul_is_commutative(s.den as int, k as int);
            lemma_div_multiples_vanish(k as int, s.den as int);
        }
        let idx128: u128 = (s.num as u128) * (k as u128) / (s.den as u128);
        let idx: usize = if idx128 <= (k - 1) as u128 {
            idx128 as usize
        } else {
            k - 1
        };
        self.colors[idx]
    }
}

/// Each bucket owns exactly the half-open slice `[i/k, (i+1)/k)` of the unit
/// interval: any normalized value in that slice selects bucket `i`.
pub proof fn lemma_bucket_interval(s: ScaleValue, k: int, i: int)
    requires
        s.wf(),
        0 <= i < k,
        i * s.den <= s.num * k,
        s.num * k < (i + 1) * s.den,
    ensures
        bucket_index(s, k) == i,
{
    let x = s.num * k;
    let r = x - i * s.den;
    assert(r < s.den) by (nonlinear_arith)
        requires
            r == x - i * s.den,
            x < (i + 1) * s.den;
    lemma_fundamental_div_mod_converse(x, s.den as int, i, r);
}

/// The top of the interval is inclusive: a scale of exactly 1 selects the
/// last bucket.
pub proof fn lemma_bucket_top(s: ScaleValue, k: int)
    requires
        s.wf(),
        s.is_one(),
        k >= 1,
    ensures
        bucket_index(s, k) == k - 1,
{
    lemma_mul_is_commutative(s.den as int, k as int);
    lemma_div_multiples_vanish(k, s.den as int);
}

/// Compares a normalized value against a stop without overflow.
fn scale_le_stop_exec(s: ScaleValue, b: Stop) -> (r: bool)
    ensures
        r == scale_le_stop(s, b),
{
    proof {
        lemma_mul_upper_bound(s.num as int, u64::MAX as int, b.den as int, 0xFFFF);
        lemma_mul_upper_bound(b.num as int, 0xFFFF, s.den as int, u64::MAX as int);
    }
    (s.num as u128) * (b.den as u128) <= (b.num as u128) * (s.den as u128)
}

/// The index of the first stop at or above `s`, searching upward from `i`
/// and stopping at the last index regardless.
pub open spec fn first_stop_at_or_above(stops: Seq<Stop>, s: ScaleValue, i: int) -> int
    decreases stops.len() - i,
{
    if i >= stops.len() - 1 {
        stops.len() - 1
    } else if scale_le_stop(s, stops[i]) {
        i
    } else {
        first_stop_at_or_above(stops, s, i + 1)
    }
}

/// What the search yields: every stop strictly before the result is strictly
/// below `s`, and the result itself is at or above `s` unless the search ran
/// into the last index.
pub proof fn lemma_first_stop_props(stops: Seq<Stop>, s: ScaleValue, i: int)
    requires
        0 <= i <= stops.len() - 1,
    ensures
        ({
            let r = first_stop_at_or_above(stops, s, i);
            &&& i <= r < stops.len()
            &&& forall|j: int| i <= j < r ==> !scale_le_stop(s, #[trigger] stops[j])
            &&& r < stops.len() - 1 ==> scale_le_stop(s, stops[r])
        }),
    decreases stops.len() - i,
{
    if i >= stops.len() - 1 {
    } else if scale_le_stop(s, stops[i]) {
    } else {
        lemma_first_stop_props(stops, s, i + 1);
    }
}

/// Runs the stop search.
fn find_segment_end(stops: &Vec<Stop>, s: ScaleValue, i: usize) -> (r: usize)
    requires
        stops@.len() >= 1,
        i <= stops@.len() - 1,
    ensures
        r == first_stop_at_or_above(stops@, s, i as int),
        r < stops@.len(),
    decreases stops@.len() - i,
{
    if i >= stops.len() - 1 {
        stops.len() - 1
    } else if scale_le_stop_exec(s, stops[i]) {
        i
    } else {
        find_segment_end(stops, s, i + 1)
    }
}

/// The exact interpolation ratio between the stops `s0 < s1` at `s`,
/// as a numerator and denominator pair `(s - s0) / (s1 - s0)`.
pub open spec fn interp_num(s: ScaleValue, s0: Stop, s1: Stop) -> int {
    (s.num * s0.den - s0.num * s.den) * s1.den
}

pub open spec fn interp_den(s: ScaleValue, s0: Stop, s1: Stop) -> int {
    s.den * (s1.num * s0.den - s0.num * s1.den)
}

/// One color channel interpolated from `c0` toward `c1` at ratio `p / q`,
/// truncated toward `c0`'s side exactly as a float-to-integer cast would
/// truncate the real-valued interpolant.
pub open spec fn channel_interp(c0: u8, c1: u8, p: int, q: int) -> u8 {
    if c1 >= c0 {
        (c0 + (c1 - c0) * p / q) as u8
    } else {
        (c0 - ((c0 - c1) * p + q - 1) / q) as u8
    }
}

/// Computes one interpolated channel.
fn interp_channel(c0: u8, c1: u8, p: u128, q: u128) -> (r: u8)
    requires
        1 <= q,
        p <= q,
        q <= 0x1_0000_0000_0000_0000_0000_0000,
    ensures
        r == channel_interp(c0, c1, p as int, q as int),
{
    if c1 >= c0 {
        let d: u128 = (c1 - c0) as u128;
        proof {
            lemma_mul_upper_bound(d as int, 255, p as int, q as int);
            lemma_mul_inequality(p as int, q as int, d as int);
            lemma_mul_is_commutative(d as int, p as int);
            lemma_mul_is_commutative(d as int, q as int);
            lemma_div_is_ordered(d * p, d * q, q as int);
            lemma_mul_is_commutative(q as int, d as int);
            lemma_div_multiples_vanish(d as int, q as int);
        }
        let t: u128 = d * p / q;
        c0 + (t as u8)
    } else {
        let d: u128 = (c0 - c1) as u128;
        proof {
            lemma_mul_upper_bound(d as int, 255, p as int, q as int);
            lemma_mul_inequality(p as int, q as int, d as int);
            lemma_mul_is_commutative(d as int, p as int);
            lemma_mul_is_commutative(d as int, q as int);
            lemma_div_is_ordered(d * p + q - 1, d * q + q - 1, q as int);
            lemma_fundamental_div_mod_converse(d * q + q - 1, q as int, d as int, q - 1);
        }
        let t: u128 = (d * p + q - 1) / q;
        c0 - (t as u8)
    }
}

impl NaiveGradient {
    /// The exact color the gradient produces: locate the bounding stop
    /// interval, then interpolate each channel at the exact rational ratio.
    /// A scale of zero short-circuits to the first color.
    pub open spec fn spec_color_from_scale(self, s: ScaleValue) -> Seq<u8> {
        if s.num == 0 {
            self.colors@[0]@
        } else {
            let e = first_stop_at_or_above(self.stops@, s, 0);
            let s0 = self.stops@[e - 1];
            let s1 = self.stops@[e];
            let c0 = self.colors@[e - 1];
            let c1 = self.colors@[e];
            let p = interp_num(s, s0, s1);
            let q = interp_den(s, s0, s1);
            seq![
                channel_interp(c0[0], c1[0], p, q),
                channel_interp(c0[1], c1[1], p, q),
                channel_interp(c0[2], c1[2], p, q),
                channel_interp(c0[3], c1[3], p, q),
            ]
        }
    }

    pub fn color_from_scale(&self, s: ScaleValue) -> (r: [u8; 4])
        requires
            self.wf(),
            s.wf(),
        ensures
            r@ == self.spec_color_from_scale(s),
    {
        if s.num == 0 {
            return self.colors[0];
        }
        let e: usize = find_segment_end(&self.stops, s, 0);
        proof {
            lemma_first_stop_props(self.stops@, s, 0);
            lemma_mul_basics(s.den as int);
            lemma_mul_basics(s.num as int);
            if e == 0 {
                assert(scale_le_stop(s, self.stops@[0]));
                assert(false);
            }
            if e == self.stops@.len() - 1 {
                assert(self.stops@[e as int] == (Stop { num: 1, den: 1 }));
            }
            assert(scale_le_stop(s, self.stops@[e as int]));
            assert(!scale_le_stop(s, self.stops@[e - 1]));
            assert(stop_lt(self.stops@[e - 1], self.stops@[e as int]));
        }
        let s0: Stop = self.stops[e - 1];
        let s1: Stop = self.stops[e];
        let c0: [u8; 4] = self.colors[e - 1];
        let c1: [u8; 4] = self.colors[e];
        proof {
            lemma_mul_upper_bound(s.num as int, u64::MAX as int, s0.den as int, 0xFFFF);
            lemma_mul_upper_bound(s0.num as int, 0xFFFF, s.den as int, u64::MAX as int);
            lemma_mul_upper_bound(s1.num as int, 0xFFFF, s0.den as int, 0xFFFF);
            lemma_mul_upper_bound(s0.num as int, 0xFFFF, s1.den as int, 0xFFFF);
        }
        let a: u128 = (s.num as u128) * (s0.den as u128);
        let b: u128 = (s0.num as u128) * (s.den as u128);
        let c: u128 = (s1.num as u128) * (s0.den as u128);
        let d: u128 = (s0.num as u128) * (s1.den as u128);
        proof {
            lemma_mul_upper_bound((a - b) as int, u64::MAX as int * 0xFFFF, s1.den as int, 0xFFFF);
            lemma_mul_upper_bound(s.den as int, u64::MAX as int, (c - d) as int, 0xFFFF as int * 0xFFFF);
            vstd::arithmetic::mul::lemma_mul_strictly_positive(s.den as int, (c - d) as int);
        }
        let p: u128 = (a - b) * (s1.den as u128);
        let q: u128 = (s.den as u128) * (c - d);
        proof {
            assert(p <= q) by (nonlinear_arith)
                requires
                    p == (s.num * s0.den - s0.num * s.den) * s1.den,
                    q == s.den * (s1.num * s0.den - s0.num * s1.den),
                    s.num * s1.den <= s1.num * s.den,
                    s0.den >= 0;
        }
        [
            interp_channel(c0[0], c1[0], p, q),
            interp_channel(c0[1], c1[1], p, q),
            interp_channel(c0[2], c1[2], p, q),
            interp_channel(c0[3], c1[3], p, q),
        ]
    }
}

/// The stop order is transitive.
proof fn lemma_stop_lt_trans(a: Stop, b: Stop, c: Stop)
    requires
        b.den >= 1,
        stop_lt(a, b),
        stop_lt(b, c),
    ensures
        stop_lt(a, c),
{
    assert(a.num * c.den < c.num * a.den) by (nonlinear_arith)
        requires
            b.den >= 1,
            a.num * b.den < b.num * a.den,
            b.num * c.den < c.num * b.den,
            a.num >= 0,
            a.den >= 0,
            c.num >= 0,
            c.den >= 0,
            b.num >= 0;
}

/// In a well-formed stop list every stop before the last is strictly below
/// the last one.
proof fn lemma_stop_lt_last(fs: Seq<Stop>, j: int)
    requires
        stops_strictly_increasing(fs),
        forall|i: int| 0 <= i < fs.len() ==> (#[trigger] fs[i]).den >= 1,
        0 <= j < fs.len() - 1,
    ensures
        stop_lt(fs[j], fs[fs.len() - 1]),
    decreases fs.len() - j,
{
    if j == fs.len() - 2 {
    } else {
        lemma_stop_lt_last(fs, j + 1);
        lemma_stop_lt_trans(fs[j], fs[j + 1], fs[fs.len() - 1]);
    }
}

/// Interpolating a channel at the full ratio `q / q` lands exactly on the
/// far color.
proof fn lemma_channel_at_one(c0: u8, c1: u8, q: int)
    requires
        q >= 1,
    ensures
        channel_interp(c0, c1, q, q) == c1,
{
    if c1 >= c0 {
        lemma_mul_is_commutative(c1 - c0, q);
        lemma_div_multiples_vanish(c1 - c0, q);
    } else {
        lemma_fundamental_div_mod_converse((c0 - c1) * q + q - 1, q, c0 - c1, q - 1);
    }
}

/// The gradient's endpoints are exact: a scale of 0 yields the first color
/// and a scale of 1 yields the last color, channel for channel.
pub proof fn lemma_gradient_endpoints(g: NaiveGradient, s: ScaleValue)
    requires
        g.wf(),
        s.wf(),
    ensures
        s.is_zero() ==> g.spec_color_from_scale(s) == g.colors@[0]@,
        s.is_one() ==> g.spec_color_from_scale(s) == g.colors@[g.colors@.len() - 1]@,
{
    if s.num == s.den {
        let fs = g.stops@;
        let len = fs.len();
        assert forall|j: int| 0 <= j < len - 1 implies !scale_le_stop(s, #[trigger] fs[j]) by {
            lemma_mul_basics(s.num as int);
            lemma_mul_basics(s.den as int);
            lemma_stop_lt_last(fs, j);
            lemma_mul_basics(fs[j].num as int);
            lemma_mul_basics(fs[j].den as int);
            assert(fs[j].num < fs[j].den);
            assert(!(s.num * fs[j].den <= fs[j].num * s.den)) by (nonlinear_arith)
                requires
                    s.num == s.den,
                    s.den >= 1,
                    fs[j].num < fs[j].den;
        }
        lemma_first_stop_props(fs, s, 0);
        let e = first_stop_at_or_above(fs, s, 0);
        assert(e == len - 1);
        let s0 = fs[e - 1];
        let s1 = fs[e];
        let p = interp_num(s, s0, s1);
        let q = interp_den(s, s0, s1);
        assert(stop_lt(s0, s1));
        lemma_mul_basics(s0.num as int);
        lemma_mul_basics(s0.den as int);
        assert(s0.num < s0.den);
        assert(p == q && q >= 1) by (nonlinear_arith)
            requires
                p == (s.num * s0.den - s0.num * s.den) * s1.den,
                q == s.den * (s1.num * s0.den - s0.num * s1.den),
                s.num == s.den,
                s.den >= 1,
                s1 == (Stop { num: 1, den: 1 }),
                s0.num < s0.den;
        let c0 = g.colors@[e - 1];
        let c1 = g.colors@[e];
        lemma_channel_at_one(c0[0], c1[0], q);
        lemma_channel_at_one(c0[1], c1[1], q);
        lemma_channel_at_one(c0[2], c1[2], q);
        lemma_channel_at_one(c0[3], c1[3], q);
        assert(g.spec_color_from_scale(s) =~= c1@);
    }
}

/// The closed set of palettes a renderer can be handed, dispatched by
/// variant.
pub enum Palette {
    Grayscale(Grayscale),
    Gradient(NaiveGradient),
    Buckets(Buckets),
}

impl Palette {
    pub open spec fn wf(self) -> bool {
        match self {
            Palette::Grayscale(_) => true,
            Palette::Gradient(g) => g.wf(),
            Palette::Buckets(b) => b.wf(),
        }
    }

    pub open spec fn spec_color_from_scale(self, s: ScaleValue) -> Seq<u8> {
        match self {
            Palette::Grayscale(_) => gray_rgba(s),
            Palette::Gradient(g) => g.spec_color_from_scale(s),
            Palette::Buckets(b) => b.spec_color_from_scale(s),
        }
    }

    /// Maps a normalized value to its four RGBA bytes.
    pub fn color_from_scale(&self, s: ScaleValue) -> (r: [u8; 4])
        requires
            self.wf(),
            s.wf(),
        ensures
            r@ == self.spec_color_from_scale(s),
    {
        match self {
            Palette::Grayscale(g) => g.color_from_scale(s),
            Palette::Gradient(g) => g.color_from_scale(s),
            Palette::Buckets(b) => b.color_from_scale(s),
        }
    }
}

} // verus!

