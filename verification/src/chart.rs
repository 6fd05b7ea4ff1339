//! Chart geometry: the rounded vertical ceiling, the raw polyline over
//! a count sequence, and the 7-day simple and exponential moving
//! averages, all in exact integer arithmetic.
//!
//! Values and coordinates are carried in hundredths (a count of 10 is
//! 1000, a coordinate of 99.43 units is 9943), so the path text with its
//! two fractional digits is produced without any floating point.

use vstd::prelude::*;
use vstd::arithmetic::div_mod::lemma_div_pos_is_pos;
use vstd::arithmetic::div_mod::lemma_multiply_divide_lt;
use vstd::string::StringExecFns;
use crate::aggregate::Entry;
use crate::textfmt::coord_text;
use crate::textfmt::append_coord;

verus! {

/// The vertical ceiling the counts are scaled against: the next
/// multiple of 2000 strictly above `m` (an exact multiple still moves
/// up a full step).
pub open spec fn scale_ceiling_spec(m: int) -> int {
    (m / 2000 + 1) * 2000
}

/// Division rounded to the nearest integer, halves rounding up.
pub open spec fn round_div(a: int, b: int) -> int
    recommends
        b >= 1,
{
    (2 * a + b) / (2 * b)
}

/// A rounded quotient of non-negative values stays between 0 and any
/// `q` with `a <= q * b`.
proof fn lemma_round_div_le(a: int, b: int, q: int)
    requires
        b >= 1,
        0 <= a,
        a <= q * b,
    ensures
        0 <= round_div(a, b) <= q,
{
    lemma_div_pos_is_pos(2 * a + b, 2 * b);
    assert(2 * a + b < (q + 1) * (2 * b)) by (nonlinear_arith)
        requires
            b >= 1,
            0 <= a,
            a <= q * b,
    ;
    lemma_multiply_divide_lt(2 * a + b, 2 * b, q + 1);
}

/// The x coordinate of point `i` of `n`, in hundredths: the drawing
/// width is split over `n - 1` equal steps.
pub open spec fn x_coord(i: int, n: int) -> int {
    round_div(40000 * i, n - 1)
}

/// The y coordinate of a value `c` given in hundredths, against the
/// ceiling `h`: the value's share of the drawing height, measured down
/// from the top edge.
pub open spec fn y_coord(c: int, h: int) -> int {
    10000 - round_div(100 * c, h)
}

/// Rounds a maximum count up to the vertical ceiling.
pub fn scale_ceiling(max: u32) -> (h: u64)
    ensures
        h as int == scale_ceiling_spec(max as int),
        max < h,
        2000 <= h <= 4294968000,
{
    ((max as u64) / 2000 + 1) * 2000
}

/// The largest value of a non-empty sequence.
pub open spec fn max_of(vs: Seq<int>) -> int
    decreases vs.len(),
{
    if vs.len() <= 1 {
        vs[0]
    } else {
        let m = max_of(vs.drop_last());
        if vs.last() > m {
            vs.last()
        } else {
            m
        }
    }
}

proof fn lemma_max_ge(vs: Seq<int>)
    requires
        vs.len() >= 1,
    ensures
        forall|k: int| 0 <= k < vs.len() ==> vs[k] <= max_of(vs),
    decreases vs.len(),
{
    if vs.len() > 1 {
        lemma_max_ge(vs.drop_last());
        assert(forall|k: int| 0 <= k < vs.len() - 1 ==> vs[k] == vs.drop_last()[k]);
    }
}

/// The counts of a table, as plain integers.
pub open spec fn counts_of(data: Seq<Entry>) -> Seq<int> {
    data.map_values(|e: Entry| e.count as int)
}

/// The largest count in a table.
pub fn max_count(values: &Vec<u32>) -> (m: u32)
    requires
        values@.len() >= 1,
    ensures
        m as int == max_of(values@.map_values(|v: u32| v as int)),
{
    let ghost vs = values@.map_values(|v: u32| v as int);
    let mut m = values[0];
    let mut i: usize = 1;
    proof {
        assert(vs.take(1).drop_last() =~= vs.take(0));
    }
    while i < values.len()
        invariant
            1 <= i <= values@.len(),
            vs == values@.map_values(|v: u32| v as int),
            m as int == max_of(vs.take(i as int)),
        decreases values@.len() - i,
    {
        proof {
            assert(vs.take(i as int + 1).drop_last() =~= vs.take(i as int));
            assert(vs.take(i as int + 1).last() == vs[i as int]);
        }
        if values[i] > m {
            m = values[i];
        }
        i = i + 1;
    }
    proof {
        assert(vs.take(vs.len() as int) =~= vs);
    }
    m
}

/// The 7-day exponential moving average after point `i`, in hundredths:
/// seeded with the first value, then pulled a seventh of the way toward
/// each new value, rounding to the nearest hundredth.
pub open spec fn ema_at(vs: Seq<int>, i: int) -> int
    decreases i,
{
    if i <= 0 {
        100 * vs[0]
    } else {
        round_div(6 * ema_at(vs, i - 1) + 100 * vs[i], 7)
    }
}

proof fn lemma_ema_bounded(vs: Seq<int>, m: int, i: int)
    requires
        0 <= i < vs.len(),
        forall|k: int| 0 <= k < vs.len() ==> 0 <= #[trigger] vs[k] <= m,
    ensures
        0 <= ema_at(vs, i) <= 100 * m,
    decreases i,
{
    if i <= 0 {
    } else {
        lemma_ema_bounded(vs, m, i - 1);
        lemma_round_div_le(6 * ema_at(vs, i - 1) + 100 * vs[i], 7, 100 * m);
    }
}

/// The exponential moving average of a count sequence, one value per
/// input point, in hundredths.
pub fn ema_values(values: &Vec<u32>) -> (out: Vec<u64>)
    requires
        values@.len() >= 1,
    ensures
        out@.len() == values@.len(),
        forall|i: int|
            0 <= i < out@.len() ==> out@[i] as int == ema_at(
                values@.map_values(|v: u32| v as int),
                i,
            ),
{
    let ghost vs = values@.map_values(|v: u32| v as int);
    proof {
        assert(forall|k: int| 0 <= k < vs.len() ==> 0 <= #[trigger] vs[k] <= u32::MAX);
    }
    let mut out: Vec<u64> = Vec::new();
    let mut e: u64 = (values[0] as u64) * 100;
    out.push(e);
    let mut i: usize = 1;
    while i < values.len()
        invariant
            1 <= i <= values@.len(),
            vs == values@.map_values(|v: u32| v as int),
            forall|k: int| 0 <= k < vs.len() ==> 0 <= #[trigger] vs[k] <= u32::MAX,
            out@.len() == i,
            e as int == ema_at(vs, i - 1),
            forall|k: int| 0 <= k < i ==> out@[k] as int == ema_at(vs, k),
        decreases values@.len() - i,
    {
        proof {
            lemma_ema_bounded(vs, u32::MAX as int, i - 1);
            lemma_round_div_le(6 * (e as int) + 100 * vs[i as int], 7, 100 * (u32::MAX as int));
        }
        let a: u64 = 6 * e + 100 * (values[i] as u64);
        e = (2 * a + 7) / 14;
        out.push(e);
        i = i + 1;
    }
    out
}

/// The first value repeated six times, then the sequence itself: the
/// padding that gives the first point a full seven-wide window.
pub open spec fn padded(vs: Seq<int>) -> Seq<int> {
    Seq::new(6, |k: int| vs[0]) + vs
}

/// The sum of the `w` values of `p` starting at `i`.
pub open spec fn win_sum(p: Seq<int>, i: int, w: int) -> int
    decreases w,
{
    if w <= 0 {
        0
    } else {
        win_sum(p, i, w - 1) + p[i + w - 1]
    }
}

/// The 7-day simple moving average at point `i`, in hundredths: the
/// mean of the seven-wide window ending at that point of the padded
/// sequence, rounding to the nearest hundredth.
pub open spec fn sma_at(vs: Seq<int>, i: int) -> int {
    round_div(100 * win_sum(padded(vs), i, 7), 7)
}

proof fn lemma_win_sum_bounded(p: Seq<int>, m: int, i: int, w: int)
    requires
        0 <= i,
        0 <= w,
        i + w <= p.len(),
        forall|k: int| 0 <= k < p.len() ==> 0 <= #[trigger] p[k] <= m,
    ensures
        0 <= win_sum(p, i, w) <= w * m,
    decreases w,
{
    if w > 0 {
        lemma_win_sum_bounded(p, m, i, w - 1);
        assert((w - 1) * m + m == w * m) by (nonlinear_arith);
    }
}

/// The simple moving average of a count sequence, one value per input
/// point, in hundredths.
pub fn sma_values(values: &Vec<u32>) -> (out: Vec<u64>)
    requires
        values@.len() >= 1,
    ensures
        out@.len() == values@.len(),
        forall|i: int|
            0 <= i < out@.len() ==> out@[i] as int == sma_at(
                values@.map_values(|v: u32| v as int),
                i,
            ),
{
    let ghost vs = values@.map_values(|v: u32| v as int);
    let ghost p = padded(vs);
    let mut pad: Vec<u64> = Vec::new();
    let first = values[0] as u64;
    let mut k: usize = 0;
    while k < 6
        invariant
            k <= 6,
            first == vs[0],
            pad@.len() == k,
            forall|j: int| 0 <= j < k ==> pad@[j] as int == vs[0],
        decreases 6 - k,
    {
        pad.push(first);
        k = k + 1;
    }
    let mut k2: usize = 0;
    while k2 < values.len()
        invariant
            k2 <= values@.len(),
            vs == values@.map_values(|v: u32| v as int),
            pad@.len() == 6 + k2,
            forall|j: int| 0 <= j < 6 ==> pad@[j] as int == vs[0],
            forall|j: int| 6 <= j < pad@.len() ==> pad@[j] as int == vs[j - 6],
        decreases values@.len() - k2,
    {
        pad.push(values[k2] as u64);
        k2 = k2 + 1;
    }
    proof {
        assert(pad@.map_values(|c: u64| c as int) =~= p);
        assert(forall|j: int| 0 <= j < pad@.len() ==> #[trigger] pad@[j] <= u32::MAX);
    }
    let mut out: Vec<u64> = Vec::new();
    let pl = pad.len();
    let mut i: usize = 0;
    while i < values.len()
        invariant
            i <= values@.len(),
            vs == values@.map_values(|v: u32| v as int),
            p == padded(vs),
            pl == pad@.len(),
            pad@.len() == 6 + values@.len(),
            pad@.map_values(|c: u64| c as int) == p,
            forall|j: int| 0 <= j < pad@.len() ==> #[trigger] pad@[j] <= u32::MAX,
            out@.len() == i,
            forall|k3: int| 0 <= k3 < i ==> out@[k3] as int == sma_at(vs, k3),
        decreases values@.len() - i,
    {
        let mut s: u64 = 0;
        let mut w: usize = 0;
        while w < 7
            invariant
                w <= 7,
                pl == pad@.len(),
                i + 7 <= pl,
                pad@.map_values(|c: u64| c as int) == p,
                forall|j: int| 0 <= j < pad@.len() ==> #[trigger] pad@[j] <= u32::MAX,
                s as int == win_sum(p, i as int, w as int),
                s <= 7 * (u32::MAX as u64),
            decreases 7 - w,
        {
            proof {
                assert forall|k3: int| 0 <= k3 < p.len() implies 0 <= #[trigger] p[k3]
                    <= u32::MAX by {
                    assert(p[k3] == pad@[k3] as int);
                }
                lemma_win_sum_bounded(p, u32::MAX as int, i as int, w as int);
                assert(pad@[i + w] as int == p[i as int + w as int]);
            }
            s = s + pad[i + w];
            w = w + 1;
        }
        let r: u64 = (2 * (100 * s) + 7) / 14;
        out.push(r);
        i = i + 1;
    }
    out
}

/// A segment of the path: a line to the given coordinates.
pub open spec fn seg_text(x: int, y: int) -> Seq<char> {
    seq![' ', 'L'] + coord_text(x) + seq![','] + coord_text(y)
}

/// The first `i` segments of the polyline over the value sequence `cs`
/// (in hundredths), against the ceiling `h`.
pub open spec fn segs_text(cs: Seq<int>, h: int, i: int) -> Seq<char>
    decreases i,
{
    if i <= 0 {
        Seq::empty()
    } else {
        segs_text(cs, h, i - 1) + seg_text(
            x_coord(i - 1, cs.len() as int),
            y_coord(cs[i - 1], h),
        )
    }
}

/// The whole polyline: a move to the left edge at the first value's
/// height, then one line segment per value.
pub open spec fn poly_text(cs: Seq<int>, h: int) -> Seq<char> {
    seq!['M', '0', ','] + coord_text(y_coord(cs[0], h)) + segs_text(cs, h, cs.len() as int)
}

/// Builds the path text of a polyline over values in hundredths.
fn polyline(cs: &Vec<u64>, h: u64) -> (path: String)
    requires
        cs@.len() >= 2,
        1 <= h <= 4294968000,
        forall|k: int| 0 <= k < cs@.len() ==> (#[trigger] cs@[k] as int) <= 100 * (h as int),
    ensures
        path@ == poly_text(cs@.map_values(|c: u64| c as int), h as int),
{
    let ghost csv = cs@.map_values(|c: u64| c as int);
    let n = cs.len();
    let mut path = String::new();
    proof {
        reveal_strlit("M0,");
        assert("M0,"@ =~= seq!['M', '0', ',']);
        reveal_strlit(" L");
        assert(" L"@ =~= seq![' ', 'L']);
        reveal_strlit(",");
        assert(","@ =~= seq![',']);
    }
    path.append("M0,");
    proof {
        lemma_round_div_le(100 * (cs@[0] as int), h as int, 10000);
    }
    let y0: u64 = 10000 - (2 * (100 * cs[0]) + h) / (2 * h);
    append_coord(&mut path, y0);
    let mut i: usize = 0;
    proof {
        assert(path@ =~= seq!['M', '0', ','] + coord_text(y_coord(csv[0], h as int)) + segs_text(
            csv,
            h as int,
            0,
        ));
    }
    while i < n
        invariant
            i <= n,
            n == cs@.len() >= 2,
            csv == cs@.map_values(|c: u64| c as int),
            1 <= h <= 4294968000,
            forall|k: int| 0 <= k < cs@.len() ==> (#[trigger] cs@[k] as int) <= 100 * (h as int),
            " L"@ == seq![' ', 'L'],
            ","@ == seq![','],
            path@ == seq!['M', '0', ','] + coord_text(y_coord(csv[0], h as int)) + segs_text(
                csv,
                h as int,
                i as int,
            ),
        decreases n - i,
    {
        path.append(" L");
        proof {
            lemma_round_div_le(40000 * (i as int), n as int - 1, 40000);
        }
        let xw: u128 = 40000u128 * (i as u128);
        let bw: u128 = (n - 1) as u128;
        let x: u64 = ((2 * xw + bw) / (2 * bw)) as u64;
        append_coord(&mut path, x);
        path.append(",");
        proof {
            lemma_round_div_le(100 * (cs@[i as int] as int), h as int, 10000);
        }
        let y: u64 = 10000 - (2 * (100 * cs[i]) + h) / (2 * h);
        append_coord(&mut path, y);
        proof {
            assert(x as int == x_coord(i as int, csv.len() as int));
            assert(y as int == y_coord(csv[i as int], h as int));
            assert(path@ =~= seq!['M', '0', ','] + coord_text(y_coord(csv[0], h as int))
                + segs_text(csv, h as int, i as int + 1));
        }
        i = i + 1;
    }
    path
}

/// The values of the exponential moving average, point by point.
pub open spec fn ema_seq(vs: Seq<int>) -> Seq<int> {
    Seq::new(vs.len(), |i: int| ema_at(vs, i))
}

/// The values of the simple moving average, point by point.
pub open spec fn sma_seq(vs: Seq<int>) -> Seq<int> {
    Seq::new(vs.len(), |i: int| sma_at(vs, i))
}

/// What the chart builder hands to the renderer: the vertical ceiling
/// and up to three path texts.
pub struct Chart {
    /// The rounded vertical ceiling the counts were scaled against.
    pub ceiling: u64,
    /// The polyline of the raw counts.
    pub raw: String,
    /// The polyline of the exponential moving average, when asked for.
    pub ema: String,
    /// The polyline of the simple moving average, when asked for.
    pub sma: String,
}

/// A chart faithful to the count sequence `vs`: the ceiling is the
/// rounded maximum; with two or more points the raw path plots the
/// counts and the overlays are drawn exactly when asked for; a single
/// point is a degenerate, pathless chart.
pub open spec fn chart_ok(vs: Seq<int>, with_averages: bool, c: Chart) -> bool {
    let h = scale_ceiling_spec(max_of(vs));
    &&& c.ceiling as int == h
    &&& vs.len() < 2 ==> c.raw@ == Seq::<char>::empty() && c.ema@ == Seq::<char>::empty()
        && c.sma@ == Seq::<char>::empty()
    &&& vs.len() >= 2 ==> {
        &&& c.raw@ == poly_text(vs.map_values(|v: int| 100 * v), h)
        &&& c.ema@ == if with_averages {
            poly_text(ema_seq(vs), h)
        } else {
            Seq::<char>::empty()
        }
        &&& c.sma@ == if with_averages {
            poly_text(sma_seq(vs), h)
        } else {
            Seq::<char>::empty()
        }
    }
}

/// Builds the chart of an aggregate table: the vertical ceiling, the
/// raw path and, when `with_averages` is set, the two moving-average
/// overlays.
pub fn build_chart(data: &Vec<Entry>, with_averages: bool) -> (c: Chart)
    requires
        data@.len() >= 1,
    ensures
        chart_ok(counts_of(data@), with_averages, c),
{
    let ghost vs = counts_of(data@);
    let mut values: Vec<u32> = Vec::new();
    let mut i: usize = 0;
    while i < data.len()
        invariant
            i <= data@.len(),
            values@.len() == i,
            forall|k: int| 0 <= k < i ==> values@[k] == data@[k].count,
        decreases data@.len() - i,
    {
        values.push(data[i].count);
        i = i + 1;
    }
    proof {
        assert(values@.map_values(|v: u32| v as int) =~= vs);
    }
    let mx = max_count(&values);
    let h = scale_ceiling(mx);
    if values.len() < 2 {
        return Chart { ceiling: h, raw: String::new(), ema: String::new(), sma: String::new() };
    }
    proof {
        lemma_max_ge(vs);
    }
    let mut raw_centi: Vec<u64> = Vec::new();
    let mut j: usize = 0;
    while j < values.len()
        invariant
            j <= values@.len(),
            raw_centi@.len() == j,
            forall|k: int| 0 <= k < j ==> raw_centi@[k] == 100 * (values@[k] as u64),
        decreases values@.len() - j,
    {
        raw_centi.push(100 * (values[j] as u64));
        j = j + 1;
    }
    proof {
        assert(raw_centi@.map_values(|c: u64| c as int) =~= vs.map_values(|v: int| 100 * v));
        assert forall|k: int| 0 <= k < raw_centi@.len() implies (#[trigger] raw_centi@[k] as int)
            <= 100 * (h as int) by {
            assert(values@[k] as int == vs[k]);
            assert(vs[k] <= max_of(vs));
        }
    }
    let raw = polyline(&raw_centi, h);
    let ema;
    let sma;
    if with_averages {
        let ema_vals = ema_values(&values);
        let sma_vals = sma_values(&values);
        proof {
            assert forall|k: int| 0 <= k < ema_vals@.len() implies (#[trigger] ema_vals@[k] as int)
                <= 100 * (h as int) by {
                lemma_ema_bounded(vs, max_of(vs), k);
            }
            assert forall|k: int| 0 <= k < sma_vals@.len() implies (#[trigger] sma_vals@[k] as int)
                <= 100 * (h as int) by {
                lemma_padded_bounded(vs, max_of(vs));
                lemma_win_sum_bounded(padded(vs), max_of(vs), k, 7);
                lemma_round_div_le(100 * win_sum(padded(vs), k, 7), 7, 100 * max_of(vs));
            }
            assert(ema_vals@.map_values(|c: u64| c as int) =~= ema_seq(vs));
            assert(sma_vals@.map_values(|c: u64| c as int) =~= sma_seq(vs));
        }
        ema = polyline(&ema_vals, h);
        sma = polyline(&sma_vals, h);
    } else {
        ema = String::new();
        sma = String::new();
    }
    Chart { ceiling: h, raw, ema, sma }
}

proof fn lemma_padded_bounded(vs: Seq<int>, m: int)
    requires
        vs.len() >= 1,
        forall|k: int| 0 <= k < vs.len() ==> 0 <= #[trigger] vs[k] <= m,
    ensures
        forall|k: int| 0 <= k < padded(vs).len() ==> 0 <= #[trigger] padded(vs)[k] <= m,
{
}

} // verus!
