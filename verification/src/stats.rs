//! Frame times and what they add up to.
use crate::fpu::{Fpu32, Fpu64, Op32, Op64};
use crate::literal::{
    MINUS_ZERO, WIDE_BILLION, WIDE_KIBI, WIDE_MILLION, WIDE_THOUSAND, WIDE_ZERO, ZERO,
};
use crate::number::{lit, wide_lit, Real32, Real64};
use crate::order::{
    as_ints, before, descending_order, gather, law_order_exists, law_order_lists_every_item_once,
    rank, sort_descending,
};
use crate::rounding::{
    faithful, is_whole, law_divided, law_literals, law_mag_sum, law_mag_within, law_order,
    law_quotient, law_whole, law_whole_arithmetic, law_whole_result, mag, tiny, val,
};
use vstd::prelude::*;

verus! {

/// 0.99, in binary64.
pub const PERCENTILE: u64 = 0x3fef_ae14_7ae1_47ae;

/// The time that one frame took, in milliseconds.
#[derive(Copy, Clone, PartialEq, Eq, Structural, Debug)]
pub struct FrameMetric {
    pub cpu_ms: Real32,
    /// Known for some frames only.
    pub gpu_ms: Option<Real32>,
}

/// What a window of frames adds up to.
#[derive(Copy, Clone, PartialEq, Eq, Structural, Debug)]
pub struct FrameSummary {
    pub fps: Real64,
    /// The frame rate at the 99th percentile of the frame times.
    pub fps_1pct_low: Real64,
    pub avg_gpu_ms: Real32,
    pub avg_cpu_ms: Real32,
}

/// The sum of the times, taken from the left. It begins with the zero that
/// leaves every value as it is.
pub open spec fn sum_of<F: Fn(Op32) -> Real32>(u: &Fpu32<F>, times: Seq<Real32>) -> Real32
    decreases times.len(),
{
    if times.len() == 0 {
        lit(MINUS_ZERO)
    } else {
        u.add(sum_of(u, times.drop_last()), times.last())
    }
}

/// The mean of the times, 0 without any.
pub open spec fn mean_of<F: Fn(Op32) -> Real32>(u: &Fpu32<F>, times: Seq<Real32>) -> Real32 {
    if times.len() == 0 {
        lit(ZERO)
    } else {
        u.div(sum_of(u, times), u.from_uint(times.len() as u64))
    }
}

/// The keys that put the least time first.
pub open spec fn rising_keys(times: Seq<Real32>) -> Seq<i64> {
    times.map_values(|t: Real32| (-rank(t)) as i64)
}

/// The times, the least first.
pub open spec fn ascending(times: Seq<Real32>) -> Seq<Real32> {
    gather(times, descending_order(rising_keys(times)))
}

/// The times can be sorted: there are not two of them, or all are numbers.
pub open spec fn comparable(times: Seq<Real32>) -> bool {
    times.len() <= 1 || forall|i: int| 0 <= i < times.len() ==> !(#[trigger] times[i]).is_nan()
}

/// The place of the 99th percentile among `count` sorted times.
pub open spec fn percentile_index<G: Fn(Op64) -> Real64>(w: &Fpu64<G>, count: int) -> int {
    let i = w.mul(w.from_uint(count as u64), wide_lit(PERCENTILE)).floor_usize();
    if i < count - 1 {
        i
    } else {
        count - 1
    }
}

/// The summary of a window of `dt` seconds.
pub open spec fn summary_of<F: Fn(Op32) -> Real32, G: Fn(Op64) -> Real64>(
    u: &Fpu32<F>,
    w: &Fpu64<G>,
    cpu: Seq<Real32>,
    gpu: Seq<Real32>,
    dt: Real64,
) -> FrameSummary {
    let slow = ascending(cpu)[percentile_index(w, cpu.len() as int)];
    FrameSummary {
        fps: w.div(w.from_uint(cpu.len() as u64), dt),
        fps_1pct_low: if lit(ZERO).lt(slow) {
            w.div(wide_lit(WIDE_THOUSAND), w.widen(slow))
        } else {
            wide_lit(WIDE_ZERO)
        },
        avg_gpu_ms: mean_of(u, gpu),
        avg_cpu_ms: mean_of(u, cpu),
    }
}

fn sum<F: Fn(Op32) -> Real32>(u: &Fpu32<F>, times: &Vec<Real32>) -> (r: Real32)
    ensures
        r == sum_of(u, times@),
{
    let mut r = lit(MINUS_ZERO);
    for i in 0..times.len()
        invariant
            r == sum_of(u, times@.take(i as int)),
    {
        assert(times@.take(i + 1).drop_last() =~= times@.take(i as int));
        r = u.add(r, times[i]);
    }
    assert(times@.take(times.len() as int) =~= times@);
    r
}

fn mean<F: Fn(Op32) -> Real32>(u: &Fpu32<F>, times: &Vec<Real32>) -> (r: Real32)
    ensures
        r == mean_of(u, times@),
{
    if times.len() == 0 {
        lit(ZERO)
    } else {
        u.div(sum(u, times), u.from_uint(times.len() as u64))
    }
}

/// The `k`-th of the times, the least first.
fn kth_time(times: &Vec<Real32>, k: usize) -> (r: Real32)
    requires
        k < times.len(),
    ensures
        r == ascending(times@)[k as int],
{
    let mut keys: Vec<i64> = Vec::new();
    for i in 0..times.len()
        invariant
            keys@ == rising_keys(times@.take(i as int)),
    {
        keys.push(-rank(times[i]));
        assert(keys@ =~= rising_keys(times@.take(i + 1)));
    }
    assert(times@.take(times.len() as int) =~= times@);
    let order = sort_descending(&keys);
    assert(as_ints(order@)[k as int] == order[k as int]);
    times[order[k]]
}

/// The frame times since the last summary.
pub struct FrameWindow {
    pub cpu: Vec<Real32>,
    pub gpu: Vec<Real32>,
}

impl FrameWindow {
    pub fn new() -> (r: Self)
        ensures
            r.cpu@.len() == 0,
            r.gpu@.len() == 0,
    {
        FrameWindow { cpu: Vec::new(), gpu: Vec::new() }
    }

    /// Takes in one frame.
    pub fn record(&mut self, m: FrameMetric)
        ensures
            final(self).cpu@ == old(self).cpu@.push(m.cpu_ms),
            final(self).gpu@ == (match m.gpu_ms {
                Some(t) => old(self).gpu@.push(t),
                None => old(self).gpu@,
            }),
    {
        self.cpu.push(m.cpu_ms);
        if let Some(t) = m.gpu_ms {
            self.gpu.push(t);
        }
    }

    /// The frame times can be sorted.
    pub fn is_comparable(&self) -> (r: bool)
        ensures
            r == comparable(self.cpu@),
    {
        if self.cpu.len() <= 1 {
            return true;
        }
        for i in 0..self.cpu.len()
            invariant
                self.cpu.len() > 1,
                forall|j: int| 0 <= j < i ==> !(#[trigger] self.cpu[j]).is_nan(),
        {
            if self.cpu[i].is_nan() {
                return false;
            }
        }
        true
    }

    /// Sums up the frames of the last `dt` seconds and starts anew; without a
    /// frame or without a positive time nothing happens.
    pub fn summarize<F: Fn(Op32) -> Real32, G: Fn(Op64) -> Real64>(
        &mut self,
        u: &Fpu32<F>,
        w: &Fpu64<G>,
        dt: Real64,
    ) -> (r: Option<FrameSummary>)
        requires
            old(self).cpu@.len() > 0 && dt.is_positive() ==> comparable(old(self).cpu@),
        ensures
            if old(self).cpu.len() > 0 && dt.is_positive() {
                &&& r == Some(summary_of(u, w, old(self).cpu@, old(self).gpu@, dt))
                &&& final(self).cpu@.len() == 0
                &&& final(self).gpu@.len() == 0
            } else {
                &&& r is None
                &&& final(self).cpu@ == old(self).cpu@
                &&& final(self).gpu@ == old(self).gpu@
            },
    {
        let count: usize = self.cpu.len();
        if count == 0 || !dt.is_positive() {
            return None;
        }
        let fps = w.div(w.from_uint(count as u64), dt);
        let raw: usize = w.mul(w.from_uint(count as u64), wide_lit(PERCENTILE)).to_usize();
        let index: usize = if raw < count - 1 {
            raw
        } else {
            count - 1
        };
        let slow = kth_time(&self.cpu, index);
        let fps_1pct_low = if lit(ZERO).lt(slow) {
            w.div(wide_lit(WIDE_THOUSAND), w.widen(slow))
        } else {
            wide_lit(WIDE_ZERO)
        };
        let avg_cpu_ms = mean(u, &self.cpu);
        let avg_gpu_ms = mean(u, &self.gpu);
        self.cpu.clear();
        self.gpu.clear();
        Some(FrameSummary { fps, fps_1pct_low, avg_gpu_ms, avg_cpu_ms })
    }
}

/// The percentile splits the frames: none before it in the sorted times is
/// slower, none behind it is faster, and it is one of them.
pub proof fn law_percentile_splits<G: Fn(Op64) -> Real64>(w: &Fpu64<G>, times: Seq<Real32>)
    requires
        times.len() > 0,
        comparable(times),
    ensures
        ({
            let k = percentile_index(w, times.len() as int);
            let sorted = ascending(times);
            &&& 0 <= k < times.len()
            &&& sorted.len() == times.len()
            &&& times.contains(sorted[k])
            &&& forall|i: int| 0 <= i < k ==> !sorted[k].lt(#[trigger] sorted[i])
            &&& forall|i: int| k < i < sorted.len() ==> !(#[trigger] sorted[i]).lt(sorted[k])
        }),
{
    let k = percentile_index(w, times.len() as int);
    let keys = rising_keys(times);
    let p = descending_order(keys);
    let sorted = ascending(times);
    law_order_exists(keys);
    assert(sorted[k] == times[p[k]]);
    assert forall|i: int| 0 <= i < sorted.len() implies #[trigger] sorted[i] == times[p[i]]
        && keys[p[i]] == -rank(sorted[i]) by {
    }
    assert forall|i: int| 0 <= i < k implies !sorted[k].lt(#[trigger] sorted[i]) by {
        assert(before(keys, p[i], p[k]));
    }
    assert forall|i: int| k < i < sorted.len() implies !(#[trigger] sorted[i]).lt(sorted[k]) by {
        assert(before(keys, p[k], p[i]));
    }
}

/// A number of bytes in units of 2^20.
pub open spec fn mebibytes_of<G: Fn(Op64) -> Real64>(w: &Fpu64<G>, bytes: u64) -> Real64 {
    w.div(w.div(w.from_uint(bytes), wide_lit(WIDE_KIBI)), wide_lit(WIDE_KIBI))
}

pub fn mebibytes<G: Fn(Op64) -> Real64>(w: &Fpu64<G>, bytes: u64) -> (r: Real64)
    ensures
        r == mebibytes_of(w, bytes),
{
    w.div(w.div(w.from_uint(bytes), wide_lit(WIDE_KIBI)), wide_lit(WIDE_KIBI))
}

/// Millions per second of what happens `per_frame` times in a frame.
pub fn millions_per_second<G: Fn(Op64) -> Real64>(
    w: &Fpu64<G>,
    per_frame: Real64,
    fps: Real64,
) -> (r: Real64)
    ensures
        r == w.div(w.mul(per_frame, fps), wide_lit(WIDE_MILLION)),
{
    w.div(w.mul(per_frame, fps), wide_lit(WIDE_MILLION))
}

/// Billions per second of what happens `per_frame` times in a frame.
pub fn billions_per_second<G: Fn(Op64) -> Real64>(
    w: &Fpu64<G>,
    per_frame: Real64,
    fps: Real64,
) -> (r: Real64)
    ensures
        r == w.div(w.mul(per_frame, fps), wide_lit(WIDE_BILLION)),
{
    w.div(w.mul(per_frame, fps), wide_lit(WIDE_BILLION))
}

/// Sorting the times loses none and makes up none, and no time has a lesser one behind
/// it.
pub proof fn law_ascending(times: Seq<Real32>)
    ensures
        ascending(times).len() == times.len(),
        forall|t: Real32| #[trigger] ascending(times).contains(t) <==> times.contains(t),
        comparable(times) ==> forall|i: int, j: int|
            0 <= i < j < times.len() ==> !(#[trigger] ascending(times)[j]).lt(
                #[trigger] ascending(times)[i],
            ),
{
    let keys = rising_keys(times);
    let p = descending_order(keys);
    let sorted = ascending(times);
    law_order_exists(keys);
    law_order_lists_every_item_once(keys, p);
    assert forall|t: Real32| #[trigger] sorted.contains(t) <==> times.contains(t) by {
        if sorted.contains(t) {
            let i = choose|i: int| 0 <= i < sorted.len() && sorted[i] == t;
            assert(times[p[i]] == t);
        }
        if times.contains(t) {
            let a = choose|a: int| 0 <= a < times.len() && times[a] == t;
            assert(p.contains(a));
            let i = choose|i: int| 0 <= i < p.len() && p[i] == a;
            assert(sorted[i] == t);
        }
    }
    assert forall|i: int, j: int| 0 <= i < j < times.len() implies !(#[trigger] sorted[j]).lt(
        #[trigger] sorted[i],
    ) by {
        assert(before(keys, p[i], p[j]));
        assert(keys[p[i]] == -rank(sorted[i]));
        assert(keys[p[j]] == -rank(sorted[j]));
    }
}

/// The sum of whole numbers.
pub open spec fn whole_sum(ns: Seq<int>) -> int
    decreases ns.len(),
{
    if ns.len() == 0 {
        0
    } else {
        whole_sum(ns.drop_last()) + ns.last()
    }
}

/// The times stand for these whole numbers, none below zero.
pub open spec fn are_whole(times: Seq<Real32>, ns: Seq<int>) -> bool {
    times.len() == ns.len() && forall|i: int|
        0 <= i < times.len() ==> is_whole(#[trigger] times[i], ns[i]) && ns[i] >= 0
}

proof fn lemma_whole_sum<F: Fn(Op32) -> Real32>(u: &Fpu32<F>, times: Seq<Real32>, ns: Seq<int>)
    requires
        faithful(u),
        are_whole(times, ns),
        whole_sum(ns) < 0x100_0000,
    ensures
        is_whole(sum_of(u, times), whole_sum(ns)),
        whole_sum(ns) >= 0,
    decreases times.len(),
{
    if times.len() == 0 {
        law_literals();
        law_order(lit(MINUS_ZERO), lit(ZERO));
    } else {
        let n = times.len() - 1;
        assert(is_whole(times[n], ns[n]));
        assert(are_whole(times.drop_last(), ns.drop_last())) by {
            assert forall|i: int| 0 <= i < n implies is_whole(
                #[trigger] times.drop_last()[i],
                ns.drop_last()[i],
            ) && ns.drop_last()[i] >= 0 by {
                assert(is_whole(times[i], ns[i]));
            }
        }
        lemma_whole_sum(u, times.drop_last(), ns.drop_last());
        law_whole_arithmetic(
            u,
            sum_of(u, times.drop_last()),
            times.last(),
            whole_sum(ns.drop_last()),
            ns.last(),
        );
    }
}

/// The mean of times is their sum by their number: on whole times of less than 2^24
/// together, so many times the mean is the sum, up to a part in a million.
pub proof fn law_mean<F: Fn(Op32) -> Real32>(u: &Fpu32<F>, times: Seq<Real32>, ns: Seq<int>)
    requires
        faithful(u),
        are_whole(times, ns),
        0 < times.len() < 0x100_0000,
        whole_sum(ns) < 0x100_0000,
    ensures
        ({
            let sum = whole_sum(ns) as real;
            let m = mean_of(u, times);
            &&& m.is_finite()
            &&& mag(val(m) * times.len() as real - sum) <= sum / 1000000 as real + 1 as real
                / 1000000 as real
        }),
{
    lemma_whole_sum(u, times, ns);
    let k = times.len() as int;
    law_whole(u, k as u64);
    let n = u.from_uint(times.len() as u64);
    law_whole_result(k, n);
    let s = whole_sum(ns) as real;
    let h = k as real;
    let q = s / h;
    law_divided(s, h);
    assert(0 as real <= q <= s) by (nonlinear_arith)
        requires
            q * h == s,
            h >= 1 as real,
            s >= 0 as real,
    ;
    law_mag_sum(q, q);
    law_quotient(u, sum_of(u, times), n);
    let m = val(mean_of(u, times));
    let b = q / 8388608 as real + tiny();
    law_mag_within(m - q, b);
    let e = (m - q) * h;
    assert(m * h == s + e) by (nonlinear_arith)
        requires
            q * h == s,
            e == (m - q) * h,
    ;
    assert(b * h == s / 8388608 as real + h / 1152921504606846976 as real) by (nonlinear_arith)
        requires
            q * h == s,
            b == q / 8388608 as real + 1 as real / 1152921504606846976 as real,
    ;
    assert(-(b * h) <= e <= b * h) by (nonlinear_arith)
        requires
            e == (m - q) * h,
            -b <= m - q <= b,
            h >= 1 as real,
    ;
    law_mag_within(m * h - s, s / 1000000 as real + 1 as real / 1000000 as real);
}

} // verus!
