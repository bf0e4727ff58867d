//! Measuring frames on the GPU with timestamp queries.
use crate::fpu::{Fpu32, Fpu64, Op32, Op64};
use crate::literal::WIDE_MILLION;
use crate::number::{wide_lit, Real32, Real64};
use crate::stats::FrameMetric;
use vstd::prelude::*;
use vstd::slice::slice_subrange;

verus! {

/// The number that the bytes spell, the least significant one first.
pub open spec fn number_of(bytes: Seq<u8>) -> nat
    decreases bytes.len(),
{
    if bytes.len() == 0 {
        0
    } else {
        bytes[0] as nat + 0x100 * number_of(bytes.drop_first())
    }
}

/// The eight bytes of word `i`, the least significant one first.
pub open spec fn word_bytes(data: Seq<u8>, i: int, least_first: bool) -> Seq<u8> {
    let word = data.subrange(8 * i, 8 * i + 8);
    if least_first {
        word
    } else {
        word.reverse()
    }
}

/// The words are those that the bytes spell in one byte order.
pub open spec fn spells(data: Seq<u8>, words: Seq<u64>, least_first: bool) -> bool {
    &&& data.len() == 8 * words.len()
    &&& forall|i: int|
        0 <= i < words.len() ==> #[trigger] words[i] == number_of(word_bytes(data, i, least_first))
}

/// `bytemuck::pod_read_unaligned` of two 64-bit words: the memory of the slice,
/// eight bytes a word, in the byte order of the machine. Which of the two orders
/// that is, is not said. Where the slice starts does not matter; the crate panics
/// where its size is not that of the two words.
#[verifier::external_body]
fn read_pair(bytes: &[u8]) -> (r: [u64; 2])
    requires
        bytes@.len() == 16,
    ensures
        spells(bytes@, r@, true) || spells(bytes@, r@, false),
{
    bytemuck::pod_read_unaligned(bytes)
}

/// The timestamps at the begin and the end of a frame: the first two 64-bit words
/// of a read-back buffer. `None` exactly where the buffer does not consist of
/// such words or has fewer than two.
pub fn read_timestamps(data: &[u8]) -> (r: Option<(u64, u64)>)
    ensures
        r is Some <==> data@.len() % 8 == 0 && data@.len() >= 16,
        r matches Some((begin, end)) ==> {
            ||| spells(data@.take(16), seq![begin, end], true)
            ||| spells(data@.take(16), seq![begin, end], false)
        },
{
    if data.len() % 8 != 0 || data.len() < 16 {
        return None;
    }
    let words = read_pair(slice_subrange(data, 0, 16));
    assert(words@ =~= seq![words[0], words[1]]);
    Some((words[0], words[1]))
}

/// The milliseconds between two timestamps that tick every `period`
/// nanoseconds; `None` where the second one is the earlier.
pub open spec fn elapsed_of<F: Fn(Op32) -> Real32, G: Fn(Op64) -> Real64>(
    u: &Fpu32<F>,
    w: &Fpu64<G>,
    begin: u64,
    end: u64,
    period: Real32,
) -> Option<Real32> {
    if begin <= end {
        Some(
            u.narrow(
                w.div(
                    w.mul(w.from_uint((end - begin) as u64), w.widen(period)),
                    wide_lit(WIDE_MILLION),
                ),
            ),
        )
    } else {
        None
    }
}

pub fn elapsed_ms<F: Fn(Op32) -> Real32, G: Fn(Op64) -> Real64>(
    u: &Fpu32<F>,
    w: &Fpu64<G>,
    begin: u64,
    end: u64,
    period: Real32,
) -> (r: Option<Real32>)
    ensures
        r == elapsed_of(u, w, begin, end, period),
{
    if begin <= end {
        let ticks = w.from_uint(end - begin);
        Some(u.narrow(w.div(w.mul(ticks, w.widen(period)), wide_lit(WIDE_MILLION))))
    } else {
        None
    }
}

/// Which timestamp queries the adapter has.
#[derive(Copy, Clone, PartialEq, Eq, Structural, Debug)]
pub struct TimestampSupport {
    pub has_ts: bool,
    pub has_ts_encoder: bool,
    pub has_ts_passes: bool,
}

impl TimestampSupport {
    /// Frames can be measured: there are timestamps, and they can be written
    /// around a pass or in it.
    #[verifier::allow_in_spec]
    pub fn supports_timestamps(self) -> bool
        returns
            self.has_ts && (self.has_ts_encoder || self.has_ts_passes),
    {
        self.has_ts && (self.has_ts_encoder || self.has_ts_passes)
    }
}

/// How a frame is measured.
#[derive(Copy, Clone, PartialEq, Eq, Structural, Debug)]
pub struct FramePlan {
    /// Write, resolve and read back two timestamps.
    pub use_ts: bool,
    /// The render pass writes them.
    pub pass_writes: bool,
    /// The encoder writes them, before and behind the pass.
    pub encoder_writes: bool,
}

/// The measuring of frames: at most one read-back is under way.
#[derive(Copy, Clone, PartialEq, Eq, Structural, Debug)]
pub struct GpuTimer {
    pub support: TimestampSupport,
    /// A read-back is under way.
    pub is_mapping: bool,
    /// A time that no frame has reported yet.
    pub resolved_gpu_ms: Option<Real32>,
}

impl GpuTimer {
    /// Only what can be measured is read back.
    pub open spec fn well_formed(self) -> bool {
        self.is_mapping ==> self.support.supports_timestamps()
    }

    pub fn new(support: TimestampSupport) -> (r: Self)
        ensures
            r.well_formed(),
            r == (GpuTimer { support, is_mapping: false, resolved_gpu_ms: None }),
    {
        GpuTimer { support, is_mapping: false, resolved_gpu_ms: None }
    }

    /// The read-back is there: its time, if it has one, is reported next.
    pub open spec fn mapped(self, elapsed: Option<Real32>) -> GpuTimer {
        GpuTimer {
            support: self.support,
            is_mapping: false,
            resolved_gpu_ms: if elapsed is Some {
                elapsed
            } else {
                self.resolved_gpu_ms
            },
        }
    }

    pub fn finish_mapping(&mut self, elapsed: Option<Real32>)
        requires
            old(self).is_mapping,
            old(self).well_formed(),
        ensures
            final(self).well_formed(),
            *final(self) == old(self).mapped(elapsed),
    {
        if elapsed.is_some() {
            self.resolved_gpu_ms = elapsed;
        }
        self.is_mapping = false;
    }

    /// How the next frame is measured: not while a read-back is under way, by
    /// the pass where it can, else by the encoder.
    pub open spec fn plan_of(self) -> FramePlan {
        let use_ts = self.support.supports_timestamps() && !self.is_mapping;
        FramePlan {
            use_ts,
            pass_writes: use_ts && self.support.has_ts_passes,
            encoder_writes: use_ts && self.support.has_ts_encoder && !self.support.has_ts_passes,
        }
    }

    pub fn plan(&self) -> (r: FramePlan)
        ensures
            r == self.plan_of(),
    {
        let use_ts = self.support.supports_timestamps() && !self.is_mapping;
        FramePlan {
            use_ts,
            pass_writes: use_ts && self.support.has_ts_passes,
            encoder_writes: use_ts && self.support.has_ts_encoder && !self.support.has_ts_passes,
        }
    }

    /// A frame is submitted: no time is waiting any more, and where the frame
    /// was measured its read-back begins.
    pub open spec fn ended(self) -> GpuTimer {
        GpuTimer {
            support: self.support,
            is_mapping: self.is_mapping || self.plan_of().use_ts,
            resolved_gpu_ms: None,
        }
    }

    /// Ends a frame; its metric takes the time that was waiting.
    pub fn end_frame(&mut self, plan: FramePlan, cpu_ms: Real32) -> (m: FrameMetric)
        requires
            old(self).well_formed(),
            plan == old(self).plan_of(),
        ensures
            final(self).well_formed(),
            m == (FrameMetric { cpu_ms, gpu_ms: old(self).resolved_gpu_ms }),
            *final(self) == old(self).ended(),
    {
        let m = FrameMetric { cpu_ms, gpu_ms: self.resolved_gpu_ms };
        self.resolved_gpu_ms = None;
        if plan.use_ts {
            self.is_mapping = true;
        }
        m
    }
}

/// A measured frame is measured in exactly one way, an unmeasured one in none,
/// and no frame is measured while a read-back is under way.
pub proof fn law_plan(t: GpuTimer)
    ensures
        t.plan_of().use_ts ==> (t.plan_of().pass_writes != t.plan_of().encoder_writes),
        !t.plan_of().use_ts ==> !t.plan_of().pass_writes && !t.plan_of().encoder_writes,
        t.is_mapping ==> !t.plan_of().use_ts,
{
}

/// After a measured frame none is measured until its read-back is there; the
/// next frame is then measured again and reports the time that came back, and
/// the one behind it does not report it a second time.
pub proof fn law_time_is_reported_once(t: GpuTimer, elapsed: Real32)
    requires
        t.plan_of().use_ts,
    ensures
        t.ended().is_mapping,
        !t.ended().plan_of().use_ts,
        !t.ended().ended().plan_of().use_ts,
        ({
            let back = t.ended().mapped(Some(elapsed));
            &&& back.plan_of().use_ts
            &&& back.resolved_gpu_ms == Some(elapsed)
            &&& back.ended().resolved_gpu_ms is None
        }),
{
}

} // verus!
