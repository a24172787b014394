//! Temporal frame sampling: which decoded frames are kept, which one-second
//! bucket each kept frame falls into, and the in-bucket numbering that the
//! store writer persists.
//!
//! A frame is kept iff its timestamp is non-negative and either no frame was
//! kept before or the distance to the last kept timestamp reaches the
//! sampling threshold. The threshold is the source/target rate ratio rounded
//! to the nearest integer, clamped to at least 1. A kept frame's bucket is
//! its timestamp converted to seconds and floored.

use vstd::prelude::*;

verus! {

use vstd::arithmetic::div_mod::{lemma_div_is_ordered, lemma_fundamental_div_mod};
use vstd::arithmetic::mul::{lemma_mul_inequality, lemma_mul_strictly_positive, lemma_mul_upper_bound};

/// Why a sampler could not be configured.
#[derive(Debug, PartialEq, Eq, Structural, Clone, Copy)]
pub enum SamplerError {
    /// A frame rate (source or target) was zero.
    InvalidRate,
    /// The stream time base had a zero numerator or denominator.
    InvalidTimeBase,
}

/// `a / b` rounded to the nearest integer, halves rounded up.
pub open spec fn spec_round_div(a: int, b: int) -> int
    recommends
        a >= 0,
        b >= 1,
{
    if 2 * (a % b) >= b {
        a / b + 1
    } else {
        a / b
    }
}

/// Sampling threshold in source PTS ticks for a source rate of
/// `src_num / src_den` frames per second and a target rate of
/// `tgt_num / tgt_den`: the rounded rate ratio, never below 1.
pub open spec fn spec_threshold(src_num: int, src_den: int, tgt_num: int, tgt_den: int) -> int
    recommends
        src_num >= 1,
        src_den >= 1,
        tgt_num >= 1,
        tgt_den >= 1,
{
    let ratio = spec_round_div(src_num * tgt_den, src_den * tgt_num);
    if ratio < 1 {
        1
    } else {
        ratio
    }
}

/// Computes the sampling threshold from the two frame rates, both given as
/// rationals. Rejects a zero term in either rate; any other input succeeds.
pub fn sampling_threshold(src_num: u32, src_den: u32, tgt_num: u32, tgt_den: u32) -> (r: Result<
    u64,
    SamplerError,
>)
    ensures
        r is Ok <==> (src_num >= 1 && src_den >= 1 && tgt_num >= 1 && tgt_den >= 1),
        r matches Ok(t) ==> t == spec_threshold(
            src_num as int,
            src_den as int,
            tgt_num as int,
            tgt_den as int,
        ),
        r matches Err(e) ==> e == SamplerError::InvalidRate,
{
    if src_num == 0 || src_den == 0 || tgt_num == 0 || tgt_den == 0 {
        return Err(SamplerError::InvalidRate);
    }
    proof {
        lemma_mul_upper_bound(src_num as int, u32::MAX as int, tgt_den as int, u32::MAX as int);
        lemma_mul_upper_bound(src_den as int, u32::MAX as int, tgt_num as int, u32::MAX as int);
    }
    let a: u64 = (src_num as u64) * (tgt_den as u64);
    let b: u64 = (src_den as u64) * (tgt_num as u64);
    proof {
        lemma_mul_strictly_positive(src_den as int, tgt_num as int);
    }
    let q: u64 = a / b;
    let r: u64 = a % b;
    let rounded: u64 = if r >= b - r {
        proof {
            lemma_fundamental_div_mod(a as int, b as int);
            assert(q + 1 <= a) by (nonlinear_arith)
                requires
                    b * q + r == a,
                    b >= 1,
                    r >= 1,
                    q >= 0,
            ;
        }
        q + 1
    } else {
        q
    };
    if rounded < 1 {
        Ok(1)
    } else {
        Ok(rounded)
    }
}

/// The one-second bucket of a non-negative timestamp under the time base
/// `tb_num / tb_den`: the timestamp in seconds, floored.
pub open spec fn spec_bucket(pts: int, tb_num: int, tb_den: int) -> int
    recommends
        pts >= 0,
        tb_num >= 1,
        tb_den >= 1,
{
    (pts * tb_num) / tb_den
}

/// Computes a kept frame's bucket number.
pub fn bucket_of_pts(pts: i64, tb_num: u32, tb_den: u32) -> (b: u64)
    requires
        pts >= 0,
        tb_num >= 1,
        tb_den >= 1,
        spec_bucket(pts as int, tb_num as int, tb_den as int) <= u64::MAX,
    ensures
        b == spec_bucket(pts as int, tb_num as int, tb_den as int),
{
    proof {
        lemma_mul_upper_bound(pts as int, i64::MAX as int, tb_num as int, u32::MAX as int);
    }
    let prod: u128 = (pts as u128) * (tb_num as u128);
    let q: u128 = prod / (tb_den as u128);
    q as u64
}

/// Whether a frame with timestamp `pts` is kept, given the last kept
/// timestamp and the sampling threshold.
pub open spec fn spec_keep(pts: int, last_kept: Option<i64>, threshold: int) -> bool {
    pts >= 0 && match last_kept {
        None => true,
        Some(l) => pts - l >= threshold,
    }
}

/// Immutable sampling parameters: threshold in PTS ticks and the stream
/// time base.
#[derive(Debug, PartialEq, Eq, Structural, Clone, Copy)]
pub struct SamplerConfig {
    pub threshold: u64,
    pub tb_num: u32,
    pub tb_den: u32,
}

impl SamplerConfig {
    /// All parameters are non-degenerate.
    pub open spec fn wf(self) -> bool {
        self.threshold >= 1 && self.tb_num >= 1 && self.tb_den >= 1
    }

    /// Validates the parameters: a zero time-base term is a fatal
    /// configuration error, as is a zero threshold.
    pub fn new(threshold: u64, tb_num: u32, tb_den: u32) -> (r: Result<SamplerConfig, SamplerError>)
        ensures
            r is Ok <==> (threshold >= 1 && tb_num >= 1 && tb_den >= 1),
            r matches Ok(c) ==> c == (SamplerConfig { threshold, tb_num, tb_den }) && c.wf(),
            r matches Err(e) ==> e == (if tb_num == 0 || tb_den == 0 {
                SamplerError::InvalidTimeBase
            } else {
                SamplerError::InvalidRate
            }),
    {
        if tb_num == 0 || tb_den == 0 {
            Err(SamplerError::InvalidTimeBase)
        } else if threshold == 0 {
            Err(SamplerError::InvalidRate)
        } else {
            Ok(SamplerConfig { threshold, tb_num, tb_den })
        }
    }
}

/// Every kept frame's number extends a contiguous run: it is 1 when its
/// bucket differs from the previous kept frame's bucket (or it is the first
/// kept frame), and the previous number plus one otherwise.
pub open spec fn contiguous_numbering(h: Seq<(u64, u64)>) -> bool {
    forall|i: int|
        0 <= i < h.len() ==> (#[trigger] h[i]).1 == if i > 0 && h[i - 1].0 == h[i].0 {
            h[i - 1].1 + 1
        } else {
            1int
        }
}

/// Bucket numbers never decrease along the sequence of kept frames.
pub open spec fn buckets_monotone(h: Seq<(u64, u64)>) -> bool {
    forall|i: int, j: int| 0 <= i <= j < h.len() ==> (#[trigger] h[i]).0 <= (#[trigger] h[j]).0
}

/// Within one bucket the numbers advance in lockstep with the positions:
/// kept frames of a common bucket are numbered contiguously.
pub proof fn lemma_contiguous_run(h: Seq<(u64, u64)>, i: int, j: int)
    requires
        contiguous_numbering(h),
        buckets_monotone(h),
        0 <= i <= j < h.len(),
        h[i].0 == h[j].0,
    ensures
        h[j].1 == h[i].1 + (j - i),
    decreases j - i,
{
    if i < j {
        assert(h[i].0 <= h[j - 1].0 <= h[j].0);
        lemma_contiguous_run(h, i, j - 1);
    }
}

/// The first kept frame of a bucket is numbered 1.
pub proof fn lemma_bucket_starts_at_one(h: Seq<(u64, u64)>, i: int)
    requires
        contiguous_numbering(h),
        0 <= i < h.len(),
        i == 0 || h[i - 1].0 != h[i].0,
    ensures
        h[i].1 == 1,
{
}

/// The writer never assigns one (bucket, frame number) pair twice: within a
/// bucket the numbers strictly climb, so every kept frame's on-disk name is
/// distinct and discovery of the written store has one possible order.
pub proof fn lemma_history_keys_distinct(h: Seq<(u64, u64)>, i: int, j: int)
    requires
        contiguous_numbering(h),
        buckets_monotone(h),
        0 <= i < j < h.len(),
        h[i].0 == h[j].0,
    ensures
        h[i].1 != h[j].1,
{
    lemma_contiguous_run(h, i, j);
}

/// What the sampler decided about one observed frame.
#[derive(Debug, PartialEq, Eq, Structural, Clone, Copy)]
pub enum SampleDecision {
    /// The frame is not kept; only the scanned count advances.
    Skip,
    /// The frame is kept as frame `frame` of bucket `second`; `new_second`
    /// is true when this opens a bucket the writer has not seen before.
    Keep { second: u64, frame: u64, new_second: bool },
}

/// Sampling state: last kept timestamp, current bucket, in-bucket counter,
/// scanned-frame counter, and the ghost history of all kept (bucket, frame)
/// pairs in keep order.
pub struct Sampler {
    pub config: SamplerConfig,
    pub last_kept: Option<i64>,
    pub second: Option<u64>,
    pub count: u64,
    pub scanned: u64,
    pub history: Ghost<Seq<(u64, u64)>>,
}

impl Sampler {
    /// The state is consistent with its kept-frame history.
    pub open spec fn wf(self) -> bool {
        &&& self.config.wf()
        &&& contiguous_numbering(self.history@)
        &&& buckets_monotone(self.history@)
        &&& match self.last_kept {
            None => self.history@.len() == 0 && self.second is None && self.count == 0,
            Some(p) => {
                &&& p >= 0
                &&& self.history@.len() > 0
                &&& self.second == Some(self.history@.last().0)
                &&& self.count == self.history@.last().1
                &&& self.history@.last().0 == spec_bucket(
                    p as int,
                    self.config.tb_num as int,
                    self.config.tb_den as int,
                )
            },
        }
    }

    /// A fresh sampler that has kept nothing.
    pub fn new(config: SamplerConfig) -> (s: Sampler)
        requires
            config.wf(),
        ensures
            s.wf(),
            s.config == config,
            s.history@ == Seq::<(u64, u64)>::empty(),
            s.last_kept is None,
            s.scanned == 0,
    {
        Sampler {
            config,
            last_kept: None,
            second: None,
            count: 0,
            scanned: 0,
            history: Ghost(Seq::empty()),
        }
    }

    /// Counts a frame that is structurally unsampled — a decoder flush or
    /// drain frame after end of input: it joins the scanned total but is
    /// never put to the keep decision.
    pub fn record_unsampled(&mut self)
        requires
            old(self).wf(),
            old(self).scanned < u64::MAX,
        ensures
            final(self).wf(),
            final(self).scanned == old(self).scanned + 1,
            *final(self) == (Sampler { scanned: (old(self).scanned + 1) as u64, ..*old(self) }),
    {
        self.scanned = self.scanned + 1;
    }

    /// Feeds one decoded frame's timestamp to the sampler. The frame is kept
    /// iff `spec_keep` says so; a kept frame is assigned its bucket and the
    /// next number of a contiguous in-bucket run. Re-entering the current
    /// bucket never resets the counter and never fails.
    pub fn observe(&mut self, pts: i64) -> (d: SampleDecision)
        requires
            old(self).wf(),
            old(self).scanned < u64::MAX,
            old(self).count < u64::MAX,
            spec_keep(pts as int, old(self).last_kept, old(self).config.threshold as int)
                ==> spec_bucket(
                pts as int,
                old(self).config.tb_num as int,
                old(self).config.tb_den as int,
            ) <= u64::MAX,
        ensures
            final(self).wf(),
            final(self).config == old(self).config,
            final(self).scanned == old(self).scanned + 1,
            d is Keep <==> spec_keep(
                pts as int,
                old(self).last_kept,
                old(self).config.threshold as int,
            ),
            d is Skip ==> final(self).history@ == old(self).history@
                && final(self).last_kept == old(self).last_kept && final(self).second == old(
                self,
            ).second && final(self).count == old(self).count,
            d matches SampleDecision::Keep { second, frame, new_second } ==> {
                &&& second == spec_bucket(
                    pts as int,
                    old(self).config.tb_num as int,
                    old(self).config.tb_den as int,
                )
                &&& new_second == (old(self).second != Some(second))
                &&& frame == if new_second {
                    1int
                } else {
                    old(self).count + 1
                }
                &&& final(self).history@ == old(self).history@.push((second, frame))
                &&& final(self).last_kept == Some(pts)
                &&& final(self).second == Some(second)
                &&& final(self).count == frame
            },
    {
        self.scanned = self.scanned + 1;
        let keep = pts >= 0 && match self.last_kept {
            None => true,
            Some(l) => pts >= l && ((pts - l) as u64) >= self.config.threshold,
        };
        if !keep {
            return SampleDecision::Skip;
        }
        let second = bucket_of_pts(pts, self.config.tb_num, self.config.tb_den);
        let new_second = match self.second {
            None => true,
            Some(s) => s != second,
        };
        let frame: u64 = if new_second {
            1
        } else {
            self.count + 1
        };
        proof {
            let h = self.history@;
            let nh = h.push((second, frame));
            if self.last_kept is Some {
                let p = self.last_kept->0;
                assert(h.last().0 <= second) by {
                    lemma_mul_inequality(p as int, pts as int, self.config.tb_num as int);
                    lemma_div_is_ordered(
                        p as int * self.config.tb_num as int,
                        pts as int * self.config.tb_num as int,
                        self.config.tb_den as int,
                    );
                };
            }
            assert forall|i: int, j: int| 0 <= i <= j < nh.len() implies (#[trigger] nh[i]).0 <= (
            #[trigger] nh[j]).0 by {
                if j < h.len() {
                    assert(h[i].0 <= h[j].0);
                } else if i < h.len() {
                    assert(h[i].0 <= h.last().0);
                }
            }
            assert forall|i: int| 0 <= i < nh.len() implies (#[trigger] nh[i]).1 == if i > 0
                && nh[i - 1].0 == nh[i].0 {
                nh[i - 1].1 + 1
            } else {
                1int
            } by {
                if i < h.len() {
                    assert(h[i] == nh[i]);
                }
            }
        }
        self.last_kept = Some(pts);
        self.second = Some(second);
        self.count = frame;
        self.history = Ghost(self.history@.push((second, frame)));
        SampleDecision::Keep { second, frame, new_second }
    }
}

} // verus!
