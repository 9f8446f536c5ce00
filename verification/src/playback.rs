//! Sample-based jitter buffer and clock bridge between the microphone and the
//! output device.
//!
//! Even when both devices advertise the same rate, their oscillators drift, so
//! a plain queue must eventually empty or overflow. [`PlaybackBuffer`] reads
//! with linear interpolation at a rate that is corrected by a tiny amount
//! which depends on the fill level. It primes itself before it emits anything,
//! and fades rather than jumps where it starts and where it runs dry.

use crate::binary;
use crate::binary32::Binary32;
use crate::binary64;
use crate::binary64::Binary64;
use crate::rounding::mag;
use crate::vectors;
use std::collections::VecDeque;
use vstd::arithmetic::power2::pow2;
use vstd::prelude::*;

verus! {

/// Fill level at which playback begins.
pub const OUTPUT_PREBUFFER_MS: u32 = 64;

/// Fill level that the clock bridge gently steers toward.
pub const OUTPUT_TARGET_BUFFER_MS: u32 = 96;

/// Largest correction of the playback rate: the bits of `0.002`. This is ample
/// for real hardware drift and too little to be heard as a change of pitch.
pub const MAX_CLOCK_CORRECTION: u64 = 0x3f60_624d_d2f1_a9fc;

/// Length of a fade.
pub const PLAYBACK_FADE_MS: u32 = 5;

/// Bits of `1.0` in double precision.
const ONE: u64 = 0x3ff0_0000_0000_0000;

#[derive(Debug, Clone, Copy, PartialEq, Eq, Structural)]
pub enum PlaybackStatus {
    Rendered,
    Prebuffering,
    Underrun,
}

/// Jitter buffer and clock bridge.
#[derive(Debug)]
pub struct PlaybackBuffer {
    pub samples: VecDeque<Binary32>,
    /// Where the next sample is read, in samples from the front.
    pub read_position: Binary64,
    pub target_fill: usize,
    pub start_fill: usize,
    pub fade_total: usize,
    pub fade_remaining: usize,
    pub started: bool,
    pub last_output: Binary32,
}

/// Samples in `ms` milliseconds.
pub open spec fn millis_to_samples(sample_rate: u32, ms: u32) -> usize {
    let n = sample_rate as int * ms as int / 1000;
    if n > usize::MAX {
        usize::MAX
    } else {
        n as usize
    }
}

pub open spec fn unity() -> Binary64 {
    Binary64 { bits: 0x3ff0_0000_0000_0000 }
}

pub open spec fn correction_limit() -> Binary64 {
    Binary64 { bits: MAX_CLOCK_CORRECTION }
}

/// The read rate at a fill level.
pub open spec fn step_at(fill: nat, target: nat) -> Binary64 {
    if target == 0 {
        unity()
    } else {
        unity().sum(correction(fill, target))
    }
}

/// How far the read rate is from one at a fill level.
pub open spec fn correction(fill: nat, target: nat) -> Binary64 {
    misfit(fill, target).product(correction_limit()).clamped(
        correction_limit().negation(),
        correction_limit(),
    )
}

/// How far a fill level is from its target, as a share of it.
pub open spec fn misfit(fill: nat, target: nat) -> Binary64 {
    Binary64::whole(fill).quotient(Binary64::whole(target)).difference(unity())
}

/// The read position after `k` steps.
pub open spec fn position(start: Binary64, step: Binary64, k: nat) -> Binary64
    decreases k,
{
    if k == 0 {
        start
    } else {
        position(start, step, (k - 1) as nat).sum(step)
    }
}

/// The sample at or before a read position.
pub open spec fn index_at(p: Binary64) -> nat {
    binary::whole_part(binary64::format(), p.parts(), usize::MAX as u64) as nat
}

/// The signal at a read position.
pub open spec fn interpolated(samples: Seq<Binary32>, p: Binary64) -> Binary32 {
    let i = index_at(p);
    let fraction = p.difference(Binary64::whole(i)).narrowed();
    let left = samples[i as int];
    let right = samples[i as int + 1];
    left.sum(right.difference(left).product(fraction))
}

/// Gain while `remaining` of `total` samples of a fade are still to come.
pub open spec fn fade_gain(remaining: nat, total: nat) -> Binary32 {
    vectors::one().difference(Binary32::whole(remaining).quotient(Binary32::whole(total)))
}

/// Where the read position is predicted to be at the last of `n` samples.
pub open spec fn last_position(start: Binary64, step: Binary64, n: nat) -> Binary64 {
    start.sum(
        step.product(
            Binary64::whole(
                if n == 0 {
                    0
                } else {
                    (n - 1) as nat
                },
            ),
        ),
    )
}

/// The fading tail of an underrun.
pub open spec fn tail(last: Binary32, fade: nat, n: nat) -> Seq<Binary32> {
    Seq::new(
        n,
        |i: int|
            if i < fade {
                last.product(
                    vectors::one().difference(
                        Binary32::whole((i + 1) as nat).quotient(Binary32::whole(fade)),
                    ),
                )
            } else {
                vectors::zero()
            },
    )
}

impl PlaybackBuffer {
    /// Fill level that playback waits for before `n` samples are asked for.
    pub open spec fn required(self, n: nat) -> nat {
        let twice = if 2 * n > usize::MAX {
            usize::MAX as nat
        } else {
            2 * n
        };
        if self.start_fill >= twice {
            self.start_fill as nat
        } else {
            twice
        }
    }

    /// Whether the buffer has to fill up before it emits `n` samples.
    pub open spec fn waits(self, n: nat) -> bool {
        !self.started && self.samples@.len() < self.required(n)
    }

    pub open spec fn step(self) -> Binary64 {
        step_at(self.samples@.len(), self.target_fill as nat)
    }

    /// Whether `n` samples are more than the buffer holds.
    pub open spec fn runs_dry(self, n: nat) -> bool {
        index_at(last_position(self.read_position, self.step(), n)) + 1 >= self.samples@.len()
    }

    /// Every sample that rendering `n` of them reads is there.
    pub open spec fn in_range(self, n: nat) -> bool {
        &&& forall|k: nat|
            k < n ==> index_at(#[trigger] position(self.read_position, self.step(), k)) + 1
                < self.samples@.len()
        &&& index_at(position(self.read_position, self.step(), n)) <= self.samples@.len()
    }

    /// Rendering `n` samples reads nothing that is not there.
    pub open spec fn renderable(self, n: nat) -> bool {
        n > 0 && !self.waits(n) && !self.runs_dry(n) ==> self.in_range(n)
    }

    /// How many of the next samples a fade is over.
    pub open spec fn fading(self) -> nat {
        if self.started {
            self.fade_remaining as nat
        } else {
            self.fade_total as nat
        }
    }

    /// The `k`-th of the samples to be rendered.
    pub open spec fn sample(self, k: nat) -> Binary32 {
        let s = interpolated(self.samples@, position(self.read_position, self.step(), k));
        if k < self.fading() {
            s.product(fade_gain((self.fading() - k) as nat, self.fade_total as nat))
        } else {
            s
        }
    }

    /// What rendering `n` samples comes to.
    pub open spec fn status(self, n: nat) -> PlaybackStatus {
        if n == 0 {
            PlaybackStatus::Rendered
        } else if self.waits(n) {
            PlaybackStatus::Prebuffering
        } else if self.runs_dry(n) {
            PlaybackStatus::Underrun
        } else {
            PlaybackStatus::Rendered
        }
    }

    /// The samples that are emitted: silence while the buffer fills up, a fade
    /// to silence where it runs dry, else the signal.
    pub open spec fn output(self, n: nat) -> Seq<Binary32> {
        if self.waits(n) {
            Seq::new(n, |i: int| vectors::zero())
        } else if self.runs_dry(n) {
            tail(
                self.last_output,
                if self.fade_total <= n {
                    self.fade_total as nat
                } else {
                    n
                },
                n,
            )
        } else {
            Seq::new(n, |i: int| self.sample(i as nat))
        }
    }

    /// The buffer after rendering `n` samples is `next`: unchanged while it
    /// fills up, waiting again with all it holds where it ran dry, else past
    /// what it read.
    pub open spec fn moves_on(self, n: nat, next: PlaybackBuffer) -> bool {
        &&& next.target_fill == self.target_fill
        &&& next.start_fill == self.start_fill
        &&& next.fade_total == self.fade_total
        &&& if n == 0 || self.waits(n) {
            next == self
        } else if self.runs_dry(n) {
            &&& next.samples@ == self.samples@
            &&& !next.started
            &&& next.read_position.bits == 0
            &&& next.last_output.bits == 0
            &&& next.fade_remaining == self.fading()
        } else {
            let end = position(self.read_position, self.step(), n);
            &&& next.samples@ == self.samples@.skip(index_at(end) as int)
            &&& next.read_position == end.difference(Binary64::whole(index_at(end)))
            &&& next.started
            &&& next.last_output == self.sample((n - 1) as nat)
            &&& next.fade_remaining == (if self.fading() <= n {
                0
            } else {
                self.fading() - n
            })
        }
    }

    pub fn new(sample_rate: u32) -> (r: Self)
        ensures
            r.samples@.len() == 0,
            r.read_position.bits == 0,
            r.target_fill == millis_to_samples(sample_rate, OUTPUT_TARGET_BUFFER_MS),
            r.start_fill == millis_to_samples(sample_rate, OUTPUT_PREBUFFER_MS),
            r.fade_total == (if millis_to_samples(sample_rate, PLAYBACK_FADE_MS) == 0 {
                1
            } else {
                millis_to_samples(sample_rate, PLAYBACK_FADE_MS)
            }),
            r.fade_remaining == 0,
            !r.started,
            r.last_output.bits == 0,
    {
        let fade: usize = samples_in(sample_rate, PLAYBACK_FADE_MS);
        PlaybackBuffer {
            samples: VecDeque::new(),
            read_position: Binary64 { bits: 0 },
            target_fill: samples_in(sample_rate, OUTPUT_TARGET_BUFFER_MS),
            start_fill: samples_in(sample_rate, OUTPUT_PREBUFFER_MS),
            fade_total: if fade < 1 {
                1
            } else {
                fade
            },
            fade_remaining: 0,
            started: false,
            last_output: Binary32 { bits: 0 },
        }
    }

    /// Appends produced samples.
    pub fn push(&mut self, samples: &[Binary32])
        ensures
            final(self).samples@ == old(self).samples@ + samples@,
            final(self).same_but_for_samples(*old(self)),
    {
        let ghost before = self.samples@;
        let mut i: usize = 0;
        while i < samples.len()
            invariant
                i <= samples.len(),
                self.samples@ == before + samples@.take(i as int),
                self.same_but_for_samples(*old(self)),
            decreases samples.len() - i,
        {
            self.samples.push_back(samples[i]);
            i = i + 1;
            assert(samples@.take(i as int) =~= samples@.take(i - 1).push(samples@[i - 1]));
        }
        assert(samples@.take(i as int) =~= samples@);
    }

    pub open spec fn same_but_for_samples(self, other: PlaybackBuffer) -> bool {
        &&& self.read_position == other.read_position
        &&& self.target_fill == other.target_fill
        &&& self.start_fill == other.start_fill
        &&& self.fade_total == other.fade_total
        &&& self.fade_remaining == other.fade_remaining
        &&& self.started == other.started
        &&& self.last_output == other.last_output
    }

    pub fn buffered_samples(&self) -> (n: usize)
        ensures
            n == self.samples@.len(),
    {
        self.samples.len()
    }

    /// The read rate: above one while the buffer is fuller than its target,
    /// below one while it is emptier.
    pub fn playback_step(&self) -> (r: Binary64)
        ensures
            r == self.step(),
    {
        if self.target_fill == 0 {
            return Binary64 { bits: ONE };
        }
        let one: Binary64 = Binary64 { bits: ONE };
        let limit: Binary64 = Binary64 { bits: MAX_CLOCK_CORRECTION };
        let fill: Binary64 = Binary64::from_count(self.samples.len() as u64);
        let error: Binary64 = fill.over(Binary64::from_count(self.target_fill as u64)).minus(one);
        one.plus(error.times(limit).clamp(limit.negate(), limit))
    }

    /// Whether every sample that rendering `n` of them reads is there. The
    /// end of the read is predicted with one multiplication while the reads
    /// themselves add up steps, so the two can round apart by a sample.
    pub fn reads_in_range(&self, n: usize) -> (r: bool)
        ensures
            r == self.in_range(n as nat),
    {
        let step: Binary64 = self.playback_step();
        let mut p: Binary64 = self.read_position;
        let mut k: usize = 0;
        while k < n
            invariant
                k <= n,
                step == self.step(),
                p == position(self.read_position, step, k as nat),
                forall|j: nat|
                    j < k ==> index_at(#[trigger] position(self.read_position, step, j)) + 1
                        < self.samples@.len(),
            decreases n - k,
        {
            let i: usize = p.whole_at_most(usize::MAX as u64) as usize;
            if i >= self.samples.len() || i + 1 >= self.samples.len() {
                assert(!self.in_range(n as nat)) by {
                    assert(index_at(position(self.read_position, self.step(), k as nat)) + 1
                        >= self.samples@.len());
                }
                return false;
            }
            p = p.plus(step);
            k = k + 1;
        }
        p.whole_at_most(usize::MAX as u64) as usize <= self.samples.len()
    }

    /// What rendering `n` samples will come to.
    fn outlook(&self, n: usize) -> (r: PlaybackStatus)
        ensures
            r == self.status(n as nat),
    {
        if n == 0 {
            return PlaybackStatus::Rendered;
        }
        if !self.started {
            // Two callbacks of margin cover unusually large device periods.
            let twice: usize = if n > usize::MAX / 2 {
                usize::MAX
            } else {
                2 * n
            };
            let required: usize = if self.start_fill >= twice {
                self.start_fill
            } else {
                twice
            };
            if self.samples.len() < required {
                return PlaybackStatus::Prebuffering;
            }
        }
        let step: Binary64 = self.playback_step();
        let ahead: Binary64 = self.read_position.plus(
            step.times(Binary64::from_count((n - 1) as u64)),
        );
        let final_index: usize = ahead.whole_at_most(usize::MAX as u64) as usize;
        if final_index >= self.samples.len() || final_index + 1 >= self.samples.len() {
            PlaybackStatus::Underrun
        } else {
            PlaybackStatus::Rendered
        }
    }

    /// Whether `n` samples may be asked for: always, except where the buffer
    /// seems to hold them and a read still falls behind its end.
    pub fn can_render(&self, n: usize) -> (r: bool)
        ensures
            r == self.renderable(n as nat),
    {
        match self.outlook(n) {
            PlaybackStatus::Rendered => n == 0 || self.reads_in_range(n),
            _ => true,
        }
    }

    /// Fills `output`: with silence until enough is buffered, with the signal
    /// while there is one, and with a fade to silence where the buffer runs
    /// dry, after which it has to fill up again.
    pub fn render(&mut self, output: &mut Vec<Binary32>) -> (r: PlaybackStatus)
        requires
            old(self).renderable(old(output)@.len()),
        ensures
            r == old(self).status(old(output)@.len()),
            old(output)@.len() > 0 ==> final(output)@ == old(self).output(old(output)@.len()),
            old(output)@.len() == 0 ==> final(output)@.len() == 0,
            old(self).moves_on(old(output)@.len(), *final(self)),
    {
        let n: usize = output.len();
        silence(output);
        if n == 0 {
            return PlaybackStatus::Rendered;
        }
        let ghost before = *self;
        let outlook: PlaybackStatus = self.outlook(n);
        match outlook {
            PlaybackStatus::Prebuffering => {
                return outlook;
            },
            _ => {},
        }
        if !self.started {
            self.started = true;
            self.fade_remaining = self.fade_total;
        }
        match outlook {
            PlaybackStatus::Underrun => {
                let fade: usize = if self.fade_total <= n {
                    self.fade_total
                } else {
                    n
                };
                fade_out(output, self.last_output, fade);
                self.started = false;
                self.read_position = Binary64 { bits: 0 };
                self.last_output = Binary32 { bits: 0 };
                return outlook;
            },
            _ => {},
        }
        let step: Binary64 = self.playback_step();
        self.read_out(output, step, Ghost(before));
        let end: Binary64 = self.read_position;
        let consumed: usize = end.whole_at_most(usize::MAX as u64) as usize;
        let mut dropped: usize = 0;
        while dropped < consumed
            invariant
                dropped <= consumed <= before.samples@.len(),
                self.samples@ == before.samples@.skip(dropped as int),
                self.target_fill == before.target_fill,
                self.start_fill == before.start_fill,
                self.fade_total == before.fade_total,
                self.started,
                self.read_position == end,
                self.last_output == output@[n - 1],
                self.fade_remaining == (if before.fading() <= n {
                    0
                } else {
                    before.fading() - n
                }),
            decreases consumed - dropped,
        {
            self.samples.pop_front();
            dropped = dropped + 1;
            assert(before.samples@.skip(dropped as int) =~= before.samples@.skip(
                dropped - 1,
            ).skip(1));
        }
        self.read_position = end.minus(Binary64::from_count(consumed as u64));
        PlaybackStatus::Rendered
    }

    /// Reads one sample for each place of `output`.
    fn read_out(&mut self, output: &mut Vec<Binary32>, step: Binary64, Ghost(before): Ghost<
        PlaybackBuffer,
    >)
        requires
            old(output)@.len() > 0,
            old(self).samples@ == before.samples@,
            old(self).read_position == before.read_position,
            old(self).fade_total == before.fade_total,
            old(self).fade_remaining == before.fading(),
            old(self).started,
            step == before.step(),
            before.in_range(old(output)@.len()),
        ensures
            final(output)@ == Seq::new(
                old(output)@.len(),
                |i: int| before.sample(i as nat),
            ),
            final(self).samples@ == before.samples@,
            final(self).read_position == position(
                before.read_position,
                step,
                old(output)@.len(),
            ),
            final(self).started,
            final(self).target_fill == old(self).target_fill,
            final(self).start_fill == old(self).start_fill,
            final(self).fade_total == old(self).fade_total,
            final(self).last_output == final(output)@[old(output)@.len() - 1],
            final(self).fade_remaining == (if before.fading() <= old(output)@.len() {
                0
            } else {
                before.fading() - old(output)@.len()
            }),
    {
        let n: usize = output.len();
        let mut k: usize = 0;
        while k < n
            invariant
                k <= n,
                n == output@.len(),
                n > 0,
                self.samples@ == before.samples@,
                step == before.step(),
                before.in_range(n as nat),
                self.read_position == position(before.read_position, step, k as nat),
                self.started,
                self.target_fill == old(self).target_fill,
                self.start_fill == old(self).start_fill,
                self.fade_total == old(self).fade_total,
                self.fade_total == before.fade_total,
                self.fade_remaining == (if before.fading() <= k {
                    0
                } else {
                    before.fading() - k
                }),
                forall|j: int| 0 <= j < k ==> output@[j] == before.sample(j as nat),
                k > 0 ==> self.last_output == output@[k - 1],
            decreases n - k,
        {
            let p: Binary64 = self.read_position;
            assert(index_at(position(before.read_position, before.step(), k as nat)) + 1
                < before.samples@.len());
            let index: usize = p.whole_at_most(usize::MAX as u64) as usize;
            let fraction: Binary32 = p.minus(Binary64::from_count(index as u64)).narrow();
            let held: usize = self.samples.len();
            assert(index + 1 < held);
            let left: Binary32 = self.samples[index];
            let right: Binary32 = self.samples[index + 1];
            let mut sample: Binary32 = left.plus(right.minus(left).times(fraction));
            if self.fade_remaining > 0 {
                let share: Binary32 = Binary32::from_count(self.fade_remaining as u64).over(
                    Binary32::from_count(self.fade_total as u64),
                );
                let gain: Binary32 = Binary32 { bits: vectors::ONE }.minus(share);
                sample = sample.times(gain);
                self.fade_remaining = self.fade_remaining - 1;
            }
            output.set(k, sample);
            self.last_output = sample;
            self.read_position = p.plus(step);
            k = k + 1;
        }
        assert(output@ =~= Seq::new(n as nat, |i: int| before.sample(i as nat)));
    }
}

/// Samples in `ms` milliseconds.
fn samples_in(sample_rate: u32, ms: u32) -> (n: usize)
    ensures
        n == millis_to_samples(sample_rate, ms),
{
    proof {
        assert(0 <= sample_rate as int * ms as int <= 0xffff_ffff * 0xffff_ffff)
            by (nonlinear_arith)
            requires
                0 <= sample_rate <= 0xffff_ffff,
                0 <= ms <= 0xffff_ffff,
        ;
    }
    let n: u64 = sample_rate as u64 * ms as u64 / 1000;
    if n > usize::MAX as u64 {
        usize::MAX
    } else {
        n as usize
    }
}

/// Overwrites everything with silence.
fn silence(output: &mut Vec<Binary32>)
    ensures
        final(output)@ == Seq::new(old(output)@.len(), |i: int| vectors::zero()),
{
    let n: usize = output.len();
    let mut i: usize = 0;
    while i < n
        invariant
            i <= n,
            output@.len() == n,
            forall|k: int| 0 <= k < i ==> output@[k] == vectors::zero(),
        decreases n - i,
    {
        output.set(i, Binary32 { bits: 0 });
        i = i + 1;
    }
    assert(output@ =~= Seq::new(n as nat, |i: int| vectors::zero()));
}

/// Lets the last sample fade into the silence that `output` holds.
fn fade_out(output: &mut Vec<Binary32>, last: Binary32, fade: usize)
    requires
        fade <= old(output)@.len(),
        old(output)@ == Seq::new(old(output)@.len(), |i: int| vectors::zero()),
    ensures
        final(output)@ == tail(last, fade as nat, old(output)@.len()),
{
    let ghost n = output@.len();
    let mut i: usize = 0;
    while i < fade
        invariant
            i <= fade <= n,
            output@.len() == n,
            forall|k: int| 0 <= k < i ==> output@[k] == tail(last, fade as nat, n)[k],
            forall|k: int| i <= k < n ==> output@[k] == vectors::zero(),
        decreases fade - i,
    {
        let share: Binary32 = Binary32::from_count((i + 1) as u64).over(
            Binary32::from_count(fade as u64),
        );
        let gain: Binary32 = Binary32 { bits: vectors::ONE }.minus(share);
        output.set(i, last.times(gain));
        i = i + 1;
    }
    assert(output@ =~= tail(last, fade as nat, n));
}

/// The read rate never leaves one by more than the correction limit, whatever
/// the fill level.
pub proof fn law_clock_correction_is_bounded(fill: nat, target: nat)
    requires
        fill <= u64::MAX,
        target <= u64::MAX,
    ensures
        unity().sum(correction_limit().negation()).le(step_at(fill, target)),
        step_at(fill, target).le(unity().sum(correction_limit())),
{
    let f = binary64::format();
    binary64::lemma_format();
    reveal(Binary64::sum);
    reveal(Binary64::le);
    reveal(Binary64::negation);
    let c = correction_limit();
    let m = c.negation();
    let one = unity();
    let z = if target > 0 {
        lemma_stages(fill, target);
        correction(fill, target)
    } else {
        crate::rounding::lemma_representable(f.h(), f.inf(), one.parts().pattern as nat, 1);
        Binary64 { bits: 0 }
    };
    binary::lemma_order(f, c.parts().pattern, 0);
    binary::lemma_sum_monotone(f, one.parts(), m.parts(), z.parts());
    binary::lemma_sum_monotone(f, one.parts(), z.parts(), c.parts());
}

/// The patterns of some powers of two, and of numbers next to one.
#[verifier::spinoff_prover]
proof fn lemma_marks()
    ensures
        ({
            let h = binary64::format().h();
            let one = pow2(1074);
            &&& mag(h, 0x3ff0_0000_0080_0000) == one + pow2(1045)
            &&& mag(h, 0x3fef_ffff_ff00_0000) + pow2(1045) == one
            &&& mag(h, 0x3e20_0000_0000_0000) == pow2(1045)
            &&& mag(h, 0x3d90_0000_0000_0000) == pow2(1036)
            &&& mag(h, 0x3f60_0000_0000_0000) == pow2(1065)
            &&& mag(h, 0x3ff0_0000_0000_4000) == one + pow2(1036)
            &&& mag(h, 0x3fef_ffff_ffff_8000) + pow2(1036) == one
            &&& one == 0x2000_0000 * pow2(1045)
            &&& pow2(1045) * pow2(1065) == pow2(1036) * one
            &&& pow2(1036) > 0
            &&& pow2(1036) <= pow2(1065)
        }),
{
    let h = 0x10_0000_0000_0000nat;
    vstd::arithmetic::power2::lemma2_to64();
    vstd::arithmetic::power2::lemma2_to64_rest();
    vstd::arithmetic::power2::lemma_pow2_pos(1036);
    vstd::arithmetic::power2::lemma_pow2_adds(52, 1022);
    vstd::arithmetic::power2::lemma_pow2_adds(53, 1021);
    vstd::arithmetic::power2::lemma_pow2_adds(23, 1022);
    vstd::arithmetic::power2::lemma_pow2_adds(24, 1021);
    vstd::arithmetic::power2::lemma_pow2_adds(14, 1022);
    vstd::arithmetic::power2::lemma_pow2_adds(15, 1021);
    vstd::arithmetic::power2::lemma_pow2_adds(52, 993);
    vstd::arithmetic::power2::lemma_pow2_adds(52, 984);
    vstd::arithmetic::power2::lemma_pow2_adds(52, 1013);
    vstd::arithmetic::power2::lemma_pow2_adds(29, 1045);
    vstd::arithmetic::power2::lemma_pow2_adds(29, 1036);
    vstd::arithmetic::power2::lemma_pow2_adds(1045, 1065);
    vstd::arithmetic::power2::lemma_pow2_adds(1036, 1074);
    crate::rounding::lemma_mag_parts(h, 1022, h + 0x80_0000);
    crate::rounding::lemma_mag_parts(h, 1021, (2 * h - 0x100_0000) as nat);
    crate::rounding::lemma_mag_parts(h, 993, h);
    crate::rounding::lemma_mag_parts(h, 984, h);
    crate::rounding::lemma_mag_parts(h, 1013, h);
    crate::rounding::lemma_mag_parts(h, 1022, h + 0x4000);
    crate::rounding::lemma_mag_parts(h, 1021, (2 * h - 0x8000) as nat);
    let p = pow2(1022);
    let q = pow2(1021);
    assert((h + 0x80_0000) * p == h * p + 0x80_0000 * p) by (nonlinear_arith);
    assert((h + 0x4000) * p == h * p + 0x4000 * p) by (nonlinear_arith);
    assert((2 * h - 0x100_0000) * q + 0x100_0000 * q == (2 * h) * q) by (nonlinear_arith);
    assert((2 * h - 0x8000) * q + 0x8000 * q == (2 * h) * q) by (nonlinear_arith);
}

/// The stages of a correction are finite numbers, and the correction stays
/// within its limit.
#[verifier::spinoff_prover]
#[verifier::rlimit(50)]
proof fn lemma_stages(fill: nat, target: nat)
    requires
        fill <= u64::MAX,
        0 < target <= u64::MAX,
    ensures
        ({
            let f = binary64::format();
            let q = Binary64::whole(fill).quotient(Binary64::whole(target));
            let c = correction_limit();
            let raw = misfit(fill, target).product(c);
            let z = correction(fill, target);
            &&& q.finite() && !q.parts().negative
            &&& q.parts().pattern == crate::rounding::nearest(
                f.h(),
                f.inf(),
                Binary64::whole(fill).parts().magnitude(f) * pow2(1074),
                Binary64::whole(target).parts().magnitude(f),
            )
            &&& Binary64::whole(target).parts().magnitude(f) > 0
            &&& misfit(fill, target).finite()
            &&& misfit(fill, target).parts() == binary::sum(
                f,
                q.parts(),
                binary::Parts { negative: true, pattern: unity().parts().pattern },
            )
            &&& raw.parts() == binary::product(f, misfit(fill, target).parts(), c.parts())
            &&& !raw.nan()
            &&& z.finite()
            &&& z.units() == (if raw.units() < -c.units() {
                -c.units()
            } else if c.units() < raw.units() {
                c.units()
            } else {
                raw.units()
            })
            &&& step_at(fill, target).parts() == binary::sum(f, unity().parts(), z.parts())
            &&& !step_at(fill, target).nan()
        }),
{
    let f = binary64::format();
    binary64::lemma_format();
    binary64::lemma_one();
    reveal(Binary64::sum);
    reveal(Binary64::product);
    reveal(Binary64::quotient);
    reveal(Binary64::lt);
    reveal(Binary64::negation);
    let c = correction_limit();
    let m = c.negation();
    let one = unity();
    let below = one.negation();
    let unit = pow2(1074);
    vstd::arithmetic::power2::lemma_pow2_pos(1074);
    assert(m.parts() == binary::Parts { negative: true, pattern: c.parts().pattern });
    assert(below.parts() == binary::Parts { negative: true, pattern: one.parts().pattern });
    binary64::lemma_count(fill);
    binary64::lemma_count(target);
    let a = Binary64::whole(fill);
    let b = Binary64::whole(target);
    let x = a.parts().magnitude(f);
    let y = b.parts().magnitude(f);
    binary::lemma_order(f, b.parts().pattern, one.parts().pattern);
    binary::lemma_order(f, c.parts().pattern, c.parts().pattern);
    let q = a.quotient(b);
    binary::lemma_numbers(f, a.parts(), b.parts());
    binary::lemma_rounded(f, false, x * unit, y);
    // No count is below one, so that dividing by it makes nothing larger.
    lemma_at_least_one(target);
    assert(x * unit <= x * y) by (nonlinear_arith)
        requires
            unit <= y,
            x >= 0,
    ;
    crate::rounding::lemma_nearest_bound(f.h(), f.inf(), x * unit, y, a.parts().pattern as nat);
    assert(q.finite());
    let error = misfit(fill, target);
    binary::lemma_numbers(f, q.parts(), below.parts());
    // The misfit lies between minus one and the quotient.
    let zero = binary::zero(false);
    binary::lemma_order(f, q.parts().pattern, 0);
    binary::lemma_order(f, one.parts().pattern, 0);
    binary::lemma_sum_monotone(f, q.parts(), below.parts(), zero);
    binary::lemma_sum_monotone(f, below.parts(), zero, q.parts());
    binary::lemma_sum_symmetric(f, below.parts(), q.parts());
    crate::rounding::lemma_representable(f.h(), f.inf(), q.parts().pattern as nat, 1);
    crate::rounding::lemma_representable(f.h(), f.inf(), one.parts().pattern as nat, 1);
    assert(error.parts() == binary::sum(f, q.parts(), below.parts()));
    assert(binary::sum(f, q.parts(), zero).units(f) == q.units());
    assert(binary::sum(f, below.parts(), zero).units(f) == below.units());
    assert(below.units() <= error.units() <= q.units());
    binary::lemma_order(f, error.parts().pattern, q.parts().pattern);
    binary::lemma_order(f, q.parts().pattern, error.parts().pattern);
    binary::lemma_order(f, error.parts().pattern, one.parts().pattern);
    binary::lemma_order(f, one.parts().pattern, error.parts().pattern);
    assert(error.finite());
    binary::lemma_numbers(f, error.parts(), c.parts());
    let raw = error.product(c);
    let z = raw.clamped(m, c);
    binary::lemma_order(f, z.parts().pattern, c.parts().pattern);
    binary::lemma_order(f, c.parts().pattern, z.parts().pattern);
    assert(z.finite());
    binary::lemma_numbers(f, one.parts(), z.parts());
}

/// What counts something is at least one.
proof fn lemma_at_least_one(n: nat)
    requires
        0 < n <= u64::MAX,
    ensures
        Binary64::whole(n).parts().magnitude(binary64::format()) >= pow2(1074),
{
    let f = binary64::format();
    binary64::lemma_format();
    binary64::lemma_one();
    binary64::lemma_count(n);
    reveal(Binary64::whole);
    let unit = pow2(1074);
    let one = unity().parts().pattern;
    binary::lemma_rounded(f, false, n * unit, 1);
    assert(unit <= n * unit) by (nonlinear_arith)
        requires
            n >= 1,
            unit >= 0,
    ;
    crate::rounding::lemma_nearest_bound(f.h(), f.inf(), n * unit, 1, one as nat);
    binary::lemma_order(f, one, Binary64::whole(n).parts().pattern);
    binary::lemma_order(f, Binary64::whole(n).parts().pattern, one);
}

/// A fuller buffer is no smaller a multiple of its target.
#[verifier::spinoff_prover]
#[verifier::rlimit(50)]
proof fn lemma_quotient_grows(fill: nat, more: nat, target: nat)
    requires
        fill <= more <= u64::MAX,
        0 < target <= u64::MAX,
    ensures
        Binary64::whole(fill).quotient(Binary64::whole(target)).units() <= Binary64::whole(
            more,
        ).quotient(Binary64::whole(target)).units(),
{
    let f = binary64::format();
    binary64::lemma_format();
    lemma_stages(fill, target);
    lemma_stages(more, target);
    binary64::lemma_count(fill);
    binary64::lemma_count(more);
    let unit = pow2(1074);
    vstd::arithmetic::power2::lemma_pow2_pos(1074);
    let a = Binary64::whole(fill).parts();
    let b = Binary64::whole(more).parts();
    let y = Binary64::whole(target).parts().magnitude(f);
    assert(a.pattern <= b.pattern) by {
        reveal(Binary64::whole);
        binary::lemma_rounded(f, false, fill * unit, 1);
        binary::lemma_rounded(f, false, more * unit, 1);
        assert(fill * unit <= more * unit) by (nonlinear_arith)
            requires
                fill <= more,
                unit > 0,
        ;
        crate::rounding::lemma_nearest_monotone(f.h(), f.inf(), fill * unit, more * unit, 1);
    }
    binary::lemma_order(f, a.pattern, b.pattern);
    let x = a.magnitude(f);
    let w = b.magnitude(f);
    assert(x * unit <= w * unit) by (nonlinear_arith)
        requires
            x <= w,
            unit > 0,
    ;
    crate::rounding::lemma_nearest_monotone(f.h(), f.inf(), x * unit, w * unit, y);
    let p = Binary64::whole(fill).quotient(Binary64::whole(target)).parts();
    let q = Binary64::whole(more).quotient(Binary64::whole(target)).parts();
    binary::lemma_order(f, p.pattern, q.pattern);
}

/// The correction never falls as the buffer fills up.
#[verifier::spinoff_prover]
#[verifier::rlimit(50)]
proof fn lemma_correction_grows(fill: nat, more: nat, target: nat)
    requires
        fill <= more <= u64::MAX,
        0 < target <= u64::MAX,
    ensures
        correction(fill, target).units() <= correction(more, target).units(),
{
    let f = binary64::format();
    binary64::lemma_format();
    lemma_stages(fill, target);
    lemma_stages(more, target);
    lemma_quotient_grows(fill, more, target);
    let c = correction_limit();
    let below = binary::Parts { negative: true, pattern: unity().parts().pattern };
    let p = Binary64::whole(fill).quotient(Binary64::whole(target)).parts();
    let q = Binary64::whole(more).quotient(Binary64::whole(target)).parts();
    binary::lemma_sum_monotone(f, below, p, q);
    binary::lemma_sum_symmetric(f, below, p);
    binary::lemma_sum_symmetric(f, below, q);
    binary::lemma_product_monotone(
        f,
        misfit(fill, target).parts(),
        misfit(more, target).parts(),
        c.parts(),
    );
}

/// The read rate never falls as the buffer fills up.
pub proof fn law_rate_grows_with_the_fill(fill: nat, more: nat, target: nat)
    requires
        fill <= more <= u64::MAX,
        target <= u64::MAX,
    ensures
        step_at(fill, target).le(step_at(more, target)),
{
    reveal(Binary64::le);
    if target > 0 {
        binary64::lemma_format();
        lemma_stages(fill, target);
        lemma_stages(more, target);
        lemma_correction_grows(fill, more, target);
        binary::lemma_sum_monotone(
            binary64::format(),
            unity().parts(),
            correction(fill, target).parts(),
            correction(more, target).parts(),
        );
    } else {
        assert(!unity().nan());
    }
}

/// One sample above the target makes the buffer drain faster.
#[verifier::spinoff_prover]
#[verifier::rlimit(50)]
proof fn lemma_one_above(target: nat)
    requires
        0 < target <= 0x2000_0000,
    ensures
        unity().lt(step_at(target + 1, target)),
{
    reveal(Binary64::lt);
    let f = binary64::format();
    let h = f.h();
    binary64::lemma_format();
    binary64::lemma_one();
    lemma_marks();
    lemma_stages(target + 1, target);
    binary64::lemma_whole(target + 1);
    binary64::lemma_whole(target);
    let unit = pow2(1074);
    let bit = pow2(1045);
    let c = correction_limit();
    let one = unity();
    let x = Binary64::whole(target + 1).parts().magnitude(f);
    let y = Binary64::whole(target).parts().magnitude(f);
    assert(x * unit >= (unit + bit) * y) by (nonlinear_arith)
        requires
            x == (target + 1) * unit,
            y == target * unit,
            unit == 0x2000_0000 * bit,
            target <= 0x2000_0000,
            bit >= 0,
            unit >= 0,
    ;
    crate::rounding::lemma_nearest_bound(h, f.inf(), x * unit, y, 0x3ff0_0000_0080_0000);
    let q = Binary64::whole(target + 1).quotient(Binary64::whole(target)).parts();
    binary::lemma_order(f, q.pattern, 0x3ff0_0000_0080_0000);
    binary::lemma_order(f, 0x3ff0_0000_0080_0000, q.pattern);
    assert(q.units(f) >= unit + bit);
    let below = binary::Parts { negative: true, pattern: one.parts().pattern };
    binary::lemma_sum_bound(f, q, below, 0x3e20_0000_0000_0000);
    let e = misfit(target + 1, target).parts();
    assert(e.units(f) >= bit);
    lemma_limit();
    assert(e.magnitude(f) * c.parts().magnitude(f) >= pow2(1036) * unit) by (nonlinear_arith)
        requires
            e.magnitude(f) >= bit,
            c.parts().magnitude(f) >= pow2(1065),
            bit * pow2(1065) == pow2(1036) * unit,
            bit >= 0,
            pow2(1065) >= 0,
    ;
    binary::lemma_product_bound(f, e, c.parts(), 0x3d90_0000_0000_0000);
    let z = correction(target + 1, target);
    assert(z.units() >= pow2(1036));
    binary::lemma_sum_bound(f, one.parts(), z.parts(), 0x3ff0_0000_0000_4000);
}

/// One sample below the target makes the buffer drain slower.
#[verifier::spinoff_prover]
#[verifier::rlimit(50)]
proof fn lemma_one_below(target: nat)
    requires
        0 < target <= 0x2000_0000,
    ensures
        step_at((target - 1) as nat, target).lt(unity()),
{
    reveal(Binary64::lt);
    let f = binary64::format();
    let h = f.h();
    let fill = (target - 1) as nat;
    binary64::lemma_format();
    binary64::lemma_one();
    lemma_marks();
    lemma_stages(fill, target);
    binary64::lemma_whole(fill);
    binary64::lemma_whole(target);
    let unit = pow2(1074);
    let bit = pow2(1045);
    let c = correction_limit();
    let one = unity();
    let x = Binary64::whole(fill).parts().magnitude(f);
    let y = Binary64::whole(target).parts().magnitude(f);
    let mark = mag(h, 0x3fef_ffff_ff00_0000);
    assert(x * unit <= mark * y) by (nonlinear_arith)
        requires
            x == (target - 1) * unit,
            y == target * unit,
            mark + bit == unit,
            unit == 0x2000_0000 * bit,
            target <= 0x2000_0000,
            bit >= 0,
            unit >= 0,
    ;
    crate::rounding::lemma_nearest_bound(h, f.inf(), x * unit, y, 0x3fef_ffff_ff00_0000);
    let q = Binary64::whole(fill).quotient(Binary64::whole(target)).parts();
    binary::lemma_order(f, q.pattern, 0x3fef_ffff_ff00_0000);
    binary::lemma_order(f, 0x3fef_ffff_ff00_0000, q.pattern);
    assert(q.units(f) <= mark);
    let below = binary::Parts { negative: true, pattern: one.parts().pattern };
    binary::lemma_sum_bound(f, q, below, 0x3e20_0000_0000_0000);
    let e = misfit(fill, target).parts();
    assert(e.units(f) <= -bit);
    lemma_limit();
    assert(e.negative) by {
        vstd::arithmetic::power2::lemma_pow2_pos(1045);
    }
    assert(e.magnitude(f) * c.parts().magnitude(f) >= pow2(1036) * unit) by (nonlinear_arith)
        requires
            e.magnitude(f) >= bit,
            c.parts().magnitude(f) >= pow2(1065),
            bit * pow2(1065) == pow2(1036) * unit,
            bit >= 0,
            pow2(1065) >= 0,
    ;
    binary::lemma_product_bound(f, e, c.parts(), 0x3d90_0000_0000_0000);
    let z = correction(fill, target);
    assert(z.units() <= -pow2(1036));
    assert(c.units() <= unit);
    binary::lemma_sum_bound(f, one.parts(), z.parts(), 0x3fef_ffff_ffff_8000);
}

/// The correction limit lies between two powers of two.
proof fn lemma_limit()
    ensures
        correction_limit().finite(),
        !correction_limit().parts().negative,
        pow2(1065) <= correction_limit().units() <= pow2(1074),
{
    let f = binary64::format();
    binary64::lemma_format();
    binary64::lemma_one();
    lemma_marks();
    let k = correction_limit().parts().pattern;
    binary::lemma_order(f, k, 0x3f60_0000_0000_0000);
    binary::lemma_order(f, 0x3f60_0000_0000_0000, k);
    binary::lemma_order(f, k, 0x3ff0_0000_0000_0000);
    binary::lemma_order(f, 0x3ff0_0000_0000_0000, k);
}

/// The fill level steers the rate of every output device: at its target the
/// buffer is read at exactly one sample per sample, fuller it drains faster,
/// and emptier it drains slower.
pub proof fn law_fill_steers_the_rate(sample_rate: u32, fill: nat)
    requires
        fill <= u64::MAX,
        millis_to_samples(sample_rate, OUTPUT_TARGET_BUFFER_MS) > 0,
    ensures
        ({
            let target = millis_to_samples(sample_rate, OUTPUT_TARGET_BUFFER_MS) as nat;
            let step = step_at(fill, target);
            &&& fill == target ==> step == unity()
            &&& fill > target ==> unity().lt(step)
            &&& fill < target ==> step.lt(unity())
        }),
{
    let target = millis_to_samples(sample_rate, OUTPUT_TARGET_BUFFER_MS) as nat;
    assert(target <= 0x2000_0000);
    reveal(Binary64::lt);
    reveal(Binary64::le);
    if fill > target {
        lemma_one_above(target);
        law_rate_grows_with_the_fill(target + 1, fill, target);
    } else if fill < target {
        lemma_one_below(target);
        law_rate_grows_with_the_fill(fill, (target - 1) as nat, target);
    } else {
        lemma_at_target(target);
    }
}

#[verifier::spinoff_prover]
#[verifier::rlimit(50)]
proof fn lemma_at_target(target: nat)
    requires
        0 < target <= u64::MAX,
    ensures
        step_at(target, target) == unity(),
{
    let f = binary64::format();
    binary64::lemma_format();
    binary64::lemma_one();
    lemma_stages(target, target);
    reveal(Binary64::sum);
    reveal(Binary64::quotient);
    let one = unity();
    let unit = pow2(1074);
    let y = Binary64::whole(target).parts().magnitude(f);
    assert(y * unit == unit * y) by (nonlinear_arith);
    crate::rounding::lemma_representable(f.h(), f.inf(), one.parts().pattern as nat, y);
    let e = misfit(target, target);
    assert(e.units() == 0);
    binary::lemma_order(f, e.parts().pattern, 0);
    vstd::arithmetic::power2::lemma_pow2_pos(1074);
    assert(e.parts().magnitude(f) * correction_limit().parts().magnitude(f) == 0)
        by (nonlinear_arith)
        requires
            e.parts().magnitude(f) == 0,
    ;
    binary::lemma_zero(f, unit);
    lemma_limit();
    binary::lemma_order(f, 0, 0);
    assert(correction(target, target).units() == 0);
    crate::rounding::lemma_representable(f.h(), f.inf(), one.parts().pattern as nat, 1);
}

/// Before enough is buffered nothing but silence is emitted, and what is
/// buffered is kept: neither the startup nor a recovery plays a fragment.
pub proof fn law_nothing_before_the_prebuffer(b: PlaybackBuffer, n: nat)
    requires
        !b.started,
        b.samples@.len() < b.start_fill,
    ensures
        b.waits(n),
{
}

/// The gain of the first sample after a start is zero: playback fades in.
pub proof fn law_playback_fades_in(total: nat)
    requires
        0 < total <= u64::MAX,
    ensures
        fade_gain(total, total).units() == 0,
        !fade_gain(total, total).nan(),
{
    crate::binary32::lemma_format();
    crate::binary32::lemma_one();
    binary::lemma_order(crate::binary32::format(), 0, 0);
    crate::binary32::lemma_count(total);
    crate::binary32::lemma_self_quotient(Binary32::whole(total));
    crate::binary32::lemma_one_less_one();
}

/// Where the buffer runs dry, playback fades to silence: the last sample of
/// the fade and everything behind it is zero.
pub proof fn law_running_dry_ends_in_silence(last: Binary32, fade: nat, n: nat, i: int)
    requires
        last.finite(),
        0 < fade <= n,
        fade <= u64::MAX,
        fade - 1 <= i < n,
    ensures
        tail(last, fade, n)[i].parts().pattern == 0,
{
    if i == fade - 1 {
        let w = Binary32::whole(fade);
        crate::binary32::lemma_count(fade);
        crate::binary32::lemma_self_quotient(w);
        crate::binary32::lemma_one_less_one();
        let gain = vectors::one().difference(w.quotient(w));
        crate::binary32::lemma_times_zero(gain, last);
    }
}

/// What of a number lies beyond a whole one is a number too.
proof fn lemma_beyond_whole(k: nat) -> (r: nat)
    requires
        k < binary64::format().top,
    ensures
        r < binary64::format().top,
        mag(binary64::format().h(), r) == mag(binary64::format().h(), k) % pow2(1074),
{
    let h = binary64::format().h();
    binary64::lemma_format();
    crate::rounding::lemma_parts(h, k);
    let t = crate::rounding::place(h, k);
    let sig = (k - t * h) as nat;
    let u = mag(h, k);
    let one = pow2(1074);
    vstd::arithmetic::power2::lemma_pow2_pos(1074);
    vstd::arithmetic::power2::lemma_pow2_pos(t);
    binary::lemma_order(binary64::format(), 0, 0);
    if t >= 1074 {
        let e = (t - 1074) as nat;
        vstd::arithmetic::power2::lemma_pow2_adds(e, 1074);
        let q = sig * pow2(e);
        assert(u == q * one + 0) by (nonlinear_arith)
            requires
                u == sig * pow2(t),
                pow2(t) == pow2(e) * one,
                q == sig * pow2(e),
        ;
        vstd::arithmetic::div_mod::lemma_fundamental_div_mod_converse(
            u as int,
            one as int,
            q as int,
            0,
        );
        0
    } else {
        let e = (1074 - t) as nat;
        let p = pow2(e);
        vstd::arithmetic::power2::lemma_pow2_adds(e, t);
        vstd::arithmetic::power2::lemma_pow2_pos(e);
        vstd::arithmetic::div_mod::lemma_fundamental_div_mod(sig as int, p as int);
        let q = sig / p;
        let m = sig % p;
        vstd::arithmetic::div_mod::lemma_mod_bound(sig as int, p as int);
        let rest = m * pow2(t);
        assert(m <= sig) by {
            vstd::arithmetic::div_mod::lemma_mod_decreases(sig, p);
        }
        assert(u == q * one + rest && 0 <= rest < one) by (nonlinear_arith)
            requires
                u == sig * pow2(t),
                one == p * pow2(t),
                sig == p * q + m,
                0 <= m < p,
                pow2(t) > 0,
                rest == m * pow2(t),
        ;
        vstd::arithmetic::div_mod::lemma_fundamental_div_mod_converse(
            u as int,
            one as int,
            q as int,
            rest as int,
        );
        if m == 0 {
            assert(rest == 0) by (nonlinear_arith)
                requires
                    m == 0,
                    rest == m * pow2(t),
            ;
            0
        } else {
            let r = crate::rounding::lemma_scaled(h, m, t);
            assert((t + 2) * h <= 1076 * h) by (nonlinear_arith)
                requires
                    t <= 1074,
                    h >= 0,
            ;
            r
        }
    }
}

/// A position splits into the sample before it and an exact remainder.
proof fn lemma_position_splits(p: Binary64)
    requires
        p.finite(),
        !p.parts().negative,
        p.units() < 0xffff_ffff * pow2(1074),
    ensures
        index_at(p) == p.units() / (pow2(1074) as int),
        ({
            let rest = p.difference(Binary64::whole(index_at(p)));
            &&& rest.finite()
            &&& !rest.parts().negative
            &&& rest.units() == p.units() % (pow2(1074) as int)
        }),
{
    let f = binary64::format();
    binary64::lemma_format();
    let one = pow2(1074);
    vstd::arithmetic::power2::lemma_pow2_pos(1074);
    let u = p.parts().magnitude(f);
    assert(p.units() == u);
    vstd::arithmetic::div_mod::lemma_fundamental_div_mod(u as int, one as int);
    vstd::arithmetic::div_mod::lemma_mod_bound(u as int, one as int);
    let i = u / one;
    assert(i < 0xffff_ffff) by (nonlinear_arith)
        requires
            u < 0xffff_ffff * one,
            u == one * i + u % one,
            0 <= u % one,
            one > 0,
    ;
    assert(index_at(p) == i) by {
        if u == 0 {
            vstd::arithmetic::div_mod::lemma_div_basics(one as int);
        }
    }
    let w = Binary64::whole(i);
    binary64::lemma_whole(i);
    let k = lemma_beyond_whole(p.parts().pattern as nat);
    let rest = p.difference(w);
    let a = p.parts();
    let b = w.negation().parts();
    assert(b == binary::Parts { negative: true, pattern: w.parts().pattern }) by {
        reveal(Binary64::negation);
    }
    assert(b.units(f) == -(i * one));
    assert(i * one == one * i) by (nonlinear_arith);
    assert(a.units(f) + b.units(f) == u % one);
    let s = binary::sum(f, a, b);
    crate::rounding::lemma_representable(f.h(), f.inf(), k, 1);
    binary::lemma_order(f, 0, 0);
    binary::lemma_order(f, k as u64, 0);
    assert(s.pattern == k && !s.negative);
    assert(rest.parts() == s) by {
        reveal(Binary64::sum);
        assert(Binary64::of(s).parts() == s);
    }
}

/// The next block goes on where the last one ended: reading the samples that
/// are left at what is left of the position gives what the position would have
/// given before they were cut.
pub proof fn law_reading_continues_across_blocks(samples: Seq<Binary32>, p: Binary64)
    requires
        p.finite(),
        !p.parts().negative,
        p.units() < 0xffff_ffff * pow2(1074),
        index_at(p) + 1 < samples.len(),
    ensures
        ({
            let i = index_at(p);
            let rest = p.difference(Binary64::whole(i));
            &&& index_at(rest) == 0
            &&& interpolated(samples.skip(i as int), rest) == interpolated(samples, p)
        }),
{
    let f = binary64::format();
    binary64::lemma_format();
    let one = pow2(1074);
    vstd::arithmetic::power2::lemma_pow2_pos(1074);
    let i = index_at(p);
    lemma_position_splits(p);
    let rest = p.difference(Binary64::whole(i));
    let r = rest.units();
    vstd::arithmetic::div_mod::lemma_mod_bound(p.units(), one as int);
    assert(r < 0xffff_ffff * one) by (nonlinear_arith)
        requires
            r < one,
            one > 0,
    ;
    lemma_position_splits(rest);
    vstd::arithmetic::div_mod::lemma_basic_div(r, one as int);
    vstd::arithmetic::div_mod::lemma_small_mod(r as nat, one);
    let again = rest.difference(Binary64::whole(0));
    assert(again.units() == r);
    assert(again == rest) by {
        let a = again.parts().pattern;
        let b = rest.parts().pattern;
        binary::lemma_order(f, a, b);
        binary::lemma_order(f, b, a);
        assert(Binary64::of(again.parts()) == again);
        assert(Binary64::of(rest.parts()) == rest);
    }
}

/// A position on a sample reads that sample. Between two samples the second
/// comes in by as much as the position is beyond the first: where the first is
/// silent, what is read is that share of the second.
pub proof fn law_reading_moves_from_sample_to_sample(samples: Seq<Binary32>, p: Binary64)
    requires
        p.finite(),
        !p.parts().negative,
        p.units() < 0xffff_ffff * pow2(1074),
        p.units() / (pow2(1074) as int) + 1 < samples.len(),
        samples[p.units() / (pow2(1074) as int)].finite(),
        samples[p.units() / (pow2(1074) as int) + 1].finite(),
        samples[p.units() / (pow2(1074) as int) + 1].difference(
            samples[p.units() / (pow2(1074) as int)],
        ).finite(),
    ensures
        ({
            let one = pow2(1074) as int;
            let left = samples[p.units() / one];
            let right = samples[p.units() / one + 1];
            let read = interpolated(samples, p);
            &&& p.units() % one == 0 ==> read.units() == left.units()
            &&& left.units() == 0 ==> exists|share: Binary64|
                share.units() == p.units() % one && #[trigger] right.product(
                    share.narrowed(),
                ).units() == read.units()
        }),
{
    let one = pow2(1074) as int;
    vstd::arithmetic::power2::lemma_pow2_pos(1074);
    lemma_position_splits(p);
    let i = index_at(p) as int;
    let share = p.difference(Binary64::whole(index_at(p)));
    let left = samples[i];
    let right = samples[i + 1];
    let f = binary64::format();
    let g = crate::binary32::format();
    binary64::lemma_format();
    crate::binary32::lemma_format();
    let n = share.narrowed();
    let step = right.difference(left);
    if p.units() % one == 0 {
        binary::lemma_order(f, share.parts().pattern, 0);
        assert(share.parts().pattern == 0);
        assert(n.parts().pattern == 0) by {
            reveal(Binary64::narrowed);
            vstd::arithmetic::power2::lemma_pow2_pos(925);
            binary::lemma_zero(g, pow2(925));
            assert(0 * 1 == 0);
            let z = binary::converted(f, g, share.parts());
            assert(z.pattern == 0);
            assert(Binary32::of(z).parts() == z);
        }
        crate::binary32::lemma_times_zero(n, step);
        crate::binary32::lemma_plus_zero(step.product(n), left);
    }
    if left.units() == 0 {
        binary::lemma_order(g, left.parts().pattern, 0);
        assert(left.parts().pattern == 0);
        assert(left.negation().parts().pattern == 0) by {
            reveal(Binary32::negation);
        }
        crate::binary32::lemma_plus_zero(left.negation(), right);
        let x = step.product(n);
        lemma_equal_factors(step, right, n);
        if x.finite() {
            crate::binary32::lemma_plus_zero(left, x);
        } else {
            assert(left.sum(x).units() == x.units()) by {
                reveal(Binary32::sum);
                reveal(Binary32::product);
                let y = binary::product(g, step.parts(), n.parts());
                vstd::arithmetic::power2::lemma_pow2_pos(149);
                binary::lemma_rounded(
                    g,
                    step.parts().negative != n.parts().negative,
                    step.parts().magnitude(g) * n.parts().magnitude(g),
                    pow2(149),
                );
                assert(x.parts() == y);
                let z = binary::sum(g, left.parts(), x.parts());
                assert(Binary32::of(z).parts() == z);
            }
        }
        assert(left.sum(x) == interpolated(samples, p));
        assert(left.sum(x).units() == x.units());
        assert(x.units() == right.product(n).units());
        assert(share.units() == p.units() % one && right.product(share.narrowed()).units()
            == interpolated(samples, p).units());
    }
}

/// Numbers of the same size have products of the same size.
proof fn lemma_equal_factors(a: Binary32, b: Binary32, n: Binary32)
    requires
        a.finite() && b.finite(),
        a.units() == b.units(),
    ensures
        a.product(n).units() == b.product(n).units(),
{
    let f = crate::binary32::format();
    crate::binary32::lemma_format();
    let p = a.parts().pattern;
    let q = b.parts().pattern;
    binary::lemma_order(f, p, q);
    binary::lemma_order(f, q, p);
    binary::lemma_order(f, p, 0);
    binary::lemma_order(f, q, 0);
    assert(p == q);
    if p == 0 {
        reveal(Binary32::product);
        vstd::arithmetic::power2::lemma_pow2_pos(149);
        binary::lemma_zero(f, pow2(149));
        binary::lemma_order(f, 0, 0);
        assert(0 * n.parts().magnitude(f) == 0);
    } else {
        crate::binary32::lemma_parts(a);
        crate::binary32::lemma_parts(b);
    }
}

/// A fade goes on across blocks: the gain of every sample of the next block is
/// the one that it would have had in one long block.
pub proof fn law_fades_continue_across_blocks(
    b: PlaybackBuffer,
    n: nat,
    next: PlaybackBuffer,
    k: nat,
)
    requires
        b.moves_on(n, next),
        n > 0 && !b.waits(n) && !b.runs_dry(n),
    ensures
        k < next.fading() <==> n + k < b.fading(),
        n + k < b.fading() ==> fade_gain((next.fading() - k) as nat, next.fade_total as nat)
            == fade_gain((b.fading() - (n + k)) as nat, b.fade_total as nat),
{
}

/// Playback waits for the prebuffer and for twice what is asked for, whichever
/// is more, as far as a buffer can hold it, and never longer; once it has
/// started it does not wait.
pub proof fn law_prebuffer_covers_two_requests(b: PlaybackBuffer, n: nat)
    ensures
        b.waits(n) <==> !b.started && (b.samples@.len() < b.start_fill || b.samples@.len() < 2 * n
            && b.samples@.len() < usize::MAX),
        b.started ==> !b.waits(n),
{
}

/// Running dry loses nothing: the buffer keeps what it holds, starts over at its
/// front, and waits until it is full enough again.
pub proof fn law_running_dry_starts_over(b: PlaybackBuffer, n: nat, next: PlaybackBuffer, k: nat)
    requires
        b.moves_on(n, next),
        n > 0 && !b.waits(n) && b.runs_dry(n),
        2 * k <= usize::MAX,
    ensures
        next.samples@ == b.samples@,
        next.read_position.bits == 0,
        b.samples@.len() < b.start_fill || b.samples@.len() < 2 * k ==> next.waits(k),
        next.fading() == b.fade_total,
{
}

/// A number of milliseconds is so many samples, rounded down.
pub proof fn law_milliseconds_are_samples(sample_rate: u32, ms: u32)
    requires
        sample_rate * ms <= 0xffff_ffff,
    ensures
        1000 * millis_to_samples(sample_rate, ms) <= sample_rate * ms < 1000 * (millis_to_samples(
            sample_rate,
            ms,
        ) + 1),
{
    let n = sample_rate as int * ms as int;
    assert(0 <= n / 1000 <= 0xffff_ffff) by {
        assert(n >= 0) by (nonlinear_arith)
            requires
                n == sample_rate as int * ms as int,
        ;
    }
    assert(usize::MAX >= 0xffff_ffff);
}

/// After a start the signal comes in over the fade, by one step more with every
/// sample, and then is passed on as it is read.
pub proof fn law_signal_comes_in_over_the_fade(b: PlaybackBuffer, n: nat, k: nat)
    requires
        !b.waits(n) && !b.runs_dry(n),
        k < n,
    ensures
        ({
            let read = interpolated(b.samples@, position(b.read_position, b.step(), k));
            let out = b.output(n)[k as int];
            &&& b.output(n).len() == n
            &&& b.started && b.fade_remaining <= k ==> out == read
            &&& !b.started && b.fade_total <= k ==> out == read
            &&& !b.started && k < b.fade_total ==> out == read.product(
                vectors::one().difference(
                    Binary32::whole((b.fade_total - k) as nat).quotient(
                        Binary32::whole(b.fade_total as nat),
                    ),
                ),
            )
            &&& !b.started && k == 0 && b.fade_total > 0 && read.finite() ==> out.parts().pattern
                == 0
        }),
{
    let read = interpolated(b.samples@, position(b.read_position, b.step(), k));
    if !b.started && k == 0 && b.fade_total > 0 && read.finite() {
        let total = b.fade_total as nat;
        crate::binary32::lemma_count(total);
        crate::binary32::lemma_self_quotient(Binary32::whole(total));
        crate::binary32::lemma_one_less_one();
        crate::binary32::lemma_times_zero(fade_gain(total, total), read);
    }
}

/// While the buffer fills up there is silence. Where it runs dry, the fade ends
/// with the fade's length or with what was asked for, whichever is shorter, and
/// everything behind it is silence too.
pub proof fn law_gaps_are_silent(b: PlaybackBuffer, n: nat, i: int)
    requires
        0 <= i < n,
    ensures
        b.waits(n) ==> b.output(n)[i].bits == 0,
        !b.waits(n) && b.runs_dry(n) && b.last_output.finite() && b.fade_total > 0 && n
            <= u64::MAX && (i >= b.fade_total - 1 || i == n - 1) ==> b.output(
            n,
        )[i].parts().pattern == 0,
{
    if !b.waits(n) && b.runs_dry(n) && b.last_output.finite() && b.fade_total > 0 && n <= u64::MAX
        && (i >= b.fade_total - 1 || i == n - 1) {
        let fade = if b.fade_total <= n {
            b.fade_total as nat
        } else {
            n
        };
        law_running_dry_ends_in_silence(b.last_output, fade, n, i);
    }
}

/// Rendering goes on where it stopped: what the next sample would have been is
/// what the buffer reads first afterwards, and the last one emitted is the one
/// that a fade starts from.
pub proof fn law_rendering_goes_on_where_it_stopped(
    b: PlaybackBuffer,
    n: nat,
    next: PlaybackBuffer,
)
    requires
        b.moves_on(n, next),
        n > 0 && !b.waits(n) && !b.runs_dry(n),
        ({
            let end = position(b.read_position, b.step(), n);
            &&& end.finite() && !end.parts().negative
            &&& end.units() < 0xffff_ffff * pow2(1074)
            &&& end.units() / (pow2(1074) as int) + 1 < b.samples@.len()
        }),
    ensures
        ({
            let end = position(b.read_position, b.step(), n);
            &&& next.started
            &&& next.read_position.units() == end.units() % (pow2(1074) as int)
            &&& next.samples@.len() == b.samples@.len() - end.units() / (pow2(1074) as int)
            &&& interpolated(next.samples@, next.read_position) == interpolated(b.samples@, end)
            &&& next.last_output == b.output(n)[n - 1]
        }),
{
    let end = position(b.read_position, b.step(), n);
    lemma_position_splits(end);
    law_reading_continues_across_blocks(b.samples@, end);
    vstd::arithmetic::power2::lemma_pow2_pos(1074);
    vstd::arithmetic::div_mod::lemma_div_pos_is_pos(end.units(), pow2(1074) as int);
}

/// One sample can be read exactly where the one at the read position and the
/// next one are there.
pub proof fn law_one_sample_needs_two(b: PlaybackBuffer)
    requires
        b.read_position.finite(),
        !b.read_position.parts().negative,
        b.read_position.units() < 0xffff_ffff * pow2(1074),
        b.step().finite(),
    ensures
        b.runs_dry(1) <==> b.samples@.len() < b.read_position.units() / (pow2(1074) as int) + 2,
{
    let f = binary64::format();
    binary64::lemma_format();
    let p = b.read_position;
    let step = b.step();
    let w = Binary64::whole(0);
    binary64::lemma_whole(0);
    let u = pow2(1074);
    vstd::arithmetic::power2::lemma_pow2_pos(1074);
    assert(0 * u == 0);
    binary::lemma_order(f, w.parts().pattern, 0);
    assert(w.parts().pattern == 0);
    let z = step.product(w);
    assert(z.parts().pattern == 0) by {
        reveal(Binary64::product);
        binary::lemma_zero(f, u);
        assert(step.parts().magnitude(f) * 0 == 0);
        let y = binary::product(f, step.parts(), w.parts());
        assert(Binary64::of(y).parts() == y);
    }
    let last = p.sum(z);
    binary::lemma_order(f, 0, 0);
    assert(last.parts().pattern == p.parts().pattern && (p.parts().pattern > 0
        ==> !last.parts().negative)) by {
        reveal(Binary64::sum);
        crate::rounding::lemma_representable(f.h(), f.inf(), p.parts().pattern as nat, 1);
        binary::lemma_order(f, p.parts().pattern, 0);
        let y = binary::sum(f, p.parts(), z.parts());
        assert(z.parts().units(f) == 0);
        assert(Binary64::of(y).parts() == y);
    }
    assert(index_at(last) == index_at(p));
    lemma_position_splits(p);
    assert(last_position(p, step, 1) == last);
}

} // verus!
