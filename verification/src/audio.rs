//! Operations on blocks of samples.

use crate::binary;
use crate::binary32::Binary32;
use crate::vectors;
use vstd::prelude::*;

verus! {

/// Rate that the live pipeline works at internally.
pub const INTERNAL_SAMPLE_RATE: u32 = 48_000;

/// Length of the fade at either edge of a separated block: 5 ms.
pub const EDGE_FADE_SAMPLES: usize = 240;

/// Bits of `-1.0`.
pub const MINUS_ONE: u32 = 0xbf80_0000;

/// Root mean square of a block; zero for an empty one.
#[verifier::opaque]
pub open spec fn level(samples: Seq<Binary32>) -> Binary32 {
    if samples.len() == 0 {
        vectors::zero()
    } else {
        vectors::dot(samples, samples, samples.len()).quotient(
            Binary32::whole(samples.len()),
        ).root()
    }
}

/// `n` samples of silence.
pub open spec fn hush(n: nat) -> Seq<Binary32> {
    Seq::new(n, |i: int| vectors::zero())
}

/// A block cut or padded with silence to a length.
pub open spec fn fitted(samples: Seq<Binary32>, n: nat) -> Seq<Binary32> {
    Seq::new(
        n,
        |i: int|
            if i < samples.len() {
                samples[i]
            } else {
                vectors::zero()
            },
    )
}

/// Length of the two ramps of a block.
pub open spec fn ramp(n: nat) -> nat {
    if n / 2 < EDGE_FADE_SAMPLES {
        n / 2
    } else {
        EDGE_FADE_SAMPLES as nat
    }
}

/// Gain of sample `i` in a block of `n`.
pub open spec fn edge_gain(n: nat, i: nat) -> Binary32 {
    if i < ramp(n) {
        Binary32::whole(i).quotient(Binary32::whole(ramp(n)))
    } else if i > n - 1 - ramp(n) {
        Binary32::whole((n - 1 - i) as nat).quotient(Binary32::whole(ramp(n)))
    } else {
        vectors::one()
    }
}

/// A block that fades in and out and stays within full scale.
pub open spec fn faded(samples: Seq<Binary32>) -> Seq<Binary32> {
    Seq::new(
        samples.len(),
        |i: int|
            samples[i].product(edge_gain(samples.len(), i as nat)).clamped(
                Binary32 { bits: MINUS_ONE },
                vectors::one(),
            ),
    )
}

/// A mono block repeated on every channel of interleaved frames; what does not
/// fill a frame stays.
pub open spec fn spread(mono: Seq<Binary32>, channels: nat, data: Seq<Binary32>) -> Seq<Binary32> {
    Seq::new(
        data.len(),
        |i: int|
            if (i / channels as int) < mono.len() {
                mono[i / channels as int]
            } else {
                data[i]
            },
    )
}

/// Root mean square of an audio chunk.
pub fn rms(samples: &[Binary32]) -> (r: Binary32)
    ensures
        r == level(samples@),
{
    proof {
        reveal(level);
    }
    if samples.len() == 0 {
        return Binary32 { bits: 0 };
    }
    vectors::dot_product(samples, samples).over(
        Binary32::from_count(samples.len() as u64),
    ).square_root()
}

/// `n` samples of silence.
pub fn silent(n: usize) -> (r: Vec<Binary32>)
    ensures
        r@ == hush(n as nat),
{
    let mut r: Vec<Binary32> = Vec::with_capacity(n);
    let mut i: usize = 0;
    while i < n
        invariant
            i <= n,
            r@ == hush(i as nat),
        decreases n - i,
    {
        r.push(Binary32 { bits: 0 });
        i = i + 1;
        assert(hush(i as nat) =~= hush((i - 1) as nat).push(vectors::zero()));
    }
    r
}

/// Cuts a block to `expected` samples, or pads it with silence.
pub fn force_length(samples: &mut Vec<Binary32>, expected: usize)
    ensures
        final(samples)@ == fitted(old(samples)@, expected as nat),
{
    let ghost before = samples@;
    samples.truncate(expected);
    while samples.len() < expected
        invariant
            samples@.len() <= expected,
            samples@.len() < expected ==> samples@.len() >= before.len(),
            samples@ == fitted(before, samples@.len()),
        decreases expected - samples@.len(),
    {
        let ghost n = samples@.len();
        samples.push(Binary32 { bits: 0 });
        assert(samples@ =~= fitted(before, n + 1));
    }
}

/// Applies the block-edge fade and the output clamp in one pass.
pub fn fade_and_clamp(samples: &mut Vec<Binary32>)
    ensures
        final(samples)@ == faded(old(samples)@),
{
    let ghost before = samples@;
    let n: usize = samples.len();
    let fade: usize = if n / 2 < EDGE_FADE_SAMPLES {
        n / 2
    } else {
        EDGE_FADE_SAMPLES
    };
    let mut i: usize = 0;
    while i < n
        invariant
            i <= n,
            n == samples@.len(),
            n == before.len(),
            fade == ramp(n as nat),
            forall|k: int| 0 <= k < i ==> samples@[k] == faded(before)[k],
            forall|k: int| i <= k < n ==> samples@[k] == before[k],
        decreases n - i,
    {
        let gain: Binary32 = if i < fade {
            Binary32::from_count(i as u64).over(Binary32::from_count(fade as u64))
        } else if i > n - 1 - fade {
            Binary32::from_count((n - 1 - i) as u64).over(Binary32::from_count(fade as u64))
        } else {
            Binary32 { bits: vectors::ONE }
        };
        let sample: Binary32 = samples[i].times(gain).clamp(
            Binary32 { bits: MINUS_ONE },
            Binary32 { bits: vectors::ONE },
        );
        samples.set(i, sample);
        i = i + 1;
    }
    assert(samples@ =~= faded(before));
}

/// Writes a mono block onto every channel of interleaved frames.
pub fn broadcast_mono(mono: &[Binary32], channels: usize, data: &mut Vec<Binary32>)
    requires
        channels > 0,
        mono@.len() * channels <= old(data)@.len(),
    ensures
        final(data)@ == spread(mono@, channels as nat, old(data)@),
{
    let ghost before = data@;
    let n: usize = data.len();
    let mut i: usize = 0;
    while i < n
        invariant
            i <= n,
            n == data@.len(),
            n == before.len(),
            channels > 0,
            forall|k: int| 0 <= k < i ==> data@[k] == spread(mono@, channels as nat, before)[k],
            forall|k: int| i <= k < n ==> data@[k] == before[k],
        decreases n - i,
    {
        let frame: usize = i / channels;
        if frame < mono.len() {
            data.set(i, mono[frame]);
        }
        i = i + 1;
    }
    assert(data@ =~= spread(mono@, channels as nat, before));
}

/// What is clipped to full scale lies within it, unless it is not a number.
pub proof fn lemma_within_full_scale(x: Binary32)
    ensures
        ({
            let low = Binary32 { bits: MINUS_ONE };
            let y = x.clamped(low, vectors::one());
            y.nan() || low.le(y) && y.le(vectors::one())
        }),
{
    let low = Binary32 { bits: MINUS_ONE };
    let high = vectors::one();
    if !x.nan() {
        assert(low.le(high)) by {
            reveal(Binary32::le);
            crate::binary32::lemma_format();
            crate::binary32::lemma_one();
        }
        crate::binary32::lemma_total(x, low, high);
        crate::binary32::lemma_total(high, x, x);
        crate::binary32::lemma_total(low, high, high);
        crate::binary32::lemma_total(high, high, high);
    } else {
        reveal(Binary32::lt);
    }
}

/// No sample of a faded block leaves full scale.
pub proof fn law_faded_within_full_scale(samples: Seq<Binary32>, i: int)
    requires
        0 <= i < samples.len(),
    ensures
        faded(samples)[i].nan() || (Binary32 { bits: MINUS_ONE }).le(faded(samples)[i])
            && faded(samples)[i].le(vectors::one()),
{
    lemma_within_full_scale(samples[i].product(edge_gain(samples.len(), i as nat)));
}

/// A faded block starts and ends at zero.
pub proof fn law_fade_reaches_zero_at_both_ends(samples: Seq<Binary32>)
    requires
        samples.len() >= 2,
        samples[0].finite(),
        samples.last().finite(),
    ensures
        faded(samples)[0].units() == 0,
        faded(samples).last().units() == 0,
{
    let n = samples.len();
    let r = ramp(n);
    assert(0 < r);
    assert(Binary32::whole(0) == vectors::zero()) by {
        reveal(Binary32::whole);
        crate::binary32::lemma_format();
        let f = crate::binary32::format();
        binary::lemma_zero(f, 1);
        assert(0 * vstd::arithmetic::power2::pow2(149) == 0);
    }
    crate::binary32::lemma_count(r);
    lemma_vanishing(samples[0], r);
    lemma_vanishing(samples.last(), r);
    assert(edge_gain(n, 0) == vectors::zero().quotient(Binary32::whole(r)));
    assert(edge_gain(n, (n - 1) as nat) == vectors::zero().quotient(Binary32::whole(r)));
}

/// A finite sample at gain zero is zero.
proof fn lemma_vanishing(x: Binary32, r: nat)
    requires
        x.finite(),
        Binary32::whole(r).finite(),
        Binary32::whole(r).parts().pattern > 0,
        !Binary32::whole(r).parts().negative,
    ensures
        ({
            let y = x.product(vectors::zero().quotient(Binary32::whole(r))).clamped(
                Binary32 { bits: MINUS_ONE },
                vectors::one(),
            );
            y.units() == 0
        }),
{
    let f = crate::binary32::format();
    crate::binary32::lemma_format();
    crate::binary32::lemma_one();
    reveal(Binary32::product);
    reveal(Binary32::quotient);
    reveal(Binary32::lt);
    let w = Binary32::whole(r);
    let d = vstd::arithmetic::power2::pow2(149);
    vstd::arithmetic::power2::lemma_pow2_pos(149);
    binary::lemma_order(f, w.parts().pattern, 0);
    let b = w.parts().magnitude(f);
    binary::lemma_zero(f, b);
    assert(0 * d == 0);
    let g = vectors::zero().quotient(w);
    assert(g == vectors::zero());
    binary::lemma_zero(f, d);
    let a = x.parts().magnitude(f);
    assert(a * 0 == 0);
    let y = x.product(g);
    assert(y.parts().pattern == 0);
    assert(y.units() == 0);
    let low = Binary32 { bits: MINUS_ONE };
    assert(low.parts() == binary::Parts {
        negative: true,
        pattern: vectors::one().parts().pattern,
    });
}

/// A block that is made to fit starts with what was there and goes on with
/// silence; one that fits already is left alone.
pub proof fn law_fitting_keeps_the_beginning(samples: Seq<Binary32>, n: nat)
    ensures
        fitted(samples, n).len() == n,
        fitted(samples, samples.len()) == samples,
        n <= samples.len() ==> fitted(samples, n) == samples.take(n as int),
        n >= samples.len() ==> fitted(samples, n).take(samples.len() as int) == samples,
        forall|i: int| samples.len() <= i < n ==> (#[trigger] fitted(samples, n)[i]).bits == 0,
{
    assert(fitted(samples, samples.len()) =~= samples);
    if n <= samples.len() {
        assert(fitted(samples, n) =~= samples.take(n as int));
    }
    if n >= samples.len() {
        assert(fitted(samples, n).take(samples.len() as int) =~= samples);
    }
}

/// A block fades out as it fades in.
pub proof fn law_edges_are_symmetric(n: nat, i: nat)
    requires
        i < n,
    ensures
        edge_gain(n, i) == edge_gain(n, (n - 1 - i) as nat),
{
}

/// Away from its edges a block is passed on as it is: from 240 samples on,
/// every sample within full scale stays what it was.
pub proof fn law_fades_touch_only_the_edges(samples: Seq<Binary32>, i: int)
    requires
        240 <= i < samples.len() - 240,
        (Binary32 { bits: 0xbf80_0000 }).le(samples[i]),
        samples[i].le(Binary32 { bits: 0x3f80_0000 }),
    ensures
        faded(samples)[i] == samples[i],
        faded(samples).len() == samples.len(),
{
    let x = samples[i];
    let low = Binary32 { bits: 0xbf80_0000 };
    let high = Binary32 { bits: 0x3f80_0000 };
    assert(!x.nan() && !low.nan() && !high.nan()) by {
        reveal(Binary32::le);
    }
    crate::binary32::lemma_times_one(x);
    crate::binary32::lemma_total(x, low, high);
    crate::binary32::lemma_total(high, x, x);
}

/// Every channel of a frame gets that frame's sample, and what is beyond the
/// last whole frame is left alone.
pub proof fn law_every_channel_gets_the_sample(
    mono: Seq<Binary32>,
    channels: nat,
    data: Seq<Binary32>,
    frame: int,
    channel: int,
)
    requires
        0 <= channel < channels,
        0 <= frame,
        frame * channels + channel < data.len(),
    ensures
        spread(mono, channels, data).len() == data.len(),
        frame < mono.len() ==> spread(mono, channels, data)[frame * channels + channel]
            == mono[frame],
        frame >= mono.len() ==> spread(mono, channels, data)[frame * channels + channel]
            == data[frame * channels + channel],
{
    let i = frame * channels + channel;
    assert(i >= 0) by (nonlinear_arith)
        requires
            i == frame * channels + channel,
            frame >= 0,
            channel >= 0,
            channels >= 0,
    ;
    vstd::arithmetic::div_mod::lemma_fundamental_div_mod_converse(
        i,
        channels as int,
        frame,
        channel,
    );
}

} // verus!
