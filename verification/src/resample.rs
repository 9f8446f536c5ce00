//! Whole-block sample-rate conversion.

use crate::audio;
use crate::binary32::Binary32;
use crate::text;
use crate::vectors;
use vstd::prelude::*;

verus! {

/// Errors returned by [`resample_to`].
#[derive(Debug)]
pub enum ResampleError {
    /// The converter rejected the configuration or the input shape.
    Rubato(String),
}

impl ResampleError {
    /// What the user is told.
    pub open spec fn text(self) -> Seq<char> {
        match self {
            ResampleError::Rubato(e) => "rubato resampler error: "@ + e@,
        }
    }

    /// What the user is told.
    pub fn message(&self) -> (r: String)
        ensures
            r@ == self.text(),
    {
        match self {
            ResampleError::Rubato(e) => text::joined("rubato resampler error: ", e.as_str()),
        }
    }
}

/// `convert` may answer `reply` when it is asked to bring `audio` from one
/// rate to another.
pub open spec fn answered<F: Fn(&[Binary32], u32, u32) -> Result<Vec<Binary32>, String>>(
    convert: F,
    audio: Seq<Binary32>,
    from: u32,
    to: u32,
    reply: Result<Vec<Binary32>, String>,
) -> bool {
    exists|a: &[Binary32]| a@ == audio && #[trigger] convert.ensures((a, from, to), reply)
}

/// Samples clipped to full scale.
pub open spec fn limited(s: Seq<Binary32>) -> Seq<Binary32> {
    Seq::new(
        s.len(),
        |i: int| s[i].clamped(Binary32 { bits: audio::MINUS_ONE }, vectors::one()),
    )
}

/// `r` is what a converter's reply comes to: its samples within full scale, or
/// its error.
pub open spec fn converted(
    reply: Result<Vec<Binary32>, String>,
    r: Result<Vec<Binary32>, ResampleError>,
) -> bool {
    match reply {
        Ok(v) => r matches Ok(out) && out@ == limited(v@),
        Err(e) => r == Err::<Vec<Binary32>, ResampleError>(ResampleError::Rubato(e)),
    }
}

/// [`resample_to`] may return `r`: the input itself where the rates are equal,
/// nothing where there is nothing, and else what the converter's reply comes
/// to.
pub open spec fn resampled<F: Fn(&[Binary32], u32, u32) -> Result<Vec<Binary32>, String>>(
    convert: F,
    audio: Seq<Binary32>,
    from: u32,
    to: u32,
    r: Result<Vec<Binary32>, ResampleError>,
) -> bool {
    if from == to {
        r matches Ok(v) && v@ == audio
    } else if audio.len() == 0 {
        r matches Ok(v) && v@.len() == 0
    } else {
        exists|reply: Result<Vec<Binary32>, String>| #[trigger]
            answered(convert, audio, from, to, reply) && converted(reply, r)
    }
}

/// Converts `audio` from `src_sr` to `dst_sr` with the given converter, which
/// is asked only where there is something to convert: equal rates give the
/// input back, and nothing gives nothing. What was converted is clipped to
/// `[-1, 1]`.
pub fn resample_to<F>(audio: &[Binary32], src_sr: u32, dst_sr: u32, convert: &F) -> (r: Result<
    Vec<Binary32>,
    ResampleError,
>) where F: Fn(&[Binary32], u32, u32) -> Result<Vec<Binary32>, String>
    requires
        src_sr != dst_sr && audio@.len() > 0 ==> convert.requires((audio, src_sr, dst_sr)),
    ensures
        src_sr == dst_sr ==> (r matches Ok(v) && v@ == audio@),
        src_sr != dst_sr && audio@.len() == 0 ==> (r matches Ok(v) && v@.len() == 0),
        src_sr != dst_sr && audio@.len() > 0 ==> exists|reply: Result<Vec<Binary32>, String>|
            #[trigger] answered(*convert, audio@, src_sr, dst_sr, reply) && converted(reply, r),
        resampled(*convert, audio@, src_sr, dst_sr, r),
{
    if src_sr == dst_sr {
        return Ok(vectors::copy(audio));
    }
    if audio.len() == 0 {
        return Ok(Vec::new());
    }
    let reply: Result<Vec<Binary32>, String> = convert(audio, src_sr, dst_sr);
    proof {
        assert(convert.ensures((audio, src_sr, dst_sr), reply));
        assert(answered(*convert, audio@, src_sr, dst_sr, reply));
    }
    settle(reply)
}

/// What a converter's reply comes to: its samples within full scale, or its
/// error.
pub fn settle(reply: Result<Vec<Binary32>, String>) -> (r: Result<Vec<Binary32>, ResampleError>)
    ensures
        reply matches Ok(v) ==> (r matches Ok(out) && out@ == limited(v@)),
        reply matches Err(e) ==> r == Err::<Vec<Binary32>, ResampleError>(ResampleError::Rubato(e)),
        converted(reply, r),
{
    match reply {
        Ok(v) => Ok(limit(v.as_slice())),
        Err(e) => Err(ResampleError::Rubato(e)),
    }
}

fn limit(s: &[Binary32]) -> (r: Vec<Binary32>)
    ensures
        r@ == limited(s@),
{
    let mut r: Vec<Binary32> = Vec::with_capacity(s.len());
    let mut i: usize = 0;
    while i < s.len()
        invariant
            i <= s.len(),
            r.len() == i,
            forall|k: int| 0 <= k < i ==> r@[k] == limited(s@)[k],
        decreases s.len() - i,
    {
        r.push(s[i].clamp(Binary32 { bits: audio::MINUS_ONE }, Binary32 { bits: vectors::ONE }));
        i = i + 1;
    }
    assert(r@ =~= limited(s@));
    r
}

/// `r` is `outcome` with its error in words.
pub open spec fn in_words(
    outcome: Result<Vec<Binary32>, ResampleError>,
    r: Result<Vec<Binary32>, String>,
) -> bool {
    match outcome {
        Ok(v) => r == Ok::<Vec<Binary32>, String>(v),
        Err(e) => r matches Err(m) && m@ == e.text(),
    }
}

/// [`resample_in_words`] may return `r`.
pub open spec fn rate_converted<F: Fn(&[Binary32], u32, u32) -> Result<Vec<Binary32>, String>>(
    convert: F,
    audio: Seq<Binary32>,
    from: u32,
    to: u32,
    r: Result<Vec<Binary32>, String>,
) -> bool {
    exists|outcome: Result<Vec<Binary32>, ResampleError>| #[trigger]
        resampled(convert, audio, from, to, outcome) && in_words(outcome, r)
}

/// [`resample_to`] with the error in words.
pub fn resample_in_words<F>(audio: &[Binary32], src_sr: u32, dst_sr: u32, convert: &F) -> (r:
    Result<Vec<Binary32>, String>) where
    F: Fn(&[Binary32], u32, u32) -> Result<Vec<Binary32>, String>,

    requires
        src_sr != dst_sr && audio@.len() > 0 ==> convert.requires((audio, src_sr, dst_sr)),
    ensures
        rate_converted(*convert, audio@, src_sr, dst_sr, r),
{
    let outcome: Result<Vec<Binary32>, ResampleError> = resample_to(
        audio,
        src_sr,
        dst_sr,
        convert,
    );
    assert(resampled(*convert, audio@, src_sr, dst_sr, outcome));
    match outcome {
        Ok(v) => Ok(v),
        Err(e) => Err(e.message()),
    }
}

/// What was converted lies within full scale: every sample that is a number is
/// in `[-1, 1]`.
pub proof fn law_converted_within_full_scale<
    F: Fn(&[Binary32], u32, u32) -> Result<Vec<Binary32>, String>,
>(
    convert: F,
    audio: Seq<Binary32>,
    from: u32,
    to: u32,
    r: Result<Vec<Binary32>, ResampleError>,
    i: int,
)
    requires
        resampled(convert, audio, from, to, r),
        from != to,
        r is Ok,
        0 <= i < r->Ok_0@.len(),
    ensures
        r->Ok_0@[i].nan() || (Binary32 { bits: audio::MINUS_ONE }).le(r->Ok_0@[i])
            && r->Ok_0@[i].le(vectors::one()),
{
    let reply = choose|reply: Result<Vec<Binary32>, String>| #[trigger]
        answered(convert, audio, from, to, reply) && converted(reply, r);
    audio::lemma_within_full_scale(reply->Ok_0@[i]);
}

/// Two results are the same: the same samples, or the same words.
pub open spec fn same_result(
    a: Result<Vec<Binary32>, ResampleError>,
    b: Result<Vec<Binary32>, ResampleError>,
) -> bool {
    match (a, b) {
        (Ok(x), Ok(y)) => x@ == y@,
        (Err(x), Err(y)) => x.text() == y.text(),
        _ => false,
    }
}

/// Two replies are the same: the same samples, or the same words.
pub open spec fn same_reply(
    a: Result<Vec<Binary32>, String>,
    b: Result<Vec<Binary32>, String>,
) -> bool {
    match (a, b) {
        (Ok(x), Ok(y)) => x@ == y@,
        (Err(x), Err(y)) => x@ == y@,
        _ => false,
    }
}

/// Nothing is carried from one conversion to another: two calls with the same
/// arguments return the same, whatever came between them, as long as the
/// converter answers the same question the same way.
pub proof fn law_equal_calls_agree<
    F: Fn(&[Binary32], u32, u32) -> Result<Vec<Binary32>, String>,
>(
    convert: F,
    audio: Seq<Binary32>,
    from: u32,
    to: u32,
    a: Result<Vec<Binary32>, ResampleError>,
    b: Result<Vec<Binary32>, ResampleError>,
)
    requires
        resampled(convert, audio, from, to, a),
        resampled(convert, audio, from, to, b),
        forall|x: Result<Vec<Binary32>, String>, y: Result<Vec<Binary32>, String>|
            #[trigger] answered(convert, audio, from, to, x) && #[trigger] answered(
                convert,
                audio,
                from,
                to,
                y,
            ) ==> same_reply(x, y),
    ensures
        same_result(a, b),
{
    if from != to && audio.len() > 0 {
        let x = choose|x: Result<Vec<Binary32>, String>| #[trigger]
            answered(convert, audio, from, to, x) && converted(x, a);
        let y = choose|y: Result<Vec<Binary32>, String>| #[trigger]
            answered(convert, audio, from, to, y) && converted(y, b);
        assert(same_reply(x, y));
    } else if from != to {
        assert(a->Ok_0@ =~= b->Ok_0@);
    }
}

/// Clipping keeps the length and every sample within full scale, and brings
/// what is beyond to the end that it is beyond.
pub proof fn law_samples_within_full_scale_are_kept(s: Seq<Binary32>, i: int)
    requires
        0 <= i < s.len(),
    ensures
        limited(s).len() == s.len(),
        (Binary32 { bits: 0xbf80_0000 }).le(s[i]) && s[i].le(Binary32 { bits: 0x3f80_0000 })
            ==> limited(s)[i] == s[i],
        (Binary32 { bits: 0x3f80_0000 }).lt(s[i]) ==> limited(s)[i].bits == 0x3f80_0000,
        s[i].lt(Binary32 { bits: 0xbf80_0000 }) ==> limited(s)[i].bits == 0xbf80_0000,
{
    let low = Binary32 { bits: 0xbf80_0000 };
    let high = Binary32 { bits: 0x3f80_0000 };
    let x = s[i];
    crate::binary32::lemma_format();
    crate::binary32::lemma_one();
    assert(low.le(high)) by {
        reveal(Binary32::le);
    }
    if x.nan() {
        reveal(Binary32::lt);
        reveal(Binary32::le);
    } else {
        crate::binary32::lemma_total(x, low, high);
        crate::binary32::lemma_total(high, x, x);
        crate::binary32::lemma_total(low, high, x);
    }
}

/// A converter's reply is taken as a whole: an error stays that error, in its
/// own words, and samples come out as many as went in.
pub proof fn law_replies_are_taken_over<
    F: Fn(&[Binary32], u32, u32) -> Result<Vec<Binary32>, String>,
>(
    convert: F,
    audio: Seq<Binary32>,
    from: u32,
    to: u32,
    r: Result<Vec<Binary32>, ResampleError>,
)
    requires
        resampled(convert, audio, from, to, r),
    ensures
        from == to ==> r is Ok && r->Ok_0@ == audio,
        audio.len() == 0 ==> r is Ok && r->Ok_0@.len() == 0,
        from != to && audio.len() > 0 ==> exists|reply: Result<Vec<Binary32>, String>| #[trigger]
            answered(convert, audio, from, to, reply) && match reply {
                Ok(v) => r is Ok && r->Ok_0@.len() == v@.len(),
                Err(e) => r is Err && r->Err_0.text() == "rubato resampler error: "@ + e@,
            },
{
    if from != to && audio.len() > 0 {
        let reply = choose|reply: Result<Vec<Binary32>, String>| #[trigger]
            answered(convert, audio, from, to, reply) && converted(reply, r);
        assert(answered(convert, audio, from, to, reply));
    }
}

} // verus!
