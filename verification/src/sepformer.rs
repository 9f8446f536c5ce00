//! Two-speaker source separation: what goes into the model, and what comes
//! out of it.
//!
//! The model takes one second of 8 kHz mono audio and returns two interleaved
//! streams. It assigns no speaker identity; callers compare both streams with
//! an enrolled embedding and keep the closer one.

use crate::binary32::Binary32;
use vstd::prelude::*;
use vstd::string::StringExecFns;

verus! {

/// Native sample rate of the model.
pub const SEPFORMER_SAMPLE_RATE: u32 = 8_000;

/// Fixed block size: one second.
pub const SEPFORMER_BLOCK_SAMPLES: usize = 8_000;

/// The model separates exactly two speakers.
pub const SEPFORMER_STREAMS: usize = 2;

/// Errors of a model call.
#[derive(Debug)]
pub enum EmbeddingError {
    /// The input does not have the shape that the model takes.
    Shape,
    UnexpectedOutputShape { got: Vec<i64>, expected_dim: usize },
    Ort(String),
}

/// The shape of the model's output.
pub open spec fn expected_shape(dims: Seq<i64>) -> bool {
    dims == seq![1i64, 8_000i64, 2i64]
}

/// One of the two streams of an interleaved output.
pub open spec fn stream(data: Seq<Binary32>, which: int) -> Seq<Binary32> {
    Seq::new(data.len() / 2, |i: int| data[2 * i + which])
}

/// Every sample of a whole frame is finite.
pub open spec fn all_finite(data: Seq<Binary32>) -> bool {
    forall|i: int| 0 <= i < 2 * (data.len() / 2) ==> (#[trigger] data[i]).finite()
}

/// The message about samples that are not finite.
pub open spec fn non_finite_message() -> Seq<char> {
    "SepFormer produced non-finite audio"@
}

/// What the output of the model comes to: the two streams, where the output
/// has the known shape and holds finite samples.
pub fn deinterleave(dims: &[i64], data: &[Binary32]) -> (r: Result<
    (Vec<Binary32>, Vec<Binary32>),
    EmbeddingError,
>)
    ensures
        r is Ok <==> expected_shape(dims@) && all_finite(data@),
        r matches Ok((a, b)) ==> a@ == stream(data@, 0) && b@ == stream(data@, 1),
        !expected_shape(dims@) ==> (r matches Err(
            EmbeddingError::UnexpectedOutputShape { got, expected_dim },
        ) && got@ == dims@ && expected_dim == 16_000),
        expected_shape(dims@) && !all_finite(data@) ==> (r matches Err(EmbeddingError::Ort(m))
            && m@ == non_finite_message()),
{
    if dims.len() != 3 || dims[0] != 1 || dims[1] != 8_000 || dims[2] != 2 {
        proof {
            if expected_shape(dims@) {
                assert(dims@[0] == 1 && dims@[1] == 8_000 && dims@[2] == 2);
            }
        }
        let mut got: Vec<i64> = Vec::new();
        got.extend_from_slice(dims);
        assert(got@ =~= dims@);
        return Err(
            EmbeddingError::UnexpectedOutputShape {
                got,
                expected_dim: SEPFORMER_BLOCK_SAMPLES * SEPFORMER_STREAMS,
            },
        );
    }
    assert(dims@ =~= seq![1i64, 8_000i64, 2i64]);
    let held: usize = data.len();
    let frames: usize = held / 2;
    let mut first: Vec<Binary32> = Vec::with_capacity(frames);
    let mut second: Vec<Binary32> = Vec::with_capacity(frames);
    let mut i: usize = 0;
    while i < frames
        invariant
            expected_shape(dims@),
            frames == data@.len() / 2,
            data@.len() <= usize::MAX,
            i <= frames,
            first.len() == i,
            second.len() == i,
            forall|k: int| 0 <= k < i ==> first@[k] == #[trigger] data@[2 * k],
            forall|k: int| 0 <= k < i ==> second@[k] == #[trigger] data@[2 * k + 1],
            forall|k: int| 0 <= k < 2 * i ==> (#[trigger] data@[k]).finite(),
        decreases frames - i,
    {
        let a: Binary32 = data[2 * i];
        let b: Binary32 = data[2 * i + 1];
        if !a.is_finite() || !b.is_finite() {
            assert(!all_finite(data@)) by {
                assert(!data@[2 * i as int].finite() || !data@[2 * i as int + 1].finite());
            }
            return Err(
                EmbeddingError::Ort(String::from_str("SepFormer produced non-finite audio")),
            );
        }
        first.push(a);
        second.push(b);
        i = i + 1;
    }
    assert(first@ =~= stream(data@, 0));
    assert(second@ =~= stream(data@, 1));
    Ok((first, second))
}

/// The model may answer `reply` when it is run on `mixture`.
pub open spec fn ran<F: FnOnce(&[Binary32]) -> Result<(Vec<i64>, Vec<Binary32>), String>>(
    run: F,
    mixture: Seq<Binary32>,
    reply: Result<(Vec<i64>, Vec<Binary32>), String>,
) -> bool {
    exists|a: &[Binary32]| a@ == mixture && #[trigger] run.ensures((a,), reply)
}

/// `r` is what a reply of the model comes to.
pub open spec fn separated(
    reply: Result<(Vec<i64>, Vec<Binary32>), String>,
    r: Result<(Vec<Binary32>, Vec<Binary32>), EmbeddingError>,
) -> bool {
    match reply {
        Err(e) => r == Err::<(Vec<Binary32>, Vec<Binary32>), EmbeddingError>(
            EmbeddingError::Ort(e),
        ),
        Ok((dims, data)) => {
            &&& r is Ok <==> expected_shape(dims@) && all_finite(data@)
            &&& r matches Ok((a, b)) ==> a@ == stream(data@, 0) && b@ == stream(data@, 1)
            &&& !expected_shape(dims@) ==> (r matches Err(
                EmbeddingError::UnexpectedOutputShape { got, expected_dim },
            ) && got@ == dims@ && expected_dim == 16_000)
            &&& expected_shape(dims@) && !all_finite(data@) ==> (r matches Err(
                EmbeddingError::Ort(m),
            ) && m@ == non_finite_message())
        },
    }
}

/// Separates one second of 8 kHz mono audio into two streams, with a model
/// that is run once, and only on a mixture of that length.
pub fn separate<F>(mixture: &[Binary32], run: F) -> (r: Result<
    (Vec<Binary32>, Vec<Binary32>),
    EmbeddingError,
>) where F: FnOnce(&[Binary32]) -> Result<(Vec<i64>, Vec<Binary32>), String>
    requires
        mixture@.len() == SEPFORMER_BLOCK_SAMPLES ==> run.requires((mixture,)),
    ensures
        mixture@.len() != SEPFORMER_BLOCK_SAMPLES ==> r == Err::<
            (Vec<Binary32>, Vec<Binary32>),
            EmbeddingError,
        >(EmbeddingError::Shape),
        mixture@.len() == SEPFORMER_BLOCK_SAMPLES ==> exists|
            reply: Result<(Vec<i64>, Vec<Binary32>), String>,
        | #[trigger]
            ran(run, mixture@, reply) && separated(reply, r),
{
    if mixture.len() != SEPFORMER_BLOCK_SAMPLES {
        return Err(EmbeddingError::Shape);
    }
    let reply: Result<(Vec<i64>, Vec<Binary32>), String> = run(mixture);
    assert(run.ensures((mixture,), reply));
    assert(ran(run, mixture@, reply));
    match reply {
        Ok((dims, data)) => deinterleave(dims.as_slice(), data.as_slice()),
        Err(e) => Err(EmbeddingError::Ort(e)),
    }
}

/// The two streams hold every sample of the output exactly once, in order.
pub proof fn law_streams_interleave(data: Seq<Binary32>, i: int)
    requires
        0 <= i < 2 * (data.len() / 2),
    ensures
        data[i] == stream(data, i % 2)[i / 2],
{
}

/// Only an output of one second of two streams, all of it finite, is taken: the
/// streams that come of it hold as many samples each, and none that is infinite
/// or not a number.
pub proof fn law_only_whole_outputs_are_taken(
    reply: Result<(Vec<i64>, Vec<Binary32>), String>,
    r: Result<(Vec<Binary32>, Vec<Binary32>), EmbeddingError>,
    i: int,
)
    requires
        separated(reply, r),
        r is Ok,
    ensures
        reply matches Ok((dims, data)) && dims@.len() == 3 && dims@[0] == 1 && dims@[1] == 8_000
            && dims@[2] == 2 && r->Ok_0.0@.len() == data@.len() / 2 && r->Ok_0.1@.len()
            == data@.len() / 2,
        0 <= i < r->Ok_0.0@.len() ==> r->Ok_0.0@[i].parts().pattern < 0x7f80_0000
            && r->Ok_0.1@[i].parts().pattern < 0x7f80_0000,
{
    crate::binary32::lemma_format();
    let data = reply->Ok_0.1@;
    if 0 <= i < r->Ok_0.0@.len() {
        assert(data[2 * i].finite());
        assert(data[2 * i + 1].finite());
    }
}

} // verus!
