//! Reduction of interleaved stereo to mono.
use vstd::prelude::*;
use crate::arithmetic::lemma_mean_within_unit;
use crate::arithmetic::mean;
use crate::arithmetic::mean_of;
use crate::arithmetic::rounded_mean_of;
use crate::binary32::within_unit;
use crate::error::AudioError;

verus! {

/// The mono signal of an interleaved stereo signal: one sample per frame, the
/// mean of the frame's left and right sample, in the order of the frames.
pub open spec fn mono_of(stereo: Seq<u32>) -> Seq<u32> {
    Seq::new((stereo.len() / 2) as nat, |i: int| mean_of(stereo[2 * i], stereo[2 * i + 1]))
}

/// For a frame of samples between -1.0 and 1.0 the mono sample is the exact
/// mean of the two, rounded once to the nearest number.
pub proof fn lemma_mono_is_rounded_mean(stereo: Seq<u32>, i: int)
    requires
        0 <= i < stereo.len() / 2,
        within_unit(stereo[2 * i]),
        within_unit(stereo[2 * i + 1]),
    ensures
        mono_of(stereo)[i] == rounded_mean_of(stereo[2 * i], stereo[2 * i + 1]),
{
    lemma_mean_within_unit(stereo[2 * i], stereo[2 * i + 1]);
}

/// Collapses an interleaved stereo buffer (left, right, left, right, ...) of
/// binary32 patterns into mono by averaging each frame. A buffer of odd
/// length holds an incomplete frame and is refused.
pub fn stereo_to_mono(stereo_data: &[u32]) -> (result: Result<Vec<u32>, AudioError>)
    ensures
        match result {
            Ok(mono) => stereo_data@.len() % 2 == 0 && mono@ == mono_of(stereo_data@),
            Err(e) => stereo_data@.len() % 2 == 1 && e == AudioError::InvalidInput,
        },
{
    let n: usize = stereo_data.len();
    if n % 2 != 0 {
        return Err(AudioError::InvalidInput);
    }
    let frames: usize = n / 2;
    let mut mono: Vec<u32> = Vec::with_capacity(frames);
    let mut i: usize = 0;
    while i < frames
        invariant
            n == stereo_data@.len(),
            n == 2 * frames,
            i <= frames,
            mono@.len() == i,
            forall|j: int| 0 <= j < i ==> mono@[j] == mean_of(stereo_data@[2 * j], stereo_data@[2 * j + 1]),
        decreases frames - i,
    {
        let average: u32 = mean(stereo_data[2 * i], stereo_data[2 * i + 1]);
        mono.push(average);
        i = i + 1;
    }
    assert(mono@ =~= mono_of(stereo_data@));
    Ok(mono)
}

} // verus!
