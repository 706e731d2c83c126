//! Loudness normalisation against the EBU R 128 target.
//!
//! The loudness meter lives in the `Normalizer` and accumulates over all the
//! audio it is fed. Feeding it and reading the integrated loudness are
//! floating-point work and are done by the caller on the meter, who reports
//! how that went. The library decides which configurations and buffers are
//! accepted, which failure each report of the meter is, and which gain is
//! usable, and applies the gain.
use vstd::prelude::*;
use crate::arithmetic::clamp_unit;
use crate::arithmetic::clamped;
use crate::arithmetic::lemma_clamped_within_unit;
use crate::arithmetic::lemma_product_with_one;
use crate::arithmetic::product;
use crate::arithmetic::product_of;
use crate::binary32::INFINITY;
use crate::binary32::ONE;
use crate::binary32::is_nan;
use crate::binary32::is_negative;
use crate::binary32::magnitude;
use crate::binary32::sign_and_magnitude;
use crate::binary32::units;
use crate::binary32::within_unit;
use crate::error::AudioError;
use crate::rounding::lemma_round_bounded;

verus! {

/// The loudness that normalisation aims at, in LUFS.
pub const TARGET_LOUDNESS_LUFS: i32 = -23;

/// The loudness difference, in LU, that makes a factor of ten in amplitude.
pub const LOUDNESS_UNITS_PER_DECADE: i32 = 20;

/// The largest channel count that the meter takes.
pub const MAX_CHANNELS: u32 = 64;

/// The lowest sample rate that the meter takes.
pub const MIN_SAMPLE_RATE: u32 = 16;

/// The highest sample rate that the meter takes.
pub const MAX_SAMPLE_RATE: u32 = 2_822_400;

/// `ebur128::EbuR128`, the loudness meter. Nothing is known of what it
/// holds: it is made, kept and handed out.
#[verifier::external_type_specification]
#[verifier::external_body]
pub struct ExMeter(ebur128::EbuR128);

/// `ebur128::Error`, the failure that the meter reports. Nothing is told
/// from it but that there was one.
#[verifier::external_type_specification]
#[verifier::external_body]
pub struct ExMeterError(ebur128::Error);

/// The meter takes this channel count and sample rate.
pub open spec fn config_supported(channels: u32, sample_rate: u32) -> bool {
    1 <= channels <= MAX_CHANNELS && MIN_SAMPLE_RATE <= sample_rate <= MAX_SAMPLE_RATE
}

/// Addresses are wider than 32 bits, so that the meter's buffer sizes fit.
pub open spec fn wide_addresses() -> bool {
    usize::MAX > 0xffff_ffff
}

/// Calls `ebur128::EbuR128::new` with all measurement modes switched on. The
/// meter refuses a channel count outside 1 to 64 and a sample rate outside 16
/// to 2 822 400. For all others it sizes its buffer for three seconds of
/// audio, which it refuses only where the size does not fit in `usize`; with
/// 64-bit addresses it always fits.
#[verifier::external_body]
fn meter_new(channels: u32, sample_rate: u32) -> (made: Result<ebur128::EbuR128, ebur128::Error>)
    ensures
        !config_supported(channels, sample_rate) ==> made is Err,
        config_supported(channels, sample_rate) && wide_addresses() ==> made is Ok,
{
    ebur128::EbuR128::new(channels, sample_rate, ebur128::Mode::all())
}

/// What the meter reports after it has been fed a buffer and read.
#[derive(Clone, Copy, Debug, PartialEq, Eq, Structural)]
pub enum MeterReport {
    /// The meter refused the buffer.
    FeedFailed,
    /// The meter gave no integrated loudness.
    NoReading,
    /// The gain that the integrated loudness calls for, as a binary32
    /// pattern.
    Gain(u32),
}

/// A gain can be applied: it is a finite number above zero.
pub open spec fn gain_usable(gain: u32) -> bool {
    !is_negative(gain) && 0 < magnitude(gain) < INFINITY
}

/// A sample after the gain: their product, limited to the range from -1.0 to
/// 1.0.
pub open spec fn amplified(sample: u32, gain: u32) -> u32 {
    clamped(product_of(sample, gain))
}

/// A buffer after the gain, sample by sample.
pub open spec fn normalized(samples: Seq<u32>, gain: u32) -> Seq<u32> {
    Seq::new(samples.len(), |i: int| amplified(samples[i], gain))
}

/// With a usable gain every sample that is no NaN comes out within the range
/// from -1.0 to 1.0, and a NaN comes out as a NaN.
pub proof fn lemma_amplified_within_unit(sample: u32, gain: u32)
    requires
        gain_usable(gain),
    ensures
        is_nan(amplified(sample, gain)) == is_nan(sample),
        !is_nan(sample) ==> within_unit(amplified(sample, gain)),
{
    let p = product_of(sample, gain);
    lemma_round_bounded(units(magnitude(sample)) * units(magnitude(gain)), 149);
    assert(is_nan(p) == is_nan(sample));
    lemma_clamped_within_unit(p);
}

/// A gain of 1.0 leaves a buffer of samples between -1.0 and 1.0 as it is.
pub proof fn lemma_unit_gain_keeps_buffer(samples: Seq<u32>)
    requires
        forall|i: int| 0 <= i < samples.len() ==> within_unit(#[trigger] samples[i]),
    ensures
        gain_usable(ONE),
        normalized(samples, ONE) == samples,
{
    assert forall|i: int| 0 <= i < samples.len() implies amplified(#[trigger] samples[i], ONE)
        == samples[i] by {
        lemma_product_with_one(samples[i]);
        lemma_clamped_within_unit(samples[i]);
    }
    assert(normalized(samples, ONE) =~= samples);
}

/// A loudness normaliser for one stream of interleaved audio.
pub struct Normalizer {
    meter: ebur128::EbuR128,
    channels: u32,
    sample_rate: u32,
}

impl Normalizer {
    /// The channel count that the normaliser was made for.
    pub closed spec fn spec_channels(self) -> u32 {
        self.channels
    }

    /// The sample rate that the normaliser was made for.
    pub closed spec fn spec_sample_rate(self) -> u32 {
        self.sample_rate
    }

    /// The loudness meter that the normaliser holds.
    pub closed spec fn spec_meter(self) -> ebur128::EbuR128 {
        self.meter
    }

    /// Makes a normaliser for `channels` interleaved channels at
    /// `sample_rate`, with a fresh meter. A refusal by the meter is a
    /// configuration error: it comes for every configuration that is not
    /// supported, and with 64-bit addresses for no other.
    pub fn new(channels: u32, sample_rate: u32) -> (made: Result<Normalizer, AudioError>)
        ensures
            match made {
                Ok(n) => config_supported(channels, sample_rate) && n.spec_channels() == channels
                    && n.spec_sample_rate() == sample_rate,
                Err(e) => e == AudioError::ConfigError,
            },
            !config_supported(channels, sample_rate) ==> made is Err,
            config_supported(channels, sample_rate) && wide_addresses() ==> made is Ok,
    {
        match meter_new(channels, sample_rate) {
            Ok(meter) => Ok(Normalizer { meter, channels, sample_rate }),
            Err(_) => Err(AudioError::ConfigError),
        }
    }

    /// The channel count that the normaliser was made for.
    pub fn channels(&self) -> (c: u32)
        ensures
            c == self.spec_channels(),
    {
        self.channels
    }

    /// The sample rate that the normaliser was made for.
    pub fn sample_rate(&self) -> (r: u32)
        ensures
            r == self.spec_sample_rate(),
    {
        self.sample_rate
    }

    /// The loudness meter, for feeding it audio and reading the integrated
    /// loudness. The meter accumulates: what it reports depends on all the
    /// audio fed since the normaliser was made. What is handed out is the
    /// normaliser's own meter: whatever the caller does to it is what the
    /// normaliser holds afterwards, and nothing else of the normaliser
    /// changes.
    pub fn meter_mut(&mut self) -> (meter: &mut ebur128::EbuR128)
        ensures
            *meter == old(self).spec_meter(),
            final(self).spec_meter() == *final(meter),
            final(self).spec_channels() == old(self).spec_channels(),
            final(self).spec_sample_rate() == old(self).spec_sample_rate(),
    {
        &mut self.meter
    }

    /// A buffer of `len` samples holds whole frames of the normaliser's
    /// channels.
    pub open spec fn spec_accepts(self, len: nat) -> bool {
        self.spec_channels() != 0 && len % (self.spec_channels() as nat) == 0
    }

    /// Tells whether a buffer of `len` samples holds whole frames.
    pub fn accepts(&self, len: usize) -> (whole: bool)
        ensures
            whole == self.spec_accepts(len as nat),
    {
        let c: u32 = self.channels();
        c != 0 && len % (c as usize) == 0
    }

    /// What `normalize_loudness` answers for a buffer and a gain.
    pub open spec fn spec_normalize(self, samples: Seq<u32>, gain: u32) -> Result<
        Seq<u32>,
        AudioError,
    > {
        if !self.spec_accepts(samples.len()) {
            Err(AudioError::InvalidInput)
        } else if !gain_usable(gain) {
            Err(AudioError::MeasurementError)
        } else {
            Ok(normalized(samples, gain))
        }
    }

    /// What `finish_normalize` answers for a buffer and the meter's report.
    pub open spec fn spec_finish(self, samples: Seq<u32>, report: MeterReport) -> Result<
        Seq<u32>,
        AudioError,
    > {
        match report {
            MeterReport::FeedFailed => Err(AudioError::ProcessingFailure),
            MeterReport::NoReading => Err(AudioError::MeasurementError),
            MeterReport::Gain(gain) => self.spec_normalize(samples, gain),
        }
    }

    /// Turns the meter's report on a buffer into the normalised buffer or
    /// into a failure. A buffer that the meter refused is a processing
    /// failure, a meter without a reading a measurement error. With a gain
    /// the result is that of `normalize_loudness` for the buffer and the
    /// gain.
    pub fn finish_normalize(&self, samples: &[u32], report: MeterReport) -> (result: Result<
        Vec<u32>,
        AudioError,
    >)
        ensures
            match result {
                Ok(out) => self.spec_finish(samples@, report) == Ok::<Seq<u32>, AudioError>(out@),
                Err(e) => self.spec_finish(samples@, report) == Err::<Seq<u32>, AudioError>(e),
            },
            result is Ok ==> forall|i: int|
                0 <= i < samples@.len() && !is_nan(samples@[i]) ==> within_unit(
                    #[trigger] result->Ok_0@[i],
                ),
    {
        match report {
            MeterReport::FeedFailed => Err(AudioError::ProcessingFailure),
            MeterReport::NoReading => Err(AudioError::MeasurementError),
            MeterReport::Gain(gain) => self.normalize_loudness(samples, gain),
        }
    }

    /// Applies the gain that the measured loudness calls for: every sample is
    /// multiplied by `gain` and limited to the range from -1.0 to 1.0. The
    /// result has the length and the order of `samples`. A buffer that does
    /// not hold whole frames is invalid input. A gain that is no finite
    /// number above zero means that no valid loudness was measured, and is a
    /// measurement error.
    pub fn normalize_loudness(&self, samples: &[u32], gain: u32) -> (result: Result<
        Vec<u32>,
        AudioError,
    >)
        ensures
            match result {
                Ok(out) => self.spec_normalize(samples@, gain) == Ok::<Seq<u32>, AudioError>(out@),
                Err(e) => self.spec_normalize(samples@, gain) == Err::<Seq<u32>, AudioError>(e),
            },
            result is Ok ==> forall|i: int|
                0 <= i < samples@.len() && !is_nan(samples@[i]) ==> within_unit(
                    #[trigger] result->Ok_0@[i],
                ),
    {
        if !self.accepts(samples.len()) {
            return Err(AudioError::InvalidInput);
        }
        let (negative, m) = sign_and_magnitude(gain);
        if negative || m == 0 || m >= INFINITY {
            return Err(AudioError::MeasurementError);
        }
        let n: usize = samples.len();
        let mut out: Vec<u32> = Vec::with_capacity(n);
        let mut i: usize = 0;
        while i < n
            invariant
                n == samples@.len(),
                i <= n,
                gain_usable(gain),
                out@.len() == i,
                forall|j: int| 0 <= j < i ==> out@[j] == amplified(samples@[j], gain),
            decreases n - i,
        {
            out.push(clamp_unit(product(samples[i], gain)));
            i = i + 1;
        }
        proof {
            assert(out@ =~= normalized(samples@, gain));
            assert forall|k: int| 0 <= k < samples@.len() && !is_nan(samples@[k]) implies within_unit(
                #[trigger] out@[k],
            ) by {
                lemma_amplified_within_unit(samples@[k], gain);
            }
        }
        Ok(out)
    }
}

} // verus!
