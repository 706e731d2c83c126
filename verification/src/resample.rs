//! Sample-rate conversion: what is decided before the windowed-sinc converter
//! runs, and what is accepted from it afterwards.
//!
//! The converter itself works in floating point and runs outside this
//! library. Here a call is checked: a ratio of the rates beyond a factor of
//! two in either direction is refused, and larger changes are made by
//! chaining calls. An equal-rate call is answered with a copy, every other
//! call is turned into a plan with the fixed filter parameters, and the
//! converter's report is turned into the final buffer or into a failure.
use vstd::prelude::*;
use vstd::slice::slice_to_vec;
use crate::error::AudioError;

verus! {

/// Length of the windowed-sinc filter, in taps.
pub const SINC_LEN: usize = 256;

/// Number of intermediate points of the precomputed sinc table.
pub const OVERSAMPLING_FACTOR: usize = 256;

/// Cutoff frequency of the filter, in hundredths of the Nyquist frequency.
pub const CUTOFF_PERCENT: u32 = 95;

/// The largest factor between the two rates of one call, in either
/// direction, and the largest factor by which the converter may change its
/// ratio while converting.
pub const MAX_RATIO_RELATIVE: u32 = 2;

/// The number of channels that the converter is set up for.
pub const CONVERTER_CHANNELS: usize = 1;

/// The frames by which the converter's output may differ from the scaled
/// length of its input.
pub const OUTPUT_MARGIN: usize = 10;

/// The input frames that the filter may hold back: its taps and two more.
pub const FILTER_WINDOW: usize = 258;

/// How the converter interpolates between entries of the sinc table.
#[derive(Clone, Copy, Debug, PartialEq, Eq, Structural)]
pub enum Interpolation {
    /// The nearest entry, no interpolation.
    Nearest,
    /// A line through the two nearest entries.
    Linear,
    /// A parabola through the three nearest entries.
    Quadratic,
    /// A cubic through the four nearest entries.
    Cubic,
}

/// The window that shapes the sinc filter.
#[derive(Clone, Copy, Debug, PartialEq, Eq, Structural)]
pub enum Window {
    /// Blackman.
    Blackman,
    /// Blackman, squared.
    Blackman2,
    /// Blackman-Harris.
    BlackmanHarris,
    /// Blackman-Harris, squared.
    BlackmanHarris2,
    /// Hann.
    Hann,
    /// Hann, squared.
    Hann2,
}

/// Everything the converter needs to know for one call.
#[derive(Clone, Copy, Debug, PartialEq, Eq, Structural)]
pub struct SincPlan {
    /// Sample rate of the input; the ratio is `to_rate / from_rate`.
    pub from_rate: u32,
    /// Sample rate of the output.
    pub to_rate: u32,
    /// Number of input frames, all handed over as one chunk.
    pub chunk_size: usize,
    /// Number of channels of that chunk.
    pub channels: usize,
    /// Length of the filter, in taps.
    pub sinc_len: usize,
    /// Number of intermediate points of the sinc table.
    pub oversampling_factor: usize,
    /// Cutoff frequency, in hundredths of the Nyquist frequency.
    pub cutoff_percent: u32,
    /// The largest factor by which the ratio may be changed while converting.
    pub max_ratio_relative: u32,
    /// How the converter interpolates between entries of the sinc table.
    pub interpolation: Interpolation,
    /// The window that shapes the filter.
    pub window: Window,
}

/// What a call for conversion comes to.
#[derive(Debug, PartialEq, Eq)]
pub enum ResampleStep {
    /// The rates are equal: this copy of the input is the result.
    Copy(Vec<u32>),
    /// The converter has to run with this plan.
    Convert(SincPlan),
}

/// What the converter reports after it has been run with a plan.
#[derive(Debug, PartialEq, Eq)]
pub enum ConverterReport {
    /// The converter could not be set up with the plan.
    ConstructionFailed,
    /// The converter was set up and failed while processing.
    ProcessingFailed,
    /// The converter's output, one buffer per channel.
    Converted(Vec<Vec<u32>>),
}

/// The plan for converting `len` frames from `from_rate` to `to_rate`.
pub open spec fn plan_for(len: nat, from_rate: u32, to_rate: u32) -> SincPlan {
    SincPlan {
        from_rate,
        to_rate,
        chunk_size: len as usize,
        channels: CONVERTER_CHANNELS,
        sinc_len: SINC_LEN,
        oversampling_factor: OVERSAMPLING_FACTOR,
        cutoff_percent: CUTOFF_PERCENT,
        max_ratio_relative: MAX_RATIO_RELATIVE,
        interpolation: Interpolation::Linear,
        window: Window::BlackmanHarris2,
    }
}

/// The ratio of the two rates is one that a single call converts: neither
/// rate is zero, and neither is more than twice the other.
pub open spec fn ratio_supported(from_rate: u32, to_rate: u32) -> bool {
    from_rate != 0 && to_rate != 0 && to_rate <= MAX_RATIO_RELATIVE * from_rate && from_rate
        <= MAX_RATIO_RELATIVE * to_rate
}

/// The length of the input scaled by the ratio of the rates, rounded down.
pub open spec fn nominal_output_len(len: nat, from_rate: nat, to_rate: nat) -> nat {
    len * to_rate / from_rate
}

/// The longest output that is accepted from the converter: the scaled length
/// of the input and the margin.
pub open spec fn max_output_len(len: nat, from_rate: nat, to_rate: nat) -> nat {
    nominal_output_len(len, from_rate, to_rate) + OUTPUT_MARGIN as nat
}

/// The shortest output that is accepted from the converter: the input less
/// the filter window, scaled by the ratio of the rates and rounded up, less
/// the margin; nothing where that is not above zero.
pub open spec fn min_output_len(len: nat, from_rate: nat, to_rate: nat) -> nat {
    if len <= FILTER_WINDOW {
        0
    } else {
        let scaled = ((len - FILTER_WINDOW) * to_rate + from_rate - 1) / (from_rate as int);
        if scaled <= OUTPUT_MARGIN {
            0
        } else {
            (scaled - OUTPUT_MARGIN) as nat
        }
    }
}

/// The output of `len` input frames has one of the accepted lengths.
pub open spec fn output_len_accepted(out_len: nat, len: nat, from_rate: nat, to_rate: nat) -> bool {
    min_output_len(len, from_rate, to_rate) <= out_len <= max_output_len(len, from_rate, to_rate)
}

/// Within a ratio between one half and two, the nominal length lies between
/// half and twice the length of the input, so the longest accepted output is
/// at most twice the input and the margin.
pub proof fn lemma_output_len_within_ratio(len: nat, from_rate: nat, to_rate: nat)
    requires
        0 < from_rate,
        0 < to_rate,
        from_rate <= 2 * to_rate,
        to_rate <= 2 * from_rate,
    ensures
        len / 2 <= nominal_output_len(len, from_rate, to_rate) <= 2 * len,
        max_output_len(len, from_rate, to_rate) <= 2 * len + OUTPUT_MARGIN,
{
    let n = (len * to_rate) as int;
    let f = from_rate as int;
    let q = n / f;
    let h = (len / 2) as int;
    vstd::arithmetic::div_mod::lemma_fundamental_div_mod(n, f);
    vstd::arithmetic::div_mod::lemma_mod_bound(n, f);
    assert(n <= 2 * len * f) by (nonlinear_arith)
        requires
            n == len * to_rate,
            to_rate <= 2 * f,
    ;
    assert(q <= 2 * len) by (nonlinear_arith)
        requires
            n == f * q + n % f,
            0 <= n % f,
            n <= 2 * len * f,
            f > 0,
    ;
    assert(h * f <= n) by (nonlinear_arith)
        requires
            n == len * to_rate,
            2 * h <= len,
            f <= 2 * to_rate,
            h >= 0,
    ;
    assert(h <= q) by (nonlinear_arith)
        requires
            n == f * q + n % f,
            n % f < f,
            h * f <= n,
            f > 0,
    ;
}

/// Some length is always accepted: the shortest accepted output is not
/// longer than the longest, and not longer than the scaled length.
pub proof fn lemma_output_range_not_empty(len: nat, from_rate: nat, to_rate: nat)
    requires
        0 < from_rate,
    ensures
        min_output_len(len, from_rate, to_rate) <= nominal_output_len(len, from_rate, to_rate),
        min_output_len(len, from_rate, to_rate) <= max_output_len(len, from_rate, to_rate),
{
    if len > FILTER_WINDOW {
        let f = from_rate as int;
        let a = ((len - FILTER_WINDOW) * to_rate) as int;
        let n = (len * to_rate) as int;
        let c = (a + f - 1) / f;
        let q = n / f;
        vstd::arithmetic::div_mod::lemma_fundamental_div_mod(a + f - 1, f);
        vstd::arithmetic::div_mod::lemma_mod_bound(a + f - 1, f);
        vstd::arithmetic::div_mod::lemma_fundamental_div_mod(n, f);
        vstd::arithmetic::div_mod::lemma_mod_bound(n, f);
        assert(0 <= a <= n) by (nonlinear_arith)
            requires
                a == (len - 258) * to_rate,
                n == len * to_rate,
                len > 258,
                to_rate >= 0,
        ;
        assert(c <= q + 1) by (nonlinear_arith)
            requires
                a + f - 1 == f * c + (a + f - 1) % f,
                0 <= (a + f - 1) % f,
                n == f * q + n % f,
                n % f < f,
                a <= n,
                f > 0,
        ;
    }
}

/// With equal rates the nominal length is the length of the input.
pub proof fn lemma_output_len_equal_rates(len: nat, rate: nat)
    requires
        0 < rate,
    ensures
        nominal_output_len(len, rate, rate) == len,
{
    vstd::arithmetic::div_mod::lemma_fundamental_div_mod_converse(
        (len * rate) as int,
        rate as int,
        len as int,
        0,
    );
}

/// Tells whether a single call converts between the two rates.
pub fn ratio_is_supported(from_rate: u32, to_rate: u32) -> (supported: bool)
    ensures
        supported == ratio_supported(from_rate, to_rate),
{
    let from: u64 = from_rate as u64;
    let to: u64 = to_rate as u64;
    let factor: u64 = MAX_RATIO_RELATIVE as u64;
    from != 0 && to != 0 && to <= factor * from && from <= factor * to
}

/// Decides what a call for conversion of `input` from `from_sample_rate` to
/// `to_sample_rate` comes to. A rate of zero is refused, and so is a pair of
/// rates of which one is more than twice the other. Equal rates are answered
/// with an exact copy of the input. Every other pair of rates gives the plan
/// for the converter: the whole input as one chunk of one channel, with the
/// fixed filter parameters. The channel count is accepted and not used: the
/// input is taken as one channel.
pub fn audio_resample(
    input: &[u32],
    from_sample_rate: u32,
    to_sample_rate: u32,
    _channels: u16,
) -> (result: Result<ResampleStep, AudioError>)
    ensures
        match result {
            Err(e) => e == AudioError::ConfigError && !ratio_supported(
                from_sample_rate,
                to_sample_rate,
            ),
            Ok(ResampleStep::Copy(copy)) => ratio_supported(from_sample_rate, to_sample_rate)
                && from_sample_rate == to_sample_rate && copy@ == input@,
            Ok(ResampleStep::Convert(plan)) => ratio_supported(from_sample_rate, to_sample_rate)
                && from_sample_rate != to_sample_rate && plan == plan_for(
                input@.len(),
                from_sample_rate,
                to_sample_rate,
            ),
        },
{
    if !ratio_is_supported(from_sample_rate, to_sample_rate) {
        return Err(AudioError::ConfigError);
    }
    if from_sample_rate == to_sample_rate {
        return Ok(ResampleStep::Copy(slice_to_vec(input)));
    }
    Ok(
        ResampleStep::Convert(
            SincPlan {
                from_rate: from_sample_rate,
                to_rate: to_sample_rate,
                chunk_size: input.len(),
                channels: CONVERTER_CHANNELS,
                sinc_len: SINC_LEN,
                oversampling_factor: OVERSAMPLING_FACTOR,
                cutoff_percent: CUTOFF_PERCENT,
                max_ratio_relative: MAX_RATIO_RELATIVE,
                interpolation: Interpolation::Linear,
                window: Window::BlackmanHarris2,
            },
        ),
    )
}

/// The longest output that is accepted for a plan; none for a plan whose
/// input rate is zero.
pub fn output_limit(plan: &SincPlan) -> (limit: Option<u128>)
    ensures
        match limit {
            Some(l) => plan.from_rate != 0 && l == max_output_len(
                plan.chunk_size as nat,
                plan.from_rate as nat,
                plan.to_rate as nat,
            ),
            None => plan.from_rate == 0,
        },
{
    if plan.from_rate == 0 {
        return None;
    }
    let len: u128 = plan.chunk_size as u128;
    let to: u128 = plan.to_rate as u128;
    let from: u128 = plan.from_rate as u128;
    assert(len * to <= 0xffff_ffff_ffff_ffff * 0xffff_ffff) by (nonlinear_arith)
        requires
            0 <= len <= 0xffff_ffff_ffff_ffff,
            0 <= to <= 0xffff_ffff,
    ;
    Some(len * to / from + OUTPUT_MARGIN as u128)
}

/// The shortest output that is accepted for a plan; none for a plan whose
/// input rate is zero.
pub fn output_floor(plan: &SincPlan) -> (floor: Option<u128>)
    ensures
        match floor {
            Some(l) => plan.from_rate != 0 && l == min_output_len(
                plan.chunk_size as nat,
                plan.from_rate as nat,
                plan.to_rate as nat,
            ),
            None => plan.from_rate == 0,
        },
{
    if plan.from_rate == 0 {
        return None;
    }
    if plan.chunk_size <= FILTER_WINDOW {
        return Some(0);
    }
    let rest: u128 = (plan.chunk_size - FILTER_WINDOW) as u128;
    let to: u128 = plan.to_rate as u128;
    let from: u128 = plan.from_rate as u128;
    assert(rest * to <= 0xffff_ffff_ffff_ffff * 0xffff_ffff) by (nonlinear_arith)
        requires
            0 <= rest <= 0xffff_ffff_ffff_ffff,
            0 <= to <= 0xffff_ffff,
    ;
    let scaled: u128 = (rest * to + from - 1) / from;
    if scaled <= OUTPUT_MARGIN as u128 {
        Some(0)
    } else {
        Some(scaled - OUTPUT_MARGIN as u128)
    }
}

/// What `finish_resample` answers.
pub open spec fn finished(plan: SincPlan, report: ConverterReport) -> Result<Seq<u32>, AudioError> {
    match report {
        ConverterReport::ConstructionFailed => Err(AudioError::ConfigError),
        ConverterReport::ProcessingFailed => Err(AudioError::ProcessingFailure),
        ConverterReport::Converted(waves) => if !ratio_supported(plan.from_rate, plan.to_rate) {
            Err(AudioError::ConfigError)
        } else if waves@.len() == 0 {
            Ok(Seq::empty())
        } else if !output_len_accepted(
            waves@[0]@.len(),
            plan.chunk_size as nat,
            plan.from_rate as nat,
            plan.to_rate as nat,
        ) {
            Err(AudioError::ProcessingFailure)
        } else {
            Ok(waves@[0]@)
        },
    }
}

/// Turns the converter's report into the result of the conversion. A failure
/// to set the converter up is a configuration error, and so is a plan whose
/// ratio no single call converts; a failure while the converter ran is a
/// processing failure. Of the converted channels the first is the result, and
/// where the converter produced no channel the result is empty. A channel
/// that is longer or shorter than the plan allows is refused as a processing
/// failure. So every buffer handed out has at most `max_output_len` samples,
/// which is at most twice the input and the margin, and every buffer that
/// the converter produced has at least `min_output_len`.
pub fn finish_resample(plan: &SincPlan, report: ConverterReport) -> (result: Result<
    Vec<u32>,
    AudioError,
>)
    ensures
        match result {
            Ok(out) => finished(*plan, report) == Ok::<Seq<u32>, AudioError>(out@),
            Err(e) => finished(*plan, report) == Err::<Seq<u32>, AudioError>(e),
        },
        result is Ok ==> result->Ok_0@.len() <= max_output_len(
            plan.chunk_size as nat,
            plan.from_rate as nat,
            plan.to_rate as nat,
        ) <= 2 * plan.chunk_size + OUTPUT_MARGIN,
        result is Ok && report is Converted && report->Converted_0@.len() > 0
            ==> output_len_accepted(
            result->Ok_0@.len(),
            plan.chunk_size as nat,
            plan.from_rate as nat,
            plan.to_rate as nat,
        ),
{
    match report {
        ConverterReport::ConstructionFailed => Err(AudioError::ConfigError),
        ConverterReport::ProcessingFailed => Err(AudioError::ProcessingFailure),
        ConverterReport::Converted(waves) => {
            if !ratio_is_supported(plan.from_rate, plan.to_rate) {
                return Err(AudioError::ConfigError);
            }
            proof {
                lemma_output_len_within_ratio(
                    plan.chunk_size as nat,
                    plan.from_rate as nat,
                    plan.to_rate as nat,
                );
            }
            let mut channels: Vec<Vec<u32>> = waves;
            if channels.len() == 0 {
                return Ok(Vec::new());
            }
            let first: Vec<u32> = channels.swap_remove(0);
            match (output_floor(plan), output_limit(plan)) {
                (Some(floor), Some(limit)) => if first.len() as u128 > limit || (first.len() as u128)
                    < floor {
                    Err(AudioError::ProcessingFailure)
                } else {
                    Ok(first)
                },
                _ => Err(AudioError::ConfigError),
            }
        },
    }
}

} // verus!
