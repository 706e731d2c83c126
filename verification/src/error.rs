//! The failures that the library reports.
use vstd::prelude::*;

verus! {

/// What went wrong in a call into the library.
#[derive(Clone, Copy, Debug, PartialEq, Eq, Structural)]
pub enum AudioError {
    /// The shape of a buffer is wrong, such as an odd number of samples where
    /// stereo frames are expected.
    InvalidInput,
    /// A parameter given at construction is not supported: a zero sample rate,
    /// an unsupported channel count.
    ConfigError,
    /// No usable loudness can be computed from the signal measured so far.
    MeasurementError,
    /// A processing step failed or handed back something it must not.
    ProcessingFailure,
}

impl AudioError {
    /// The text that goes with each failure.
    pub open spec fn spec_message(self) -> Seq<char> {
        match self {
            AudioError::InvalidInput => "buffer shape is invalid"@,
            AudioError::ConfigError => "configuration is not supported"@,
            AudioError::MeasurementError => "loudness cannot be measured yet"@,
            AudioError::ProcessingFailure => "processing failed"@,
        }
    }

    /// A short description of the failure.
    pub fn message(&self) -> (text: &'static str)
        ensures
            text@ == self.spec_message(),
    {
        match self {
            AudioError::InvalidInput => "buffer shape is invalid",
            AudioError::ConfigError => "configuration is not supported",
            AudioError::MeasurementError => "loudness cannot be measured yet",
            AudioError::ProcessingFailure => "processing failed",
        }
    }
}

} // verus!
