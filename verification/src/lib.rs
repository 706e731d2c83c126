//! Audio pre-processing on in-memory sample buffers: stereo-to-mono reduction,
//! planning and checking of sample-rate conversion, and loudness normalisation.
//!
//! A sample is carried as the bit pattern of an IEEE 754 binary32 number
//! (`u32`), and all arithmetic on samples is done on integers and proved to be
//! the correctly rounded IEEE result.
pub mod arithmetic;
pub mod binary32;
pub mod channels;
pub mod error;
pub mod loudness;
pub mod resample;
pub mod rounding;
