//! Signed time spans stored as one IEEE 754 binary64 count of seconds.
//!
//! A `FloatDuration` is made for arithmetic: it is added, scaled and divided
//! like a number, converted from and to the durations of the standard
//! library and of `chrono`, taken apart into days, hours, minutes and
//! seconds, and laid out in evenly spaced steps.
//!
//! The crate carries every double as its 64-bit pattern, a `Binary64`, and
//! does the arithmetic on that pattern with integers, rounding to nearest
//! with ties to even. Each operation has a contract that says which pattern
//! comes back, and the module `laws` holds what follows from these contracts.
pub mod arithmetic;
pub mod binary64;
pub mod calendar;
pub mod conversion;
pub mod convert;
pub mod decomposed;
pub mod display;
pub mod duration;
pub mod error;
pub mod iter;
pub mod laws;
pub mod monotonic;
pub mod order;
pub mod rounding;
pub mod text;
pub mod timepoint;
pub mod whole;

pub use binary64::Binary64;
pub use decomposed::DecomposedTime;
pub use duration::FloatDuration;
pub use duration::{
    MICROS_PER_SEC, MILLIS_PER_SEC, NANOS_PER_SEC, SECS_PER_DAY, SECS_PER_HOUR, SECS_PER_MINUTE,
    SECS_PER_YEAR,
};
pub use error::OutOfRangeError;
pub use timepoint::{FromDuration, IntoDuration, TimePoint};
