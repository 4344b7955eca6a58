//! Statistical inference for measurement analysis: confidence and
//! significance levels, confidence intervals, and the statistic of
//! Bartlett's test for equal variances.
//!
//! Every number is an IEEE 754 binary64 value held by its encoding, a
//! [`Binary64`]. The arithmetic on them is carried out on integers and proved
//! to round as the standard asks, so that each result of the library is
//! stated exactly: as the encoding that a given real number rounds to.
//!
//! ```
//! use confi::{Binary64, ConfidenceLevel};
//!
//! // one tenth and ten, by their encodings
//! let from_fraction = ConfidenceLevel::fractional(Binary64::from_bits(0x3fb9_9999_9999_999a)).unwrap();
//! let from_percentage = ConfidenceLevel::percentage(Binary64::from_bits(0x4024_0000_0000_0000)).unwrap();
//!
//! assert_eq!(from_fraction, from_percentage);
//! ```

pub mod arithmetic;
pub mod bartlett;
pub mod binary64;
pub mod confidence;
pub mod error;
pub mod probability;
pub mod rounding;
pub mod significance;

pub use bartlett::{BartlettTestError, BartlettTestResult, SampleGroup};
pub use binary64::Binary64;
pub use confidence::interval::{Confidence, ConfidenceInterval};
pub use confidence::ConfidenceLevel;
pub use error::ConfidenceError;
pub use significance::SignificanceLevel;
