//! The error of a rejected level.

use crate::binary64::Binary64;
use vstd::prelude::*;

verus! {

/// A level was asked for that is no probability.
#[derive(Clone, Copy, Debug)]
pub enum ConfidenceError {
    /// The offending fraction: below zero, above one, or not a number.
    Value(Option<Binary64>),
}

} // verus!
