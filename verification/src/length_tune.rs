//! Length tuning parameters shared with the meander generator.
use vstd::prelude::*;

verus! {

/// Meander pattern style.
#[derive(Debug, Clone, Copy, PartialEq, Eq, Structural)]
pub enum MeanderStyle {
    /// Trombone-style meanders (U-shaped bends).
    Trombone,
    /// Sawtooth meanders (zigzag).
    Sawtooth,
}

} // verus!
