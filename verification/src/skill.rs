//! The difficulty mode of a play session.
//!
//! The mode only steers how the food economy around the core picks the next
//! food; the core never reads it.

use vstd::prelude::*;

verus! {

/// How the surrounding game scales its difficulty over a session.
#[derive(Clone, Copy, PartialEq, Eq, Debug, Structural)]
pub enum SkillMode {
    /// Starts easy and hardens as time passes.
    Career,
    /// Fully random difficulty.
    Random,
    /// Always hard.
    Jam,
}

} // verus!
