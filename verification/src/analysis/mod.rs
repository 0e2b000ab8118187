//! Read-only analysis of audio files.

pub mod sbe;
pub mod sbe_fix;
pub mod verify;

pub use crate::repair::{
    plan_fix, BoundaryDirection, BoundaryFix, FixPlan, Fixed, RepairEncode, TailPolicy,
};
pub use sbe::{sbe, Sbe};
pub use sbe_fix::execute_single_boundary;
pub use verify::{verify, Verification};
