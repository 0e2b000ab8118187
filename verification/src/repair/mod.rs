//! Planning and carrying out a sector-boundary repair.

pub mod in_place;
pub mod members;
pub mod plan;
pub mod ranges;
pub mod shift;
pub mod wavs;

pub use in_place::{InPlace, SBE_FIX_ORIGINALS_DIR};
pub use members::{set_format, Fixed, RepairEncode};
pub use plan::{plan_fix, BoundaryDirection, BoundaryFix, FixPlan, FixStep, TailPolicy};
