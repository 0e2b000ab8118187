//! A batch rename to the etree track-name standard.

pub mod execute;
pub mod plan;

pub use execute::{check_rename, rename_steps, renamed, step_error, undo_steps, RenameStep};
pub use plan::{plan_rename, NameSpec, RenameEntry, RenamePlan, RenameStatus};
