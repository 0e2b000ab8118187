//! A show's info file: header, setlist and track times, from the tags.
//!
//! A plan collects what the files say and what they cannot say cleanly; rendering turns it
//! into text. An existing file is never replaced unless asked, since an info file is usually
//! hand-written and cannot be regenerated.

pub mod plan;
pub mod render;
pub mod told;

pub use plan::{file_name, plan, InfoPlan, Problem, Track};
pub use render::{decide, file_text, render, Decision};
