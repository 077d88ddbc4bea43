//! What the package databases hold, and how their queries select rows.

pub mod layout;
pub mod meta;
