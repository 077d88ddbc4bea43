//! The planning behind the client's operations on an installation.

pub mod boot;
pub mod cache;
pub mod install;
pub mod postblit;
pub mod prune;
pub mod remove;
pub mod upgrade;
pub mod verify;
