//! Verified core of the moss package manager: dependency strings, package
//! metadata, the package registry and transactions, system states and the
//! planning logic behind installation, removal, pruning and verification.

pub mod text;
pub mod client;
pub mod config;
pub mod db;
pub mod dependency;
pub mod digest;
pub mod index;
pub mod info;
pub mod installation;
pub mod list;
pub mod order;
pub mod select;
pub mod stone;
pub mod package;
pub mod paragraph;
pub mod path;
pub mod registry;
pub mod repository;
pub mod state;
