//! Verified core of the Zed extension catalogue synchroniser.

pub mod catalog;
pub mod files;
pub mod git;
pub mod grammar;
pub mod install;
pub mod order;
pub mod output;
pub mod registry;
pub mod text;
