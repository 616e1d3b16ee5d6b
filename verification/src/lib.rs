//! A verified core of a patch-based version control system: the pristine
//! graph, the application of changes, conflict detection, identities,
//! configuration and user interaction.
use vstd::prelude::*;

pub mod application;
pub mod commands;
pub mod config;
pub mod apply;
pub mod atoms;
pub mod base32;
pub mod change;
pub mod changestore;
pub mod graph;
pub mod identity;
pub mod identity_command;
pub mod interaction;
pub mod missing_context;
pub mod output;
pub mod output_names;
pub mod path;
pub mod pristine;
pub mod txn;
pub mod working_copy;

verus! {
} // verus!
