//! Butler: discovering, opening and cancelling remote Code Server sessions
//! that Open OnDemand launched on a Slurm cluster.
//!
//! This crate holds the logic that decides: the parsing of what the cluster
//! reports, the validation of configuration and paths, the shell quoting of
//! remote commands and the project store. Processes, sockets, files and the
//! desktop shell stay with the application that uses it.
use vstd::prelude::*;

pub mod text;
pub mod models;
pub mod slurm;
pub mod connection;
pub mod protocol;
pub mod ood;
pub mod discovery;
pub mod config;
pub mod ssh;
pub mod projects;
pub mod demo;
pub mod backend;

verus! {

} // verus!
