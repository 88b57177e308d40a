//! Write-buffering and conflict-detection core of a software transactional
//! memory runtime.
//!
//! A transaction accumulates tentative writes in a private [`WriteLog`]
//! without applying them. An approximate membership filter answers "is this
//! cell already in my write set?" in constant time in the common negative
//! case, with an exact overflow index for the rare positive case. At commit
//! time the log drives a three-phase protocol over the target cells: lock
//! every written cell, validate the snapshot, apply the pending values, and
//! publish the commit epoch while releasing the locks.

pub mod bloom;
pub mod cell;
pub mod laws;
pub mod write_log;
