//! A small job-orchestration core: jobs with declared dependencies and
//! ordered steps, a dependency-respecting run order for a requested job,
//! command resolution for each step, and a supervision state machine for
//! persistent child processes.

pub mod job;
mod relation;
pub mod runfile;
pub mod step;
pub mod supervisor;

use vstd::prelude::*;

verus! {

} // verus!
