//! Execution backends.
use crate::coordinator::{self, RunnableJob};
use vstd::prelude::*;

verus! {

/// The real backend. Materialising inputs and running tools is not
/// available yet, so every job it is handed fails.
pub struct Runner {}

impl Runner {
    pub fn new() -> (r: Runner) {
        Runner {  }
    }
}

impl coordinator::Runner for Runner {
    fn run(&self, job: &RunnableJob) -> (r: Result<(), String>)
        ensures
            r is Err,
    {
        if job.inputs.len() > 0 {
            Err("real runner does not handle dependency inputs yet".to_string())
        } else if job.input_files.len() > 0 {
            Err("real runner does not handle input files yet".to_string())
        } else {
            Err("real runner is unimplemented".to_string())
        }
    }
}

/// A backend that runs nothing and reports success for every job; for
/// exercising the scheduling logic without side effects.
pub struct FakeRunner {}

impl FakeRunner {
    pub fn new() -> (r: FakeRunner) {
        FakeRunner {  }
    }
}

impl coordinator::Runner for FakeRunner {
    fn run(&self, _job: &RunnableJob) -> (r: Result<(), String>)
        ensures
            r is Ok,
    {
        Ok(())
    }
}

} // verus!
