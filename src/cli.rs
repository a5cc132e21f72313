//! The command-line choices that shape one build run.
use crate::coordinator::{Coordinator, RunError};
use crate::coordinator::lemma_leaf_is_ready;
use crate::job::{ids_distinguish_nodes, job_id, Rbt};
use crate::coordinator::Runner as _;
use crate::runner::{FakeRunner, Runner};
use vstd::prelude::*;

verus! {

/// Options of one invocation: where the build description comes from,
/// whether to print it, and which backend runs the jobs.
pub struct Cli {
    /// Load the build description from this JSON file instead of the
    /// configuration frontend.
    pub load_from_json: Option<String>,
    /// Print the loaded build description as JSON before running.
    pub dump_to_json: bool,
    /// Use a backend that runs nothing.
    pub use_fake_runner: bool,
}

impl Cli {
    /// Builds the graph of `rbt`'s default job and runs it with the backend
    /// these options select. The fake backend succeeds on every job, so the
    /// run ends in success or, if jobs wait on each other, in a deadlock.
    /// The real backend fails on the first job it is handed.
    pub fn run(&self, rbt: &Rbt) -> (r: Result<(), RunError>)
        ensures
            !(r matches Err(RunError::NoReadyWork)),
            self.use_fake_runner ==> (r is Ok || r matches Err(RunError::Deadlock { .. })),
            !self.use_fake_runner ==> (r matches Err(RunError::JobFailed { .. }) || r matches Err(
                RunError::Deadlock { .. },
            )),
            !self.use_fake_runner && ids_distinguish_nodes(rbt.default) ==> (r matches Err(
                RunError::JobFailed { .. },
            )),
    {
        let mut c = Coordinator::new();
        c.add_target(&rbt.default);
        proof {
            c.lemma_wf_facts();
            assert(c.node_table().contains_key(job_id(rbt.default)));
            if ids_distinguish_nodes(rbt.default) {
                lemma_leaf_is_ready(c, rbt.default);
            }
        }
        if self.use_fake_runner {
            let runner = FakeRunner::new();
            while c.has_outstanding_work()
                invariant
                    c.wf(),
                    self.use_fake_runner,
                decreases 2 * c.blocked_count() + c.ready_ids().len(),
            {
                let id = match c.start_next() {
                    Ok(id) => id,
                    Err(e) => {
                        return Err(e);
                    },
                };
                let outcome = runner.run(c.job(id).unwrap());
                let _ = c.complete(id, outcome);
            }
            Ok(())
        } else {
            let id = match c.start_next() {
                Ok(id) => id,
                Err(e) => {
                    return Err(e);
                },
            };
            let outcome = Runner::new().run(c.job(id).unwrap());
            c.complete(id, outcome)
        }
    }
}

} // verus!
