//! Assembling a model configuration from counts of controllers.

use vstd::prelude::*;

use crate::abstract_model::AbstractModelCfg;
use crate::controller::Controllers;
use crate::state::{ConsistencySetup, StateView};

verus! {

/// A model configuration given by counts: how many node agents, schedulers
/// and job controllers run against the seeded store.
#[derive(Debug)]
pub struct OrchestrationModelCfg {
    /// The initial snapshot.
    pub initial_state: StateView,
    /// The consistency level of the store.
    pub consistency_level: ConsistencySetup,
    /// The number of node agents to run.
    pub nodes: usize,
    /// The number of schedulers to run.
    pub schedulers: usize,
    /// The number of job controllers to run.
    pub job_controllers: usize,
}

impl OrchestrationModelCfg {
    /// The abstract model this configuration stands for: the node agents
    /// first, then the schedulers, then the job controllers.
    pub fn into_abstract_model(self) -> (r: AbstractModelCfg)
        requires
            self.nodes + self.schedulers + self.job_controllers <= usize::MAX,
        ensures
            r.initial_state == self.initial_state,
            r.consistency_level == self.consistency_level,
            r.controllers@.len() == self.nodes + self.schedulers + self.job_controllers,
            forall|i: int|
                0 <= i < self.nodes ==> #[trigger] r.controllers@[i] == Controllers::Node(
                    crate::controller::node::Node,
                ),
            forall|i: int|
                self.nodes <= i < self.nodes + self.schedulers ==> #[trigger] r.controllers@[i]
                    == Controllers::Scheduler(crate::controller::scheduler::Scheduler),
            forall|i: int|
                self.nodes + self.schedulers <= i < r.controllers@.len()
                    ==> #[trigger] r.controllers@[i] == Controllers::Job(
                    crate::controller::job::JobController,
                ),
    {
        let mut controllers: Vec<Controllers> = Vec::new();
        let mut i: usize = 0;
        while i < self.nodes
            invariant
                i <= self.nodes,
                controllers@.len() == i,
                forall|j: int|
                    0 <= j < i ==> #[trigger] controllers@[j] == Controllers::Node(
                        crate::controller::node::Node,
                    ),
            decreases self.nodes - i,
        {
            controllers.push(Controllers::Node(crate::controller::node::Node));
            i = i + 1;
        }
        let mut s: usize = 0;
        while s < self.schedulers
            invariant
                self.nodes + self.schedulers <= usize::MAX,
                s <= self.schedulers,
                controllers@.len() == self.nodes + s,
                forall|j: int|
                    0 <= j < self.nodes ==> #[trigger] controllers@[j] == Controllers::Node(
                        crate::controller::node::Node,
                    ),
                forall|j: int|
                    self.nodes <= j < self.nodes + s ==> #[trigger] controllers@[j]
                        == Controllers::Scheduler(crate::controller::scheduler::Scheduler),
            decreases self.schedulers - s,
        {
            controllers.push(Controllers::Scheduler(crate::controller::scheduler::Scheduler));
            s = s + 1;
        }
        let mut j: usize = 0;
        while j < self.job_controllers
            invariant
                self.nodes + self.schedulers + self.job_controllers <= usize::MAX,
                j <= self.job_controllers,
                controllers@.len() == self.nodes + self.schedulers + j,
                forall|k: int|
                    0 <= k < self.nodes ==> #[trigger] controllers@[k] == Controllers::Node(
                        crate::controller::node::Node,
                    ),
                forall|k: int|
                    self.nodes <= k < self.nodes + self.schedulers ==> #[trigger] controllers@[k]
                        == Controllers::Scheduler(crate::controller::scheduler::Scheduler),
                forall|k: int|
                    self.nodes + self.schedulers <= k < self.nodes + self.schedulers + j
                        ==> #[trigger] controllers@[k] == Controllers::Job(
                        crate::controller::job::JobController,
                    ),
            decreases self.job_controllers - j,
        {
            controllers.push(Controllers::Job(crate::controller::job::JobController));
            j = j + 1;
        }
        AbstractModelCfg {
            controllers,
            initial_state: self.initial_state,
            consistency_level: self.consistency_level,
        }
    }
}

} // verus!
