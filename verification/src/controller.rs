//! The controllers: each is a pure step function from an observed snapshot to
//! at most one store operation.

pub mod job;
pub mod node;
pub mod scheduler;
pub mod util;

use vstd::prelude::*;

use crate::abstract_model::{Operation, OperationView};
use crate::state::{state_view_wf, StateView, StateViewView};

verus! {

/// A reconciler: a pure step function plus a small owned local state. The
/// first action an unregistered controller emits must be its own
/// `ControllerJoin`.
pub trait Controller {
    /// Controller-local state, opaque to the driver.
    type State: Default + Clone;

    /// What the controller asks the store to do.
    type Action;

    /// Take one step against an observed snapshot, returning at most one
    /// action. Deterministic in its inputs.
    fn step(&self, id: usize, global_state: &StateView, local_state: &mut Self::State) -> Option<
        Self::Action,
    >
        requires
            global_state.wf(),
    ;

    /// The controller's name.
    fn name(&self) -> String;
}

/// The controllers a model may run, as one sum type.
#[derive(Debug, Clone, Copy, PartialEq, Eq, Hash, Structural)]
pub enum Controllers {
    Node(crate::controller::node::Node),
    Scheduler(crate::controller::scheduler::Scheduler),
    Job(crate::controller::job::JobController),
}

/// What one controller step may emit on a snapshot: the node agent and the
/// scheduler are pinned exactly; the job controller keeps the reconcile
/// promises.
pub open spec fn controllers_step_post(
    c: Controllers,
    id: usize,
    v: StateViewView,
    r: Option<OperationView>,
) -> bool {
    match c {
        Controllers::Node(_) => r == crate::controller::node::node_step_spec(id, v),
        Controllers::Scheduler(_) => r == crate::controller::scheduler::scheduler_step_spec(
            id,
            v,
        ),
        Controllers::Job(_) => crate::controller::job::job_step_post(id, v, r),
    }
}

impl Controllers {
    /// One step of the wrapped controller, lifted to a store operation.
    pub fn step(&self, id: usize, state: &StateView) -> (r: Option<Operation>)
        requires
            state.wf(),
        ensures
            controllers_step_post(*self, id, state@, r.deep_view()),
    {
        match self {
            Controllers::Node(_) => crate::controller::node::node_step(id, state),
            Controllers::Scheduler(_) => crate::controller::scheduler::scheduler_step(id, state),
            Controllers::Job(_) => crate::controller::job::job_controller_step(id, state),
        }
    }

    /// The wrapped controller's name.
    pub fn name(&self) -> (r: String)
        ensures
            match self {
                Controllers::Node(_) => r@ == "Node"@,
                Controllers::Scheduler(_) => r@ == "Scheduler"@,
                Controllers::Job(_) => r@ == "Job"@,
            },
    {
        match self {
            Controllers::Node(_) => {
                proof {
                    reveal_strlit("Node");
                }
                String::from_str("Node")
            },
            Controllers::Scheduler(_) => {
                proof {
                    reveal_strlit("Scheduler");
                }
                String::from_str("Scheduler")
            },
            Controllers::Job(_) => {
                proof {
                    reveal_strlit("Job");
                }
                String::from_str("Job")
            },
        }
    }
}

} // verus!
