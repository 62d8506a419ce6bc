//! The scheduler: assigns each unscheduled pod to the least loaded node.

use vstd::prelude::*;

use crate::abstract_model::{Operation, OperationView};
use crate::state::{StateView, StateViewView};
use crate::resources::{NodeResourceView, Pod, PodView};
use crate::utils::{uset_has, uset_contains};

verus! {

/// The scheduler controller; it carries no configuration.
#[derive(Debug, Clone, Copy, PartialEq, Eq, Hash, Structural, Default)]
pub struct Scheduler;

/// The scheduler's local state; it needs none.
#[derive(Debug, Clone, Copy, PartialEq, Eq, Hash, Structural, Default)]
pub struct SchedulerState;

/// The first pod in name order with no node assigned.
pub open spec fn spec_first_unscheduled(pods: Seq<PodView>) -> Option<PodView>
    decreases pods.len(),
{
    if pods.len() == 0 {
        None
    } else if pods[0].spec.node_name is None {
        Some(pods[0])
    } else {
        spec_first_unscheduled(pods.drop_first())
    }
}

/// The id of the first node with the fewest running pods.
pub open spec fn spec_least_loaded(nodes: Seq<(usize, NodeResourceView)>) -> Option<usize>
    decreases nodes.len(),
{
    if nodes.len() == 0 {
        None
    } else {
        match spec_least_loaded(nodes.drop_first()) {
            None => Some(nodes[0].0),
            Some(best) => if nodes[0].1.running.len()
                <= spec_running_of(nodes.drop_first(), best) {
                Some(nodes[0].0)
            } else {
                Some(best)
            },
        }
    }
}

/// How many pods run on the node with this id.
pub open spec fn spec_running_of(nodes: Seq<(usize, NodeResourceView)>, id: usize) -> nat
    decreases nodes.len(),
{
    if nodes.len() == 0 {
        0
    } else if nodes[0].0 == id {
        nodes[0].1.running.len()
    } else {
        spec_running_of(nodes.drop_first(), id)
    }
}

/// What one scheduler step emits: its own registration first, then a
/// `SchedulePod` binding the first unscheduled pod to the least loaded node.
pub open spec fn scheduler_step_spec(id: usize, v: StateViewView) -> Option<OperationView> {
    if !uset_has(v.controllers, id) {
        Some(OperationView::ControllerJoin(id))
    } else {
        match spec_first_unscheduled(v.pods) {
            None => None,
            Some(p) => match spec_least_loaded(v.nodes) {
                None => None,
                Some(node) => Some(OperationView::SchedulePod(p.metadata.name, node)),
            },
        }
    }
}

/// One scheduler step on an observed snapshot.
pub fn scheduler_step(id: usize, state: &StateView) -> (r: Option<Operation>)
    requires
        state.wf(),
    ensures
        r.deep_view() == scheduler_step_spec(id, state@),
{
    if !uset_contains(&state.controllers, id) {
        return Some(Operation::ControllerJoin(id));
    }
    let pods = state.pods.to_vec();
    let ghost pv = state@.pods;
    proof {
        assert(pv.skip(0) =~= pv);
    }
    let mut i: usize = 0;
    while i < pods.len()
        invariant
            state.wf(),
            pv == state@.pods,
            crate::utils::uset_has(state@.controllers, id),
            pods.deep_view() == pv,
            i <= pods@.len() == pv.len(),
            forall|j: int| 0 <= j < i ==> !((#[trigger] pv[j]).spec.node_name is None),
            spec_first_unscheduled(pv) == spec_first_unscheduled(pv.skip(i as int)),
        decreases pods.len() - i,
    {
        proof {
            assert(pv[i as int] == pods@[i as int].deep_view());
            assert(pv.skip(i as int)[0] == pv[i as int]);
            assert(pv.skip(i as int).drop_first() =~= pv.skip(i + 1));
        }
        if pods[i].spec.node_name.is_none() {
            // find the least loaded node
            let node = least_loaded(&state.nodes);
            proof {
                assert(spec_first_unscheduled(pv.skip(i as int)) == Some(pv[i as int]));
            }
            match node {
                None => {
                    proof {
                        assert(scheduler_step_spec(id, state@) is None);
                    }
                    return None;
                },
                Some(n) => {
                    let op = Operation::SchedulePod(pods[i].metadata.name.clone(), n);
                    proof {
                        assert(op@ =~= OperationView::SchedulePod(
                            pv[i as int].metadata.name,
                            n,
                        ));
                        assert(scheduler_step_spec(id, state@) == Some(op@));
                    }
                    return Some(op);
                },
            }
        }
        i = i + 1;
    }
    proof {
        assert(pv.skip(pv.len() as int) =~= Seq::<PodView>::empty());
    }
    None
}

/// The id named by the least-loaded computation is one of the nodes'.
proof fn lemma_least_loaded_mem(s: Seq<(usize, NodeResourceView)>)
    ensures
        spec_least_loaded(s) matches Some(b) ==> exists|k: int|
            0 <= k < s.len() && (#[trigger] s[k]).0 == b,
    decreases s.len(),
{
    if s.len() > 0 {
        let s1 = s.drop_first();
        lemma_least_loaded_mem(s1);
        match spec_least_loaded(s) {
            Some(b) => {
                if b == s[0].0 {
                    assert(s[0].0 == b);
                } else {
                    let k = choose|k: int| 0 <= k < s1.len() && (#[trigger] s1[k]).0 == b;
                    assert(s[k + 1].0 == b);
                }
            },
            None => {},
        }
    }
}

/// The first node with the fewest running pods, if any node exists.
fn least_loaded(nodes: &Vec<(usize, crate::resources::NodeResource)>) -> (r: Option<usize>)
    requires
        crate::utils::kmap_sorted(nodes.deep_view()),
    ensures
        r == spec_least_loaded(nodes.deep_view()),
{
    let ghost nv = nodes.deep_view();
    if nodes.len() == 0 {
        return None;
    }
    // scan from the back so the head-recursive specification unfolds in step
    let mut idx: usize = nodes.len() - 1;
    proof {
        assert(nv[idx as int] == nodes@[idx as int].deep_view());
        assert(nv.skip(idx as int)[0] == nv[idx as int]);
        assert(nv.skip(idx as int).drop_first() =~= nv.skip(idx + 1));
        assert(nv.skip(idx as int).len() == 1);
        assert(spec_least_loaded(nv.skip(idx + 1)) is None);
    }
    let mut best: usize = nodes[idx].0;
    let mut best_load: usize = nodes[idx].1.running.len();
    proof {
        assert(best == nv[idx as int].0);
        assert(nv[idx as int].1.running.len() == nodes@[idx as int].1.running@.len());
        assert(spec_least_loaded(nv.skip(idx as int)) == Some(best));
        assert(spec_running_of(nv.skip(idx as int), best) == best_load);
    }
    while idx > 0
        invariant
            nv == nodes.deep_view(),
            crate::utils::kmap_sorted(nv),
            0 <= idx < nodes@.len() == nv.len(),
            spec_least_loaded(nv.skip(idx as int)) == Some(best),
            spec_running_of(nv.skip(idx as int), best) == best_load,
        decreases idx,
    {
        idx = idx - 1;
        proof {
            assert(nv[idx as int] == nodes@[idx as int].deep_view());
            assert(nv.skip(idx as int)[0] == nv[idx as int]);
            assert(nv.skip(idx as int).drop_first() =~= nv.skip(idx + 1));
            assert(nv[idx as int].1.running.len() == nodes@[idx as int].1.running@.len());
        }
        let load = nodes[idx].1.running.len();
        if load <= best_load {
            best = nodes[idx].0;
            best_load = load;
            proof {
                assert(spec_running_of(nv.skip(idx as int), best) == load);
            }
        } else {
            proof {
                // the running best comes from a later node, so its id differs
                lemma_least_loaded_mem(nv.skip(idx + 1));
                let k = choose|k: int|
                    0 <= k < nv.skip(idx + 1).len() && (#[trigger] nv.skip(idx + 1)[k]).0 == best;
                assert(nv.skip(idx + 1)[k] == nv[k + idx + 1]);
                assert(nv[idx as int].0 < nv[k + idx + 1].0);
                assert(spec_running_of(nv.skip(idx as int), best) == spec_running_of(
                    nv.skip(idx + 1),
                    best,
                ));
            }
        }
    }
    proof {
        assert(nv.skip(0) =~= nv);
    }
    Some(best)
}


/// A non-empty cluster always has a least loaded node.
pub proof fn lemma_least_loaded_some(nodes: Seq<(usize, NodeResourceView)>)
    requires
        nodes.len() > 0,
    ensures
        spec_least_loaded(nodes) is Some,
    decreases nodes.len(),
{
    if nodes.drop_first().len() > 0 {
        lemma_least_loaded_some(nodes.drop_first());
    }
}

/// A registered scheduler facing an unscheduled pod and at least one node
/// always emits a scheduling operation, so under a strong history every pod
/// is eventually assigned a node.
pub proof fn lemma_scheduler_makes_progress(id: usize, v: StateViewView)
    requires
        uset_has(v.controllers, id),
        spec_first_unscheduled(v.pods) is Some,
        v.nodes.len() > 0,
    ensures
        scheduler_step_spec(id, v) matches Some(op) && op matches OperationView::SchedulePod(
            name,
            node,
        ),
{
    lemma_least_loaded_some(v.nodes);
}

} // verus!
