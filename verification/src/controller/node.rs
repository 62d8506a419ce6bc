//! The node agent: joins the cluster, then marks pods assigned to it as
//! running.

use vstd::prelude::*;

use crate::abstract_model::{Operation, OperationView};
use crate::resources::{NodeResourceView, Pod, PodView, ResourceQuantities};
use crate::state::{StateView, StateViewView};
use crate::utils::{kmap_get, kv_get, str_set_has};

verus! {

/// The node agent controller; it carries no configuration and acts for the
/// node whose id it is stepped with.
#[derive(Debug, Clone, Copy, PartialEq, Eq, Hash, Structural, Default)]
pub struct Node;

/// The node agent's local state: a cache of the pods it has started.
#[derive(Debug, Clone, PartialEq, Eq, Hash, Default)]
pub struct NodeState {
    pub running: Vec<String>,
}

/// The capacity a joining node announces.
pub open spec fn spec_default_capacity() -> ResourceQuantities {
    ResourceQuantities { cpu_cores: 4, memory_mb: 4000, pods: 32 }
}

/// The first pod assigned to this node that the node is not yet running.
pub open spec fn spec_first_not_running(pods: Seq<PodView>, node: NodeResourceView, id: usize)
    -> Option<PodView>
    decreases pods.len(),
{
    if pods.len() == 0 {
        None
    } else if pods[0].spec.node_name == Some(id) && !str_set_has(
        node.running,
        pods[0].metadata.name,
    ) {
        Some(pods[0])
    } else {
        spec_first_not_running(pods.drop_first(), node, id)
    }
}

/// What one node-agent step emits: a `NodeJoin` while the node is absent
/// from the snapshot, else `RunPod` for the first assigned pod it is not yet
/// running.
pub open spec fn node_step_spec(id: usize, v: StateViewView) -> Option<OperationView> {
    match kmap_get(v.nodes, id) {
        None => Some(OperationView::NodeJoin(id, spec_default_capacity())),
        Some(node) => match spec_first_not_running(v.pods, node, id) {
            None => None,
            Some(p) => Some(OperationView::RunPod(p.metadata.name, id)),
        },
    }
}

/// One node-agent step on an observed snapshot.
pub fn node_step(id: usize, state: &StateView) -> (r: Option<Operation>)
    ensures
        r.deep_view() == node_step_spec(id, state@),
{
    let node = match kv_get(&state.nodes, id) {
        None => {
            let r = Some(Operation::NodeJoin(
                id,
                ResourceQuantities { cpu_cores: 4, memory_mb: 4000, pods: 32 },
            ));
            proof {
                assert(r.deep_view() == node_step_spec(id, state@));
            }
            return r;
        },
        Some(n) => n.clone(),
    };
    let ghost nodev = node.deep_view();
    let pods = state.pods.to_vec();
    let ghost pv = state@.pods;
    proof {
        assert(pv.skip(0) =~= pv);
    }
    let mut i: usize = 0;
    while i < pods.len()
        invariant
            nodev == node.deep_view(),
            kmap_get(state@.nodes, id) == Some(nodev),
            pv == state@.pods,
            pods.deep_view() == pv,
            i <= pods@.len() == pv.len(),
            spec_first_not_running(pv, nodev, id) == spec_first_not_running(
                pv.skip(i as int),
                nodev,
                id,
            ),
        decreases pods.len() - i,
    {
        proof {
            assert(pv[i as int] == pods@[i as int].deep_view());
            assert(pv.skip(i as int)[0] == pv[i as int]);
            assert(pv.skip(i as int).drop_first() =~= pv.skip(i + 1));
        }
        let assigned = match pods[i].spec.node_name {
            Some(n) => n == id,
            None => false,
        };
        if assigned && !running_contains(&node.running, pods[i].metadata.name.as_str()) {
            proof {
                assert(spec_first_not_running(pv.skip(i as int), nodev, id) == Some(
                    pv[i as int],
                ));
            }
            let op = Operation::RunPod(pods[i].metadata.name.clone(), id);
            proof {
                assert(op@ =~= OperationView::RunPod(pv[i as int].metadata.name, id));
                assert(node_step_spec(id, state@) == Some(op@));
            }
            return Some(op);
        }
        i = i + 1;
    }
    proof {
        assert(pv.skip(pv.len() as int) =~= Seq::<PodView>::empty());
    }
    None
}

/// Whether the running set holds this pod name.
fn running_contains(running: &Vec<String>, name: &str) -> (r: bool)
    ensures
        r == str_set_has(running.deep_view(), name@),
{
    let ghost rv = running.deep_view();
    let mut i: usize = 0;
    while i < running.len()
        invariant
            rv == running.deep_view(),
            i <= running@.len() == rv.len(),
            forall|j: int| 0 <= j < i ==> #[trigger] rv[j] != name@,
        decreases running.len() - i,
    {
        proof {
            assert(rv[i as int] == running@[i as int]@);
        }
        if crate::utils::str_eq(running[i].as_str(), name) {
            proof {
                assert(rv[i as int] == name@);
            }
            return true;
        }
        i = i + 1;
    }
    proof {
        if str_set_has(rv, name@) {
            let w = choose|w: int| 0 <= w < rv.len() && #[trigger] rv[w] == name@;
            assert(false);
        }
    }
    false
}

} // verus!
