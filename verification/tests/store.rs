use themelios::abstract_model::{Change, Operation};
use themelios::resources::{Metadata, Pod, ResourceQuantities};
use themelios::state::{ConsistencySetup, Revision, State, StateView};

fn blank_view() -> StateView {
    StateView::default()
}

fn new_pod_op(name: &str) -> Operation {
    Operation::NewPod(name.to_string())
}

#[test]
fn strong_history_keeps_only_latest() {
    let mut state = State::new(blank_view(), ConsistencySetup::Strong);
    let r1 = state.push_change(Change { revision: Revision(0), operation: new_pod_op("a") }, 0);
    assert_eq!(r1, Revision(1));
    let r2 = state.push_change(Change { revision: r1, operation: new_pod_op("b") }, 0);
    assert_eq!(r2, Revision(2));
    assert_eq!(state.max_revision(), Revision(2));
    let views = state.views(0);
    assert_eq!(views.len(), 1);
    assert_eq!(views[0].revision, Revision(2));
    // the retained snapshot answers to its own revision
    assert_eq!(state.view_at(Revision(2)).revision, Revision(2));
    assert_eq!(state.view_at(Revision(2)).pods.len(), 2);
}

#[test]
fn bounded_history_keeps_a_ring() {
    let mut state = State::new(blank_view(), ConsistencySetup::BoundedStaleness(1));
    for (i, name) in ["a", "b", "c"].iter().enumerate() {
        state.push_change(
            Change { revision: Revision(i), operation: new_pod_op(name) },
            0,
        );
    }
    let revs: Vec<Revision> = state.views(0).iter().map(|v| v.revision).collect();
    assert_eq!(revs, vec![Revision(2), Revision(3)]);
}

#[test]
fn session_history_hides_older_snapshots_from_writers() {
    let mut state = State::new(blank_view(), ConsistencySetup::Session);
    state.push_change(Change { revision: Revision(0), operation: new_pod_op("a") }, 7);
    state.push_change(Change { revision: Revision(1), operation: new_pod_op("b") }, 7);
    // session 7 has written at revision 2 and may not go back
    let revs7: Vec<Revision> = state.views(7).iter().map(|v| v.revision).collect();
    assert_eq!(revs7, vec![Revision(2)]);
    // an unknown session may observe everything still retained
    let revs9: Vec<Revision> = state.views(9).iter().map(|v| v.revision).collect();
    assert_eq!(revs9, vec![Revision(2)]);
}

#[test]
fn eventual_history_keeps_everything() {
    let mut state = State::new(blank_view(), ConsistencySetup::Eventual);
    state.push_change(Change { revision: Revision(0), operation: new_pod_op("a") }, 0);
    state.push_change(Change { revision: Revision(1), operation: new_pod_op("b") }, 0);
    let revs: Vec<Revision> = state.views(3).iter().map(|v| v.revision).collect();
    assert_eq!(revs, vec![Revision(0), Revision(1), Revision(2)]);
}

#[test]
fn optimistic_history_rolls_back_on_stale_write() {
    let mut state = State::new(blank_view(), ConsistencySetup::OptimisticLinear(5));
    // two optimistic extensions on the head
    state.push_change(Change { revision: Revision(0), operation: new_pod_op("a") }, 0);
    state.push_change(Change { revision: Revision(1), operation: new_pod_op("b") }, 0);
    let revs: Vec<Revision> = state.views(0).iter().map(|v| v.revision).collect();
    assert_eq!(revs, vec![Revision(0), Revision(1), Revision(2)]);
    // a write against the committed base simulates a leader change: only the
    // base and the new write survive
    state.push_change(Change { revision: Revision(0), operation: new_pod_op("c") }, 1);
    let revs: Vec<Revision> = state.views(0).iter().map(|v| v.revision).collect();
    assert_eq!(revs, vec![Revision(0), Revision(3)]);
    let latest = state.view_at(Revision(3));
    assert!(latest.pods.has("c"));
    assert!(!latest.pods.has("a"));
}

#[test]
fn insert_enforces_uid_and_resource_version() {
    let mut view = blank_view();
    let mk = |name: &str, uid: &str| {
        let mut p = Pod::default();
        p.metadata.name = name.to_string();
        p.metadata.uid = uid.to_string();
        p
    };
    assert_eq!(view.pods.insert(mk("p", "u1"), Revision(1)), Ok(()));
    // conflicting uid is rejected
    assert_eq!(view.pods.insert(mk("p", "u2"), Revision(2)), Err(()));
    // a stale resource version is rejected
    let mut stale = mk("p", "u1");
    stale.metadata.resource_version = "0".to_string();
    assert_eq!(view.pods.insert(stale, Revision(3)), Err(()));
    // the stored version is the revision of the last successful write
    let stored = view.pods.get("p").unwrap();
    assert_eq!(stored.metadata.resource_version, "1");
}

#[test]
fn generation_bumps_only_on_spec_change() {
    let mut view = blank_view();
    let mut p = Pod::default();
    p.metadata.name = "p".to_string();
    p.metadata.uid = "u".to_string();
    assert_eq!(view.pods.insert(p.clone(), Revision(1)), Ok(()));
    let g0 = view.pods.get("p").unwrap().metadata.generation;
    // a write that does not change the desired state keeps the generation
    assert_eq!(view.pods.insert(p.clone(), Revision(2)), Ok(()));
    assert_eq!(view.pods.get("p").unwrap().metadata.generation, g0);
    // a desired-state change bumps it
    p.spec.node_name = Some(3);
    assert_eq!(view.pods.insert(p, Revision(3)), Ok(()));
    assert_eq!(view.pods.get("p").unwrap().metadata.generation, g0 + 1);
}

#[test]
fn node_crash_drops_node_and_its_pods() {
    let mut view = blank_view();
    view.apply_operation(
        Operation::NodeJoin(1, ResourceQuantities { cpu_cores: 4, memory_mb: 4000, pods: 32 }),
        Revision(1),
    );
    view.apply_operation(Operation::NewPod("a".to_string()), Revision(2));
    view.apply_operation(Operation::SchedulePod("a".to_string(), 1), Revision(3));
    view.apply_operation(Operation::RunPod("a".to_string(), 1), Revision(4));
    assert_eq!(view.nodes.len(), 1);
    view.apply_operation(Operation::NodeCrash(1), Revision(5));
    assert_eq!(view.nodes.len(), 0);
    assert!(!view.pods.has("a"));
    assert_eq!(view.revision, Revision(5));
}

#[test]
fn create_pod_derives_name_and_uid() {
    let mut view = blank_view();
    let mut p = Pod::default();
    p.metadata.generate_name = "job-".to_string();
    view.apply_operation(Operation::CreatePod(p), Revision(4));
    let pods = view.pods.to_vec();
    assert_eq!(pods.len(), 1);
    assert_eq!(pods[0].metadata.name, "job-4");
    assert_eq!(pods[0].metadata.uid, "u-4");
    let _ = Metadata::default();
}

#[test]
fn delete_pod_is_soft_then_hard() {
    let mut view = blank_view();
    let mut p = Pod::default();
    p.metadata.name = "p".to_string();
    p.metadata.finalizers.push("keep".to_string());
    assert_eq!(view.pods.insert(p, Revision(1)), Ok(()));
    let stored = view.pods.get("p").unwrap().clone();
    view.apply_operation(Operation::DeletePod(stored), Revision(2));
    // the finalizer holds the pod: only a deletion timestamp appears
    let held = view.pods.get("p").unwrap().clone();
    assert!(held.metadata.deletion_timestamp.is_some());
    // without finalizers the pod vanishes
    let mut bare = held.clone();
    bare.metadata.finalizers.clear();
    bare.metadata.resource_version = String::new();
    assert_eq!(view.pods.insert(bare, Revision(3)), Ok(()));
    let target = view.pods.get("p").unwrap().clone();
    view.apply_operation(Operation::DeletePod(target), Revision(4));
    assert!(!view.pods.has("p"));
}

#[test]
fn for_controller_selects_owned_resources() {
    let mut view = blank_view();
    let mut owned = Pod::default();
    owned.metadata.name = "owned".to_string();
    owned.metadata.owner_references.push(themelios::resources::OwnerReference {
        name: "job".to_string(),
        uid: "job-uid".to_string(),
    });
    let mut stray = Pod::default();
    stray.metadata.name = "stray".to_string();
    assert_eq!(view.pods.insert(owned, Revision(1)), Ok(()));
    assert_eq!(view.pods.insert(stray, Revision(2)), Ok(()));
    let owned_pods = view.pods.for_controller("job-uid");
    assert_eq!(owned_pods.len(), 1);
    assert_eq!(owned_pods[0].metadata.name, "owned");
}

#[test]
fn check_wf_matches_the_invariant() {
    let sv = StateView::default();
    assert!(sv.check_wf());
    let mut bad = StateView::default();
    bad.controllers = vec![2, 1];
    assert!(!bad.check_wf());
}
