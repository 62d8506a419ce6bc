use themelios::abstract_model::{Action, Operation, PropertyCheck};
use themelios::controller::job::{
    append_duplicated_index_pods_for_removal, has_job_tracking_finalizer, reconcile,
    JobControllerAction, JOB_COMPLETION_INDEX_ANNOTATION, JOB_TRACKING_FINALIZER,
};
use themelios::controller::node::node_step;
use themelios::controller::scheduler::scheduler_step;
use themelios::model::OrchestrationModelCfg;
use themelios::resources::{
    ConditionStatus, Container, Job, JobCompletionMode, JobConditionType, Metadata, Pod, PodPhase,
    PodSpec, PodTemplateSpec, Time,
};
use themelios::state::{ConsistencySetup, Revision, StateView};

fn new_job(name: &str) -> Job {
    let mut d = Job::default();
    d.metadata.name = name.to_string();
    d.metadata.uid = format!("uid-{}", name);
    let test_labels = vec![("name".to_string(), "test".to_string())];
    d.spec.selector.match_labels = test_labels.clone();
    d.spec.template = PodTemplateSpec {
        metadata: Metadata { labels: test_labels, ..Metadata::default() },
        spec: PodSpec {
            containers: vec![Container {
                name: "fake".to_string(),
                image: "fake".to_string(),
                env: Vec::new(),
            }],
            ..PodSpec::default()
        },
    };
    d.spec.parallelism = Some(1);
    d
}

fn apply_action(job: &mut Job, pods: &mut Vec<Pod>, action: JobControllerAction) {
    match action {
        JobControllerAction::UpdateJobStatus(j2) => {
            job.status = j2.status;
        }
        JobControllerAction::CreatePod(mut p) => {
            p.metadata.name = format!("pod-{}", pods.len());
            p.metadata.uid = format!("podu-{}", pods.len());
            pods.push(p);
        }
        JobControllerAction::UpdatePod(p) => {
            let i = pods.iter().position(|q| q.metadata.uid == p.metadata.uid).unwrap();
            pods[i] = p;
        }
        JobControllerAction::DeletePod(p) => {
            pods.retain(|q| q.metadata.uid != p.metadata.uid);
        }
        JobControllerAction::ControllerJoin(_) => unreachable!(),
    }
}

fn drive(job: &mut Job, pods: &mut Vec<Pod>, now: Time, bound: usize) {
    for _ in 0..bound {
        match reconcile(job, pods, now) {
            Some(a) => apply_action(job, pods, a),
            None => return,
        }
    }
    panic!("reconcile did not settle");
}

// func TestNonParallelJob(t *testing.T) {
#[test]
fn test_non_parallel_job() {
    let mut job = new_job("simple");
    let mut pods: Vec<Pod> = Vec::new();
    let now = Time(1);

    // the first step creates exactly one pod, carrying the tracking finalizer
    let a = reconcile(&job, &pods, now).expect("a pod should be created");
    match &a {
        JobControllerAction::CreatePod(p) => assert!(has_job_tracking_finalizer(p)),
        other => panic!("expected a pod creation, got {:?}", other),
    }
    apply_action(&mut job, &mut pods, a);
    assert_eq!(pods.len(), 1);

    // the status catches up with one active pod and no second pod appears
    drive(&mut job, &mut pods, now, 10);
    assert_eq!(job.status.active, 1);
    assert_eq!(pods.len(), 1);

    // the pod succeeds; the job counts it, strips the finalizer and completes
    pods[0].status.phase = PodPhase::Succeeded;
    drive(&mut job, &mut pods, Time(2), 10);
    assert_eq!(job.status.succeeded, 1);
    assert_eq!(job.status.active, 0);
    assert!(!has_job_tracking_finalizer(&pods[0]));
    let complete = job
        .status
        .conditions
        .iter()
        .find(|c| c.cond_type == JobConditionType::Complete)
        .expect("a complete condition");
    assert_eq!(complete.status, ConditionStatus::True);
}

// func TestParallelJob(t *testing.T) {
#[test]
fn test_parallel_job() {
    let mut job = new_job("simple");
    job.spec.parallelism = Some(5);
    let mut pods: Vec<Pod> = Vec::new();

    // five pods come up one reconcile step at a time
    for _ in 0..5 {
        let a = reconcile(&job, &pods, Time(1)).expect("a pod should be created");
        match &a {
            JobControllerAction::CreatePod(_) => {}
            JobControllerAction::UpdateJobStatus(_) => {}
            other => panic!("unexpected action {:?}", other),
        }
        apply_action(&mut job, &mut pods, a);
    }
    drive(&mut job, &mut pods, Time(1), 20);
    assert_eq!(pods.len(), 5);
    assert_eq!(job.status.active, 5);

    // once one pod succeeds, no further pods are wanted
    pods[0].status.phase = PodPhase::Succeeded;
    drive(&mut job, &mut pods, Time(2), 20);
    assert_eq!(job.status.succeeded, 1);
    assert_eq!(pods.len(), 5);
}

#[test]
fn backoff_exceeded_fails_the_job() {
    let mut job = new_job("backoff");
    job.spec.backoff_limit = Some(0);
    let mut failed = Pod::default();
    failed.metadata.name = "pod-f".to_string();
    failed.metadata.uid = "podu-f".to_string();
    failed.metadata.finalizers.push(JOB_TRACKING_FINALIZER.to_string());
    failed.status.phase = PodPhase::Failed;
    let mut active = Pod::default();
    active.metadata.name = "pod-a".to_string();
    active.metadata.uid = "podu-a".to_string();
    active.status.phase = PodPhase::Running;
    let mut pods = vec![failed, active];

    // the reconciler starts draining the remaining active pod
    match reconcile(&job, &pods, Time(3)).expect("an action") {
        JobControllerAction::DeletePod(p) => assert_eq!(p.metadata.name, "pod-a"),
        other => panic!("expected a deletion, got {:?}", other),
    }
    pods.retain(|p| p.metadata.name != "pod-a");

    // with the active pod gone, the failure lands in the status
    drive(&mut job, &mut pods, Time(4), 10);
    let failed_cond = job
        .status
        .conditions
        .iter()
        .find(|c| c.cond_type == JobConditionType::Failed)
        .expect("a failed condition");
    assert_eq!(failed_cond.status, ConditionStatus::True);
    assert_eq!(failed_cond.reason, "BackoffLimitExceeded");
    assert_eq!(job.status.failed, 1);
}

#[test]
fn suspend_drains_and_resume_resets_start_time() {
    let mut job = new_job("pause");
    job.spec.suspend = true;
    job.status.start_time = Some(Time(1));
    let mut active = Pod::default();
    active.metadata.name = "pod-0".to_string();
    active.metadata.uid = "podu-0".to_string();
    let mut pods = vec![active];

    // the active pod is drained and the suspended condition appears
    drive(&mut job, &mut pods, Time(5), 10);
    assert_eq!(pods.len(), 0);
    let cond = job
        .status
        .conditions
        .iter()
        .find(|c| c.cond_type == JobConditionType::Suspended)
        .expect("a suspended condition");
    assert_eq!(cond.status, ConditionStatus::True);

    // resuming flips the condition and restarts the deadline clock
    job.spec.suspend = false;
    job.spec.parallelism = Some(0);
    drive(&mut job, &mut pods, Time(9), 10);
    let cond = job
        .status
        .conditions
        .iter()
        .find(|c| c.cond_type == JobConditionType::Suspended)
        .expect("a suspended condition");
    assert_eq!(cond.status, ConditionStatus::False);
    assert_eq!(job.status.start_time, Some(Time(9)));
}

#[test]
fn indexed_job_removes_duplicates_and_fills_gaps() {
    let mut job = new_job("indexed");
    job.spec.completion_mode = JobCompletionMode::Indexed;
    job.spec.completions = Some(3);
    job.spec.parallelism = Some(3);
    let mk = |n: &str, ix: &str| {
        let mut p = Pod::default();
        p.metadata.name = n.to_string();
        p.metadata.uid = format!("podu-{}", n);
        p.metadata
            .annotations
            .push((JOB_COMPLETION_INDEX_ANNOTATION.to_string(), ix.to_string()));
        p
    };
    let mut pods = vec![mk("dup-a", "1"), mk("dup-b", "1")];

    // one duplicate of index one is selected for removal
    match reconcile(&job, &pods, Time(1)).expect("an action") {
        JobControllerAction::DeletePod(p) => {
            assert!(p.metadata.name == "dup-a" || p.metadata.name == "dup-b");
            let name = p.metadata.name.clone();
            pods.retain(|q| q.metadata.name != name);
        }
        other => panic!("expected a deletion, got {:?}", other),
    }

    // the missing indexes are created one per step, never index one
    let mut seen = Vec::new();
    for step in 0..10 {
        match reconcile(&job, &pods, Time(2 + step)) {
            Some(JobControllerAction::CreatePod(mut p)) => {
                let ix = p
                    .metadata
                    .annotations
                    .iter()
                    .find(|(k, _)| k == JOB_COMPLETION_INDEX_ANNOTATION)
                    .map(|(_, v)| v.clone())
                    .expect("an index annotation");
                assert_ne!(ix, "1");
                seen.push(ix);
                p.metadata.name = format!("pod-{}", pods.len());
                p.metadata.uid = format!("podu-{}", pods.len());
                pods.push(p);
            }
            Some(a) => apply_action(&mut job, &mut pods, a),
            None => break,
        }
    }
    seen.sort();
    assert_eq!(seen, vec!["0".to_string(), "2".to_string()]);
}

#[test]
fn scheduler_assigns_least_loaded_node() {
    let mut view = StateView::default();
    view.apply_operation(Operation::ControllerJoin(0), Revision(1));
    view.apply_operation(
        Operation::NodeJoin(
            1,
            themelios::resources::ResourceQuantities { cpu_cores: 4, memory_mb: 4000, pods: 32 },
        ),
        Revision(2),
    );
    view.apply_operation(Operation::NewPod("a".to_string()), Revision(3));
    match scheduler_step(0, &view) {
        Some(Operation::SchedulePod(name, node)) => {
            assert_eq!(name, "a");
            assert_eq!(node, 1);
        }
        other => panic!("expected a scheduling operation, got {:?}", other),
    }
    // an unregistered scheduler registers first
    assert_eq!(scheduler_step(9, &view), Some(Operation::ControllerJoin(9)));
}

#[test]
fn node_agent_joins_then_runs_assigned_pods() {
    let mut view = StateView::default();
    match node_step(4, &view) {
        Some(Operation::NodeJoin(4, _)) => {}
        other => panic!("expected a node join, got {:?}", other),
    }
    view.apply_operation(
        Operation::NodeJoin(
            4,
            themelios::resources::ResourceQuantities { cpu_cores: 4, memory_mb: 4000, pods: 32 },
        ),
        Revision(1),
    );
    view.apply_operation(Operation::NewPod("a".to_string()), Revision(2));
    view.apply_operation(Operation::SchedulePod("a".to_string(), 4), Revision(3));
    assert_eq!(node_step(4, &view), Some(Operation::RunPod("a".to_string(), 4)));
    view.apply_operation(Operation::RunPod("a".to_string(), 4), Revision(4));
    assert_eq!(node_step(4, &view), None);
}

#[test]
fn model_drives_a_pod_to_scheduled() {
    let mut view = StateView::default();
    view.apply_operation(Operation::NewPod("a".to_string()), Revision(1));
    let cfg = OrchestrationModelCfg {
        initial_state: view,
        consistency_level: ConsistencySetup::Strong,
        nodes: 1,
        schedulers: 1,
        job_controllers: 0,
    }
    .into_abstract_model();
    let mut states = cfg.init_states();
    let mut state = states.pop().unwrap();
    let scheduled = PropertyCheck::EveryPodScheduled;
    let mut steps = 0;
    while !scheduled.evaluate(&state) && steps < 20 {
        let mut actions = Vec::new();
        cfg.actions(&state, &mut actions);
        // take the first controller step; skip the injected crashes
        let next = actions
            .into_iter()
            .find(|a| matches!(a, Action::ControllerStep(..)))
            .expect("an enabled controller step");
        state = cfg.next_state(&state, next).expect("the step stays enabled");
        steps += 1;
    }
    assert!(scheduled.evaluate(&state));
    assert!(PropertyCheck::JobStatusMatchesPods.evaluate(&state));
    assert_eq!(cfg.properties().len(), 2);
}

#[test]
fn indexed_pod_is_stamped_from_the_template() {
    let mut job = new_job("stamp");
    job.spec.completion_mode = JobCompletionMode::Indexed;
    job.spec.completions = Some(2);
    job.spec.parallelism = Some(1);
    let pods: Vec<Pod> = Vec::new();
    match reconcile(&job, &pods, Time(1)).expect("an action") {
        JobControllerAction::CreatePod(p) => {
            assert_eq!(p.spec.hostname, "stamp-0");
            assert_eq!(p.metadata.generate_name, "stamp-0-");
            assert!(has_job_tracking_finalizer(&p));
            assert_eq!(p.metadata.owner_references.len(), 1);
            assert_eq!(p.metadata.owner_references[0].name, "stamp");
            assert_eq!(p.metadata.owner_references[0].uid, "uid-stamp");
            let ix = p
                .metadata
                .annotations
                .iter()
                .find(|(k, _)| k == JOB_COMPLETION_INDEX_ANNOTATION)
                .map(|(_, v)| v.clone());
            assert_eq!(ix, Some("0".to_string()));
            assert_eq!(p.spec.containers.len(), 1);
            assert_eq!(p.spec.containers[0].env.len(), 1);
            assert_eq!(p.spec.containers[0].env[0].name, "JOB_COMPLETION_INDEX");
        }
        other => panic!("expected a creation, got {:?}", other),
    }
}

#[test]
fn duplicate_split_keeps_one_valid_pod_per_index() {
    let mk = |n: &str, ix: Option<&str>, running: bool| {
        let mut p = Pod::default();
        p.metadata.name = n.to_string();
        p.metadata.uid = format!("podu-{}", n);
        if let Some(ix) = ix {
            p.metadata
                .annotations
                .push((JOB_COMPLETION_INDEX_ANNOTATION.to_string(), ix.to_string()));
        }
        if running {
            p.status.phase = PodPhase::Running;
        }
        p
    };
    // a running pod outranks a pending one of the same index
    let pods = vec![
        mk("no-index", None, false),
        mk("dup-weak", Some("1"), false),
        mk("dup-strong", Some("1"), true),
        mk("out-of-range", Some("9"), false),
        mk("lone", Some("2"), false),
    ];
    let mut rm: Vec<Pod> = Vec::new();
    let mut left: Vec<Pod> = Vec::new();
    append_duplicated_index_pods_for_removal(&mut rm, &mut left, &pods, 3);
    let mut left_names: Vec<String> = left.iter().map(|p| p.metadata.name.clone()).collect();
    left_names.sort();
    assert_eq!(left_names, vec!["dup-strong".to_string(), "lone".to_string()]);
    let mut rm_names: Vec<String> = rm.iter().map(|p| p.metadata.name.clone()).collect();
    rm_names.sort();
    assert_eq!(
        rm_names,
        vec!["dup-weak".to_string(), "no-index".to_string(), "out-of-range".to_string()]
    );
}
