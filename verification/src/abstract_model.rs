//! The abstract model: store mutations, driver actions, and the driver that
//! enumerates every legal next step of the modelled cluster.

use vstd::prelude::*;

use crate::resources::{Job, JobView, Pod, PodView, ResourceQuantities};
use crate::state::{History, Revision};

verus! {

/// A mutation of the object store.
#[derive(Debug, PartialEq, Eq, Hash)]
pub enum Operation {
    /// A node joins the cluster with the given capacity.
    NodeJoin(usize, ResourceQuantities),
    /// A controller registers itself.
    ControllerJoin(usize),
    /// Create a bare pod under this name.
    NewPod(String),
    /// Create a bare replica set under this name.
    NewReplicaset(String),
    /// Assign a pod to a node; a no-op if the pod is gone.
    SchedulePod(String, usize),
    /// Mark a pod as running on a node; a no-op if the node is gone.
    RunPod(String, usize),
    /// A node crashes: it vanishes together with the pods assigned to it.
    NodeCrash(usize),
    /// Insert or overwrite a job under the store's concurrency control.
    UpdateJob(Job),
    /// Overwrite a job's status under the store's concurrency control.
    UpdateJobStatus(Job),
    /// Create a pod, deriving a fresh name and uid where they are empty.
    CreatePod(Pod),
    /// Insert or overwrite a pod under the store's concurrency control.
    UpdatePod(Pod),
    /// Soft-delete a pod holding finalizers, hard-delete one holding none.
    DeletePod(Pod),
}

#[verifier::ext_equal]
pub enum OperationView {
    NodeJoin(usize, ResourceQuantities),
    ControllerJoin(usize),
    NewPod(Seq<char>),
    NewReplicaset(Seq<char>),
    SchedulePod(Seq<char>, usize),
    RunPod(Seq<char>, usize),
    NodeCrash(usize),
    UpdateJob(JobView),
    UpdateJobStatus(JobView),
    CreatePod(PodView),
    UpdatePod(PodView),
    DeletePod(PodView),
}

impl View for Operation {
    type V = OperationView;

    open spec fn view(&self) -> OperationView {
        match self {
            Operation::NodeJoin(i, cap) => OperationView::NodeJoin(*i, *cap),
            Operation::ControllerJoin(i) => OperationView::ControllerJoin(*i),
            Operation::NewPod(n) => OperationView::NewPod(n@),
            Operation::NewReplicaset(n) => OperationView::NewReplicaset(n@),
            Operation::SchedulePod(n, node) => OperationView::SchedulePod(n@, *node),
            Operation::RunPod(n, node) => OperationView::RunPod(n@, *node),
            Operation::NodeCrash(i) => OperationView::NodeCrash(*i),
            Operation::UpdateJob(j) => OperationView::UpdateJob(j@),
            Operation::UpdateJobStatus(j) => OperationView::UpdateJobStatus(j@),
            Operation::CreatePod(p) => OperationView::CreatePod(p@),
            Operation::UpdatePod(p) => OperationView::UpdatePod(p@),
            Operation::DeletePod(p) => OperationView::DeletePod(p@),
        }
    }
}

impl DeepView for Operation {
    type V = OperationView;

    open spec fn deep_view(&self) -> OperationView {
        self.view()
    }
}

impl Clone for Operation {
    fn clone(&self) -> (r: Self)
        ensures
            r@ == self@,
    {
        match self {
            Operation::NodeJoin(i, cap) => Operation::NodeJoin(*i, *cap),
            Operation::ControllerJoin(i) => Operation::ControllerJoin(*i),
            Operation::NewPod(n) => Operation::NewPod(n.clone()),
            Operation::NewReplicaset(n) => Operation::NewReplicaset(n.clone()),
            Operation::SchedulePod(n, node) => Operation::SchedulePod(n.clone(), *node),
            Operation::RunPod(n, node) => Operation::RunPod(n.clone(), *node),
            Operation::NodeCrash(i) => Operation::NodeCrash(*i),
            Operation::UpdateJob(j) => Operation::UpdateJob(j.clone()),
            Operation::UpdateJobStatus(j) => Operation::UpdateJobStatus(j.clone()),
            Operation::CreatePod(p) => Operation::CreatePod(p.clone()),
            Operation::UpdatePod(p) => Operation::UpdatePod(p.clone()),
            Operation::DeletePod(p) => Operation::DeletePod(p.clone()),
        }
    }
}

/// An operation annotated with the revision its author observed when it was
/// generated; the optimistic history uses the annotation to decide where the
/// change attaches.
#[derive(Debug, PartialEq, Eq, Hash)]
pub struct Change {
    /// The revision of the snapshot this change was generated from.
    pub revision: Revision,
    /// The store mutation to perform.
    pub operation: Operation,
}

#[verifier::ext_equal]
pub struct ChangeView {
    pub revision: Revision,
    pub operation: OperationView,
}

impl View for Change {
    type V = ChangeView;

    open spec fn view(&self) -> ChangeView {
        ChangeView { revision: self.revision, operation: self.operation@ }
    }
}

impl DeepView for Change {
    type V = ChangeView;

    open spec fn deep_view(&self) -> ChangeView {
        self.view()
    }
}

impl Clone for Change {
    fn clone(&self) -> (r: Self)
        ensures
            r@ == self@,
    {
        let r = Change { revision: self.revision, operation: self.operation.clone() };
        proof {
            assert(r@ =~= self@);
        }
        r
    }
}


/// One transition the explorer may take: a controller acting on a snapshot
/// it observed, or an injected fault.
#[derive(Debug, PartialEq, Eq, Hash)]
pub enum Action {
    /// A controller (by index and name) submits the change it derived.
    ControllerStep(usize, String, Change),
    /// A ready node crashes.
    NodeCrash(usize),
}

#[verifier::ext_equal]
pub enum ActionView {
    ControllerStep(usize, Seq<char>, ChangeView),
    NodeCrash(usize),
}

impl View for Action {
    type V = ActionView;

    open spec fn view(&self) -> ActionView {
        match self {
            Action::ControllerStep(i, name, change) => ActionView::ControllerStep(
                *i,
                name@,
                change@,
            ),
            Action::NodeCrash(n) => ActionView::NodeCrash(*n),
        }
    }
}

impl DeepView for Action {
    type V = ActionView;

    open spec fn deep_view(&self) -> ActionView {
        self.view()
    }
}

impl Clone for Action {
    fn clone(&self) -> (r: Self)
        ensures
            r@ == self@,
    {
        let r = match self {
            Action::ControllerStep(i, name, change) => Action::ControllerStep(
                *i,
                name.clone(),
                change.clone(),
            ),
            Action::NodeCrash(n) => Action::NodeCrash(*n),
        };
        proof {
            assert(r@ =~= self@);
        }
        r
    }
}

/// Whether a property must hold of every reachable state or merely of some
/// state on every path.
#[derive(Debug, Clone, Copy, PartialEq, Eq, Hash, Structural)]
pub enum Expectation {
    Always,
    Eventually,
}

/// The predicates the model checks, each evaluated on the newest snapshot.
#[derive(Debug, Clone, Copy, PartialEq, Eq, Hash, Structural)]
pub enum PropertyCheck {
    /// Every pod has been assigned a node.
    EveryPodScheduled,
    /// Every job that a reconcile step would leave alone records exactly its
    /// observed active and ready pod counts.
    JobStatusMatchesPods,
}

/// A property with its quantifier.
#[derive(Debug, Clone, Copy, PartialEq, Eq, Hash, Structural)]
pub struct Property {
    pub expectation: Expectation,
    pub check: PropertyCheck,
}

/// Every pod of the snapshot has a node assigned.
pub open spec fn spec_every_pod_scheduled(v: crate::state::StateViewView) -> bool {
    forall|i: int| 0 <= i < v.pods.len() ==> (#[trigger] v.pods[i]).spec.node_name is Some
}

/// Every job the reconciler would leave alone has its status counts in step
/// with its selected pods.
pub open spec fn spec_jobs_settled(v: crate::state::StateViewView) -> bool {
    forall|i: int|
        0 <= i < v.jobs.len() ==> ((#[trigger] v.jobs[i]).status.active
            == crate::controller::job::sat32(
            crate::controller::job::spec_active_of(
                crate::controller::job::spec_selected_pods(v.pods, v.jobs[i]),
            ).len(),
        ) || !crate::controller::job::reconcile_post(
            v.jobs[i],
            crate::controller::job::spec_selected_pods(v.pods, v.jobs[i]),
            crate::resources::Time(v.revision.0 as u64),
            None,
        ))
}

impl PropertyCheck {
    /// Evaluate the predicate on the newest snapshot of the state. The job
    /// check always passes: a reconcile step that returns nothing has, by
    /// its contract, already recorded the observed active count, so the scan
    /// can never find a settled job with a stale count.
    pub fn evaluate(&self, state: &crate::state::State) -> (r: bool)
        requires
            state.inv(),
        ensures
            *self == PropertyCheck::EveryPodScheduled ==> r == spec_every_pod_scheduled(
                crate::state::retained_at(
                    state.retained(),
                    crate::state::newest(state.retained()),
                ),
            ),
            *self == PropertyCheck::JobStatusMatchesPods ==> r == true,
    {
        let max = state.max_revision();
        let view = state.view_at(max);
        proof {
            crate::state::StateHistory::lemma_inv(state@, 0);
            let ret = state.retained();
            assert(ret[ret.len() - 1].revision == crate::state::newest(ret));
            crate::state::lemma_rev_unique(ret, crate::state::newest(ret), ret.len() - 1);
        }
        match self {
            PropertyCheck::EveryPodScheduled => {
                let pods = view.pods.to_vec();
                let ghost pv = view@.pods;
                let ghost target = crate::state::retained_at(
                    state.retained(),
                    crate::state::newest(state.retained()),
                );
                let mut i: usize = 0;
                while i < pods.len()
                    invariant
                        *self == PropertyCheck::EveryPodScheduled,
                        pods.deep_view() == pv,
                        pv == view@.pods,
                        view@ == target,
                        target == crate::state::retained_at(
                            state.retained(),
                            crate::state::newest(state.retained()),
                        ),
                        i <= pods@.len() == pv.len(),
                        forall|j: int|
                            0 <= j < i ==> (#[trigger] pv[j]).spec.node_name is Some,
                    decreases pods.len() - i,
                {
                    proof {
                        assert(pv[i as int] == pods@[i as int].deep_view());
                    }
                    if pods[i].spec.node_name.is_none() {
                        proof {
                            assert(!spec_every_pod_scheduled(target));
                        }
                        return false;
                    }
                    i = i + 1;
                }
                proof {
                    assert(spec_every_pod_scheduled(target));
                }
                true
            },
            PropertyCheck::JobStatusMatchesPods => {
                let jobs = view.jobs.to_vec();
                let now = crate::resources::Time(view.revision.0 as u64);
                let mut i: usize = 0;
                while i < jobs.len()
                    invariant
                        *self == PropertyCheck::JobStatusMatchesPods,
                        view.wf(),
                        i <= jobs@.len(),
                        now == crate::resources::Time(view@.revision.0 as u64),
                    decreases jobs.len() - i,
                {
                    let pods = view.pods.matching(&jobs[i].spec.selector);
                    let active = crate::controller::util::filter_active_pods(&pods);
                    let settled = crate::controller::job::reconcile(&jobs[i], &pods, now);
                    if settled.is_none() && jobs[i].status.active != crate::controller::job::sat32_of(
                        active.len() as u64,
                    ) {
                        proof {
                            // a silent reconcile has pinned the recorded count
                            assert(crate::controller::job::reconcile_post(
                                jobs@[i as int]@,
                                pods.deep_view(),
                                now,
                                None,
                            ));
                            assert(active.deep_view() == crate::controller::job::spec_active_of(
                                pods.deep_view(),
                            ));
                            assert(false);
                        }
                        return false;
                    }
                    i = i + 1;
                }
                true
            },
        }
    }
}

/// The model: a set of controllers over a store seeded with one snapshot
/// under a chosen consistency level. The explorer asks for the enabled
/// actions of a state, applies one, and checks the properties.
#[derive(Debug)]
pub struct AbstractModelCfg {
    /// The controllers running in this configuration.
    pub controllers: Vec<crate::controller::Controllers>,
    /// The initial snapshot.
    pub initial_state: crate::state::StateView,
    /// The consistency level of the store.
    pub consistency_level: crate::state::ConsistencySetup,
}

/// The name a controller reports.
pub open spec fn spec_controller_name(c: crate::controller::Controllers) -> Seq<char> {
    match c {
        crate::controller::Controllers::Node(_) => "Node"@,
        crate::controller::Controllers::Scheduler(_) => "Scheduler"@,
        crate::controller::Controllers::Job(_) => "Job"@,
    }
}

/// One crash action for every ready node of a snapshot's node list, in
/// order.
pub open spec fn spec_ready_crashes(
    nodes: Seq<(usize, crate::resources::NodeResourceView)>,
) -> Seq<ActionView> {
    nodes.filter(|n: (usize, crate::resources::NodeResourceView)| n.1.ready).map_values(
        |n: (usize, crate::resources::NodeResourceView)| ActionView::NodeCrash(n.0),
    )
}

/// The change an action submits: a controller step carries its own change; a
/// node crash is recorded against the newest revision.
pub open spec fn spec_action_change(
    a: ActionView,
    retained: Seq<crate::state::StateViewView>,
) -> ChangeView {
    match a {
        ActionView::ControllerStep(_, _, c) => c,
        ActionView::NodeCrash(n) => ChangeView {
            revision: crate::state::newest(retained),
            operation: OperationView::NodeCrash(n),
        },
    }
}

/// The session an action's change is submitted from.
pub open spec fn spec_action_session(a: ActionView) -> usize {
    match a {
        ActionView::ControllerStep(i, _, _) => i,
        ActionView::NodeCrash(_) => 0,
    }
}

/// An enabled controller-step action carrying its controller's name.
pub open spec fn spec_is_enabled_step(
    controllers: Seq<crate::controller::Controllers>,
    sv: crate::state::StateHistoryView,
    a: ActionView,
) -> bool {
    match a {
        ActionView::ControllerStep(i, name, change) => spec_controller_step_enabled(
            controllers,
            sv,
            i,
            change,
        ) && name == spec_controller_name(controllers[i as int]),
        ActionView::NodeCrash(_) => false,
    }
}

/// A controller-step action by controller `i` against the snapshot at
/// revision `rev`.
pub open spec fn spec_is_step_at(a: ActionView, i: usize, rev: Revision) -> bool {
    match a {
        ActionView::ControllerStep(i2, _, change) => i2 == i && change.revision == rev,
        ActionView::NodeCrash(_) => false,
    }
}

/// An enabled controller step: the change was derived by the named
/// controller from a snapshot the store still lets its session observe.
pub open spec fn spec_controller_step_enabled(
    controllers: Seq<crate::controller::Controllers>,
    sv: crate::state::StateHistoryView,
    i: usize,
    change: ChangeView,
) -> bool {
    &&& (i as int) < controllers.len()
    &&& crate::state::rev_retained(
        crate::state::StateHistory::retained_of(sv),
        change.revision,
    )
    &&& crate::controller::controllers_step_post(
        controllers[i as int],
        i,
        crate::state::retained_at(crate::state::StateHistory::retained_of(sv), change.revision),
        Some(change.operation),
    )
}

impl AbstractModelCfg {
    /// The single initial state: the store seeded with the initial snapshot.
    pub fn init_states(&self) -> (r: Vec<crate::state::State>)
        requires
            self.initial_state.wf(),
        ensures
            r@.len() == 1,
            r@[0].inv(),
            r@[0].retained() =~= seq![self.initial_state@],
    {
        let mut r: Vec<crate::state::State> = Vec::new();
        r.push(crate::state::State::new(self.initial_state.clone(), self.consistency_level));
        r
    }

    /// Enumerate the candidate actions after the ones already listed: for
    /// every controller, one enabled step per snapshot its session may
    /// observe — a (controller, snapshot) pair contributes nothing only when
    /// its step may emit nothing — followed by exactly one crash for every
    /// ready node of the newest snapshot, in node order. Whether a candidate
    /// is still enabled when it runs is decided by `next_state`, which
    /// re-checks it against the store.
    #[verifier::rlimit(100)]
    #[verifier::spinoff_prover]
    pub fn actions(&self, state: &crate::state::State, actions: &mut Vec<Action>)
        requires
            state.inv(),
        ensures
            final(actions)@.len() >= old(actions)@.len(),
            ({
                let pre = old(actions).deep_view();
                let post = final(actions).deep_view();
                let latest = crate::state::retained_at(
                    state.retained(),
                    crate::state::newest(state.retained()),
                );
                let crashes = spec_ready_crashes(latest.nodes);
                &&& post.len() >= pre.len() + crashes.len()
                &&& (forall|k: int| 0 <= k < pre.len() ==> post[k] == pre[k])
                &&& post.skip(post.len() - crashes.len()) == crashes
                &&& (forall|k: int|
                    pre.len() <= k < post.len() - crashes.len() ==> spec_is_enabled_step(
                        self.controllers@,
                        state@,
                        #[trigger] post[k],
                    ))
                &&& (forall|i: usize, w: int|
                    (i as int) < self.controllers@.len() && 0 <= w
                        < crate::state::StateHistory::valid_of(state@, i).len() ==> (exists|k: int|
                        pre.len() <= k < post.len() - crashes.len() && spec_is_step_at(
                            #[trigger] post[k],
                            i,
                            crate::state::StateHistory::valid_of(state@, i)[w],
                        )) || crate::controller::controllers_step_post(
                        self.controllers@[i as int],
                        i,
                        crate::state::retained_at(
                            state.retained(),
                            #[trigger] crate::state::StateHistory::valid_of(state@, i)[w],
                        ),
                        None,
                    ))
            }),
    {
        let ghost pre = old(actions).deep_view();
        let mut i: usize = 0;
        while i < self.controllers.len()
            invariant
                state.inv(),
                pre == old(actions).deep_view(),
                i <= self.controllers@.len(),
                actions@.len() >= old(actions)@.len(),
                actions.deep_view().len() >= pre.len(),
                forall|k: int| 0 <= k < pre.len() ==> #[trigger] actions.deep_view()[k] == pre[k],
                forall|k: int|
                    pre.len() <= k < actions.deep_view().len() ==> spec_is_enabled_step(
                        self.controllers@,
                        state@,
                        #[trigger] actions.deep_view()[k],
                    ),
                forall|i2: usize, w: int|
                    (i2 as int) < i as int && 0 <= w < crate::state::StateHistory::valid_of(
                        state@,
                        i2,
                    ).len() ==> (exists|k: int|
                        pre.len() <= k < actions.deep_view().len() && spec_is_step_at(
                            #[trigger] actions.deep_view()[k],
                            i2,
                            crate::state::StateHistory::valid_of(state@, i2)[w],
                        )) || crate::controller::controllers_step_post(
                        self.controllers@[i2 as int],
                        i2,
                        crate::state::retained_at(
                            state.retained(),
                            #[trigger] crate::state::StateHistory::valid_of(state@, i2)[w],
                        ),
                        None,
                    ),
            decreases self.controllers.len() - i,
        {
            let views = state.views(i);
            let mut v: usize = 0;
            while v < views.len()
                invariant
                    state.inv(),
                    pre == old(actions).deep_view(),
                    i < self.controllers@.len(),
                    v <= views@.len(),
                    views@.len() == crate::state::StateHistory::valid_of(
                        state@,
                        i as usize,
                    ).len(),
                    actions@.len() >= old(actions)@.len(),
                    actions.deep_view().len() >= pre.len(),
                    forall|k: int|
                        0 <= k < pre.len() ==> #[trigger] actions.deep_view()[k] == pre[k],
                    forall|k: int|
                        pre.len() <= k < actions.deep_view().len() ==> spec_is_enabled_step(
                            self.controllers@,
                            state@,
                            #[trigger] actions.deep_view()[k],
                        ),
                    forall|i2: usize, w: int|
                        ((i2 as int) < i as int || (i2 == i && 0 <= w < v as int)) && 0 <= w
                            < crate::state::StateHistory::valid_of(state@, i2).len() ==> (exists|
                            k: int,
                        |
                            pre.len() <= k < actions.deep_view().len() && spec_is_step_at(
                                #[trigger] actions.deep_view()[k],
                                i2,
                                crate::state::StateHistory::valid_of(state@, i2)[w],
                            )) || crate::controller::controllers_step_post(
                            self.controllers@[i2 as int],
                            i2,
                            crate::state::retained_at(
                                state.retained(),
                                #[trigger] crate::state::StateHistory::valid_of(state@, i2)[w],
                            ),
                            None,
                        ),
                    forall|w: int|
                        0 <= w < views@.len() ==> (#[trigger] views@[w])@ == crate::state::retained_at(
                            state.retained(),
                            crate::state::StateHistory::valid_of(state@, i as usize)[w],
                        ) && views@[w]@.revision == crate::state::StateHistory::valid_of(
                            state@,
                            i as usize,
                        )[w],
                decreases views.len() - v,
            {
                proof {
                    crate::state::StateHistory::lemma_inv(state@, i as usize);
                    let valid = crate::state::StateHistory::valid_of(state@, i as usize);
                    assert(crate::state::rev_retained(state.retained(), valid[v as int]));
                    let w = crate::state::idx_of_rev(state.retained(), valid[v as int]);
                    assert(state.retained()[w] == views@[v as int]@);
                    crate::state::lemma_state_view_wf_of_retained(state@, views@[v as int]@);
                }
                let c = &self.controllers[i];
                let ghost before = actions.deep_view();
                match c.step(i, &views[v]) {
                    Some(op) => {
                        let revision = views[v].revision;
                        let change = Change { revision, operation: op };
                        let ghost prevec = actions@;
                        let a = Action::ControllerStep(i, c.name(), change);
                        let ghost aview = a.deep_view();
                        actions.push(a);
                        proof {
                            assert forall|k: int|
                                0 <= k < actions.deep_view().len() implies actions.deep_view()[k]
                                == before.push(aview)[k] by {
                                assert(actions.deep_view()[k] == actions@[k].deep_view());
                                if k < prevec.len() {
                                    assert(actions@[k] == prevec[k]);
                                    assert(before[k] == prevec[k].deep_view());
                                }
                            }
                            assert(actions.deep_view() =~= before.push(aview));
                            assert(actions.deep_view()[before.len() as int] == aview);
                            assert(spec_is_enabled_step(self.controllers@, state@, aview));
                            assert(spec_is_step_at(
                                aview,
                                i,
                                crate::state::StateHistory::valid_of(state@, i as usize)[v as int],
                            ));
                        }
                    },
                    None => {
                        proof {
                            assert(crate::controller::controllers_step_post(
                                self.controllers@[i as int],
                                i,
                                crate::state::retained_at(
                                    state.retained(),
                                    crate::state::StateHistory::valid_of(
                                        state@,
                                        i as usize,
                                    )[v as int],
                                ),
                                None,
                            ));
                        }
                    },
                }
                proof {
                    // the pairs already enumerated keep their witnesses, and
                    // the pair just visited has either been pushed or allows
                    // an empty step
                    assert forall|i2: usize, w: int|
                        ((i2 as int) < i as int || (i2 == i && 0 <= w < v as int + 1)) && 0 <= w
                            < crate::state::StateHistory::valid_of(state@, i2).len() implies (exists|
                        k: int,
                    |
                        pre.len() <= k < actions.deep_view().len() && spec_is_step_at(
                            #[trigger] actions.deep_view()[k],
                            i2,
                            crate::state::StateHistory::valid_of(state@, i2)[w],
                        )) || crate::controller::controllers_step_post(
                        self.controllers@[i2 as int],
                        i2,
                        crate::state::retained_at(
                            state.retained(),
                            crate::state::StateHistory::valid_of(state@, i2)[w],
                        ),
                        None,
                    ) by {
                        let rev = crate::state::StateHistory::valid_of(state@, i2)[w];
                        if (i2 as int) < i as int || (i2 == i && 0 <= w < v as int) {
                            if exists|k: int|
                                pre.len() <= k < before.len() && spec_is_step_at(
                                    #[trigger] before[k],
                                    i2,
                                    rev,
                                ) {
                                let k0 = choose|k: int|
                                    pre.len() <= k < before.len() && spec_is_step_at(
                                        #[trigger] before[k],
                                        i2,
                                        rev,
                                    );
                                assert(actions.deep_view()[k0] == before[k0]);
                                assert(spec_is_step_at(actions.deep_view()[k0], i2, rev));
                            }
                        }
                    }
                }
                v = v + 1;
            }
            i = i + 1;
        }
        let ghost mid = actions.deep_view();
        // inject a crash for every ready node of the newest snapshot
        let max = state.max_revision();
        proof {
            crate::state::StateHistory::lemma_inv(state@, 0);
            let ret = state.retained();
            assert(ret[ret.len() - 1].revision == crate::state::newest(ret));
            crate::state::lemma_rev_unique(ret, crate::state::newest(ret), ret.len() - 1);
        }
        let latest = state.view_at(max);
        let ghost nv = latest@.nodes;
        proof {
            assert(spec_ready_crashes(nv.take(0)) =~= Seq::<ActionView>::empty());
            assert(actions.deep_view() =~= mid + spec_ready_crashes(nv.take(0)));
        }
        let mut n: usize = 0;
        while n < latest.nodes.len()
            invariant
                nv == latest@.nodes,
                n <= latest.nodes@.len() == nv.len(),
                actions@.len() >= old(actions)@.len(),
                mid.len() >= old(actions).deep_view().len(),
                actions.deep_view() == mid + spec_ready_crashes(nv.take(n as int)),
            decreases latest.nodes.len() - n,
        {
            proof {
                assert(nv[n as int] == latest.nodes@[n as int].deep_view());
                let pred = |x: (usize, crate::resources::NodeResourceView)| x.1.ready;
                let f = |x: (usize, crate::resources::NodeResourceView)|
                    ActionView::NodeCrash(x.0);
                nv.lemma_take_succ_push(n as int);
                nv.take(n as int).lemma_filter_push(nv[n as int], pred);
                if pred(nv[n as int]) {
                    assert(spec_ready_crashes(nv.take(n + 1)) =~= spec_ready_crashes(
                        nv.take(n as int),
                    ).push(f(nv[n as int])));
                } else {
                    assert(spec_ready_crashes(nv.take(n + 1)) =~= spec_ready_crashes(
                        nv.take(n as int),
                    ));
                }
            }
            if latest.nodes[n].1.ready {
                let ghost before = actions.deep_view();
                let ghost prevec = actions@;
                actions.push(Action::NodeCrash(latest.nodes[n].0));
                proof {
                    assert forall|k: int|
                        0 <= k < actions.deep_view().len() implies actions.deep_view()[k]
                        == before.push(ActionView::NodeCrash(nv[n as int].0))[k] by {
                        assert(actions.deep_view()[k] == actions@[k].deep_view());
                        if k < prevec.len() {
                            assert(actions@[k] == prevec[k]);
                            assert(before[k] == prevec[k].deep_view());
                        }
                    }
                    assert(actions.deep_view() =~= before.push(
                        ActionView::NodeCrash(nv[n as int].0),
                    ));
                    assert(actions.deep_view() =~= mid + spec_ready_crashes(nv.take(n + 1)));
                }
            }
            n = n + 1;
        }
        proof {
            assert(nv.take(nv.len() as int) =~= nv);
            let post = actions.deep_view();
            let crashes = spec_ready_crashes(nv);
            assert(post == mid + crashes);
            assert(post.skip(post.len() - crashes.len()) =~= crashes);
            assert forall|k: int| 0 <= k < mid.len() implies post[k] == mid[k] by {}
        }
    }

    /// Apply one action: the new state is exactly the old store with the
    /// action's change recorded at the action's session. Nothing comes back
    /// exactly when the action is no longer enabled: the store no longer
    /// accepts its change (its baseline snapshot has been discarded), or the
    /// revision counter is exhausted.
    pub fn next_state(&self, last_state: &crate::state::State, action: Action) -> (r: Option<
        crate::state::State,
    >)
        requires
            last_state.inv(),
        ensures
            ({
                let chg = spec_action_change(action@, last_state.retained());
                let sess = spec_action_session(action@);
                &&& (r is Some <==> crate::state::newest(last_state.retained()).0 < usize::MAX
                    && crate::state::StateHistory::accepts_of(last_state@, chg))
                &&& (r matches Some(s2) ==> s2.inv() && s2@
                    == crate::state::StateHistory::add_spec(last_state@, chg, sess))
            }),
    {
        let room = last_state.max_revision().0 < usize::MAX;
        if !room {
            return None;
        }
        match action {
            Action::ControllerStep(i, _name, change) => {
                if !last_state.can_accept(&change) {
                    return None;
                }
                let mut s2 = last_state.clone();
                proof {
                    assert(s2.inv());
                }
                let _ = s2.push_change(change, i);
                Some(s2)
            },
            Action::NodeCrash(n) => {
                let change = Change {
                    revision: last_state.max_revision(),
                    operation: Operation::NodeCrash(n),
                };
                if !last_state.can_accept(&change) {
                    return None;
                }
                let mut s2 = last_state.clone();
                let _ = s2.push_change(change, 0);
                Some(s2)
            },
        }
    }

    /// The properties the explorer checks.
    pub fn properties(&self) -> (r: Vec<Property>)
        ensures
            r@.len() == 2,
            r@[0] == (Property {
                expectation: Expectation::Eventually,
                check: PropertyCheck::EveryPodScheduled,
            }),
            r@[1] == (Property {
                expectation: Expectation::Always,
                check: PropertyCheck::JobStatusMatchesPods,
            }),
    {
        let mut r: Vec<Property> = Vec::new();
        r.push(
            Property { expectation: Expectation::Eventually, check: PropertyCheck::EveryPodScheduled },
        );
        r.push(
            Property { expectation: Expectation::Always, check: PropertyCheck::JobStatusMatchesPods },
        );
        r
    }
}

} // verus!
