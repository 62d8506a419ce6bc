//! The versioned object store: revisions, snapshots and the history
//! strategies that decide which snapshots a reader may observe.

pub mod resources;

use vstd::prelude::*;

use crate::abstract_model::{Change, Operation, OperationView};
use crate::resources::{blank_metadata_view, DeepClone, DeploymentResource,
    DeploymentResourceView, Job, JobView, Meta, Metadata, MetadataView, NodeResource,
    NodeResourceView, Pod, PodPhase, PodSpec, PodSpecView, PodStatus, PodStatusView, PodView,
    ReplicaSetResource, ReplicaSetResourceView, ResourceQuantities, StatefulSetResource,
    StatefulSetResourceView, Time};
use crate::state::resources::{has_name, idx_of, inserted, insert_effect, pods_deleted,
    pods_scheduled, res_name, sorted, Resources};
use crate::utils::{all_digits, dec_str, kmap_get, kmap_put, kmap_del, kmap_sorted,
    lemma_dec_str_wf, parse_u64, str_set_put, str_sorted, str_val, u64_to_string, uset_put,
    uset_sorted};

verus! {

// ---------------------------------------------------------------------------
// Revision
// ---------------------------------------------------------------------------

/// A monotonic logical clock identifying one snapshot of the store. Equal
/// revisions denote the same snapshot. The canonical decimal string form is
/// what resources carry in `resource_version`.
#[derive(Debug, Clone, Copy, PartialEq, Eq, Hash, PartialOrd, Ord, Structural)]
pub struct Revision(pub usize);

impl Revision {
    /// The canonical string form of this revision.
    pub open spec fn str_spec(self) -> Seq<char> {
        dec_str(self.0 as nat)
    }

    /// The smallest revision.
    pub fn zero() -> (r: Self)
        ensures
            r == Revision(0usize),
    {
        Revision(0)
    }

    /// The next revision.
    pub fn increment(self) -> (r: Self)
        requires
            self.0 < usize::MAX,
        ensures
            r.0 == self.0 + 1,
    {
        Revision(self.0 + 1)
    }

    /// The canonical decimal string of this revision.
    pub fn to_string(&self) -> (s: String)
        ensures
            s@ == self.str_spec(),
    {
        u64_to_string(self.0 as u64)
    }

    /// Parse a revision from its decimal string form. Succeeds exactly on a
    /// non-empty run of digits whose value fits the revision counter.
    pub fn from_str(s: &str) -> (r: Result<Self, ()>)
        ensures
            r is Ok <==> s@.len() > 0 && all_digits(s@) && str_val(s@) <= usize::MAX,
            r matches Ok(rev) ==> rev.0 as nat == str_val(s@),
    {
        match parse_u64(s) {
            Some(v) => {
                if v <= (usize::MAX as u64) {
                    Ok(Revision(v as usize))
                } else {
                    Err(())
                }
            },
            None => Err(()),
        }
    }

    /// The string round trip law: parsing the canonical string form of any
    /// revision gives back that revision. Together with the contracts of
    /// `to_string` and `from_str` this pins
    /// `Revision::from_str(&r.to_string()) == Ok(r)`.
    pub proof fn lemma_string_roundtrip(self)
        ensures
            self.str_spec().len() > 0,
            all_digits(self.str_spec()),
            str_val(self.str_spec()) == self.0 as nat,
    {
        lemma_dec_str_wf(self.0 as nat);
    }
}

// ---------------------------------------------------------------------------
// Consistency levels
// ---------------------------------------------------------------------------

/// Which history strategy the store runs with, and so which snapshots a
/// reader may be shown.
#[derive(Debug, Clone, Copy, PartialEq, Eq, Hash, Structural, Default)]
pub enum ConsistencySetup {
    /// Always work off the latest snapshot: linearizable reads and writes.
    #[default]
    Strong,
    /// Work off a snapshot at most `k` writes behind the latest.
    BoundedStaleness(usize),
    /// Work off a snapshot no older than the last one this session wrote.
    Session,
    /// Work off any retained snapshot.
    Eventual,
    /// Optimistically extend an uncommitted chain of snapshots, committing
    /// every `commit_every` writes.
    OptimisticLinear(usize),
}


impl DeepView for Revision {
    type V = Revision;

    open spec fn deep_view(&self) -> Revision {
        *self
    }
}

impl DeepClone for Revision {
    fn deep_clone(&self) -> (r: Self)
        ensures
            r.deep_view() == self.deep_view(),
    {
        *self
    }

    fn deep_eq(&self, other: &Self) -> (r: bool)
        ensures
            r == (self.deep_view() == other.deep_view()),
    {
        self.0 == other.0
    }
}

// ---------------------------------------------------------------------------
// StateView: one snapshot of the whole store
// ---------------------------------------------------------------------------

/// A snapshot of every typed resource at one revision, plus the set of
/// registered controllers.
#[derive(Debug, PartialEq, Eq, Hash)]
pub struct StateView {
    /// The revision this snapshot is valid at.
    pub revision: Revision,
    /// The cluster's nodes, keyed by id, sorted and unique.
    pub nodes: Vec<(usize, NodeResource)>,
    /// The controllers that have joined, sorted and unique.
    pub controllers: Vec<usize>,
    pub pods: Resources<Pod>,
    pub jobs: Resources<Job>,
    pub replica_sets: Resources<ReplicaSetResource>,
    pub deployments: Resources<DeploymentResource>,
    pub statefulsets: Resources<StatefulSetResource>,
}

#[verifier::ext_equal]
pub struct StateViewView {
    pub revision: Revision,
    pub nodes: Seq<(usize, NodeResourceView)>,
    pub controllers: Seq<usize>,
    pub pods: Seq<PodView>,
    pub jobs: Seq<JobView>,
    pub replica_sets: Seq<ReplicaSetResourceView>,
    pub deployments: Seq<DeploymentResourceView>,
    pub statefulsets: Seq<StatefulSetResourceView>,
}

impl View for StateView {
    type V = StateViewView;

    open spec fn view(&self) -> StateViewView {
        StateViewView {
            revision: self.revision,
            nodes: self.nodes.deep_view(),
            controllers: self.controllers@,
            pods: self.pods@,
            jobs: self.jobs@,
            replica_sets: self.replica_sets@,
            deployments: self.deployments@,
            statefulsets: self.statefulsets@,
        }
    }
}

impl DeepView for StateView {
    type V = StateViewView;

    open spec fn deep_view(&self) -> StateViewView {
        self.view()
    }
}

impl DeepClone for (usize, NodeResource) {
    fn deep_clone(&self) -> (r: Self)
        ensures
            r.deep_view() == self.deep_view(),
    {
        (self.0, self.1.clone())
    }

    fn deep_eq(&self, other: &Self) -> (r: bool)
        ensures
            r == (self.deep_view() == other.deep_view()),
    {
        let r = self.0 == other.0 && crate::resources::deep_eq_vec(
            &self.1.running,
            &other.1.running,
        ) && self.1.ready == other.1.ready && self.1.capacity == other.1.capacity;
        proof {
            if r {
                assert(self.1.deep_view() =~= other.1.deep_view());
                assert(self.deep_view() =~= other.deep_view());
            }
        }
        r
    }
}

impl Clone for StateView {
    fn clone(&self) -> (r: Self)
        ensures
            r@ == self@,
    {
        let r = StateView {
            revision: self.revision,
            nodes: crate::resources::deep_clone_vec(&self.nodes),
            controllers: crate::utils::clone_usize_vec(&self.controllers),
            pods: self.pods.clone(),
            jobs: self.jobs.clone(),
            replica_sets: self.replica_sets.clone(),
            deployments: self.deployments.clone(),
            statefulsets: self.statefulsets.clone(),
        };
        proof {
            assert(r@ =~= self@);
        }
        r
    }
}

impl DeepClone for StateView {
    fn deep_clone(&self) -> (r: Self)
        ensures
            r.deep_view() == self.deep_view(),
    {
        self.clone()
    }

    fn deep_eq(&self, other: &Self) -> (r: bool)
        ensures
            r == (self.deep_view() == other.deep_view()),
    {
        let r = self.revision.0 == other.revision.0 && crate::resources::deep_eq_vec(
            &self.nodes,
            &other.nodes,
        ) && crate::utils::usize_vec_eq(&self.controllers, &other.controllers) && deep_eq_res(
            &self.pods,
            &other.pods,
        ) && deep_eq_res(&self.jobs, &other.jobs) && deep_eq_res(
            &self.replica_sets,
            &other.replica_sets,
        ) && deep_eq_res(&self.deployments, &other.deployments) && deep_eq_res(
            &self.statefulsets,
            &other.statefulsets,
        );
        proof {
            if r {
                assert(self.deep_view() =~= other.deep_view());
            }
        }
        r
    }
}

/// Compare two resource collections at the level of their views.
fn deep_eq_res<T: Meta + DeepClone>(a: &Resources<T>, b: &Resources<T>) -> (r: bool)
    ensures
        r == (a@ == b@),
{
    let av = a.to_vec();
    let bv = b.to_vec();
    crate::resources::deep_eq_vec(&av, &bv)
}

impl Default for StateView {
    /// The empty snapshot at revision zero.
    fn default() -> (r: Self)
        ensures
            r.wf(),
            r@.revision == Revision(0usize),
            r@.nodes =~= Seq::<(usize, NodeResourceView)>::empty(),
            r@.controllers =~= Seq::<usize>::empty(),
            r@.pods =~= Seq::<PodView>::empty(),
            r@.jobs =~= Seq::<JobView>::empty(),
            r@.replica_sets =~= Seq::<ReplicaSetResourceView>::empty(),
            r@.deployments =~= Seq::<DeploymentResourceView>::empty(),
            r@.statefulsets =~= Seq::<StatefulSetResourceView>::empty(),
    {
        let r = StateView {
            revision: Revision(0),
            nodes: Vec::new(),
            controllers: Vec::new(),
            pods: Resources::new(),
            jobs: Resources::new(),
            replica_sets: Resources::new(),
            deployments: Resources::new(),
            statefulsets: Resources::new(),
        };
        proof {
            assert(r@.nodes =~= Seq::<(usize, NodeResourceView)>::empty());
        }
        r
    }
}

/// A snapshot's structural invariant: every collection is sorted and free of
/// duplicates, and every node's running set is too.
pub open spec fn state_view_wf(v: StateViewView) -> bool {
    &&& kmap_sorted(v.nodes)
    &&& (forall|i: int| 0 <= i < v.nodes.len() ==> str_sorted((#[trigger] v.nodes[i]).1.running))
    &&& uset_sorted(v.controllers)
    &&& sorted::<Pod>(v.pods)
    &&& sorted::<Job>(v.jobs)
    &&& sorted::<ReplicaSetResource>(v.replica_sets)
    &&& sorted::<DeploymentResource>(v.deployments)
    &&& sorted::<StatefulSetResource>(v.statefulsets)
}

/// Whether these strings are strictly ascending.
fn strings_sorted(v: &Vec<String>) -> (r: bool)
    ensures
        r == str_sorted(v.deep_view()),
{
    let ghost sv = v.deep_view();
    let n = v.len();
    if n <= 1 {
        return true;
    }
    let mut i: usize = 1;
    while i < n
        invariant
            1 <= i <= n,
            sv == v.deep_view(),
            n == v@.len() == sv.len(),
            forall|a: int, b: int|
                0 <= a < b < i ==> crate::utils::lex_lt(#[trigger] sv[a], #[trigger] sv[b]),
        decreases n - i,
    {
        proof {
            assert(sv[i - 1] == v@[i - 1]@);
            assert(sv[i as int] == v@[i as int]@);
        }
        if !crate::utils::str_lt(v[i - 1].as_str(), v[i].as_str()) {
            proof {
                assert(!crate::utils::lex_lt(sv[i - 1], sv[i as int]));
            }
            return false;
        }
        proof {
            assert forall|a: int| 0 <= a < i implies crate::utils::lex_lt(
                #[trigger] sv[a],
                sv[i as int],
            ) by {
                if a < i - 1 {
                    crate::utils::lemma_lex_lt_trans(sv[a], sv[i - 1], sv[i as int]);
                }
            }
        }
        i = i + 1;
    }
    true
}

impl StateView {
    /// The runtime twin of [`StateView::wf`]: an embedder that assembles a
    /// snapshot by hand can test it before seeding a store, instead of
    /// trusting its own construction.
    pub fn check_wf(&self) -> (r: bool)
        ensures
            r == self.wf(),
    {
        let ghost nv = self@.nodes;
        let ghost cv = self@.controllers;
        // node ids strictly ascending, each node's running set sorted
        let mut i: usize = 0;
        while i < self.nodes.len()
            invariant
                nv == self@.nodes,
                cv == self@.controllers,
                i <= self.nodes@.len() == nv.len(),
                forall|a: int, b: int| 0 <= a < b < i ==> (#[trigger] nv[a]).0 < (
                #[trigger] nv[b]).0,
                forall|a: int| 0 <= a < i ==> str_sorted((#[trigger] nv[a]).1.running),
            decreases self.nodes.len() - i,
        {
            proof {
                assert(nv[i as int] == self.nodes@[i as int].deep_view());
                if i > 0 {
                    assert(nv[i - 1] == self.nodes@[i - 1].deep_view());
                }
            }
            if i > 0 && self.nodes[i - 1].0 >= self.nodes[i].0 {
                proof {
                    assert(!kmap_sorted(nv));
                }
                return false;
            }
            if !strings_sorted(&self.nodes[i].1.running) {
                return false;
            }
            proof {
                assert forall|a: int| 0 <= a < i implies (#[trigger] nv[a]).0 < nv[i as int].0 by {
                    if a < i - 1 {
                        assert(nv[a].0 < nv[i - 1].0);
                    }
                }
            }
            i = i + 1;
        }
        // joined controllers strictly ascending
        let mut k: usize = 1;
        while k < self.controllers.len()
            invariant
                cv == self@.controllers,
                self.controllers@.len() == 0 || 1 <= k,
                k <= self.controllers@.len() == cv.len() || self.controllers@.len() == 0,
                forall|a: int, b: int| 0 <= a < b < k ==> #[trigger] cv[a] < #[trigger] cv[b],
            decreases self.controllers.len() - k,
        {
            if self.controllers[k - 1] >= self.controllers[k] {
                proof {
                    assert(!uset_sorted(cv));
                }
                return false;
            }
            proof {
                assert forall|a: int| 0 <= a < k implies #[trigger] cv[a] < cv[k as int] by {
                    if a < k - 1 {
                        assert(cv[a] < cv[k - 1]);
                    }
                }
            }
            k = k + 1;
        }
        // each resource collection sorted by name
        self.pods.is_sorted() && self.jobs.is_sorted() && self.replica_sets.is_sorted()
            && self.deployments.is_sorted() && self.statefulsets.is_sorted()
    }
}

/// A bare pod under this name, as created by the `NewPod` operation.
pub open spec fn new_pod_view(name: Seq<char>) -> PodView {
    PodView {
        metadata: MetadataView { name: name, ..blank_metadata_view() },
        spec: PodSpecView {
            node_name: None,
            containers: Seq::empty(),
            init_containers: Seq::empty(),
            restart_policy: None,
            hostname: Seq::empty(),
        },
        status: PodStatusView {
            phase: PodPhase::Pending,
            conditions: Seq::empty(),
            container_statuses: Seq::empty(),
            init_container_statuses: Seq::empty(),
        },
    }
}

/// A bare replica set under this name, as created by `NewReplicaset`.
pub open spec fn new_replicaset_view(name: Seq<char>) -> ReplicaSetResourceView {
    ReplicaSetResourceView {
        metadata: MetadataView { name: name, ..blank_metadata_view() },
        replicas: 2,
    }
}

/// The pod a `CreatePod` operation actually stores: a fresh name is derived
/// from the generate-name prefix and the revision where the name is empty, a
/// fresh uid from the revision where the uid is empty, and the creation
/// timestamp is the revision's logical time.
pub open spec fn create_pod_view(p: PodView, rev: Revision) -> PodView {
    let rs = dec_str(rev.0 as nat);
    PodView {
        metadata: MetadataView {
            name: if p.metadata.name.len() == 0 {
                p.metadata.generate_name + rs
            } else {
                p.metadata.name
            },
            uid: if p.metadata.uid.len() == 0 {
                "u-"@ + rs
            } else {
                p.metadata.uid
            },
            creation_timestamp: Some(Time(rev.0 as u64)),
            ..p.metadata
        },
        ..p
    }
}

/// What applying one operation to a snapshot yields: the revision becomes
/// `rev` and exactly one collection changes as the operation dictates.
/// Resource updates follow the concurrency-control rules of
/// [`crate::state::resources::inserted`]; a rejected write changes nothing
/// but the revision. An operation whose target is gone — a pod run on a
/// node the snapshot no longer holds, a schedule of a vanished pod — is a
/// deliberate silent no-op: in a store that serves stale snapshots a
/// racing deletion is an expected outcome, not an error.
pub open spec fn apply_op_spec(v: StateViewView, op: OperationView, rev: Revision)
    -> StateViewView {
    let rs = dec_str(rev.0 as nat);
    match op {
        OperationView::NodeJoin(i, cap) => StateViewView {
            revision: rev,
            nodes: kmap_put(
                v.nodes,
                i,
                NodeResourceView { running: Seq::empty(), ready: true, capacity: cap },
            ),
            ..v
        },
        OperationView::ControllerJoin(i) => StateViewView {
            revision: rev,
            controllers: uset_put(v.controllers, i),
            ..v
        },
        OperationView::NewPod(name) => StateViewView {
            revision: rev,
            pods: inserted::<Pod>(v.pods, new_pod_view(name), rs),
            ..v
        },
        OperationView::NewReplicaset(name) => StateViewView {
            revision: rev,
            replica_sets: inserted::<ReplicaSetResource>(
                v.replica_sets,
                new_replicaset_view(name),
                rs,
            ),
            ..v
        },
        OperationView::SchedulePod(name, node) => StateViewView {
            revision: rev,
            pods: pods_scheduled(v.pods, name, node),
            ..v
        },
        OperationView::RunPod(name, node) => StateViewView {
            revision: rev,
            nodes: match kmap_get(v.nodes, node) {
                Some(n) => kmap_put(
                    v.nodes,
                    node,
                    NodeResourceView { running: str_set_put(n.running, name), ..n },
                ),
                None => v.nodes,
            },
            ..v
        },
        OperationView::NodeCrash(node) => StateViewView {
            revision: rev,
            nodes: kmap_del(v.nodes, node),
            pods: v.pods.filter(|p: PodView| p.spec.node_name != Some(node)),
            ..v
        },
        OperationView::UpdateJob(j) => StateViewView {
            revision: rev,
            jobs: inserted::<Job>(v.jobs, j, rs),
            ..v
        },
        OperationView::UpdateJobStatus(j) => StateViewView {
            revision: rev,
            jobs: inserted::<Job>(v.jobs, j, rs),
            ..v
        },
        OperationView::CreatePod(p) => StateViewView {
            revision: rev,
            pods: inserted::<Pod>(v.pods, create_pod_view(p, rev), rs),
            ..v
        },
        OperationView::UpdatePod(p) => StateViewView {
            revision: rev,
            pods: inserted::<Pod>(v.pods, p, rs),
            ..v
        },
        OperationView::DeletePod(p) => StateViewView {
            revision: rev,
            pods: pods_deleted(v.pods, p.metadata.name, Time(rev.0 as u64)),
            ..v
        },
    }
}

impl StateView {
    /// The snapshot's structural invariant.
    pub open spec fn wf(self) -> bool {
        state_view_wf(self@)
    }

    /// Apply one operation, stamping the snapshot with the given revision.
    pub fn apply_operation(&mut self, op: Operation, new_revision: Revision)
        requires
            old(self).wf(),
        ensures
            final(self).wf(),
            final(self)@ == apply_op_spec(old(self)@, op@, new_revision),
    {
        let ghost v0 = old(self)@;
        let ghost opv = op@;
        match op {
            Operation::NodeJoin(i, cap) => {
                let node = NodeResource { running: Vec::new(), ready: true, capacity: cap };
                proof {
                    assert(node.deep_view() =~= NodeResourceView {
                        running: Seq::empty(),
                        ready: true,
                        capacity: cap,
                    });
                }
                crate::utils::kv_put(&mut self.nodes, i, node);
                self.revision = new_revision;
                proof {
                    assert(self@ =~= apply_op_spec(v0, opv, new_revision));
                    lemma_nodes_wf_put(v0.nodes, i, self@.nodes, Seq::empty());
                }
            },
            Operation::ControllerJoin(i) => {
                crate::utils::uset_insert(&mut self.controllers, i);
                self.revision = new_revision;
                proof {
                    assert(self@ =~= apply_op_spec(v0, opv, new_revision));
                }
            },
            Operation::NewPod(name) => {
                let pod = Pod {
                    metadata: crate::resources::blank_metadata_named(name),
                    spec: PodSpec {
                        node_name: None,
                        containers: Vec::new(),
                        init_containers: Vec::new(),
                        restart_policy: None,
                        hostname: String::new(),
                    },
                    status: PodStatus {
                        phase: PodPhase::Pending,
                        conditions: Vec::new(),
                        container_statuses: Vec::new(),
                        init_container_statuses: Vec::new(),
                    },
                };
                proof {
                    assert(pod.deep_view() =~= new_pod_view(opv->NewPod_0));
                }
                let _ = self.pods.insert(pod, new_revision);
                self.revision = new_revision;
                proof {
                    assert(self@ =~= apply_op_spec(v0, opv, new_revision));
                }
            },
            Operation::NewReplicaset(name) => {
                let rs = ReplicaSetResource {
                    metadata: crate::resources::blank_metadata_named(name),
                    replicas: 2,
                };
                proof {
                    assert(rs.deep_view() =~= new_replicaset_view(opv->NewReplicaset_0));
                }
                let _ = self.replica_sets.insert(rs, new_revision);
                self.revision = new_revision;
                proof {
                    assert(self@ =~= apply_op_spec(v0, opv, new_revision));
                }
            },
            Operation::SchedulePod(name, node) => {
                self.pods.set_pod_node(name.as_str(), node);
                self.revision = new_revision;
                proof {
                    assert(self@ =~= apply_op_spec(v0, opv, new_revision));
                }
            },
            Operation::RunPod(name, node) => {
                let found = match crate::utils::kv_get(&self.nodes, node) {
                    Some(n) => Some(n.clone()),
                    None => None,
                };
                match found {
                    Some(mut n) => {
                        proof {
                            crate::utils::lemma_kmap_get_mem(v0.nodes, node);
                        }
                        crate::utils::str_set_insert(&mut n.running, name);
                        let ghost running1 = n.deep_view().running;
                        crate::utils::kv_put(&mut self.nodes, node, n);
                        self.revision = new_revision;
                        proof {
                            assert(self@ =~= apply_op_spec(v0, opv, new_revision));
                            lemma_nodes_wf_put(v0.nodes, node, self@.nodes, running1);
                        }
                    },
                    None => {
                        self.revision = new_revision;
                        proof {
                            assert(self@ =~= apply_op_spec(v0, opv, new_revision));
                        }
                    },
                }
            },
            Operation::NodeCrash(node) => {
                crate::utils::kv_del(&mut self.nodes, node);
                self.pods.remove_on_node(node);
                self.revision = new_revision;
                proof {
                    assert(self@ =~= apply_op_spec(v0, opv, new_revision));
                    lemma_nodes_wf_del(v0.nodes, node, self@.nodes);
                }
            },
            Operation::UpdateJob(j) => {
                let _ = self.jobs.insert(j, new_revision);
                self.revision = new_revision;
                proof {
                    assert(self@ =~= apply_op_spec(v0, opv, new_revision));
                }
            },
            Operation::UpdateJobStatus(j) => {
                let _ = self.jobs.insert(j, new_revision);
                self.revision = new_revision;
                proof {
                    assert(self@ =~= apply_op_spec(v0, opv, new_revision));
                }
            },
            Operation::CreatePod(p) => {
                let ghost pv = p.deep_view();
                let rev_string = new_revision.to_string();
                let mut p = p;
                let mut md = p.metadata.clone();
                if md.name.as_str().is_empty() {
                    let mut fresh = md.generate_name.clone();
                    fresh.append(rev_string.as_str());
                    md.name = fresh;
                }
                if md.uid.as_str().is_empty() {
                    proof {
                        reveal_strlit("u-");
                    }
                    let mut fresh = String::new();
                    fresh.append("u-");
                    fresh.append(rev_string.as_str());
                    md.uid = fresh;
                }
                md.creation_timestamp = Some(Time(new_revision.0 as u64));
                p.metadata = md;
                proof {
                    assert(p.deep_view() =~= create_pod_view(pv, new_revision));
                }
                let _ = self.pods.insert(p, new_revision);
                self.revision = new_revision;
                proof {
                    assert(self@ =~= apply_op_spec(v0, opv, new_revision));
                }
            },
            Operation::UpdatePod(p) => {
                let _ = self.pods.insert(p, new_revision);
                self.revision = new_revision;
                proof {
                    assert(self@ =~= apply_op_spec(v0, opv, new_revision));
                }
            },
            Operation::DeletePod(p) => {
                self.pods.delete_pod(p.metadata.name.as_str(), Time(new_revision.0 as u64));
                self.revision = new_revision;
                proof {
                    assert(self@ =~= apply_op_spec(v0, opv, new_revision));
                }
            },
        }
    }

    /// Apply one change, advancing the revision by one.
    pub fn apply_change(&mut self, change: &Change)
        requires
            old(self).wf(),
            old(self).revision.0 < usize::MAX,
        ensures
            final(self).wf(),
            final(self)@ == apply_op_spec(
                old(self)@,
                change@.operation,
                Revision((old(self).revision.0 + 1) as usize),
            ),
    {
        let next = self.revision.increment();
        self.apply_operation(change.operation.clone(), next);
    }
}

/// Node well-formedness survives binding a node whose running set is sorted.
proof fn lemma_nodes_wf_put(
    s: Seq<(usize, NodeResourceView)>,
    k: usize,
    out: Seq<(usize, NodeResourceView)>,
    running: Seq<Seq<char>>,
)
    requires
        kmap_sorted(s),
        forall|i: int| 0 <= i < s.len() ==> str_sorted((#[trigger] s[i]).1.running),
        str_sorted(running),
        exists|n: NodeResourceView|
            n.running == running && out == kmap_put(s, k, n),
    ensures
        kmap_sorted(out),
        forall|i: int| 0 <= i < out.len() ==> str_sorted((#[trigger] out[i]).1.running),
{
    let n = choose|n: NodeResourceView| n.running == running && out == kmap_put(s, k, n);
    crate::utils::lemma_kmap_put_props(s, k, n);
    assert forall|i: int| 0 <= i < out.len() implies str_sorted(
        (#[trigger] out[i]).1.running,
    ) by {
        if out[i] != (k, n) {
            assert(s.contains(out[i]));
            let j = choose|j: int| 0 <= j < s.len() && s[j] == out[i];
            assert(str_sorted(s[j].1.running));
        }
    }
}

/// Node well-formedness survives removing a node.
proof fn lemma_nodes_wf_del(
    s: Seq<(usize, NodeResourceView)>,
    k: usize,
    out: Seq<(usize, NodeResourceView)>,
)
    requires
        kmap_sorted(s),
        forall|i: int| 0 <= i < s.len() ==> str_sorted((#[trigger] s[i]).1.running),
        out == kmap_del(s, k),
    ensures
        kmap_sorted(out),
        forall|i: int| 0 <= i < out.len() ==> str_sorted((#[trigger] out[i]).1.running),
{
    crate::utils::lemma_kmap_del_props(s, k);
    assert forall|i: int| 0 <= i < out.len() implies str_sorted(
        (#[trigger] out[i]).1.running,
    ) by {
        assert(s.contains(out[i]));
        let j = choose|j: int| 0 <= j < s.len() && s[j] == out[i];
        assert(str_sorted(s[j].1.running));
    }
}


// ---------------------------------------------------------------------------
// Histories
// ---------------------------------------------------------------------------

/// The revisions of a sequence of snapshots, in order.
pub open spec fn revs_of(s: Seq<StateViewView>) -> Seq<Revision> {
    Seq::new(s.len(), |i: int| s[i].revision)
}

/// The newest revision of a non-empty sequence of snapshots.
pub open spec fn newest(s: Seq<StateViewView>) -> Revision {
    s.last().revision
}

/// Some snapshot in the sequence carries this revision.
pub open spec fn rev_retained(s: Seq<StateViewView>, r: Revision) -> bool {
    exists|i: int| 0 <= i < s.len() && (#[trigger] s[i]).revision == r
}

/// The index of the snapshot at this revision; meaningful when the sequence
/// is revision-sorted and the revision is retained.
pub open spec fn idx_of_rev(s: Seq<StateViewView>, r: Revision) -> int {
    choose|i: int| 0 <= i < s.len() && (#[trigger] s[i]).revision == r
}

/// The snapshot retained at this revision.
pub open spec fn retained_at(s: Seq<StateViewView>, r: Revision) -> StateViewView {
    s[idx_of_rev(s, r)]
}

/// Snapshots strictly sorted by revision.
pub open spec fn hist_sorted(s: Seq<StateViewView>) -> bool {
    forall|i: int, j: int|
        0 <= i < j < s.len() ==> (#[trigger] s[i]).revision.0 < (#[trigger] s[j]).revision.0
}

/// A well-formed retained sequence: non-empty, revision-sorted, every
/// snapshot internally consistent.
pub open spec fn hist_wf(s: Seq<StateViewView>) -> bool {
    &&& s.len() >= 1
    &&& hist_sorted(s)
    &&& forall|i: int| 0 <= i < s.len() ==> state_view_wf(#[trigger] s[i])
}

/// In a revision-sorted sequence the index of a revision is unique.
pub proof fn lemma_rev_unique(s: Seq<StateViewView>, r: Revision, i: int)
    requires
        hist_sorted(s),
        0 <= i < s.len(),
        s[i].revision == r,
    ensures
        idx_of_rev(s, r) == i,
        rev_retained(s, r),
        retained_at(s, r) == s[i],
{
    let j = idx_of_rev(s, r);
    assert(0 <= j < s.len() && s[j].revision == r);
}

/// The common contract of every history strategy: apply a change producing a
/// strictly larger revision, answer the newest revision, expose the snapshot
/// at a retained revision, and say which revisions a session may observe.
///
/// Each strategy pins its whole behaviour with `add_spec`, the exact view of
/// the history after a change.
pub trait History: View + Sized {
    /// The strategy's internal invariant, over its view.
    spec fn inv(v: Self::V) -> bool;

    /// The retained snapshots, oldest first.
    spec fn retained_of(v: Self::V) -> Seq<StateViewView>;

    /// The revisions a reader in session `from` may observe.
    spec fn valid_of(v: Self::V, from: usize) -> Seq<Revision>;

    /// Whether a change can attach to this history; only the optimistic
    /// strategy constrains this, requiring the change's baseline revision to
    /// still be retained.
    spec fn accepts_of(v: Self::V, change: crate::abstract_model::ChangeView) -> bool;

    /// The snapshot the change is applied to.
    spec fn baseline_of(v: Self::V, change: crate::abstract_model::ChangeView) -> StateViewView;

    /// The exact view of the history after applying a change.
    spec fn add_spec(v: Self::V, change: crate::abstract_model::ChangeView, from: usize)
        -> Self::V;

    /// The invariant bounds the retained snapshots and the valid revisions.
    proof fn lemma_inv(v: Self::V, from: usize)
        requires
            Self::inv(v),
        ensures
            hist_wf(Self::retained_of(v)),
            forall|i: int|
                0 <= i < Self::valid_of(v, from).len() ==> rev_retained(
                    Self::retained_of(v),
                    #[trigger] Self::valid_of(v, from)[i],
                ),
    ;

    /// Apply the contained operation, producing a new, strictly larger
    /// revision. The history afterwards is exactly `add_spec`, and its newest
    /// snapshot is the operation applied to the change's baseline.
    fn add_change(&mut self, change: crate::abstract_model::Change, from: usize) -> (rev:
        Revision)
        requires
            Self::inv(old(self)@),
            Self::accepts_of(old(self)@, change@),
            newest(Self::retained_of(old(self)@)).0 < usize::MAX,
        ensures
            Self::inv(final(self)@),
            final(self)@ == Self::add_spec(old(self)@, change@, from),
            rev.0 == newest(Self::retained_of(old(self)@)).0 + 1,
            rev == newest(Self::retained_of(final(self)@)),
            Self::retained_of(final(self)@).last() == apply_op_spec(
                Self::baseline_of(old(self)@, change@),
                change@.operation,
                rev,
            ),
    ;

    /// The newest retained revision.
    fn max_revision(&self) -> (r: Revision)
        requires
            Self::inv(self@),
        ensures
            r == newest(Self::retained_of(self@)),
    ;

    /// The snapshot retained at a revision. Asking for a revision the
    /// strategy does not retain would be a driver bug, so it is required
    /// away.
    fn state_at(&self, revision: Revision) -> (s: &StateView)
        requires
            Self::inv(self@),
            rev_retained(Self::retained_of(self@), revision),
        ensures
            s@ == retained_at(Self::retained_of(self@), revision),
            s@.revision == revision,
    ;

    /// The revisions a reader in session `from` may observe now.
    fn valid_revisions(&self, from: usize) -> (rs: Vec<Revision>)
        requires
            Self::inv(self@),
        ensures
            rs@ == Self::valid_of(self@, from),
    ;

    /// Whether a change can attach to this history.
    fn can_accept(&self, change: &crate::abstract_model::Change) -> (r: bool)
        requires
            Self::inv(self@),
        ensures
            r == Self::accepts_of(self@, change@),
    ;

    /// Forget the per-session progress of `from`; the retained snapshots are
    /// untouched.
    fn reset_session(&mut self, from: usize)
        requires
            Self::inv(old(self)@),
        ensures
            Self::inv(final(self)@),
            Self::retained_of(final(self)@) == Self::retained_of(old(self)@),
    ;

    /// The snapshots a reader in session `from` may observe now.
    fn states_for(&self, from: usize) -> (ss: Vec<StateView>)
        requires
            Self::inv(self@),
        ensures
            ss@.len() == Self::valid_of(self@, from).len(),
            forall|i: int|
                0 <= i < ss@.len() ==> (#[trigger] ss@[i])@ == retained_at(
                    Self::retained_of(self@),
                    Self::valid_of(self@, from)[i],
                ) && ss@[i]@.revision == Self::valid_of(self@, from)[i],
    {
        let revs = self.valid_revisions(from);
        let mut ss: Vec<StateView> = Vec::new();
        let mut i: usize = 0;
        while i < revs.len()
            invariant
                Self::inv(self@),
                revs@ == Self::valid_of(self@, from),
                i <= revs@.len(),
                ss@.len() == i,
                forall|j: int|
                    0 <= j < i ==> (#[trigger] ss@[j])@ == retained_at(
                        Self::retained_of(self@),
                        Self::valid_of(self@, from)[j],
                    ) && ss@[j]@.revision == Self::valid_of(self@, from)[j],
            decreases revs.len() - i,
        {
            proof {
                Self::lemma_inv(self@, from);
            }
            let s = self.state_at(revs[i]);
            ss.push(s.clone());
            i = i + 1;
        }
        ss
    }
}

// ---------------------------------------------------------------------------
// Strong history: exactly the latest snapshot
// ---------------------------------------------------------------------------

/// Stores exactly the latest snapshot: linearizable reads and writes.
#[derive(Debug, PartialEq, Eq, Hash)]
pub struct StrongHistory {
    pub state: StateView,
}

#[verifier::ext_equal]
pub struct StrongHistoryView {
    pub state: StateViewView,
}

impl View for StrongHistory {
    type V = StrongHistoryView;

    open spec fn view(&self) -> StrongHistoryView {
        StrongHistoryView { state: self.state@ }
    }
}

impl Clone for StrongHistory {
    fn clone(&self) -> (r: Self)
        ensures
            r@ == self@,
    {
        let r = StrongHistory { state: self.state.clone() };
        proof {
            assert(r@ =~= self@);
        }
        r
    }
}

impl StrongHistory {
    /// A strong history seeded with one snapshot.
    pub fn new(initial_state: StateView) -> (r: Self)
        ensures
            r@ == (StrongHistoryView { state: initial_state@ }),
    {
        StrongHistory { state: initial_state }
    }
}

impl History for StrongHistory {
    open spec fn inv(v: StrongHistoryView) -> bool {
        state_view_wf(v.state)
    }

    open spec fn retained_of(v: StrongHistoryView) -> Seq<StateViewView> {
        seq![v.state]
    }

    open spec fn valid_of(v: StrongHistoryView, from: usize) -> Seq<Revision> {
        seq![v.state.revision]
    }

    open spec fn accepts_of(v: StrongHistoryView, change: crate::abstract_model::ChangeView)
        -> bool {
        true
    }

    open spec fn baseline_of(v: StrongHistoryView, change: crate::abstract_model::ChangeView)
        -> StateViewView {
        v.state
    }

    open spec fn add_spec(
        v: StrongHistoryView,
        change: crate::abstract_model::ChangeView,
        from: usize,
    ) -> StrongHistoryView {
        StrongHistoryView {
            state: apply_op_spec(
                v.state,
                change.operation,
                Revision((v.state.revision.0 + 1) as usize),
            ),
        }
    }

    proof fn lemma_inv(v: StrongHistoryView, from: usize) {
        let s = Self::retained_of(v);
        assert(s[0] == v.state);
        assert forall|i: int| 0 <= i < Self::valid_of(v, from).len() implies rev_retained(
            s,
            #[trigger] Self::valid_of(v, from)[i],
        ) by {
            assert(s[0].revision == Self::valid_of(v, from)[0]);
        }
    }

    fn add_change(&mut self, change: crate::abstract_model::Change, from: usize) -> (rev:
        Revision) {
        let ghost v0 = self@;
        self.state.apply_change(&change);
        proof {
            assert(self@ =~= Self::add_spec(v0, change@, from));
            assert(Self::retained_of(self@).last() == self.state@);
            assert(Self::retained_of(v0)[0] == v0.state);
        }
        self.state.revision
    }

    fn max_revision(&self) -> (r: Revision) {
        proof {
            assert(Self::retained_of(self@).last() == self.state@);
        }
        self.state.revision
    }

    fn state_at(&self, revision: Revision) -> (s: &StateView) {
        proof {
            let ret = Self::retained_of(self@);
            assert(ret[0] == self.state@);
            let i = idx_of_rev(ret, revision);
            assert(0 <= i < ret.len() && ret[i].revision == revision) by {
                let w = choose|w: int| 0 <= w < ret.len() && (#[trigger] ret[w]).revision
                    == revision;
                assert(ret[w].revision == revision);
            }
            assert(i == 0);
        }
        &self.state
    }

    fn valid_revisions(&self, from: usize) -> (rs: Vec<Revision>) {
        let mut rs: Vec<Revision> = Vec::new();
        rs.push(self.state.revision);
        proof {
            assert(rs@ =~= Self::valid_of(self@, from));
        }
        rs
    }

    fn can_accept(&self, change: &crate::abstract_model::Change) -> (r: bool) {
        true
    }

    fn reset_session(&mut self, from: usize) {
    }
}

// ---------------------------------------------------------------------------
// Eventual history: every snapshot ever produced
// ---------------------------------------------------------------------------

/// Keeps every snapshot; a reader may observe any past one.
#[derive(Debug, PartialEq, Eq, Hash)]
pub struct EventualHistory {
    pub states: Vec<StateView>,
}

#[verifier::ext_equal]
pub struct EventualHistoryView {
    pub states: Seq<StateViewView>,
}

impl View for EventualHistory {
    type V = EventualHistoryView;

    open spec fn view(&self) -> EventualHistoryView {
        EventualHistoryView { states: self.states.deep_view() }
    }
}

impl Clone for EventualHistory {
    fn clone(&self) -> (r: Self)
        ensures
            r@ == self@,
    {
        let r = EventualHistory { states: crate::resources::deep_clone_vec(&self.states) };
        proof {
            assert(r@ =~= self@);
        }
        r
    }
}

impl EventualHistory {
    /// An eventual history seeded with one snapshot.
    pub fn new(initial_state: StateView) -> (r: Self)
        ensures
            r@.states =~= seq![initial_state@],
    {
        let mut states: Vec<StateView> = Vec::new();
        states.push(initial_state);
        let r = EventualHistory { states };
        proof {
            assert(r@.states[0] == r.states@[0].deep_view());
        }
        r
    }
}

impl History for EventualHistory {
    open spec fn inv(v: EventualHistoryView) -> bool {
        hist_wf(v.states)
    }

    open spec fn retained_of(v: EventualHistoryView) -> Seq<StateViewView> {
        v.states
    }

    open spec fn valid_of(v: EventualHistoryView, from: usize) -> Seq<Revision> {
        revs_of(v.states)
    }

    open spec fn accepts_of(v: EventualHistoryView, change: crate::abstract_model::ChangeView)
        -> bool {
        true
    }

    open spec fn baseline_of(v: EventualHistoryView, change: crate::abstract_model::ChangeView)
        -> StateViewView {
        v.states.last()
    }

    open spec fn add_spec(
        v: EventualHistoryView,
        change: crate::abstract_model::ChangeView,
        from: usize,
    ) -> EventualHistoryView {
        EventualHistoryView {
            states: v.states.push(
                apply_op_spec(
                    v.states.last(),
                    change.operation,
                    Revision((newest(v.states).0 + 1) as usize),
                ),
            ),
        }
    }

    proof fn lemma_inv(v: EventualHistoryView, from: usize) {
        assert forall|i: int| 0 <= i < Self::valid_of(v, from).len() implies rev_retained(
            v.states,
            #[trigger] Self::valid_of(v, from)[i],
        ) by {
            assert(v.states[i].revision == Self::valid_of(v, from)[i]);
        }
    }

    fn add_change(&mut self, change: crate::abstract_model::Change, from: usize) -> (rev:
        Revision) {
        let ghost v0 = self@;
        let last = self.states.len() - 1;
        proof {
            assert(v0.states[last as int] == self.states@[last as int].deep_view());
        }
        let mut st = (&self.states[last]).clone();
        let next = st.revision.increment();
        st.apply_operation(change.operation, next);
        let ghost pre = self.states@;
        let ghost stv = st@;
        self.states.push(st);
        proof {
            assert forall|j: int| 0 <= j < self@.states.len() implies self@.states[j]
                == v0.states.push(stv)[j] by {
                assert(self@.states[j] == self.states@[j].deep_view());
                if j < pre.len() {
                    assert(self.states@[j] == pre[j]);
                    assert(v0.states[j] == pre[j].deep_view());
                }
            }
            assert(self@.states =~= v0.states.push(stv));
            assert(self@ =~= Self::add_spec(v0, change@, from));
            assert(hist_wf(self@.states)) by {
                assert(forall|i: int|
                    0 <= i < v0.states.len() ==> (#[trigger] v0.states[i]).revision.0 <= newest(
                        v0.states,
                    ).0);
            }
        }
        self.max_revision()
    }

    fn max_revision(&self) -> (r: Revision) {
        let last = self.states.len() - 1;
        proof {
            assert(self@.states[last as int] == self.states@[last as int].deep_view());
        }
        self.states[last].revision
    }

    fn state_at(&self, revision: Revision) -> (s: &StateView) {
        let ghost ret = self@.states;
        let mut i: usize = 0;
        while i < self.states.len()
            invariant
                ret == self@.states,
                hist_sorted(ret),
                i <= self.states@.len() == ret.len(),
                rev_retained(ret, revision),
                forall|j: int| 0 <= j < i ==> (#[trigger] ret[j]).revision != revision,
            decreases self.states.len() - i,
        {
            proof {
                assert(ret[i as int] == self.states@[i as int].deep_view());
            }
            if self.states[i].revision.0 == revision.0 {
                proof {
                    assert(ret[i as int].revision == revision);
                    lemma_rev_unique(ret, revision, i as int);
                }
                return &self.states[i];
            }
            i = i + 1;
        }
        proof {
            let w = choose|w: int| 0 <= w < ret.len() && (#[trigger] ret[w]).revision == revision;
            assert(false);
        }
        &self.states[0]
    }

    fn valid_revisions(&self, from: usize) -> (rs: Vec<Revision>) {
        let mut rs: Vec<Revision> = Vec::new();
        let mut i: usize = 0;
        while i < self.states.len()
            invariant
                i <= self.states@.len() == self@.states.len(),
                rs@.len() == i,
                forall|j: int| 0 <= j < i ==> #[trigger] rs@[j] == self@.states[j].revision,
            decreases self.states.len() - i,
        {
            proof {
                assert(self@.states[i as int] == self.states@[i as int].deep_view());
            }
            rs.push(self.states[i].revision);
            i = i + 1;
        }
        proof {
            assert(rs@ =~= revs_of(self@.states));
        }
        rs
    }

    fn can_accept(&self, change: &crate::abstract_model::Change) -> (r: bool) {
        true
    }

    fn reset_session(&mut self, from: usize) {
    }
}

// ---------------------------------------------------------------------------
// Bounded-staleness history: a ring of the most recent snapshots
// ---------------------------------------------------------------------------

/// Keeps the most recent `k + 1` snapshots.
#[derive(Debug, PartialEq, Eq, Hash)]
pub struct BoundedHistory {
    pub k: usize,
    pub last_k_states: Vec<StateView>,
}

#[verifier::ext_equal]
pub struct BoundedHistoryView {
    pub k: usize,
    pub states: Seq<StateViewView>,
}

impl View for BoundedHistory {
    type V = BoundedHistoryView;

    open spec fn view(&self) -> BoundedHistoryView {
        BoundedHistoryView { k: self.k, states: self.last_k_states.deep_view() }
    }
}

impl Clone for BoundedHistory {
    fn clone(&self) -> (r: Self)
        ensures
            r@ == self@,
    {
        let r = BoundedHistory {
            k: self.k,
            last_k_states: crate::resources::deep_clone_vec(&self.last_k_states),
        };
        proof {
            assert(r@ =~= self@);
        }
        r
    }
}

impl BoundedHistory {
    /// A bounded history allowing reads up to `k` writes stale.
    pub fn new(initial_state: StateView, k: usize) -> (r: Self)
        ensures
            r@.k == k,
            r@.states =~= seq![initial_state@],
    {
        let mut states: Vec<StateView> = Vec::new();
        states.push(initial_state);
        let r = BoundedHistory { k, last_k_states: states };
        proof {
            assert(r@.states[0] == r.last_k_states@[0].deep_view());
        }
        r
    }
}

impl History for BoundedHistory {
    open spec fn inv(v: BoundedHistoryView) -> bool {
        hist_wf(v.states) && v.states.len() <= v.k + 1
    }

    open spec fn retained_of(v: BoundedHistoryView) -> Seq<StateViewView> {
        v.states
    }

    open spec fn valid_of(v: BoundedHistoryView, from: usize) -> Seq<Revision> {
        revs_of(v.states)
    }

    open spec fn accepts_of(v: BoundedHistoryView, change: crate::abstract_model::ChangeView)
        -> bool {
        true
    }

    open spec fn baseline_of(v: BoundedHistoryView, change: crate::abstract_model::ChangeView)
        -> StateViewView {
        v.states.last()
    }

    open spec fn add_spec(
        v: BoundedHistoryView,
        change: crate::abstract_model::ChangeView,
        from: usize,
    ) -> BoundedHistoryView {
        let new = apply_op_spec(
            v.states.last(),
            change.operation,
            Revision((newest(v.states).0 + 1) as usize),
        );
        BoundedHistoryView {
            k: v.k,
            states: if v.states.len() > v.k {
                v.states.drop_first().push(new)
            } else {
                v.states.push(new)
            },
        }
    }

    proof fn lemma_inv(v: BoundedHistoryView, from: usize) {
        assert forall|i: int| 0 <= i < Self::valid_of(v, from).len() implies rev_retained(
            v.states,
            #[trigger] Self::valid_of(v, from)[i],
        ) by {
            assert(v.states[i].revision == Self::valid_of(v, from)[i]);
        }
    }

    fn add_change(&mut self, change: crate::abstract_model::Change, from: usize) -> (rev:
        Revision) {
        let ghost v0 = self@;
        let last = self.last_k_states.len() - 1;
        proof {
            assert(v0.states[last as int] == self.last_k_states@[last as int].deep_view());
        }
        let mut st = (&self.last_k_states[last]).clone();
        let next = st.revision.increment();
        st.apply_operation(change.operation, next);
        let ghost stv = st@;
        let evict = self.last_k_states.len() > self.k;
        if evict {
            let ghost pre = self.last_k_states@;
            let _ = self.last_k_states.remove(0);
            proof {
                assert forall|j: int| 0 <= j < self@.states.len() implies self@.states[j]
                    == v0.states.drop_first()[j] by {
                    assert(self@.states[j] == self.last_k_states@[j].deep_view());
                    assert(self.last_k_states@[j] == pre[j + 1]);
                    assert(v0.states[j + 1] == pre[j + 1].deep_view());
                }
                assert(self@.states =~= v0.states.drop_first());
            }
        }
        let ghost mid = self@.states;
        let ghost pre2 = self.last_k_states@;
        self.last_k_states.push(st);
        proof {
            assert forall|j: int| 0 <= j < self@.states.len() implies self@.states[j] == mid.push(
                stv,
            )[j] by {
                assert(self@.states[j] == self.last_k_states@[j].deep_view());
                if j < pre2.len() {
                    assert(self.last_k_states@[j] == pre2[j]);
                    assert(mid[j] == pre2[j].deep_view());
                }
            }
            assert(self@.states =~= mid.push(stv));
            assert(self@ =~= Self::add_spec(v0, change@, from));
            assert(hist_wf(self@.states)) by {
                assert(forall|i: int|
                    0 <= i < v0.states.len() ==> (#[trigger] v0.states[i]).revision.0 <= newest(
                        v0.states,
                    ).0);
                if evict {
                    assert(forall|i: int|
                        0 <= i < mid.len() ==> #[trigger] mid[i] == v0.states[i + 1]);
                }
            }
        }
        self.max_revision()
    }

    fn max_revision(&self) -> (r: Revision) {
        let last = self.last_k_states.len() - 1;
        proof {
            assert(self@.states[last as int] == self.last_k_states@[last as int].deep_view());
        }
        self.last_k_states[last].revision
    }

    fn state_at(&self, revision: Revision) -> (s: &StateView) {
        let ghost ret = self@.states;
        let mut i: usize = 0;
        while i < self.last_k_states.len()
            invariant
                ret == self@.states,
                hist_sorted(ret),
                i <= self.last_k_states@.len() == ret.len(),
                rev_retained(ret, revision),
                forall|j: int| 0 <= j < i ==> (#[trigger] ret[j]).revision != revision,
            decreases self.last_k_states.len() - i,
        {
            proof {
                assert(ret[i as int] == self.last_k_states@[i as int].deep_view());
            }
            if self.last_k_states[i].revision.0 == revision.0 {
                proof {
                    assert(ret[i as int].revision == revision);
                    lemma_rev_unique(ret, revision, i as int);
                }
                return &self.last_k_states[i];
            }
            i = i + 1;
        }
        proof {
            let w = choose|w: int| 0 <= w < ret.len() && (#[trigger] ret[w]).revision == revision;
            assert(false);
        }
        &self.last_k_states[0]
    }

    fn valid_revisions(&self, from: usize) -> (rs: Vec<Revision>) {
        let mut rs: Vec<Revision> = Vec::new();
        let mut i: usize = 0;
        while i < self.last_k_states.len()
            invariant
                i <= self.last_k_states@.len() == self@.states.len(),
                rs@.len() == i,
                forall|j: int| 0 <= j < i ==> #[trigger] rs@[j] == self@.states[j].revision,
            decreases self.last_k_states.len() - i,
        {
            proof {
                assert(self@.states[i as int] == self.last_k_states@[i as int].deep_view());
            }
            rs.push(self.last_k_states[i].revision);
            i = i + 1;
        }
        proof {
            assert(rs@ =~= revs_of(self@.states));
        }
        rs
    }

    fn can_accept(&self, change: &crate::abstract_model::Change) -> (r: bool) {
        true
    }

    fn reset_session(&mut self, from: usize) {
    }
}


// ---------------------------------------------------------------------------
// Session history: each session never observes older than it wrote
// ---------------------------------------------------------------------------

/// The smallest high-water revision of any session; the floor below which
/// snapshots may be discarded.
pub open spec fn min_wm(s: Seq<(usize, Revision)>) -> Revision
    decreases s.len(),
{
    if s.len() == 0 {
        Revision(0usize)
    } else if s.len() == 1 {
        s[0].1
    } else {
        let m = min_wm(s.drop_last());
        if s.last().1.0 < m.0 {
            s.last().1
        } else {
            m
        }
    }
}

/// The floor is below every session's high-water revision.
pub proof fn lemma_min_wm_le(s: Seq<(usize, Revision)>, i: int)
    requires
        0 <= i < s.len(),
    ensures
        min_wm(s).0 <= s[i].1.0,
    decreases s.len(),
{
    if s.len() > 1 && i < s.len() - 1 {
        lemma_min_wm_le(s.drop_last(), i);
    }
}

/// The snapshots with every leading one older than the floor discarded.
pub open spec fn drop_below(s: Seq<StateViewView>, m: Revision) -> Seq<StateViewView>
    decreases s.len(),
{
    if s.len() > 0 && s[0].revision.0 < m.0 {
        drop_below(s.drop_first(), m)
    } else {
        s
    }
}

/// Discarding stale snapshots keeps a suffix that still ends in the newest.
pub proof fn lemma_drop_below(s: Seq<StateViewView>, m: Revision)
    requires
        hist_sorted(s),
        s.len() >= 1,
        newest(s).0 >= m.0,
    ensures
        1 <= drop_below(s, m).len() <= s.len(),
        drop_below(s, m) == s.skip(s.len() - drop_below(s, m).len()),
        drop_below(s, m).last() == s.last(),
        hist_sorted(drop_below(s, m)),
        forall|i: int|
            0 <= i < drop_below(s, m).len() ==> s.contains(#[trigger] drop_below(s, m)[i]),
    decreases s.len(),
{
    let out = drop_below(s, m);
    if s.len() > 0 && s[0].revision.0 < m.0 {
        let s1 = s.drop_first();
        if s.len() == 1 {
            assert(s[0] == s.last());
            assert(newest(s) == s[0].revision);
            assert(false);
        }
        assert(s.last() == s1.last());
        assert(hist_sorted(s1)) by {
            assert(forall|a: int, b: int|
                0 <= a < b < s1.len() ==> #[trigger] s1[a] == s[a + 1] && #[trigger] s1[b] == s[b
                    + 1]);
        }
        assert(s1.len() >= 1);
        lemma_drop_below(s1, m);
        assert(s1.skip(s1.len() - out.len()) =~= s.skip(s.len() - out.len()));
        assert forall|i: int| 0 <= i < out.len() implies s.contains(#[trigger] out[i]) by {
            assert(s1.contains(out[i]));
            let j = choose|j: int| 0 <= j < s1.len() && s1[j] == out[i];
            assert(s[j + 1] == out[i]);
        }
    } else {
        assert(out == s);
        assert(s.skip(0) =~= s);
        assert(forall|i: int| 0 <= i < s.len() ==> s.contains(#[trigger] s[i]));
    }
}

/// Keeps a list of snapshots plus a per-session high-water revision; a
/// session only observes snapshots at or above its own high-water, and
/// snapshots below every session's high-water are discarded.
#[derive(Debug, PartialEq, Eq, Hash)]
pub struct SessionHistory {
    pub sessions: Vec<(usize, Revision)>,
    pub states: Vec<StateView>,
}

#[verifier::ext_equal]
pub struct SessionHistoryView {
    pub sessions: Seq<(usize, Revision)>,
    pub states: Seq<StateViewView>,
}

impl View for SessionHistory {
    type V = SessionHistoryView;

    open spec fn view(&self) -> SessionHistoryView {
        SessionHistoryView { sessions: self.sessions.deep_view(), states: self.states.deep_view() }
    }
}

impl DeepClone for (usize, Revision) {
    fn deep_clone(&self) -> (r: Self)
        ensures
            r.deep_view() == self.deep_view(),
    {
        (self.0, self.1)
    }

    fn deep_eq(&self, other: &Self) -> (r: bool)
        ensures
            r == (self.deep_view() == other.deep_view()),
    {
        self.0 == other.0 && self.1.0 == other.1.0
    }
}

impl Clone for SessionHistory {
    fn clone(&self) -> (r: Self)
        ensures
            r@ == self@,
    {
        let r = SessionHistory {
            sessions: crate::resources::deep_clone_vec(&self.sessions),
            states: crate::resources::deep_clone_vec(&self.states),
        };
        proof {
            assert(r@ =~= self@);
        }
        r
    }
}

impl SessionHistory {
    /// A session history seeded with one snapshot and no sessions.
    pub fn new(initial_state: StateView) -> (r: Self)
        ensures
            r@.sessions =~= Seq::<(usize, Revision)>::empty(),
            r@.states =~= seq![initial_state@],
    {
        let mut states: Vec<StateView> = Vec::new();
        states.push(initial_state);
        let r = SessionHistory { sessions: Vec::new(), states };
        proof {
            assert(r@.states[0] == r.states@[0].deep_view());
        }
        r
    }

    /// The high-water revision of a session; an unknown session has seen
    /// nothing and may observe every snapshot.
    pub open spec fn watermark(v: SessionHistoryView, from: usize) -> Revision {
        match kmap_get(v.sessions, from) {
            Some(r) => r,
            None => Revision(0usize),
        }
    }

    /// The smallest high-water revision of any session.
    fn min_watermark(&self) -> (r: Revision)
        requires
            self.sessions@.len() >= 1,
        ensures
            r == min_wm(self@.sessions),
    {
        let ghost sv = self@.sessions;
        proof {
            assert(sv[0] == self.sessions@[0].deep_view());
        }
        let mut r = self.sessions[0].1;
        let mut i: usize = 1;
        while i < self.sessions.len()
            invariant
                sv == self@.sessions,
                1 <= i <= self.sessions@.len() == sv.len(),
                r == min_wm(sv.take(i as int)),
            decreases self.sessions.len() - i,
        {
            proof {
                assert(sv[i as int] == self.sessions@[i as int].deep_view());
                assert(sv.take(i + 1).drop_last() =~= sv.take(i as int));
                assert(sv.take(i + 1).last() == sv[i as int]);
            }
            if self.sessions[i].1.0 < r.0 {
                r = self.sessions[i].1;
            }
            i = i + 1;
        }
        proof {
            assert(sv.take(sv.len() as int) =~= sv);
        }
        r
    }
}

impl History for SessionHistory {
    open spec fn inv(v: SessionHistoryView) -> bool {
        &&& hist_wf(v.states)
        &&& kmap_sorted(v.sessions)
        &&& forall|i: int|
            0 <= i < v.sessions.len() ==> (#[trigger] v.sessions[i]).1.0 <= newest(v.states).0
    }

    open spec fn retained_of(v: SessionHistoryView) -> Seq<StateViewView> {
        v.states
    }

    open spec fn valid_of(v: SessionHistoryView, from: usize) -> Seq<Revision> {
        revs_of(v.states).filter(|r: Revision| r.0 >= Self::watermark(v, from).0)
    }

    open spec fn accepts_of(v: SessionHistoryView, change: crate::abstract_model::ChangeView)
        -> bool {
        true
    }

    open spec fn baseline_of(v: SessionHistoryView, change: crate::abstract_model::ChangeView)
        -> StateViewView {
        v.states.last()
    }

    open spec fn add_spec(
        v: SessionHistoryView,
        change: crate::abstract_model::ChangeView,
        from: usize,
    ) -> SessionHistoryView {
        let rev = Revision((newest(v.states).0 + 1) as usize);
        let new = apply_op_spec(v.states.last(), change.operation, rev);
        let sessions = kmap_put(v.sessions, from, rev);
        SessionHistoryView { sessions, states: drop_below(v.states.push(new), min_wm(sessions)) }
    }

    proof fn lemma_inv(v: SessionHistoryView, from: usize) {
        let revs = revs_of(v.states);
        let pred = |r: Revision| r.0 >= Self::watermark(v, from).0;
        assert forall|i: int| 0 <= i < Self::valid_of(v, from).len() implies rev_retained(
            v.states,
            #[trigger] Self::valid_of(v, from)[i],
        ) by {
            let f = revs.filter(pred);
            assert(f.contains(f[i]));
            revs.lemma_filter_contains_rev(pred, f[i]);
            let j = choose|j: int| 0 <= j < revs.len() && revs[j] == f[i];
            assert(v.states[j].revision == f[i]);
        }
    }

    fn add_change(&mut self, change: crate::abstract_model::Change, from: usize) -> (rev:
        Revision) {
        let ghost v0 = self@;
        let last = self.states.len() - 1;
        proof {
            assert(v0.states[last as int] == self.states@[last as int].deep_view());
        }
        let mut st = (&self.states[last]).clone();
        let next = st.revision.increment();
        st.apply_operation(change.operation, next);
        let ghost stv = st@;
        let ghost pre = self.states@;
        self.states.push(st);
        proof {
            assert forall|j: int| 0 <= j < self@.states.len() implies self@.states[j]
                == v0.states.push(stv)[j] by {
                assert(self@.states[j] == self.states@[j].deep_view());
                if j < pre.len() {
                    assert(self.states@[j] == pre[j]);
                    assert(v0.states[j] == pre[j].deep_view());
                }
            }
            assert(self@.states =~= v0.states.push(stv));
        }
        let ghost pushed = self@.states;
        crate::utils::kv_put(&mut self.sessions, from, next);
        proof {
            assert(self@.sessions == kmap_put(v0.sessions, from, next));
            crate::utils::lemma_kmap_put_props(v0.sessions, from, next);
            assert(hist_sorted(pushed)) by {
                assert(forall|i: int|
                    0 <= i < v0.states.len() ==> (#[trigger] v0.states[i]).revision.0 <= newest(
                        v0.states,
                    ).0);
            }
            // the new binding keeps the floor at or below the new revision
            crate::utils::lemma_kmap_put_get(v0.sessions, from, next);
            crate::utils::lemma_kmap_get_mem(self@.sessions, from);
            let w = choose|w: int|
                0 <= w < self@.sessions.len() && self@.sessions[w] == (from, next);
            lemma_min_wm_le(self@.sessions, w);
            lemma_drop_below(pushed, min_wm(self@.sessions));
        }
        let min = self.min_watermark();
        let ghost target = drop_below(pushed, min);
        let ghost mut dropped: int = 0;
        loop
            invariant
                min == min_wm(self@.sessions),
                self@.sessions == kmap_put(v0.sessions, from, next),
                self.states@.len() >= 1,
                self@.states =~= pushed.skip(dropped),
                0 <= dropped <= pushed.len() - 1,
                hist_sorted(pushed),
                newest(pushed).0 >= min.0,
                drop_below(self@.states, min) == target,
                pushed.last() == stv,
            ensures
                min == min_wm(self@.sessions),
                self@.sessions == kmap_put(v0.sessions, from, next),
                self@.states == target,
                exists|d: int|
                    0 <= d <= pushed.len() - 1 && self@.states =~= #[trigger] pushed.skip(d),
            decreases self.states@.len(),
        {
            proof {
                assert(self@.states[0] == self.states@[0].deep_view());
            }
            if self.states.len() > 1 && self.states[0].revision.0 < min.0 {
                let ghost cur = self@.states;
                let ghost pre2 = self.states@;
                let _ = self.states.remove(0);
                proof {
                    assert forall|j: int| 0 <= j < self@.states.len() implies self@.states[j]
                        == cur.drop_first()[j] by {
                        assert(self@.states[j] == self.states@[j].deep_view());
                        assert(self.states@[j] == pre2[j + 1]);
                        assert(cur[j + 1] == pre2[j + 1].deep_view());
                    }
                    assert(self@.states =~= cur.drop_first());
                    dropped = dropped + 1;
                    assert(self@.states =~= pushed.skip(dropped));
                    assert(drop_below(cur, min) == drop_below(cur.drop_first(), min));
                }
            } else {
                proof {
                    if self.states.len() == 1 {
                        assert(self@.states[0] == pushed.skip(dropped)[0]);
                        assert(pushed.skip(dropped)[0] == pushed[dropped]);
                        assert(dropped == pushed.len() - 1);
                        assert(self@.states[0] == pushed.last());
                        assert(self@.states[0].revision.0 >= min.0);
                    }
                    assert(drop_below(self@.states, min) == self@.states);
                    assert(self@.states == target);
                    assert(self@.states =~= pushed.skip(dropped));
                }
                break ;
            }
        }
        proof {
            assert(self@.states == target);
            assert(self@ =~= Self::add_spec(v0, change@, from));
            lemma_drop_below(pushed, min);
            assert(self@.states.last() == stv);
            let dd = choose|d: int|
                0 <= d <= pushed.len() - 1 && self@.states =~= #[trigger] pushed.skip(d);
            assert(hist_wf(self@.states)) by {
                assert forall|i: int| 0 <= i < self@.states.len() implies state_view_wf(
                    #[trigger] self@.states[i],
                ) by {
                    assert(self@.states[i] == pushed.skip(dd)[i]);
                    assert(pushed.skip(dd)[i] == pushed[i + dd]);
                    if i + dd < v0.states.len() {
                        assert(pushed[i + dd] == v0.states[i + dd]);
                    }
                }
            }
            assert forall|i: int| 0 <= i < self@.sessions.len() implies (
            #[trigger] self@.sessions[i]).1.0 <= newest(self@.states).0 by {
                if self@.sessions[i] != (from, next) {
                    assert(v0.sessions.contains(self@.sessions[i]));
                    let j = choose|j: int|
                        0 <= j < v0.sessions.len() && v0.sessions[j] == self@.sessions[i];
                    assert(v0.sessions[j].1.0 <= newest(v0.states).0);
                }
            }
        }
        next
    }

    fn max_revision(&self) -> (r: Revision) {
        let last = self.states.len() - 1;
        proof {
            assert(self@.states[last as int] == self.states@[last as int].deep_view());
        }
        self.states[last].revision
    }

    fn state_at(&self, revision: Revision) -> (s: &StateView) {
        let ghost ret = self@.states;
        let mut i: usize = 0;
        while i < self.states.len()
            invariant
                ret == self@.states,
                hist_sorted(ret),
                i <= self.states@.len() == ret.len(),
                rev_retained(ret, revision),
                forall|j: int| 0 <= j < i ==> (#[trigger] ret[j]).revision != revision,
            decreases self.states.len() - i,
        {
            proof {
                assert(ret[i as int] == self.states@[i as int].deep_view());
            }
            if self.states[i].revision.0 == revision.0 {
                proof {
                    assert(ret[i as int].revision == revision);
                    lemma_rev_unique(ret, revision, i as int);
                }
                return &self.states[i];
            }
            i = i + 1;
        }
        proof {
            let w = choose|w: int| 0 <= w < ret.len() && (#[trigger] ret[w]).revision == revision;
            assert(false);
        }
        &self.states[0]
    }

    fn valid_revisions(&self, from: usize) -> (rs: Vec<Revision>) {
        let ghost v = self@;
        let ghost revs = revs_of(v.states);
        let ghost pred = |r: Revision| r.0 >= Self::watermark(v, from).0;
        let wm = match crate::utils::kv_get(&self.sessions, from) {
            Some(r) => *r,
            None => Revision(0),
        };
        proof {
            assert(wm == Self::watermark(v, from));
        }
        let mut rs: Vec<Revision> = Vec::new();
        let mut i: usize = 0;
        while i < self.states.len()
            invariant
                v == self@,
                revs == revs_of(v.states),
                pred == (|r: Revision| r.0 >= Self::watermark(v, from).0),
                wm == Self::watermark(v, from),
                i <= self.states@.len() == v.states.len(),
                rs@ == revs.take(i as int).filter(pred),
            decreases self.states.len() - i,
        {
            proof {
                assert(v.states[i as int] == self.states@[i as int].deep_view());
                assert(revs[i as int] == v.states[i as int].revision);
                revs.lemma_take_succ_push(i as int);
                revs.take(i as int).lemma_filter_push(revs[i as int], pred);
            }
            if self.states[i].revision.0 >= wm.0 {
                rs.push(self.states[i].revision);
            }
            i = i + 1;
        }
        proof {
            assert(revs.take(revs.len() as int) =~= revs);
        }
        rs
    }

    fn can_accept(&self, change: &crate::abstract_model::Change) -> (r: bool) {
        true
    }

    fn reset_session(&mut self, from: usize) {
        let ghost v0 = self@;
        crate::utils::kv_del(&mut self.sessions, from);
        proof {
            crate::utils::lemma_kmap_del_props(v0.sessions, from);
            assert forall|i: int| 0 <= i < self@.sessions.len() implies (
            #[trigger] self@.sessions[i]).1.0 <= newest(self@.states).0 by {
                assert(v0.sessions.contains(self@.sessions[i]));
                let j = choose|j: int|
                    0 <= j < v0.sessions.len() && v0.sessions[j] == self@.sessions[i];
                assert(v0.sessions[j].1.0 <= newest(v0.states).0);
            }
        }
    }
}


// ---------------------------------------------------------------------------
// StateHistory: one of the five strategies
// ---------------------------------------------------------------------------

/// The history strategy a store runs with.
#[derive(Debug, PartialEq, Eq, Hash)]
pub enum StateHistory {
    /// Linearizable reads and writes.
    Strong(StrongHistory),
    /// Bounded staleness on reads, linearizable writes.
    Bounded(BoundedHistory),
    /// Session consistency on reads, linearizable writes.
    Session(SessionHistory),
    /// Eventually consistent reads, linearizable writes.
    Eventual(EventualHistory),
    /// Optimistic reads and writes.
    OptimisticLinear(crate::history::optimistic::OptimisticLinearHistory),
}

#[verifier::ext_equal]
pub enum StateHistoryView {
    Strong(StrongHistoryView),
    Bounded(BoundedHistoryView),
    Session(SessionHistoryView),
    Eventual(EventualHistoryView),
    OptimisticLinear(crate::history::optimistic::OptimisticLinearHistoryView),
}

impl View for StateHistory {
    type V = StateHistoryView;

    open spec fn view(&self) -> StateHistoryView {
        match self {
            StateHistory::Strong(h) => StateHistoryView::Strong(h@),
            StateHistory::Bounded(h) => StateHistoryView::Bounded(h@),
            StateHistory::Session(h) => StateHistoryView::Session(h@),
            StateHistory::Eventual(h) => StateHistoryView::Eventual(h@),
            StateHistory::OptimisticLinear(h) => StateHistoryView::OptimisticLinear(h@),
        }
    }
}

impl Clone for StateHistory {
    fn clone(&self) -> (r: Self)
        ensures
            r@ == self@,
    {
        match self {
            StateHistory::Strong(h) => StateHistory::Strong(h.clone()),
            StateHistory::Bounded(h) => StateHistory::Bounded(h.clone()),
            StateHistory::Session(h) => StateHistory::Session(h.clone()),
            StateHistory::Eventual(h) => StateHistory::Eventual(h.clone()),
            StateHistory::OptimisticLinear(h) => StateHistory::OptimisticLinear(h.clone()),
        }
    }
}

impl History for StateHistory {
    open spec fn inv(v: StateHistoryView) -> bool {
        match v {
            StateHistoryView::Strong(h) => StrongHistory::inv(h),
            StateHistoryView::Bounded(h) => BoundedHistory::inv(h),
            StateHistoryView::Session(h) => SessionHistory::inv(h),
            StateHistoryView::Eventual(h) => EventualHistory::inv(h),
            StateHistoryView::OptimisticLinear(h) => crate::history::optimistic::OptimisticLinearHistory::inv(
                h,
            ),
        }
    }

    open spec fn retained_of(v: StateHistoryView) -> Seq<StateViewView> {
        match v {
            StateHistoryView::Strong(h) => StrongHistory::retained_of(h),
            StateHistoryView::Bounded(h) => BoundedHistory::retained_of(h),
            StateHistoryView::Session(h) => SessionHistory::retained_of(h),
            StateHistoryView::Eventual(h) => EventualHistory::retained_of(h),
            StateHistoryView::OptimisticLinear(h) => crate::history::optimistic::OptimisticLinearHistory::retained_of(
                h,
            ),
        }
    }

    open spec fn valid_of(v: StateHistoryView, from: usize) -> Seq<Revision> {
        match v {
            StateHistoryView::Strong(h) => StrongHistory::valid_of(h, from),
            StateHistoryView::Bounded(h) => BoundedHistory::valid_of(h, from),
            StateHistoryView::Session(h) => SessionHistory::valid_of(h, from),
            StateHistoryView::Eventual(h) => EventualHistory::valid_of(h, from),
            StateHistoryView::OptimisticLinear(h) => crate::history::optimistic::OptimisticLinearHistory::valid_of(
                h,
                from,
            ),
        }
    }

    open spec fn accepts_of(v: StateHistoryView, change: crate::abstract_model::ChangeView)
        -> bool {
        match v {
            StateHistoryView::Strong(h) => StrongHistory::accepts_of(h, change),
            StateHistoryView::Bounded(h) => BoundedHistory::accepts_of(h, change),
            StateHistoryView::Session(h) => SessionHistory::accepts_of(h, change),
            StateHistoryView::Eventual(h) => EventualHistory::accepts_of(h, change),
            StateHistoryView::OptimisticLinear(h) => crate::history::optimistic::OptimisticLinearHistory::accepts_of(
                h,
                change,
            ),
        }
    }

    open spec fn baseline_of(v: StateHistoryView, change: crate::abstract_model::ChangeView)
        -> StateViewView {
        match v {
            StateHistoryView::Strong(h) => StrongHistory::baseline_of(h, change),
            StateHistoryView::Bounded(h) => BoundedHistory::baseline_of(h, change),
            StateHistoryView::Session(h) => SessionHistory::baseline_of(h, change),
            StateHistoryView::Eventual(h) => EventualHistory::baseline_of(h, change),
            StateHistoryView::OptimisticLinear(h) => crate::history::optimistic::OptimisticLinearHistory::baseline_of(
                h,
                change,
            ),
        }
    }

    open spec fn add_spec(
        v: StateHistoryView,
        change: crate::abstract_model::ChangeView,
        from: usize,
    ) -> StateHistoryView {
        match v {
            StateHistoryView::Strong(h) => StateHistoryView::Strong(
                StrongHistory::add_spec(h, change, from),
            ),
            StateHistoryView::Bounded(h) => StateHistoryView::Bounded(
                BoundedHistory::add_spec(h, change, from),
            ),
            StateHistoryView::Session(h) => StateHistoryView::Session(
                SessionHistory::add_spec(h, change, from),
            ),
            StateHistoryView::Eventual(h) => StateHistoryView::Eventual(
                EventualHistory::add_spec(h, change, from),
            ),
            StateHistoryView::OptimisticLinear(h) => StateHistoryView::OptimisticLinear(
                crate::history::optimistic::OptimisticLinearHistory::add_spec(h, change, from),
            ),
        }
    }

    proof fn lemma_inv(v: StateHistoryView, from: usize) {
        match v {
            StateHistoryView::Strong(h) => StrongHistory::lemma_inv(h, from),
            StateHistoryView::Bounded(h) => BoundedHistory::lemma_inv(h, from),
            StateHistoryView::Session(h) => SessionHistory::lemma_inv(h, from),
            StateHistoryView::Eventual(h) => EventualHistory::lemma_inv(h, from),
            StateHistoryView::OptimisticLinear(h) => crate::history::optimistic::OptimisticLinearHistory::lemma_inv(
                h,
                from,
            ),
        }
    }

    fn add_change(&mut self, change: crate::abstract_model::Change, from: usize) -> (rev:
        Revision) {
        match self {
            StateHistory::Strong(h) => h.add_change(change, from),
            StateHistory::Bounded(h) => h.add_change(change, from),
            StateHistory::Session(h) => h.add_change(change, from),
            StateHistory::Eventual(h) => h.add_change(change, from),
            StateHistory::OptimisticLinear(h) => h.add_change(change, from),
        }
    }

    fn max_revision(&self) -> (r: Revision) {
        match self {
            StateHistory::Strong(h) => h.max_revision(),
            StateHistory::Bounded(h) => h.max_revision(),
            StateHistory::Session(h) => h.max_revision(),
            StateHistory::Eventual(h) => h.max_revision(),
            StateHistory::OptimisticLinear(h) => h.max_revision(),
        }
    }

    fn state_at(&self, revision: Revision) -> (s: &StateView) {
        match self {
            StateHistory::Strong(h) => h.state_at(revision),
            StateHistory::Bounded(h) => h.state_at(revision),
            StateHistory::Session(h) => h.state_at(revision),
            StateHistory::Eventual(h) => h.state_at(revision),
            StateHistory::OptimisticLinear(h) => h.state_at(revision),
        }
    }

    fn valid_revisions(&self, from: usize) -> (rs: Vec<Revision>) {
        match self {
            StateHistory::Strong(h) => h.valid_revisions(from),
            StateHistory::Bounded(h) => h.valid_revisions(from),
            StateHistory::Session(h) => h.valid_revisions(from),
            StateHistory::Eventual(h) => h.valid_revisions(from),
            StateHistory::OptimisticLinear(h) => h.valid_revisions(from),
        }
    }

    fn can_accept(&self, change: &crate::abstract_model::Change) -> (r: bool) {
        match self {
            StateHistory::Strong(h) => h.can_accept(change),
            StateHistory::Bounded(h) => h.can_accept(change),
            StateHistory::Session(h) => h.can_accept(change),
            StateHistory::Eventual(h) => h.can_accept(change),
            StateHistory::OptimisticLinear(h) => h.can_accept(change),
        }
    }

    fn reset_session(&mut self, from: usize) {
        match self {
            StateHistory::Strong(h) => h.reset_session(from),
            StateHistory::Bounded(h) => h.reset_session(from),
            StateHistory::Session(h) => h.reset_session(from),
            StateHistory::Eventual(h) => h.reset_session(from),
            StateHistory::OptimisticLinear(h) => h.reset_session(from),
        }
    }
}

impl StateHistory {
    /// The strategy view of the chosen consistency level, seeded with one
    /// snapshot.
    pub fn new(consistency_level: ConsistencySetup, initial_state: StateView) -> (r: Self)
        requires
            initial_state.wf(),
        ensures
            Self::inv(r@),
            Self::retained_of(r@) =~= seq![initial_state@],
    {
        match consistency_level {
            ConsistencySetup::Strong => StateHistory::Strong(StrongHistory::new(initial_state)),
            ConsistencySetup::BoundedStaleness(k) => StateHistory::Bounded(
                BoundedHistory::new(initial_state, k),
            ),
            ConsistencySetup::Session => StateHistory::Session(SessionHistory::new(initial_state)),
            ConsistencySetup::Eventual => StateHistory::Eventual(
                EventualHistory::new(initial_state),
            ),
            ConsistencySetup::OptimisticLinear(commit_every) => StateHistory::OptimisticLinear(
                crate::history::optimistic::OptimisticLinearHistory::new(
                    initial_state,
                    commit_every,
                ),
            ),
        }
    }
}

// ---------------------------------------------------------------------------
// State: the store behind one chosen history
// ---------------------------------------------------------------------------

/// What pushing one change does to the store's view: the change attaches
/// when the store has room for a new revision and the history accepts it,
/// and is dropped otherwise.
pub open spec fn push_step(
    v: StateHistoryView,
    change: crate::abstract_model::ChangeView,
    from: usize,
) -> StateHistoryView {
    if newest(StateHistory::retained_of(v)).0 < usize::MAX && StateHistory::accepts_of(
        v,
        change,
    ) {
        StateHistory::add_spec(v, change, from)
    } else {
        v
    }
}

/// What pushing a list of changes does to the store's view, first to last.
pub open spec fn push_fold(
    v: StateHistoryView,
    changes: Seq<crate::abstract_model::ChangeView>,
    from: usize,
) -> StateHistoryView
    decreases changes.len(),
{
    if changes.len() == 0 {
        v
    } else {
        push_fold(push_step(v, changes[0], from), changes.drop_first(), from)
    }
}

/// The history of the store, answering which snapshots each reader may
/// observe and accepting changes from controllers.
#[derive(Debug, PartialEq, Eq, Hash)]
pub struct State {
    /// The retained snapshots, under the chosen consistency level.
    pub states: StateHistory,
}

impl View for State {
    type V = StateHistoryView;

    open spec fn view(&self) -> StateHistoryView {
        self.states@
    }
}

impl Clone for State {
    fn clone(&self) -> (r: Self)
        ensures
            r@ == self@,
    {
        State { states: self.states.clone() }
    }
}

impl State {
    /// The store's invariant.
    pub open spec fn inv(self) -> bool {
        StateHistory::inv(self@)
    }

    /// The retained snapshots.
    pub open spec fn retained(self) -> Seq<StateViewView> {
        StateHistory::retained_of(self@)
    }

    /// A store seeded with one snapshot under the chosen consistency level.
    pub fn new(initial_state: StateView, consistency_level: ConsistencySetup) -> (r: Self)
        requires
            initial_state.wf(),
        ensures
            r.inv(),
            r.retained() =~= seq![initial_state@],
    {
        State { states: StateHistory::new(consistency_level, initial_state) }
    }

    /// Record a change from a given session; the new revision is strictly
    /// larger than every earlier one.
    pub fn push_change(&mut self, change: crate::abstract_model::Change, from: usize) -> (rev:
        Revision)
        requires
            old(self).inv(),
            StateHistory::accepts_of(old(self)@, change@),
            newest(old(self).retained()).0 < usize::MAX,
        ensures
            final(self).inv(),
            final(self)@ == StateHistory::add_spec(old(self)@, change@, from),
            rev.0 == newest(old(self).retained()).0 + 1,
            rev == newest(final(self).retained()),
            final(self).retained().last() == apply_op_spec(
                StateHistory::baseline_of(old(self)@, change@),
                change@.operation,
                rev,
            ),
    {
        self.states.add_change(change, from)
    }

    /// Record a list of changes in order, dropping any that no longer
    /// attaches (its baseline revision was discarded) or that would overflow
    /// the revision counter.
    pub fn push_changes(&mut self, changes: Vec<crate::abstract_model::Change>, from: usize)
        -> (rev: Revision)
        requires
            old(self).inv(),
        ensures
            final(self).inv(),
            final(self)@ == push_fold(old(self)@, changes.deep_view(), from),
            rev == newest(final(self).retained()),
    {
        let ghost cs = changes.deep_view();
        let ghost v0 = self@;
        proof {
            assert(cs.skip(0) =~= cs);
        }
        let mut i: usize = 0;
        while i < changes.len()
            invariant
                self.inv(),
                cs == changes.deep_view(),
                i <= changes@.len() == cs.len(),
                push_fold(v0, cs, from) == push_fold(self@, cs.skip(i as int), from),
            decreases changes.len() - i,
        {
            proof {
                assert(cs[i as int] == changes@[i as int].deep_view());
                assert(cs.skip(i as int).drop_first() =~= cs.skip(i + 1));
                assert(cs.skip(i as int)[0] == cs[i as int]);
            }
            let c = changes[i].clone();
            proof {
                assert(c@ == cs[i as int]);
            }
            let room = self.states.max_revision().0 < usize::MAX;
            if room && self.states.can_accept(&c) {
                let _ = self.states.push_or_drop(c, from);
            } else {
                proof {
                    assert(push_step(self@, cs[i as int], from) == self@);
                }
            }
            i = i + 1;
        }
        proof {
            assert(cs.skip(cs.len() as int) =~= Seq::<crate::abstract_model::ChangeView>::empty());
        }
        self.max_revision()
    }

    /// The newest revision of the store.
    pub fn max_revision(&self) -> (r: Revision)
        requires
            self.inv(),
        ensures
            r == newest(self.retained()),
    {
        self.states.max_revision()
    }

    /// The snapshot at a retained revision.
    pub fn view_at(&self, revision: Revision) -> (s: &StateView)
        requires
            self.inv(),
            rev_retained(self.retained(), revision),
        ensures
            s@ == retained_at(self.retained(), revision),
            s@.revision == revision,
    {
        self.states.state_at(revision)
    }

    /// Every snapshot a reader in session `from` may observe now.
    pub fn views(&self, from: usize) -> (ss: Vec<StateView>)
        requires
            self.inv(),
        ensures
            ss@.len() == StateHistory::valid_of(self@, from).len(),
            forall|i: int|
                0 <= i < ss@.len() ==> (#[trigger] ss@[i])@ == retained_at(
                    self.retained(),
                    StateHistory::valid_of(self@, from)[i],
                ) && ss@[i]@.revision == StateHistory::valid_of(self@, from)[i],
    {
        self.states.states_for(from)
    }

    /// Whether a change can currently attach to the store.
    pub fn can_accept(&self, change: &crate::abstract_model::Change) -> (r: bool)
        requires
            self.inv(),
        ensures
            r == StateHistory::accepts_of(self@, change@),
    {
        self.states.can_accept(change)
    }
}

impl StateHistory {
    /// Apply one accepted change; a helper for folding a list of changes.
    fn push_or_drop(&mut self, change: crate::abstract_model::Change, from: usize) -> (rev:
        Revision)
        requires
            Self::inv(old(self)@),
            Self::accepts_of(old(self)@, change@),
            newest(Self::retained_of(old(self)@)).0 < usize::MAX,
        ensures
            Self::inv(final(self)@),
            final(self)@ == push_step(old(self)@, change@, from),
    {
        self.add_change(change, from)
    }
}


/// Every retained snapshot of a well-formed store is internally consistent.
pub proof fn lemma_state_view_wf_of_retained(sv: StateHistoryView, v: StateViewView)
    requires
        StateHistory::inv(sv),
        exists|i: int|
            0 <= i < StateHistory::retained_of(sv).len() && #[trigger] StateHistory::retained_of(
                sv,
            )[i] == v,
    ensures
        state_view_wf(v),
{
    StateHistory::lemma_inv(sv, 0);
    let i = choose|i: int|
        0 <= i < StateHistory::retained_of(sv).len() && #[trigger] StateHistory::retained_of(
            sv,
        )[i] == v;
    assert(state_view_wf(StateHistory::retained_of(sv)[i]));
}


/// Applying an operation stamps the snapshot with exactly the given
/// revision.
pub proof fn lemma_apply_revision(v: StateViewView, op: OperationView, rev: Revision)
    ensures
        apply_op_spec(v, op, rev).revision == rev,
{
    match op {
        OperationView::NodeJoin(_, _) => {},
        OperationView::ControllerJoin(_) => {},
        OperationView::NewPod(_) => {},
        OperationView::NewReplicaset(_) => {},
        OperationView::SchedulePod(_, _) => {},
        OperationView::RunPod(_, _) => {},
        OperationView::NodeCrash(_) => {},
        OperationView::UpdateJob(_) => {},
        OperationView::UpdateJobStatus(_) => {},
        OperationView::CreatePod(_) => {},
        OperationView::UpdatePod(_) => {},
        OperationView::DeletePod(_) => {},
    }
}

/// Under the strong history every write observes the latest revision and
/// produces the strictly larger next one, so successive writes carry
/// strictly increasing revisions.
pub proof fn lemma_strong_writes_strictly_increase(
    v: StrongHistoryView,
    change: crate::abstract_model::ChangeView,
    from: usize,
)
    requires
        v.state.revision.0 < usize::MAX,
    ensures
        newest(StrongHistory::retained_of(StrongHistory::add_spec(v, change, from))).0 == newest(
            StrongHistory::retained_of(v),
        ).0 + 1,
{
    lemma_apply_revision(
        v.state,
        change.operation,
        Revision((v.state.revision.0 + 1) as usize),
    );
}


/// A collection after seeding it with resources one by one, each write under
/// the concurrency-control rules at the same revision. Seeding deliberately
/// goes through the same screen as live writes: a later duplicate that would
/// steal a name — same name, different uid, or a stale resource version —
/// is dropped rather than overwriting, so a seeded snapshot never starts in
/// a state the store itself could not have reached.
pub open spec fn seeded<T: Meta>(s: Seq<T::V>, ps: Seq<T::V>, rev_str: Seq<char>) -> Seq<T::V>
    decreases ps.len(),
{
    if ps.len() == 0 {
        s
    } else {
        inserted::<T>(seeded::<T>(s, ps.drop_last(), rev_str), ps.last(), rev_str)
    }
}

/// Seed a collection with resources, writing each at the given revision.
fn seed_resources<T: Meta + DeepClone>(rs: &mut Resources<T>, items: Vec<T>, revision: Revision)
    requires
        old(rs).wf(),
    ensures
        final(rs).wf(),
        final(rs)@ == seeded::<T>(old(rs)@, items.deep_view(), revision.str_spec()),
{
    let ghost s0 = old(rs)@;
    let ghost ps = items.deep_view();
    let mut i: usize = 0;
    let mut items = items;
    proof {
        assert(ps.take(0) =~= Seq::<T::V>::empty());
    }
    while i < items.len()
        invariant
            rs.wf(),
            items.deep_view() == ps,
            i <= items@.len() == ps.len(),
            rs@ == seeded::<T>(s0, ps.take(i as int), revision.str_spec()),
        decreases items.len() - i,
    {
        proof {
            assert(ps[i as int] == items@[i as int].deep_view());
            assert(ps.take(i + 1).drop_last() =~= ps.take(i as int));
            assert(ps.take(i + 1).last() == ps[i as int]);
        }
        let item = items[i].deep_clone();
        let _ = rs.insert(item, revision);
        i = i + 1;
    }
    proof {
        assert(ps.take(ps.len() as int) =~= ps);
    }
}

impl StateView {
    /// The snapshot with these pods written in, at its own revision; see
    /// [`seeded`] for how a duplicate is screened.
    pub fn set_pods(&mut self, pods: Vec<Pod>)
        requires
            old(self).wf(),
        ensures
            final(self).wf(),
            final(self)@ == (StateViewView {
                pods: seeded::<Pod>(old(self)@.pods, pods.deep_view(), old(self)@.revision.str_spec()),
                ..old(self)@
            }),
    {
        let revision = self.revision;
        seed_resources(&mut self.pods, pods, revision);
        proof {
            assert(self@ =~= (StateViewView {
                pods: seeded::<Pod>(
                    old(self)@.pods,
                    pods.deep_view(),
                    old(self)@.revision.str_spec(),
                ),
                ..old(self)@
            }));
        }
    }

    /// The snapshot with these pods written in.
    pub fn with_pods(self, pods: Vec<Pod>) -> (r: Self)
        requires
            self.wf(),
        ensures
            r.wf(),
            r@ == (StateViewView {
                pods: seeded::<Pod>(self@.pods, pods.deep_view(), self@.revision.str_spec()),
                ..self@
            }),
    {
        let mut s = self;
        s.set_pods(pods);
        s
    }

    /// The snapshot with these replica sets written in.
    pub fn set_replicasets(&mut self, replicasets: Vec<ReplicaSetResource>)
        requires
            old(self).wf(),
        ensures
            final(self).wf(),
            final(self)@ == (StateViewView {
                replica_sets: seeded::<ReplicaSetResource>(
                    old(self)@.replica_sets,
                    replicasets.deep_view(),
                    old(self)@.revision.str_spec(),
                ),
                ..old(self)@
            }),
    {
        let revision = self.revision;
        seed_resources(&mut self.replica_sets, replicasets, revision);
        proof {
            assert(self@ =~= (StateViewView {
                replica_sets: seeded::<ReplicaSetResource>(
                    old(self)@.replica_sets,
                    replicasets.deep_view(),
                    old(self)@.revision.str_spec(),
                ),
                ..old(self)@
            }));
        }
    }

    /// The snapshot with these replica sets written in.
    pub fn with_replicasets(self, replicasets: Vec<ReplicaSetResource>) -> (r: Self)
        requires
            self.wf(),
        ensures
            r.wf(),
            r@ == (StateViewView {
                replica_sets: seeded::<ReplicaSetResource>(
                    self@.replica_sets,
                    replicasets.deep_view(),
                    self@.revision.str_spec(),
                ),
                ..self@
            }),
    {
        let mut s = self;
        s.set_replicasets(replicasets);
        s
    }

    /// The snapshot with these deployments written in.
    pub fn set_deployments(&mut self, deployments: Vec<DeploymentResource>)
        requires
            old(self).wf(),
        ensures
            final(self).wf(),
            final(self)@ == (StateViewView {
                deployments: seeded::<DeploymentResource>(
                    old(self)@.deployments,
                    deployments.deep_view(),
                    old(self)@.revision.str_spec(),
                ),
                ..old(self)@
            }),
    {
        let revision = self.revision;
        seed_resources(&mut self.deployments, deployments, revision);
        proof {
            assert(self@ =~= (StateViewView {
                deployments: seeded::<DeploymentResource>(
                    old(self)@.deployments,
                    deployments.deep_view(),
                    old(self)@.revision.str_spec(),
                ),
                ..old(self)@
            }));
        }
    }

    /// The snapshot with these deployments written in.
    pub fn with_deployments(self, deployments: Vec<DeploymentResource>) -> (r: Self)
        requires
            self.wf(),
        ensures
            r.wf(),
            r@ == (StateViewView {
                deployments: seeded::<DeploymentResource>(
                    self@.deployments,
                    deployments.deep_view(),
                    self@.revision.str_spec(),
                ),
                ..self@
            }),
    {
        let mut s = self;
        s.set_deployments(deployments);
        s
    }

    /// The snapshot with these stateful sets written in.
    pub fn set_statefulsets(&mut self, statefulsets: Vec<StatefulSetResource>)
        requires
            old(self).wf(),
        ensures
            final(self).wf(),
            final(self)@ == (StateViewView {
                statefulsets: seeded::<StatefulSetResource>(
                    old(self)@.statefulsets,
                    statefulsets.deep_view(),
                    old(self)@.revision.str_spec(),
                ),
                ..old(self)@
            }),
    {
        let revision = self.revision;
        seed_resources(&mut self.statefulsets, statefulsets, revision);
        proof {
            assert(self@ =~= (StateViewView {
                statefulsets: seeded::<StatefulSetResource>(
                    old(self)@.statefulsets,
                    statefulsets.deep_view(),
                    old(self)@.revision.str_spec(),
                ),
                ..old(self)@
            }));
        }
    }

    /// The snapshot with these stateful sets written in.
    pub fn with_statefulsets(self, statefulsets: Vec<StatefulSetResource>) -> (r: Self)
        requires
            self.wf(),
        ensures
            r.wf(),
            r@ == (StateViewView {
                statefulsets: seeded::<StatefulSetResource>(
                    self@.statefulsets,
                    statefulsets.deep_view(),
                    self@.revision.str_spec(),
                ),
                ..self@
            }),
    {
        let mut s = self;
        s.set_statefulsets(statefulsets);
        s
    }

    /// The snapshot with these jobs written in.
    pub fn set_jobs(&mut self, jobs: Vec<Job>)
        requires
            old(self).wf(),
        ensures
            final(self).wf(),
            final(self)@ == (StateViewView {
                jobs: seeded::<Job>(old(self)@.jobs, jobs.deep_view(), old(self)@.revision.str_spec()),
                ..old(self)@
            }),
    {
        let revision = self.revision;
        seed_resources(&mut self.jobs, jobs, revision);
        proof {
            assert(self@ =~= (StateViewView {
                jobs: seeded::<Job>(
                    old(self)@.jobs,
                    jobs.deep_view(),
                    old(self)@.revision.str_spec(),
                ),
                ..old(self)@
            }));
        }
    }

    /// The snapshot with these jobs written in.
    pub fn with_jobs(self, jobs: Vec<Job>) -> (r: Self)
        requires
            self.wf(),
        ensures
            r.wf(),
            r@ == (StateViewView {
                jobs: seeded::<Job>(self@.jobs, jobs.deep_view(), self@.revision.str_spec()),
                ..self@
            }),
    {
        let mut s = self;
        s.set_jobs(jobs);
        s
    }
}

} // verus!
