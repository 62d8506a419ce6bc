//! The resource data model: metadata, pods, jobs and the other managed kinds.
//!
//! Every executable type has a mathematical view (`...View`) over sequences
//! and plain values; all contracts in the crate speak of those views. Types
//! whose fields are all plain values are `Structural` and act as their own
//! view.

use vstd::prelude::*;

verus! {

// ---------------------------------------------------------------------------
// Plain value types
// ---------------------------------------------------------------------------

/// A logical timestamp. The model is driven by a logical clock (the revision
/// counter), so time is a plain number.
#[derive(Clone, Copy, Debug, PartialEq, Eq, Hash, PartialOrd, Ord, Structural)]
pub struct Time(pub u64);

#[derive(Clone, Copy, Debug, PartialEq, Eq, Hash, Structural, Default)]
pub enum PodPhase {
    #[default]
    Pending,
    Unknown,
    Running,
    Succeeded,
    Failed,
}

#[derive(Clone, Copy, Debug, PartialEq, Eq, Hash, Structural)]
pub enum ConditionStatus {
    True,
    False,
    Unknown,
}

#[derive(Clone, Copy, Debug, PartialEq, Eq, Hash, Structural)]
pub enum PodConditionType {
    Ready,
    DisruptionTarget,
}

#[derive(Clone, Copy, Debug, PartialEq, Eq, Hash, Structural)]
pub enum PodRestartPolicy {
    Always,
    OnFailure,
    Never,
}

#[derive(Clone, Copy, Debug, PartialEq, Eq, Hash, Structural)]
pub enum JobConditionType {
    Complete,
    Failed,
    FailureTarget,
    Suspended,
}

#[derive(Clone, Copy, Debug, PartialEq, Eq, Hash, Structural, Default)]
pub enum JobCompletionMode {
    #[default]
    NonIndexed,
    Indexed,
}

#[derive(Clone, Copy, Debug, PartialEq, Eq, Hash, Structural)]
pub enum JobPodFailurePolicyRuleAction {
    Ignore,
    FailIndex,
    Count,
    FailJob,
}

#[derive(Clone, Copy, Debug, PartialEq, Eq, Hash, Structural)]
pub enum JobPodFailurePolicyRuleOnExitCodesRequirementOperator {
    In,
    NotIn,
}

/// A pod condition carries only plain values, so it is its own view.
#[derive(Clone, Copy, Debug, PartialEq, Eq, Hash, Structural)]
pub struct PodCondition {
    pub cond_type: PodConditionType,
    pub status: ConditionStatus,
    pub last_transition_time: Option<Time>,
}

#[derive(Clone, Copy, Debug, PartialEq, Eq, Hash, Structural)]
pub struct JobPodFailurePolicyRuleOnPodConditionsPattern {
    pub cond_type: PodConditionType,
    pub status: ConditionStatus,
}

#[derive(Clone, Copy, Debug, PartialEq, Eq, Hash, Structural)]
pub struct ContainerStateTerminated {
    pub exit_code: u32,
}

#[derive(Clone, Copy, Debug, PartialEq, Eq, Hash, Structural, Default)]
pub struct ContainerState {
    pub terminated: Option<ContainerStateTerminated>,
}

/// Capacity of a node, in plain units.
#[derive(Clone, Copy, Debug, PartialEq, Eq, Hash, Structural, Default)]
pub struct ResourceQuantities {
    pub cpu_cores: u64,
    pub memory_mb: u64,
    pub pods: u64,
}

// ---------------------------------------------------------------------------
// Deep clones and deep equality
// ---------------------------------------------------------------------------

/// A value that can be duplicated and compared at the level of its deep view.
/// Derived `Clone` and `PartialEq` impls are invisible to the verifier, so
/// the types of the model provide these verified operations instead.
pub trait DeepClone: DeepView + Sized {
    fn deep_clone(&self) -> (r: Self)
        ensures
            r.deep_view() == self.deep_view(),
    ;

    fn deep_eq(&self, other: &Self) -> (r: bool)
        ensures
            r == (self.deep_view() == other.deep_view()),
    ;
}

impl DeepClone for String {
    fn deep_clone(&self) -> (r: Self)
        ensures
            r.deep_view() == self.deep_view(),
    {
        self.clone()
    }

    fn deep_eq(&self, other: &Self) -> (r: bool)
        ensures
            r == (self.deep_view() == other.deep_view()),
    {
        self.eq(other)
    }
}

impl DeepClone for u32 {
    fn deep_clone(&self) -> (r: Self)
        ensures
            r.deep_view() == self.deep_view(),
    {
        *self
    }

    fn deep_eq(&self, other: &Self) -> (r: bool)
        ensures
            r == (self.deep_view() == other.deep_view()),
    {
        *self == *other
    }
}

impl DeepClone for (String, String) {
    fn deep_clone(&self) -> (r: Self)
        ensures
            r.deep_view() == self.deep_view(),
    {
        (self.0.clone(), self.1.clone())
    }

    fn deep_eq(&self, other: &Self) -> (r: bool)
        ensures
            r == (self.deep_view() == other.deep_view()),
    {
        self.0.eq(&other.0) && self.1.eq(&other.1)
    }
}

/// Duplicate a vector element by element, preserving its deep view.
pub fn deep_clone_vec<T: DeepClone>(v: &Vec<T>) -> (r: Vec<T>)
    ensures
        r.deep_view() == v.deep_view(),
{
    let mut r: Vec<T> = Vec::new();
    let mut i: usize = 0;
    while i < v.len()
        invariant
            i <= v.len(),
            r@.len() == i,
            forall|j: int| 0 <= j < i ==> r@[j].deep_view() == v@[j].deep_view(),
        decreases v.len() - i,
    {
        r.push(v[i].deep_clone());
        i = i + 1;
    }
    proof {
        assert forall|j: int| 0 <= j < r.deep_view().len() implies r.deep_view()[j]
            == v.deep_view()[j] by {
            assert(r.deep_view()[j] == r@[j].deep_view());
            assert(v.deep_view()[j] == v@[j].deep_view());
        }
        assert(r.deep_view() =~= v.deep_view());
    }
    r
}

/// Compare two vectors element by element at the level of their deep views.
pub fn deep_eq_vec<T: DeepClone>(a: &Vec<T>, b: &Vec<T>) -> (r: bool)
    ensures
        r == (a.deep_view() == b.deep_view()),
{
    if a.len() != b.len() {
        assert(a.deep_view().len() != b.deep_view().len());
        return false;
    }
    let mut i: usize = 0;
    while i < a.len()
        invariant
            i <= a.len() == b.len(),
            forall|j: int| 0 <= j < i ==> a@[j].deep_view() == b@[j].deep_view(),
        decreases a.len() - i,
    {
        if !a[i].deep_eq(&b[i]) {
            proof {
                assert(a.deep_view()[i as int] == a@[i as int].deep_view());
                assert(b.deep_view()[i as int] == b@[i as int].deep_view());
            }
            return false;
        }
        i = i + 1;
    }
    proof {
        assert forall|j: int| 0 <= j < a.deep_view().len() implies a.deep_view()[j]
            == b.deep_view()[j] by {
            assert(a.deep_view()[j] == a@[j].deep_view());
            assert(b.deep_view()[j] == b@[j].deep_view());
        }
        assert(a.deep_view() =~= b.deep_view());
    }
    true
}

/// Duplicate an optional value, preserving its deep view.
pub fn deep_clone_opt<T: DeepClone>(v: &Option<T>) -> (r: Option<T>)
    ensures
        r.deep_view() == v.deep_view(),
{
    match v {
        Some(t) => Some(t.deep_clone()),
        None => None,
    }
}

/// Compare two optional values at the level of their deep views.
pub fn deep_eq_opt<T: DeepClone>(a: &Option<T>, b: &Option<T>) -> (r: bool)
    ensures
        r == (a.deep_view() == b.deep_view()),
{
    match (a, b) {
        (Some(x), Some(y)) => x.deep_eq(y),
        (None, None) => true,
        _ => false,
    }
}

/// Equality of two optional plain numbers.
pub fn opt_u32_eq(a: &Option<u32>, b: &Option<u32>) -> (r: bool)
    ensures
        r == (*a == *b),
{
    match (a, b) {
        (Some(x), Some(y)) => *x == *y,
        (None, None) => true,
        _ => false,
    }
}

/// Equality of two optional plain numbers.
pub fn opt_u64_eq(a: &Option<u64>, b: &Option<u64>) -> (r: bool)
    ensures
        r == (*a == *b),
{
    match (a, b) {
        (Some(x), Some(y)) => *x == *y,
        (None, None) => true,
        _ => false,
    }
}

/// Equality of two optional node ids.
pub fn opt_usize_eq(a: &Option<usize>, b: &Option<usize>) -> (r: bool)
    ensures
        r == (*a == *b),
{
    match (a, b) {
        (Some(x), Some(y)) => *x == *y,
        (None, None) => true,
        _ => false,
    }
}

/// Equality of two optional logical timestamps.
pub fn opt_time_eq(a: &Option<Time>, b: &Option<Time>) -> (r: bool)
    ensures
        r == (*a == *b),
{
    match (a, b) {
        (Some(x), Some(y)) => x.0 == y.0,
        (None, None) => true,
        _ => false,
    }
}


// ---------------------------------------------------------------------------
// Metadata
// ---------------------------------------------------------------------------

/// A reference to the owning resource, by stable identity.
#[derive(Debug, PartialEq, Eq, Hash, Default)]
pub struct OwnerReference {
    pub name: String,
    pub uid: String,
}

#[verifier::ext_equal]
pub struct OwnerReferenceView {
    pub name: Seq<char>,
    pub uid: Seq<char>,
}

impl View for OwnerReference {
    type V = OwnerReferenceView;

    open spec fn view(&self) -> OwnerReferenceView {
        OwnerReferenceView { name: self.name@, uid: self.uid@ }
    }
}

impl DeepView for OwnerReference {
    type V = OwnerReferenceView;

    open spec fn deep_view(&self) -> OwnerReferenceView {
        self.view()
    }
}

impl Clone for OwnerReference {
    fn clone(&self) -> (r: Self)
        ensures
            r@ == self@,
    {
        OwnerReference { name: self.name.clone(), uid: self.uid.clone() }
    }
}

impl DeepClone for OwnerReference {
    fn deep_clone(&self) -> (r: Self)
        ensures
            r.deep_view() == self.deep_view(),
    {
        self.clone()
    }

    fn deep_eq(&self, other: &Self) -> (r: bool)
        ensures
            r == (self.deep_view() == other.deep_view()),
    {
        let r = self.name.eq(&other.name) && self.uid.eq(&other.uid);
        proof {
            if r {
                assert(self.deep_view() =~= other.deep_view());
            }
        }
        r
    }
}

/// The common metadata envelope carried by every managed resource.
#[derive(Debug, PartialEq, Eq, Hash, Default)]
pub struct Metadata {
    /// Unique key within the resource kind.
    pub name: String,
    /// Stable identity, assigned at creation.
    pub uid: String,
    /// String form of the revision at the last successful write.
    pub resource_version: String,
    /// Bumped whenever the desired-state part of the resource changes.
    pub generation: u64,
    pub labels: Vec<(String, String)>,
    pub annotations: Vec<(String, String)>,
    pub finalizers: Vec<String>,
    pub owner_references: Vec<OwnerReference>,
    pub deletion_timestamp: Option<Time>,
    pub creation_timestamp: Option<Time>,
    /// Prefix used to derive a fresh name at creation when `name` is empty.
    pub generate_name: String,
}

#[verifier::ext_equal]
pub struct MetadataView {
    pub name: Seq<char>,
    pub uid: Seq<char>,
    pub resource_version: Seq<char>,
    pub generation: u64,
    pub labels: Seq<(Seq<char>, Seq<char>)>,
    pub annotations: Seq<(Seq<char>, Seq<char>)>,
    pub finalizers: Seq<Seq<char>>,
    pub owner_references: Seq<OwnerReferenceView>,
    pub deletion_timestamp: Option<Time>,
    pub creation_timestamp: Option<Time>,
    pub generate_name: Seq<char>,
}

impl View for Metadata {
    type V = MetadataView;

    open spec fn view(&self) -> MetadataView {
        MetadataView {
            name: self.name@,
            uid: self.uid@,
            resource_version: self.resource_version@,
            generation: self.generation,
            labels: self.labels.deep_view(),
            annotations: self.annotations.deep_view(),
            finalizers: self.finalizers.deep_view(),
            owner_references: self.owner_references.deep_view(),
            deletion_timestamp: self.deletion_timestamp,
            creation_timestamp: self.creation_timestamp,
            generate_name: self.generate_name@,
        }
    }
}

impl DeepView for Metadata {
    type V = MetadataView;

    open spec fn deep_view(&self) -> MetadataView {
        self.view()
    }
}

impl Clone for Metadata {
    fn clone(&self) -> (r: Self)
        ensures
            r@ == self@,
    {
        let r = Metadata {
            name: self.name.clone(),
            uid: self.uid.clone(),
            resource_version: self.resource_version.clone(),
            generation: self.generation,
            labels: deep_clone_vec(&self.labels),
            annotations: deep_clone_vec(&self.annotations),
            finalizers: deep_clone_vec(&self.finalizers),
            owner_references: deep_clone_vec(&self.owner_references),
            deletion_timestamp: self.deletion_timestamp,
            creation_timestamp: self.creation_timestamp,
            generate_name: self.generate_name.clone(),
        };
        proof {
            assert(r@ =~= self@);
        }
        r
    }
}

impl DeepClone for Metadata {
    fn deep_clone(&self) -> (r: Self)
        ensures
            r.deep_view() == self.deep_view(),
    {
        self.clone()
    }

    fn deep_eq(&self, other: &Self) -> (r: bool)
        ensures
            r == (self.deep_view() == other.deep_view()),
    {
        let r = self.name.eq(&other.name) && self.uid.eq(&other.uid)
            && self.resource_version.eq(&other.resource_version)
            && self.generation == other.generation && deep_eq_vec(&self.labels, &other.labels)
            && deep_eq_vec(&self.annotations, &other.annotations)
            && deep_eq_vec(&self.finalizers, &other.finalizers)
            && deep_eq_vec(&self.owner_references, &other.owner_references)
            && opt_time_eq(&self.deletion_timestamp, &other.deletion_timestamp)
            && opt_time_eq(&self.creation_timestamp, &other.creation_timestamp)
            && self.generate_name.eq(&other.generate_name);
        proof {
            if r {
                assert(self.deep_view() =~= other.deep_view());
            }
        }
        r
    }
}

// ---------------------------------------------------------------------------
// Pod
// ---------------------------------------------------------------------------

/// Selects where an injected environment variable takes its value from.
#[derive(Debug, PartialEq, Eq, Hash, Default)]
pub struct ObjectFieldSelector {
    pub field_path: String,
}

#[verifier::ext_equal]
pub struct ObjectFieldSelectorView {
    pub field_path: Seq<char>,
}

impl View for ObjectFieldSelector {
    type V = ObjectFieldSelectorView;

    open spec fn view(&self) -> ObjectFieldSelectorView {
        ObjectFieldSelectorView { field_path: self.field_path@ }
    }
}

impl DeepView for ObjectFieldSelector {
    type V = ObjectFieldSelectorView;

    open spec fn deep_view(&self) -> ObjectFieldSelectorView {
        self.view()
    }
}

impl Clone for ObjectFieldSelector {
    fn clone(&self) -> (r: Self)
        ensures
            r@ == self@,
    {
        ObjectFieldSelector { field_path: self.field_path.clone() }
    }
}

impl DeepClone for ObjectFieldSelector {
    fn deep_clone(&self) -> (r: Self)
        ensures
            r.deep_view() == self.deep_view(),
    {
        self.clone()
    }

    fn deep_eq(&self, other: &Self) -> (r: bool)
        ensures
            r == (self.deep_view() == other.deep_view()),
    {
        let r = self.field_path.eq(&other.field_path);
        proof {
            if r {
                assert(self.deep_view() =~= other.deep_view());
            }
        }
        r
    }
}

#[derive(Debug, PartialEq, Eq, Hash, Default)]
pub struct EnvVarSource {
    pub field_ref: Option<ObjectFieldSelector>,
}

#[verifier::ext_equal]
pub struct EnvVarSourceView {
    pub field_ref: Option<ObjectFieldSelectorView>,
}

impl View for EnvVarSource {
    type V = EnvVarSourceView;

    open spec fn view(&self) -> EnvVarSourceView {
        EnvVarSourceView { field_ref: self.field_ref.deep_view() }
    }
}

impl DeepView for EnvVarSource {
    type V = EnvVarSourceView;

    open spec fn deep_view(&self) -> EnvVarSourceView {
        self.view()
    }
}

impl Clone for EnvVarSource {
    fn clone(&self) -> (r: Self)
        ensures
            r@ == self@,
    {
        let r = EnvVarSource { field_ref: deep_clone_opt(&self.field_ref) };
        proof {
            assert(r@ =~= self@);
        }
        r
    }
}

impl DeepClone for EnvVarSource {
    fn deep_clone(&self) -> (r: Self)
        ensures
            r.deep_view() == self.deep_view(),
    {
        self.clone()
    }

    fn deep_eq(&self, other: &Self) -> (r: bool)
        ensures
            r == (self.deep_view() == other.deep_view()),
    {
        let r = deep_eq_opt(&self.field_ref, &other.field_ref);
        proof {
            if r {
                assert(self.deep_view() =~= other.deep_view());
            }
        }
        r
    }
}

#[derive(Debug, PartialEq, Eq, Hash, Default)]
pub struct EnvVar {
    pub name: String,
    pub value: Option<String>,
    pub value_from: Option<EnvVarSource>,
}

#[verifier::ext_equal]
pub struct EnvVarView {
    pub name: Seq<char>,
    pub value: Option<Seq<char>>,
    pub value_from: Option<EnvVarSourceView>,
}

impl View for EnvVar {
    type V = EnvVarView;

    open spec fn view(&self) -> EnvVarView {
        EnvVarView {
            name: self.name@,
            value: self.value.deep_view(),
            value_from: self.value_from.deep_view(),
        }
    }
}

impl DeepView for EnvVar {
    type V = EnvVarView;

    open spec fn deep_view(&self) -> EnvVarView {
        self.view()
    }
}

impl Clone for EnvVar {
    fn clone(&self) -> (r: Self)
        ensures
            r@ == self@,
    {
        let r = EnvVar {
            name: self.name.clone(),
            value: deep_clone_opt(&self.value),
            value_from: deep_clone_opt(&self.value_from),
        };
        proof {
            assert(r@ =~= self@);
        }
        r
    }
}

impl DeepClone for EnvVar {
    fn deep_clone(&self) -> (r: Self)
        ensures
            r.deep_view() == self.deep_view(),
    {
        self.clone()
    }

    fn deep_eq(&self, other: &Self) -> (r: bool)
        ensures
            r == (self.deep_view() == other.deep_view()),
    {
        let r = self.name.eq(&other.name) && deep_eq_opt(&self.value, &other.value)
            && deep_eq_opt(&self.value_from, &other.value_from);
        proof {
            if r {
                assert(self.deep_view() =~= other.deep_view());
            }
        }
        r
    }
}

#[derive(Debug, PartialEq, Eq, Hash, Default)]
pub struct Container {
    pub name: String,
    pub image: String,
    pub env: Vec<EnvVar>,
}

#[verifier::ext_equal]
pub struct ContainerView {
    pub name: Seq<char>,
    pub image: Seq<char>,
    pub env: Seq<EnvVarView>,
}

impl View for Container {
    type V = ContainerView;

    open spec fn view(&self) -> ContainerView {
        ContainerView { name: self.name@, image: self.image@, env: self.env.deep_view() }
    }
}

impl DeepView for Container {
    type V = ContainerView;

    open spec fn deep_view(&self) -> ContainerView {
        self.view()
    }
}

impl Clone for Container {
    fn clone(&self) -> (r: Self)
        ensures
            r@ == self@,
    {
        let r = Container {
            name: self.name.clone(),
            image: self.image.clone(),
            env: deep_clone_vec(&self.env),
        };
        proof {
            assert(r@ =~= self@);
        }
        r
    }
}

impl DeepClone for Container {
    fn deep_clone(&self) -> (r: Self)
        ensures
            r.deep_view() == self.deep_view(),
    {
        self.clone()
    }

    fn deep_eq(&self, other: &Self) -> (r: bool)
        ensures
            r == (self.deep_view() == other.deep_view()),
    {
        let r = self.name.eq(&other.name) && self.image.eq(&other.image)
            && deep_eq_vec(&self.env, &other.env);
        proof {
            if r {
                assert(self.deep_view() =~= other.deep_view());
            }
        }
        r
    }
}

#[derive(Debug, PartialEq, Eq, Hash, Default)]
pub struct ContainerStatus {
    pub name: String,
    pub restart_count: u32,
    pub state: ContainerState,
}

#[verifier::ext_equal]
pub struct ContainerStatusView {
    pub name: Seq<char>,
    pub restart_count: u32,
    pub state: ContainerState,
}

impl View for ContainerStatus {
    type V = ContainerStatusView;

    open spec fn view(&self) -> ContainerStatusView {
        ContainerStatusView {
            name: self.name@,
            restart_count: self.restart_count,
            state: self.state,
        }
    }
}

impl DeepView for ContainerStatus {
    type V = ContainerStatusView;

    open spec fn deep_view(&self) -> ContainerStatusView {
        self.view()
    }
}

impl Clone for ContainerStatus {
    fn clone(&self) -> (r: Self)
        ensures
            r@ == self@,
    {
        ContainerStatus {
            name: self.name.clone(),
            restart_count: self.restart_count,
            state: self.state,
        }
    }
}

impl DeepClone for ContainerStatus {
    fn deep_clone(&self) -> (r: Self)
        ensures
            r.deep_view() == self.deep_view(),
    {
        self.clone()
    }

    fn deep_eq(&self, other: &Self) -> (r: bool)
        ensures
            r == (self.deep_view() == other.deep_view()),
    {
        let state_eq = match (self.state.terminated, other.state.terminated) {
            (Some(x), Some(y)) => x.exit_code == y.exit_code,
            (None, None) => true,
            _ => false,
        };
        let r = self.name.eq(&other.name) && self.restart_count == other.restart_count
            && state_eq;
        proof {
            if r {
                assert(self.deep_view() =~= other.deep_view());
            }
        }
        r
    }
}

impl DeepView for PodCondition {
    type V = PodCondition;

    open spec fn deep_view(&self) -> PodCondition {
        *self
    }
}

impl DeepClone for PodCondition {
    fn deep_clone(&self) -> (r: Self)
        ensures
            r.deep_view() == self.deep_view(),
    {
        *self
    }

    fn deep_eq(&self, other: &Self) -> (r: bool)
        ensures
            r == (self.deep_view() == other.deep_view()),
    {
        self.cond_type == other.cond_type && self.status == other.status && opt_time_eq(
            &self.last_transition_time,
            &other.last_transition_time,
        )
    }
}

/// The desired state of a pod.
#[derive(Debug, PartialEq, Eq, Hash, Default)]
pub struct PodSpec {
    /// The node the pod has been assigned to, if any.
    pub node_name: Option<usize>,
    pub containers: Vec<Container>,
    pub init_containers: Vec<Container>,
    pub restart_policy: Option<PodRestartPolicy>,
    pub hostname: String,
}

#[verifier::ext_equal]
pub struct PodSpecView {
    pub node_name: Option<usize>,
    pub containers: Seq<ContainerView>,
    pub init_containers: Seq<ContainerView>,
    pub restart_policy: Option<PodRestartPolicy>,
    pub hostname: Seq<char>,
}

impl View for PodSpec {
    type V = PodSpecView;

    open spec fn view(&self) -> PodSpecView {
        PodSpecView {
            node_name: self.node_name,
            containers: self.containers.deep_view(),
            init_containers: self.init_containers.deep_view(),
            restart_policy: self.restart_policy,
            hostname: self.hostname@,
        }
    }
}

impl DeepView for PodSpec {
    type V = PodSpecView;

    open spec fn deep_view(&self) -> PodSpecView {
        self.view()
    }
}

impl Clone for PodSpec {
    fn clone(&self) -> (r: Self)
        ensures
            r@ == self@,
    {
        let r = PodSpec {
            node_name: self.node_name,
            containers: deep_clone_vec(&self.containers),
            init_containers: deep_clone_vec(&self.init_containers),
            restart_policy: self.restart_policy,
            hostname: self.hostname.clone(),
        };
        proof {
            assert(r@ =~= self@);
        }
        r
    }
}

impl DeepClone for PodSpec {
    fn deep_clone(&self) -> (r: Self)
        ensures
            r.deep_view() == self.deep_view(),
    {
        self.clone()
    }

    fn deep_eq(&self, other: &Self) -> (r: bool)
        ensures
            r == (self.deep_view() == other.deep_view()),
    {
        let policy_eq = match (self.restart_policy, other.restart_policy) {
            (Some(x), Some(y)) => x == y,
            (None, None) => true,
            _ => false,
        };
        let r = opt_usize_eq(&self.node_name, &other.node_name)
            && deep_eq_vec(&self.containers, &other.containers)
            && deep_eq_vec(&self.init_containers, &other.init_containers) && policy_eq
            && self.hostname.eq(&other.hostname);
        proof {
            if r {
                assert(self.deep_view() =~= other.deep_view());
            }
        }
        r
    }
}

/// The observed state of a pod.
#[derive(Debug, PartialEq, Eq, Hash, Default)]
pub struct PodStatus {
    pub phase: PodPhase,
    pub conditions: Vec<PodCondition>,
    pub container_statuses: Vec<ContainerStatus>,
    pub init_container_statuses: Vec<ContainerStatus>,
}

#[verifier::ext_equal]
pub struct PodStatusView {
    pub phase: PodPhase,
    pub conditions: Seq<PodCondition>,
    pub container_statuses: Seq<ContainerStatusView>,
    pub init_container_statuses: Seq<ContainerStatusView>,
}

impl View for PodStatus {
    type V = PodStatusView;

    open spec fn view(&self) -> PodStatusView {
        PodStatusView {
            phase: self.phase,
            conditions: self.conditions.deep_view(),
            container_statuses: self.container_statuses.deep_view(),
            init_container_statuses: self.init_container_statuses.deep_view(),
        }
    }
}

impl DeepView for PodStatus {
    type V = PodStatusView;

    open spec fn deep_view(&self) -> PodStatusView {
        self.view()
    }
}

impl Clone for PodStatus {
    fn clone(&self) -> (r: Self)
        ensures
            r@ == self@,
    {
        let r = PodStatus {
            phase: self.phase,
            conditions: deep_clone_vec(&self.conditions),
            container_statuses: deep_clone_vec(&self.container_statuses),
            init_container_statuses: deep_clone_vec(&self.init_container_statuses),
        };
        proof {
            assert(r@ =~= self@);
        }
        r
    }
}

impl DeepClone for PodStatus {
    fn deep_clone(&self) -> (r: Self)
        ensures
            r.deep_view() == self.deep_view(),
    {
        self.clone()
    }

    fn deep_eq(&self, other: &Self) -> (r: bool)
        ensures
            r == (self.deep_view() == other.deep_view()),
    {
        let r = self.phase == other.phase && deep_eq_vec(&self.conditions, &other.conditions)
            && deep_eq_vec(&self.container_statuses, &other.container_statuses)
            && deep_eq_vec(&self.init_container_statuses, &other.init_container_statuses);
        proof {
            if r {
                assert(self.deep_view() =~= other.deep_view());
            }
        }
        r
    }
}

/// A pod: the unit of scheduled work.
#[derive(Debug, PartialEq, Eq, Hash, Default)]
pub struct Pod {
    pub metadata: Metadata,
    pub spec: PodSpec,
    pub status: PodStatus,
}

#[verifier::ext_equal]
pub struct PodView {
    pub metadata: MetadataView,
    pub spec: PodSpecView,
    pub status: PodStatusView,
}

impl View for Pod {
    type V = PodView;

    open spec fn view(&self) -> PodView {
        PodView { metadata: self.metadata@, spec: self.spec@, status: self.status@ }
    }
}

impl DeepView for Pod {
    type V = PodView;

    open spec fn deep_view(&self) -> PodView {
        self.view()
    }
}

impl Clone for Pod {
    fn clone(&self) -> (r: Self)
        ensures
            r@ == self@,
    {
        let r = Pod {
            metadata: self.metadata.clone(),
            spec: self.spec.clone(),
            status: self.status.clone(),
        };
        proof {
            assert(r@ =~= self@);
        }
        r
    }
}

impl DeepClone for Pod {
    fn deep_clone(&self) -> (r: Self)
        ensures
            r.deep_view() == self.deep_view(),
    {
        self.clone()
    }

    fn deep_eq(&self, other: &Self) -> (r: bool)
        ensures
            r == (self.deep_view() == other.deep_view()),
    {
        let r = self.metadata.deep_eq(&other.metadata) && self.spec.deep_eq(&other.spec)
            && self.status.deep_eq(&other.status);
        proof {
            if r {
                assert(self.deep_view() =~= other.deep_view());
            }
        }
        r
    }
}

/// The template a job stamps new pods out of.
#[derive(Debug, PartialEq, Eq, Hash, Default)]
pub struct PodTemplateSpec {
    pub metadata: Metadata,
    pub spec: PodSpec,
}

#[verifier::ext_equal]
pub struct PodTemplateSpecView {
    pub metadata: MetadataView,
    pub spec: PodSpecView,
}

impl View for PodTemplateSpec {
    type V = PodTemplateSpecView;

    open spec fn view(&self) -> PodTemplateSpecView {
        PodTemplateSpecView { metadata: self.metadata@, spec: self.spec@ }
    }
}

impl DeepView for PodTemplateSpec {
    type V = PodTemplateSpecView;

    open spec fn deep_view(&self) -> PodTemplateSpecView {
        self.view()
    }
}

impl Clone for PodTemplateSpec {
    fn clone(&self) -> (r: Self)
        ensures
            r@ == self@,
    {
        let r = PodTemplateSpec { metadata: self.metadata.clone(), spec: self.spec.clone() };
        proof {
            assert(r@ =~= self@);
        }
        r
    }
}

impl DeepClone for PodTemplateSpec {
    fn deep_clone(&self) -> (r: Self)
        ensures
            r.deep_view() == self.deep_view(),
    {
        self.clone()
    }

    fn deep_eq(&self, other: &Self) -> (r: bool)
        ensures
            r == (self.deep_view() == other.deep_view()),
    {
        let r = self.metadata.deep_eq(&other.metadata) && self.spec.deep_eq(&other.spec);
        proof {
            if r {
                assert(self.deep_view() =~= other.deep_view());
            }
        }
        r
    }
}


// ---------------------------------------------------------------------------
// Job
// ---------------------------------------------------------------------------

/// Selects pods by exact label matches.
#[derive(Debug, PartialEq, Eq, Hash, Default)]
pub struct LabelSelector {
    pub match_labels: Vec<(String, String)>,
}

#[verifier::ext_equal]
pub struct LabelSelectorView {
    pub match_labels: Seq<(Seq<char>, Seq<char>)>,
}

impl View for LabelSelector {
    type V = LabelSelectorView;

    open spec fn view(&self) -> LabelSelectorView {
        LabelSelectorView { match_labels: self.match_labels.deep_view() }
    }
}

impl DeepView for LabelSelector {
    type V = LabelSelectorView;

    open spec fn deep_view(&self) -> LabelSelectorView {
        self.view()
    }
}

impl Clone for LabelSelector {
    fn clone(&self) -> (r: Self)
        ensures
            r@ == self@,
    {
        let r = LabelSelector { match_labels: deep_clone_vec(&self.match_labels) };
        proof {
            assert(r@ =~= self@);
        }
        r
    }
}

impl DeepClone for LabelSelector {
    fn deep_clone(&self) -> (r: Self)
        ensures
            r.deep_view() == self.deep_view(),
    {
        self.clone()
    }

    fn deep_eq(&self, other: &Self) -> (r: bool)
        ensures
            r == (self.deep_view() == other.deep_view()),
    {
        let r = deep_eq_vec(&self.match_labels, &other.match_labels);
        proof {
            if r {
                assert(self.deep_view() =~= other.deep_view());
            }
        }
        r
    }
}

/// Matches failed containers by their exit codes.
#[derive(Debug, PartialEq, Eq, Hash)]
pub struct JobPodFailurePolicyRuleOnExitCodesRequirement {
    pub container_name: Option<String>,
    pub operator: JobPodFailurePolicyRuleOnExitCodesRequirementOperator,
    pub values: Vec<u32>,
}

#[verifier::ext_equal]
pub struct JobPodFailurePolicyRuleOnExitCodesRequirementView {
    pub container_name: Option<Seq<char>>,
    pub operator: JobPodFailurePolicyRuleOnExitCodesRequirementOperator,
    pub values: Seq<u32>,
}

impl View for JobPodFailurePolicyRuleOnExitCodesRequirement {
    type V = JobPodFailurePolicyRuleOnExitCodesRequirementView;

    open spec fn view(&self) -> JobPodFailurePolicyRuleOnExitCodesRequirementView {
        JobPodFailurePolicyRuleOnExitCodesRequirementView {
            container_name: self.container_name.deep_view(),
            operator: self.operator,
            values: self.values.deep_view(),
        }
    }
}

impl DeepView for JobPodFailurePolicyRuleOnExitCodesRequirement {
    type V = JobPodFailurePolicyRuleOnExitCodesRequirementView;

    open spec fn deep_view(&self) -> JobPodFailurePolicyRuleOnExitCodesRequirementView {
        self.view()
    }
}

impl Clone for JobPodFailurePolicyRuleOnExitCodesRequirement {
    fn clone(&self) -> (r: Self)
        ensures
            r@ == self@,
    {
        let r = JobPodFailurePolicyRuleOnExitCodesRequirement {
            container_name: deep_clone_opt(&self.container_name),
            operator: self.operator,
            values: deep_clone_vec(&self.values),
        };
        proof {
            assert(r@ =~= self@);
        }
        r
    }
}

impl DeepClone for JobPodFailurePolicyRuleOnExitCodesRequirement {
    fn deep_clone(&self) -> (r: Self)
        ensures
            r.deep_view() == self.deep_view(),
    {
        self.clone()
    }

    fn deep_eq(&self, other: &Self) -> (r: bool)
        ensures
            r == (self.deep_view() == other.deep_view()),
    {
        let r = deep_eq_opt(&self.container_name, &other.container_name)
            && self.operator == other.operator && deep_eq_vec(&self.values, &other.values);
        proof {
            if r {
                assert(self.deep_view() =~= other.deep_view());
            }
        }
        r
    }
}

impl DeepView for JobPodFailurePolicyRuleOnPodConditionsPattern {
    type V = JobPodFailurePolicyRuleOnPodConditionsPattern;

    open spec fn deep_view(&self) -> JobPodFailurePolicyRuleOnPodConditionsPattern {
        *self
    }
}

impl DeepClone for JobPodFailurePolicyRuleOnPodConditionsPattern {
    fn deep_clone(&self) -> (r: Self)
        ensures
            r.deep_view() == self.deep_view(),
    {
        *self
    }

    fn deep_eq(&self, other: &Self) -> (r: bool)
        ensures
            r == (self.deep_view() == other.deep_view()),
    {
        self.cond_type == other.cond_type && self.status == other.status
    }
}

/// One rule of a pod failure policy; the first matching rule decides.
#[derive(Debug, PartialEq, Eq, Hash)]
pub struct JobPodFailurePolicyRule {
    pub action: JobPodFailurePolicyRuleAction,
    pub on_exit_codes: Option<JobPodFailurePolicyRuleOnExitCodesRequirement>,
    pub on_pod_conditions: Option<Vec<JobPodFailurePolicyRuleOnPodConditionsPattern>>,
}

#[verifier::ext_equal]
pub struct JobPodFailurePolicyRuleView {
    pub action: JobPodFailurePolicyRuleAction,
    pub on_exit_codes: Option<JobPodFailurePolicyRuleOnExitCodesRequirementView>,
    pub on_pod_conditions: Option<Seq<JobPodFailurePolicyRuleOnPodConditionsPattern>>,
}

impl View for JobPodFailurePolicyRule {
    type V = JobPodFailurePolicyRuleView;

    open spec fn view(&self) -> JobPodFailurePolicyRuleView {
        JobPodFailurePolicyRuleView {
            action: self.action,
            on_exit_codes: self.on_exit_codes.deep_view(),
            on_pod_conditions: self.on_pod_conditions.deep_view(),
        }
    }
}

impl DeepView for JobPodFailurePolicyRule {
    type V = JobPodFailurePolicyRuleView;

    open spec fn deep_view(&self) -> JobPodFailurePolicyRuleView {
        self.view()
    }
}

impl DeepClone for Vec<JobPodFailurePolicyRuleOnPodConditionsPattern> {
    fn deep_clone(&self) -> (r: Self)
        ensures
            r.deep_view() == self.deep_view(),
    {
        deep_clone_vec(self)
    }

    fn deep_eq(&self, other: &Self) -> (r: bool)
        ensures
            r == (self.deep_view() == other.deep_view()),
    {
        deep_eq_vec(self, other)
    }
}

impl Clone for JobPodFailurePolicyRule {
    fn clone(&self) -> (r: Self)
        ensures
            r@ == self@,
    {
        let r = JobPodFailurePolicyRule {
            action: self.action,
            on_exit_codes: deep_clone_opt(&self.on_exit_codes),
            on_pod_conditions: deep_clone_opt(&self.on_pod_conditions),
        };
        proof {
            assert(r@ =~= self@);
        }
        r
    }
}

impl DeepClone for JobPodFailurePolicyRule {
    fn deep_clone(&self) -> (r: Self)
        ensures
            r.deep_view() == self.deep_view(),
    {
        self.clone()
    }

    fn deep_eq(&self, other: &Self) -> (r: bool)
        ensures
            r == (self.deep_view() == other.deep_view()),
    {
        let r = self.action == other.action && deep_eq_opt(
            &self.on_exit_codes,
            &other.on_exit_codes,
        ) && deep_eq_opt(&self.on_pod_conditions, &other.on_pod_conditions);
        proof {
            if r {
                assert(self.deep_view() =~= other.deep_view());
            }
        }
        r
    }
}

/// How failed pods are classified before they are counted against the job.
#[derive(Debug, PartialEq, Eq, Hash)]
pub struct JobPodFailurePolicy {
    pub rules: Vec<JobPodFailurePolicyRule>,
}

#[verifier::ext_equal]
pub struct JobPodFailurePolicyView {
    pub rules: Seq<JobPodFailurePolicyRuleView>,
}

impl View for JobPodFailurePolicy {
    type V = JobPodFailurePolicyView;

    open spec fn view(&self) -> JobPodFailurePolicyView {
        JobPodFailurePolicyView { rules: self.rules.deep_view() }
    }
}

impl DeepView for JobPodFailurePolicy {
    type V = JobPodFailurePolicyView;

    open spec fn deep_view(&self) -> JobPodFailurePolicyView {
        self.view()
    }
}

impl Clone for JobPodFailurePolicy {
    fn clone(&self) -> (r: Self)
        ensures
            r@ == self@,
    {
        let r = JobPodFailurePolicy { rules: deep_clone_vec(&self.rules) };
        proof {
            assert(r@ =~= self@);
        }
        r
    }
}

impl DeepClone for JobPodFailurePolicy {
    fn deep_clone(&self) -> (r: Self)
        ensures
            r.deep_view() == self.deep_view(),
    {
        self.clone()
    }

    fn deep_eq(&self, other: &Self) -> (r: bool)
        ensures
            r == (self.deep_view() == other.deep_view()),
    {
        let r = deep_eq_vec(&self.rules, &other.rules);
        proof {
            if r {
                assert(self.deep_view() =~= other.deep_view());
            }
        }
        r
    }
}

/// A job condition, such as `Complete` or `Failed`.
#[derive(Debug, PartialEq, Eq, Hash)]
pub struct JobCondition {
    pub cond_type: JobConditionType,
    pub status: ConditionStatus,
    pub reason: String,
    pub message: String,
    pub last_probe_time: Option<Time>,
    pub last_transition_time: Option<Time>,
}

#[verifier::ext_equal]
pub struct JobConditionView {
    pub cond_type: JobConditionType,
    pub status: ConditionStatus,
    pub reason: Seq<char>,
    pub message: Seq<char>,
    pub last_probe_time: Option<Time>,
    pub last_transition_time: Option<Time>,
}

impl View for JobCondition {
    type V = JobConditionView;

    open spec fn view(&self) -> JobConditionView {
        JobConditionView {
            cond_type: self.cond_type,
            status: self.status,
            reason: self.reason@,
            message: self.message@,
            last_probe_time: self.last_probe_time,
            last_transition_time: self.last_transition_time,
        }
    }
}

impl DeepView for JobCondition {
    type V = JobConditionView;

    open spec fn deep_view(&self) -> JobConditionView {
        self.view()
    }
}

impl Clone for JobCondition {
    fn clone(&self) -> (r: Self)
        ensures
            r@ == self@,
    {
        let r = JobCondition {
            cond_type: self.cond_type,
            status: self.status,
            reason: self.reason.clone(),
            message: self.message.clone(),
            last_probe_time: self.last_probe_time,
            last_transition_time: self.last_transition_time,
        };
        proof {
            assert(r@ =~= self@);
        }
        r
    }
}

impl DeepClone for JobCondition {
    fn deep_clone(&self) -> (r: Self)
        ensures
            r.deep_view() == self.deep_view(),
    {
        self.clone()
    }

    fn deep_eq(&self, other: &Self) -> (r: bool)
        ensures
            r == (self.deep_view() == other.deep_view()),
    {
        let r = self.cond_type == other.cond_type && self.status == other.status
            && self.reason.eq(&other.reason) && self.message.eq(&other.message)
            && opt_time_eq(&self.last_probe_time, &other.last_probe_time)
            && opt_time_eq(&self.last_transition_time, &other.last_transition_time);
        proof {
            if r {
                assert(self.deep_view() =~= other.deep_view());
            }
        }
        r
    }
}

/// Terminated pods whose uids were recorded in the job status but whose
/// terminal state has not yet been moved into the numeric counters.
#[derive(Debug, PartialEq, Eq, Hash, Default)]
pub struct UncountedTerminatedPods {
    pub succeeded: Vec<String>,
    pub failed: Vec<String>,
}

#[verifier::ext_equal]
pub struct UncountedTerminatedPodsView {
    pub succeeded: Seq<Seq<char>>,
    pub failed: Seq<Seq<char>>,
}

impl View for UncountedTerminatedPods {
    type V = UncountedTerminatedPodsView;

    open spec fn view(&self) -> UncountedTerminatedPodsView {
        UncountedTerminatedPodsView {
            succeeded: self.succeeded.deep_view(),
            failed: self.failed.deep_view(),
        }
    }
}

impl DeepView for UncountedTerminatedPods {
    type V = UncountedTerminatedPodsView;

    open spec fn deep_view(&self) -> UncountedTerminatedPodsView {
        self.view()
    }
}

impl Clone for UncountedTerminatedPods {
    fn clone(&self) -> (r: Self)
        ensures
            r@ == self@,
    {
        let r = UncountedTerminatedPods {
            succeeded: deep_clone_vec(&self.succeeded),
            failed: deep_clone_vec(&self.failed),
        };
        proof {
            assert(r@ =~= self@);
        }
        r
    }
}

/// The desired state of a job.
#[derive(Debug, PartialEq, Eq, Hash, Default)]
pub struct JobSpec {
    pub parallelism: Option<u32>,
    pub completions: Option<u32>,
    pub completion_mode: JobCompletionMode,
    pub backoff_limit: Option<u32>,
    pub active_deadline_seconds: Option<u64>,
    pub suspend: bool,
    pub selector: LabelSelector,
    pub template: PodTemplateSpec,
    pub pod_failure_policy: Option<JobPodFailurePolicy>,
}

#[verifier::ext_equal]
pub struct JobSpecView {
    pub parallelism: Option<u32>,
    pub completions: Option<u32>,
    pub completion_mode: JobCompletionMode,
    pub backoff_limit: Option<u32>,
    pub active_deadline_seconds: Option<u64>,
    pub suspend: bool,
    pub selector: LabelSelectorView,
    pub template: PodTemplateSpecView,
    pub pod_failure_policy: Option<JobPodFailurePolicyView>,
}

impl View for JobSpec {
    type V = JobSpecView;

    open spec fn view(&self) -> JobSpecView {
        JobSpecView {
            parallelism: self.parallelism,
            completions: self.completions,
            completion_mode: self.completion_mode,
            backoff_limit: self.backoff_limit,
            active_deadline_seconds: self.active_deadline_seconds,
            suspend: self.suspend,
            selector: self.selector@,
            template: self.template@,
            pod_failure_policy: self.pod_failure_policy.deep_view(),
        }
    }
}

impl DeepView for JobSpec {
    type V = JobSpecView;

    open spec fn deep_view(&self) -> JobSpecView {
        self.view()
    }
}

impl Clone for JobSpec {
    fn clone(&self) -> (r: Self)
        ensures
            r@ == self@,
    {
        let r = JobSpec {
            parallelism: self.parallelism,
            completions: self.completions,
            completion_mode: self.completion_mode,
            backoff_limit: self.backoff_limit,
            active_deadline_seconds: self.active_deadline_seconds,
            suspend: self.suspend,
            selector: self.selector.clone(),
            template: self.template.clone(),
            pod_failure_policy: deep_clone_opt(&self.pod_failure_policy),
        };
        proof {
            assert(r@ =~= self@);
        }
        r
    }
}

impl DeepClone for JobSpec {
    fn deep_clone(&self) -> (r: Self)
        ensures
            r.deep_view() == self.deep_view(),
    {
        self.clone()
    }

    fn deep_eq(&self, other: &Self) -> (r: bool)
        ensures
            r == (self.deep_view() == other.deep_view()),
    {
        let r = opt_u32_eq(&self.parallelism, &other.parallelism)
            && opt_u32_eq(&self.completions, &other.completions)
            && self.completion_mode == other.completion_mode
            && opt_u32_eq(&self.backoff_limit, &other.backoff_limit)
            && opt_u64_eq(&self.active_deadline_seconds, &other.active_deadline_seconds)
            && self.suspend == other.suspend && self.selector.deep_eq(&other.selector)
            && self.template.deep_eq(&other.template)
            && deep_eq_opt(&self.pod_failure_policy, &other.pod_failure_policy);
        proof {
            if r {
                assert(self.deep_view() =~= other.deep_view());
            }
        }
        r
    }
}

/// The observed state of a job.
#[derive(Debug, PartialEq, Eq, Hash, Default)]
pub struct JobStatus {
    pub active: u32,
    pub ready: u32,
    pub succeeded: u32,
    pub failed: u32,
    /// Succeeded indexes of an indexed job, as a compressed interval string.
    pub completed_indexes: String,
    pub uncounted_terminated_pods: UncountedTerminatedPods,
    pub conditions: Vec<JobCondition>,
    pub start_time: Option<Time>,
}

#[verifier::ext_equal]
pub struct JobStatusView {
    pub active: u32,
    pub ready: u32,
    pub succeeded: u32,
    pub failed: u32,
    pub completed_indexes: Seq<char>,
    pub uncounted_terminated_pods: UncountedTerminatedPodsView,
    pub conditions: Seq<JobConditionView>,
    pub start_time: Option<Time>,
}

impl View for JobStatus {
    type V = JobStatusView;

    open spec fn view(&self) -> JobStatusView {
        JobStatusView {
            active: self.active,
            ready: self.ready,
            succeeded: self.succeeded,
            failed: self.failed,
            completed_indexes: self.completed_indexes@,
            uncounted_terminated_pods: self.uncounted_terminated_pods@,
            conditions: self.conditions.deep_view(),
            start_time: self.start_time,
        }
    }
}

impl DeepView for JobStatus {
    type V = JobStatusView;

    open spec fn deep_view(&self) -> JobStatusView {
        self.view()
    }
}

impl Clone for JobStatus {
    fn clone(&self) -> (r: Self)
        ensures
            r@ == self@,
    {
        let r = JobStatus {
            active: self.active,
            ready: self.ready,
            succeeded: self.succeeded,
            failed: self.failed,
            completed_indexes: self.completed_indexes.clone(),
            uncounted_terminated_pods: self.uncounted_terminated_pods.clone(),
            conditions: deep_clone_vec(&self.conditions),
            start_time: self.start_time,
        };
        proof {
            assert(r@ =~= self@);
        }
        r
    }
}

/// A job: runs pods until enough of them succeed.
#[derive(Debug, PartialEq, Eq, Hash, Default)]
pub struct Job {
    pub metadata: Metadata,
    pub spec: JobSpec,
    pub status: JobStatus,
}

#[verifier::ext_equal]
pub struct JobView {
    pub metadata: MetadataView,
    pub spec: JobSpecView,
    pub status: JobStatusView,
}

impl View for Job {
    type V = JobView;

    open spec fn view(&self) -> JobView {
        JobView { metadata: self.metadata@, spec: self.spec@, status: self.status@ }
    }
}

impl DeepView for Job {
    type V = JobView;

    open spec fn deep_view(&self) -> JobView {
        self.view()
    }
}

impl Clone for Job {
    fn clone(&self) -> (r: Self)
        ensures
            r@ == self@,
    {
        let r = Job {
            metadata: self.metadata.clone(),
            spec: self.spec.clone(),
            status: self.status.clone(),
        };
        proof {
            assert(r@ =~= self@);
        }
        r
    }
}

impl DeepClone for Job {
    fn deep_clone(&self) -> (r: Self)
        ensures
            r.deep_view() == self.deep_view(),
    {
        self.clone()
    }

    fn deep_eq(&self, other: &Self) -> (r: bool)
        ensures
            r == (self.deep_view() == other.deep_view()),
    {
        let status_eq = self.status.active == other.status.active && self.status.ready
            == other.status.ready && self.status.succeeded == other.status.succeeded
            && self.status.failed == other.status.failed
            && self.status.completed_indexes.eq(&other.status.completed_indexes)
            && deep_eq_vec(
            &self.status.uncounted_terminated_pods.succeeded,
            &other.status.uncounted_terminated_pods.succeeded,
        )
            && deep_eq_vec(
            &self.status.uncounted_terminated_pods.failed,
            &other.status.uncounted_terminated_pods.failed,
        ) && deep_eq_vec(&self.status.conditions, &other.status.conditions) && opt_time_eq(
            &self.status.start_time,
            &other.status.start_time,
        );
        let r = self.metadata.deep_eq(&other.metadata) && self.spec.deep_eq(&other.spec)
            && status_eq;
        proof {
            if r {
                assert(self.status@.uncounted_terminated_pods
                    =~= other.status@.uncounted_terminated_pods);
                assert(self.status@ =~= other.status@);
                assert(self.deep_view() =~= other.deep_view());
            }
        }
        r
    }
}

// ---------------------------------------------------------------------------
// The remaining managed kinds
// ---------------------------------------------------------------------------

/// A worker node of the cluster, keyed by a plain id rather than a name.
#[derive(Debug, PartialEq, Eq, Hash, Default)]
pub struct NodeResource {
    /// Names of the pods running on this node, sorted and unique.
    pub running: Vec<String>,
    pub ready: bool,
    pub capacity: ResourceQuantities,
}

#[verifier::ext_equal]
pub struct NodeResourceView {
    pub running: Seq<Seq<char>>,
    pub ready: bool,
    pub capacity: ResourceQuantities,
}

impl View for NodeResource {
    type V = NodeResourceView;

    open spec fn view(&self) -> NodeResourceView {
        NodeResourceView {
            running: self.running.deep_view(),
            ready: self.ready,
            capacity: self.capacity,
        }
    }
}

impl DeepView for NodeResource {
    type V = NodeResourceView;

    open spec fn deep_view(&self) -> NodeResourceView {
        self.view()
    }
}

impl Clone for NodeResource {
    fn clone(&self) -> (r: Self)
        ensures
            r@ == self@,
    {
        let r = NodeResource {
            running: deep_clone_vec(&self.running),
            ready: self.ready,
            capacity: self.capacity,
        };
        proof {
            assert(r@ =~= self@);
        }
        r
    }
}

impl DeepClone for NodeResource {
    fn deep_clone(&self) -> (r: Self)
        ensures
            r.deep_view() == self.deep_view(),
    {
        self.clone()
    }

    fn deep_eq(&self, other: &Self) -> (r: bool)
        ensures
            r == (self.deep_view() == other.deep_view()),
    {
        let r = deep_eq_vec(&self.running, &other.running) && self.ready == other.ready
            && self.capacity == other.capacity;
        proof {
            if r {
                assert(self.deep_view() =~= other.deep_view());
            }
        }
        r
    }
}

/// A replica set resource; reconciled only at the contract level.
#[derive(Debug, PartialEq, Eq, Hash, Default)]
pub struct ReplicaSetResource {
    pub metadata: Metadata,
    pub replicas: u32,
}

#[verifier::ext_equal]
pub struct ReplicaSetResourceView {
    pub metadata: MetadataView,
    pub replicas: u32,
}

impl View for ReplicaSetResource {
    type V = ReplicaSetResourceView;

    open spec fn view(&self) -> ReplicaSetResourceView {
        ReplicaSetResourceView { metadata: self.metadata@, replicas: self.replicas }
    }
}

impl DeepView for ReplicaSetResource {
    type V = ReplicaSetResourceView;

    open spec fn deep_view(&self) -> ReplicaSetResourceView {
        self.view()
    }
}

impl Clone for ReplicaSetResource {
    fn clone(&self) -> (r: Self)
        ensures
            r@ == self@,
    {
        let r = ReplicaSetResource { metadata: self.metadata.clone(), replicas: self.replicas };
        proof {
            assert(r@ =~= self@);
        }
        r
    }
}

/// A deployment resource; reconciled only at the contract level.
#[derive(Debug, PartialEq, Eq, Hash, Default)]
pub struct DeploymentResource {
    pub metadata: Metadata,
    pub replicas: u32,
}

#[verifier::ext_equal]
pub struct DeploymentResourceView {
    pub metadata: MetadataView,
    pub replicas: u32,
}

impl View for DeploymentResource {
    type V = DeploymentResourceView;

    open spec fn view(&self) -> DeploymentResourceView {
        DeploymentResourceView { metadata: self.metadata@, replicas: self.replicas }
    }
}

impl DeepView for DeploymentResource {
    type V = DeploymentResourceView;

    open spec fn deep_view(&self) -> DeploymentResourceView {
        self.view()
    }
}

impl Clone for DeploymentResource {
    fn clone(&self) -> (r: Self)
        ensures
            r@ == self@,
    {
        let r = DeploymentResource { metadata: self.metadata.clone(), replicas: self.replicas };
        proof {
            assert(r@ =~= self@);
        }
        r
    }
}

/// A stateful set resource; reconciled only at the contract level.
#[derive(Debug, PartialEq, Eq, Hash, Default)]
pub struct StatefulSetResource {
    pub metadata: Metadata,
    pub replicas: u32,
}

#[verifier::ext_equal]
pub struct StatefulSetResourceView {
    pub metadata: MetadataView,
    pub replicas: u32,
}

impl View for StatefulSetResource {
    type V = StatefulSetResourceView;

    open spec fn view(&self) -> StatefulSetResourceView {
        StatefulSetResourceView { metadata: self.metadata@, replicas: self.replicas }
    }
}

impl DeepView for StatefulSetResource {
    type V = StatefulSetResourceView;

    open spec fn deep_view(&self) -> StatefulSetResourceView {
        self.view()
    }
}

impl Clone for StatefulSetResource {
    fn clone(&self) -> (r: Self)
        ensures
            r@ == self@,
    {
        let r = StatefulSetResource { metadata: self.metadata.clone(), replicas: self.replicas };
        proof {
            assert(r@ =~= self@);
        }
        r
    }
}

// ---------------------------------------------------------------------------
// The common shape of a managed resource
// ---------------------------------------------------------------------------

/// A managed resource: a metadata envelope around a kind-specific body. The
/// store's concurrency control reads and rewrites the envelope and compares
/// the desired-state part of the body, so every kind provides exactly those
/// operations, tied to its view.
pub trait Meta: Sized + DeepView {
    /// The metadata of a resource view.
    spec fn md_of(v: Self::V) -> MetadataView;

    /// The resource view with its metadata replaced.
    spec fn with_md(v: Self::V, md: MetadataView) -> Self::V;

    /// Whether the desired-state part differs between two resource views;
    /// a successful overwrite bumps the generation exactly when it does.
    spec fn body_differs(a: Self::V, b: Self::V) -> bool;

    proof fn lemma_with_md(v: Self::V, md: MetadataView)
        ensures
            Self::md_of(Self::with_md(v, md)) == md,
            !Self::body_differs(Self::with_md(v, md), v),
            !Self::body_differs(v, Self::with_md(v, md)),
    ;

    fn metadata(&self) -> (m: &Metadata)
        ensures
            m@ == Self::md_of(self.deep_view()),
    ;

    fn set_metadata(&mut self, md: Metadata)
        ensures
            final(self).deep_view() == Self::with_md(old(self).deep_view(), md@),
    ;

    fn body_differs_from(&self, other: &Self) -> (r: bool)
        ensures
            r == Self::body_differs(self.deep_view(), other.deep_view()),
    ;
}

impl Meta for Pod {
    open spec fn md_of(v: PodView) -> MetadataView {
        v.metadata
    }

    open spec fn with_md(v: PodView, md: MetadataView) -> PodView {
        PodView { metadata: md, ..v }
    }

    open spec fn body_differs(a: PodView, b: PodView) -> bool {
        a.spec != b.spec
    }

    proof fn lemma_with_md(v: PodView, md: MetadataView) {
    }

    fn metadata(&self) -> (m: &Metadata) {
        &self.metadata
    }

    fn set_metadata(&mut self, md: Metadata) {
        self.metadata = md;
    }

    fn body_differs_from(&self, other: &Self) -> (r: bool) {
        !self.spec.deep_eq(&other.spec)
    }
}

impl Meta for Job {
    open spec fn md_of(v: JobView) -> MetadataView {
        v.metadata
    }

    open spec fn with_md(v: JobView, md: MetadataView) -> JobView {
        JobView { metadata: md, ..v }
    }

    open spec fn body_differs(a: JobView, b: JobView) -> bool {
        a.spec != b.spec
    }

    proof fn lemma_with_md(v: JobView, md: MetadataView) {
    }

    fn metadata(&self) -> (m: &Metadata) {
        &self.metadata
    }

    fn set_metadata(&mut self, md: Metadata) {
        self.metadata = md;
    }

    fn body_differs_from(&self, other: &Self) -> (r: bool) {
        !self.spec.deep_eq(&other.spec)
    }
}

impl Meta for ReplicaSetResource {
    open spec fn md_of(v: ReplicaSetResourceView) -> MetadataView {
        v.metadata
    }

    open spec fn with_md(v: ReplicaSetResourceView, md: MetadataView) -> ReplicaSetResourceView {
        ReplicaSetResourceView { metadata: md, ..v }
    }

    open spec fn body_differs(a: ReplicaSetResourceView, b: ReplicaSetResourceView) -> bool {
        a.replicas != b.replicas
    }

    proof fn lemma_with_md(v: ReplicaSetResourceView, md: MetadataView) {
    }

    fn metadata(&self) -> (m: &Metadata) {
        &self.metadata
    }

    fn set_metadata(&mut self, md: Metadata) {
        self.metadata = md;
    }

    fn body_differs_from(&self, other: &Self) -> (r: bool) {
        self.replicas != other.replicas
    }
}

impl Meta for DeploymentResource {
    open spec fn md_of(v: DeploymentResourceView) -> MetadataView {
        v.metadata
    }

    open spec fn with_md(v: DeploymentResourceView, md: MetadataView) -> DeploymentResourceView {
        DeploymentResourceView { metadata: md, ..v }
    }

    open spec fn body_differs(a: DeploymentResourceView, b: DeploymentResourceView) -> bool {
        a.replicas != b.replicas
    }

    proof fn lemma_with_md(v: DeploymentResourceView, md: MetadataView) {
    }

    fn metadata(&self) -> (m: &Metadata) {
        &self.metadata
    }

    fn set_metadata(&mut self, md: Metadata) {
        self.metadata = md;
    }

    fn body_differs_from(&self, other: &Self) -> (r: bool) {
        self.replicas != other.replicas
    }
}

impl Meta for StatefulSetResource {
    open spec fn md_of(v: StatefulSetResourceView) -> MetadataView {
        v.metadata
    }

    open spec fn with_md(v: StatefulSetResourceView, md: MetadataView) -> StatefulSetResourceView {
        StatefulSetResourceView { metadata: md, ..v }
    }

    open spec fn body_differs(a: StatefulSetResourceView, b: StatefulSetResourceView) -> bool {
        a.replicas != b.replicas
    }

    proof fn lemma_with_md(v: StatefulSetResourceView, md: MetadataView) {
    }

    fn metadata(&self) -> (m: &Metadata) {
        &self.metadata
    }

    fn set_metadata(&mut self, md: Metadata) {
        self.metadata = md;
    }

    fn body_differs_from(&self, other: &Self) -> (r: bool) {
        self.replicas != other.replicas
    }
}

// ---------------------------------------------------------------------------
// Label maps and selectors
// ---------------------------------------------------------------------------

/// The value stored under a key in a key-value list; the first entry wins.
pub open spec fn spec_lookup(m: Seq<(Seq<char>, Seq<char>)>, k: Seq<char>) -> Option<Seq<char>>
    decreases m.len(),
{
    if m.len() == 0 {
        None
    } else if m[0].0 == k {
        Some(m[0].1)
    } else {
        spec_lookup(m.drop_first(), k)
    }
}

/// The key-value list contains exactly this pair.
pub open spec fn spec_has_kv(
    m: Seq<(Seq<char>, Seq<char>)>,
    k: Seq<char>,
    v: Seq<char>,
) -> bool {
    exists|i: int| 0 <= i < m.len() && m[i] == (k, v)
}

/// The key-value list with `k` bound to `v`: the first entry under `k` is
/// replaced, or the pair is appended when the key is absent.
pub open spec fn spec_upsert(
    m: Seq<(Seq<char>, Seq<char>)>,
    k: Seq<char>,
    v: Seq<char>,
) -> Seq<(Seq<char>, Seq<char>)>
    decreases m.len(),
{
    if m.len() == 0 {
        seq![(k, v)]
    } else if m[0].0 == k {
        seq![(k, v)] + m.drop_first()
    } else {
        seq![m[0]] + spec_upsert(m.drop_first(), k, v)
    }
}

proof fn lemma_lookup_skip(m: Seq<(Seq<char>, Seq<char>)>, k: Seq<char>, i: int)
    requires
        0 <= i <= m.len(),
        forall|j: int| 0 <= j < i ==> #[trigger] m[j].0 != k,
    ensures
        spec_lookup(m, k) == spec_lookup(m.skip(i), k),
    decreases i,
{
    if i > 0 {
        assert(m[0].0 != k);
        let m1 = m.drop_first();
        assert(forall|j: int| 0 <= j < i - 1 ==> #[trigger] m1[j].0 != k);
        lemma_lookup_skip(m1, k, i - 1);
        assert(m1.skip(i - 1) =~= m.skip(i));
    } else {
        assert(m.skip(0) =~= m);
    }
}

/// Look a key up in a key-value list; the first entry wins.
pub fn lookup(m: &Vec<(String, String)>, k: &str) -> (r: Option<String>)
    ensures
        r.deep_view() == spec_lookup(m.deep_view(), k@),
{
    let ghost mv = m.deep_view();
    let mut i: usize = 0;
    while i < m.len()
        invariant
            i <= m.len() == mv.len(),
            mv == m.deep_view(),
            forall|j: int| 0 <= j < i ==> #[trigger] mv[j].0 != k@,
        decreases m.len() - i,
    {
        proof {
            assert(mv[i as int] == (m@[i as int].0@, m@[i as int].1@));
        }
        if crate::utils::str_eq(m[i].0.as_str(), k) {
            proof {
                lemma_lookup_skip(mv, k@, i as int);
                assert(spec_lookup(mv.skip(i as int), k@) == Some(mv[i as int].1));
            }
            return Some(m[i].1.clone());
        }
        i = i + 1;
    }
    proof {
        lemma_lookup_skip(mv, k@, i as int);
    }
    None
}

/// Whether the key-value list contains exactly this pair.
pub fn has_kv(m: &Vec<(String, String)>, k: &str, v: &str) -> (r: bool)
    ensures
        r == spec_has_kv(m.deep_view(), k@, v@),
{
    let ghost mv = m.deep_view();
    let mut i: usize = 0;
    while i < m.len()
        invariant
            i <= m.len() == mv.len(),
            mv == m.deep_view(),
            forall|j: int| 0 <= j < i ==> #[trigger] mv[j] != (k@, v@),
        decreases m.len() - i,
    {
        proof {
            assert(mv[i as int] == (m@[i as int].0@, m@[i as int].1@));
        }
        if crate::utils::str_eq(m[i].0.as_str(), k) && crate::utils::str_eq(m[i].1.as_str(), v) {
            proof {
                assert(mv[i as int] == (k@, v@));
            }
            return true;
        }
        i = i + 1;
    }
    proof {
        assert forall|j: int| 0 <= j < mv.len() implies mv[j] != (k@, v@) by {}
    }
    false
}

/// Bind `k` to `v` in the key-value list: replace the first entry under `k`,
/// or append the pair when the key is absent.
pub fn upsert(m: &mut Vec<(String, String)>, k: String, v: String)
    ensures
        final(m).deep_view() == spec_upsert(old(m).deep_view(), k@, v@),
{
    let ghost mv = old(m).deep_view();
    let mut i: usize = 0;
    while i < m.len()
        invariant
            i <= m.len() == mv.len(),
            mv == m.deep_view(),
            mv == old(m).deep_view(),
            forall|j: int| 0 <= j < i ==> #[trigger] mv[j].0 != k@,
        decreases m.len() - i,
    {
        proof {
            assert(mv[i as int] == (m@[i as int].0@, m@[i as int].1@));
        }
        if crate::utils::str_eq(m[i].0.as_str(), k.as_str()) {
            let ghost pre = m@;
            let ghost kv = (k@, v@);
            m.set(i, (k, v));
            proof {
                lemma_upsert_at(mv, kv.0, kv.1, i as int);
                assert forall|j: int| 0 <= j < m.deep_view().len() implies m.deep_view()[j]
                    == mv.update(i as int, kv)[j] by {
                    assert(m.deep_view()[j] == m@[j].deep_view());
                    if j != i {
                        assert(m@[j] == pre[j]);
                        assert(mv[j] == pre[j].deep_view());
                    }
                }
                assert(m.deep_view() =~= mv.update(i as int, kv));
                assert(m.deep_view() =~= spec_upsert(mv, kv.0, kv.1));
            }
            return ;
        }
        i = i + 1;
    }
    let ghost pre = m@;
    let ghost kv = (k@, v@);
    m.push((k, v));
    proof {
        lemma_upsert_absent(mv, kv.0, kv.1);
        assert forall|j: int| 0 <= j < m.deep_view().len() implies m.deep_view()[j] == mv.push(
            kv,
        )[j] by {
            assert(m.deep_view()[j] == m@[j].deep_view());
            if j < mv.len() {
                assert(m@[j] == pre[j]);
                assert(mv[j] == pre[j].deep_view());
            }
        }
        assert(m.deep_view() =~= mv.push(kv));
        assert(m.deep_view() =~= spec_upsert(mv, kv.0, kv.1));
    }
}

/// Replacing the first entry under a key is a pointwise update.
proof fn lemma_upsert_at(m: Seq<(Seq<char>, Seq<char>)>, k: Seq<char>, v: Seq<char>, i: int)
    requires
        0 <= i < m.len(),
        m[i].0 == k,
        forall|j: int| 0 <= j < i ==> #[trigger] m[j].0 != k,
    ensures
        spec_upsert(m, k, v) =~= m.update(i, (k, v)),
    decreases i,
{
    if i == 0 {
    } else {
        let m1 = m.drop_first();
        assert(forall|j: int| 0 <= j < i - 1 ==> #[trigger] m1[j].0 != k);
        assert(m1[i - 1].0 == k);
        lemma_upsert_at(m1, k, v, i - 1);
        assert(spec_upsert(m, k, v) == seq![m[0]] + spec_upsert(m1, k, v));
        assert(seq![m[0]] + m1.update(i - 1, (k, v)) =~= m.update(i, (k, v)));
    }
}

/// Appending happens exactly when the key is absent.
proof fn lemma_upsert_absent(m: Seq<(Seq<char>, Seq<char>)>, k: Seq<char>, v: Seq<char>)
    requires
        forall|j: int| 0 <= j < m.len() ==> #[trigger] m[j].0 != k,
    ensures
        spec_upsert(m, k, v) =~= m.push((k, v)),
    decreases m.len(),
{
    if m.len() > 0 {
        let m1 = m.drop_first();
        lemma_upsert_absent(m1, k, v);
        assert(seq![m[0]] + m1.push((k, v)) =~= m.push((k, v)));
    }
}

/// Looking up the key just bound finds the new value.
pub proof fn lemma_upsert_lookup(m: Seq<(Seq<char>, Seq<char>)>, k: Seq<char>, v: Seq<char>)
    ensures
        spec_lookup(spec_upsert(m, k, v), k) == Some(v),
    decreases m.len(),
{
    if m.len() == 0 {
    } else if m[0].0 == k {
        let out = seq![(k, v)] + m.drop_first();
        assert(out[0] == (k, v));
    } else {
        lemma_upsert_lookup(m.drop_first(), k, v);
        let out = seq![m[0]] + spec_upsert(m.drop_first(), k, v);
        assert(out[0] == m[0]);
        assert(out.drop_first() =~= spec_upsert(m.drop_first(), k, v));
    }
}

/// A selector matches a label list when every required pair is present.
pub open spec fn spec_selector_matches(
    sel: LabelSelectorView,
    labels: Seq<(Seq<char>, Seq<char>)>,
) -> bool {
    forall|i: int|
        0 <= i < sel.match_labels.len() ==> spec_has_kv(
            labels,
            #[trigger] sel.match_labels[i].0,
            sel.match_labels[i].1,
        )
}

impl LabelSelector {
    /// Whether every pair required by the selector is present in `labels`.
    pub fn matches(&self, labels: &Vec<(String, String)>) -> (r: bool)
        ensures
            r == spec_selector_matches(self@, labels.deep_view()),
    {
        let ghost sv = self@;
        let mut i: usize = 0;
        while i < self.match_labels.len()
            invariant
                i <= self.match_labels.len() == sv.match_labels.len(),
                sv == self@,
                forall|j: int|
                    0 <= j < i ==> spec_has_kv(
                        labels.deep_view(),
                        #[trigger] sv.match_labels[j].0,
                        sv.match_labels[j].1,
                    ),
            decreases self.match_labels.len() - i,
        {
            proof {
                assert(sv.match_labels[i as int] == (
                    self.match_labels@[i as int].0@,
                    self.match_labels@[i as int].1@,
                ));
            }
            if !has_kv(labels, self.match_labels[i].0.as_str(), self.match_labels[i].1.as_str()) {
                proof {
                    assert(!spec_has_kv(
                        labels.deep_view(),
                        sv.match_labels[i as int].0,
                        sv.match_labels[i as int].1,
                    ));
                }
                return false;
            }
            i = i + 1;
        }
        true
    }
}


impl DeepClone for ReplicaSetResource {
    fn deep_clone(&self) -> (r: Self)
        ensures
            r.deep_view() == self.deep_view(),
    {
        self.clone()
    }

    fn deep_eq(&self, other: &Self) -> (r: bool)
        ensures
            r == (self.deep_view() == other.deep_view()),
    {
        let r = self.metadata.deep_eq(&other.metadata) && self.replicas == other.replicas;
        proof {
            if r {
                assert(self.deep_view() =~= other.deep_view());
            }
        }
        r
    }
}

impl DeepClone for DeploymentResource {
    fn deep_clone(&self) -> (r: Self)
        ensures
            r.deep_view() == self.deep_view(),
    {
        self.clone()
    }

    fn deep_eq(&self, other: &Self) -> (r: bool)
        ensures
            r == (self.deep_view() == other.deep_view()),
    {
        let r = self.metadata.deep_eq(&other.metadata) && self.replicas == other.replicas;
        proof {
            if r {
                assert(self.deep_view() =~= other.deep_view());
            }
        }
        r
    }
}

impl DeepClone for StatefulSetResource {
    fn deep_clone(&self) -> (r: Self)
        ensures
            r.deep_view() == self.deep_view(),
    {
        self.clone()
    }

    fn deep_eq(&self, other: &Self) -> (r: bool)
        ensures
            r == (self.deep_view() == other.deep_view()),
    {
        let r = self.metadata.deep_eq(&other.metadata) && self.replicas == other.replicas;
        proof {
            if r {
                assert(self.deep_view() =~= other.deep_view());
            }
        }
        r
    }
}


/// Metadata with every field empty.
pub open spec fn blank_metadata_view() -> MetadataView {
    MetadataView {
        name: Seq::empty(),
        uid: Seq::empty(),
        resource_version: Seq::empty(),
        generation: 0,
        labels: Seq::empty(),
        annotations: Seq::empty(),
        finalizers: Seq::empty(),
        owner_references: Seq::empty(),
        deletion_timestamp: None,
        creation_timestamp: None,
        generate_name: Seq::empty(),
    }
}

/// Metadata that carries a name and nothing else.
pub fn blank_metadata_named(name: String) -> (m: Metadata)
    ensures
        m@ == (MetadataView { name: name@, ..blank_metadata_view() }),
{
    let m = Metadata {
        name,
        uid: String::new(),
        resource_version: String::new(),
        generation: 0,
        labels: Vec::new(),
        annotations: Vec::new(),
        finalizers: Vec::new(),
        owner_references: Vec::new(),
        deletion_timestamp: None,
        creation_timestamp: None,
        generate_name: String::new(),
    };
    proof {
        assert(m@ =~= MetadataView { name: m.name@, ..blank_metadata_view() });
    }
    m
}

} // verus!
