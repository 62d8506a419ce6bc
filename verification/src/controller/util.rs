//! Shared pod predicates and constructors used by the reconcilers.

use vstd::prelude::*;

use crate::resources::{DeepClone, Metadata, MetadataView, OwnerReference, Pod, PodCondition,
    PodConditionType, PodPhase, PodTemplateSpec, PodView, ConditionStatus};

verus! {

/// A pod that has reached a terminal phase.
pub open spec fn spec_pod_terminal(p: PodView) -> bool {
    p.status.phase == PodPhase::Succeeded || p.status.phase == PodPhase::Failed
}

/// A pod that carries a deletion timestamp.
pub open spec fn spec_pod_terminating(p: PodView) -> bool {
    p.metadata.deletion_timestamp is Some
}

/// A pod that is neither terminal nor terminating.
pub open spec fn spec_pod_active(p: PodView) -> bool {
    !spec_pod_terminal(p) && !spec_pod_terminating(p)
}

/// A pod with a `Ready` condition whose status is true.
pub open spec fn spec_pod_ready(p: PodView) -> bool {
    exists|i: int|
        0 <= i < p.status.conditions.len() && (#[trigger] p.status.conditions[i]).cond_type
            == PodConditionType::Ready && p.status.conditions[i].status == ConditionStatus::True
}

/// Whether the pod has reached a terminal phase.
pub fn is_pod_terminal(p: &Pod) -> (r: bool)
    ensures
        r == spec_pod_terminal(p@),
{
    p.status.phase == PodPhase::Succeeded || p.status.phase == PodPhase::Failed
}

/// Whether the pod carries a deletion timestamp.
pub fn is_pod_terminating(p: &Pod) -> (r: bool)
    ensures
        r == spec_pod_terminating(p@),
{
    p.metadata.deletion_timestamp.is_some()
}

/// Whether the pod is neither terminal nor terminating.
pub fn is_pod_active(p: &Pod) -> (r: bool)
    ensures
        r == spec_pod_active(p@),
{
    !is_pod_terminal(p) && !is_pod_terminating(p)
}

/// Whether the pod has a true `Ready` condition.
pub fn is_pod_ready(p: &Pod) -> (r: bool)
    ensures
        r == spec_pod_ready(p@),
{
    let ghost cs = p.status@.conditions;
    let mut i: usize = 0;
    while i < p.status.conditions.len()
        invariant
            cs == p.status@.conditions,
            i <= p.status.conditions@.len() == cs.len(),
            forall|j: int|
                0 <= j < i ==> !((#[trigger] cs[j]).cond_type == PodConditionType::Ready && cs[j].status
                    == ConditionStatus::True),
        decreases p.status.conditions.len() - i,
    {
        proof {
            assert(cs[i as int] == p.status.conditions@[i as int].deep_view());
        }
        let c = &p.status.conditions[i];
        if c.cond_type == PodConditionType::Ready && c.status == ConditionStatus::True {
            proof {
                assert(cs[i as int].cond_type == PodConditionType::Ready);
            }
            return true;
        }
        i = i + 1;
    }
    false
}

/// The pods that are active, in order.
pub fn filter_active_pods(pods: &Vec<Pod>) -> (r: Vec<Pod>)
    ensures
        r.deep_view() == pods.deep_view().filter(|p: PodView| spec_pod_active(p)),
{
    let ghost pv = pods.deep_view();
    let ghost pred = |p: PodView| spec_pod_active(p);
    let mut r: Vec<Pod> = Vec::new();
    let mut i: usize = 0;
    while i < pods.len()
        invariant
            pv == pods.deep_view(),
            i <= pods@.len() == pv.len(),
            r.deep_view() == pv.take(i as int).filter(pred),
            pred == (|p: PodView| spec_pod_active(p)),
        decreases pods.len() - i,
    {
        proof {
            assert(pv[i as int] == pods@[i as int].deep_view());
            pv.lemma_take_succ_push(i as int);
            pv.take(i as int).lemma_filter_push(pv[i as int], pred);
        }
        let ghost before = r.deep_view();
        if is_pod_active(&pods[i]) {
            r.push(pods[i].deep_clone());
            proof {
                assert forall|j: int| 0 <= j < r.deep_view().len() implies r.deep_view()[j]
                    == before.push(pv[i as int])[j] by {
                    assert(r.deep_view()[j] == r@[j].deep_view());
                    if j < before.len() {
                        assert(before[j] == r@[j].deep_view());
                    }
                }
                assert(r.deep_view() =~= before.push(pv[i as int]));
            }
        }
        i = i + 1;
    }
    proof {
        assert(pv.take(pv.len() as int) =~= pv);
    }
    r
}

/// The pods that are terminating, in order.
pub fn filter_terminating_pods(pods: &Vec<Pod>) -> (r: Vec<Pod>)
    ensures
        r.deep_view() == pods.deep_view().filter(|p: PodView| spec_pod_terminating(p)),
{
    let ghost pv = pods.deep_view();
    let ghost pred = |p: PodView| spec_pod_terminating(p);
    let mut r: Vec<Pod> = Vec::new();
    let mut i: usize = 0;
    while i < pods.len()
        invariant
            pv == pods.deep_view(),
            i <= pods@.len() == pv.len(),
            r.deep_view() == pv.take(i as int).filter(pred),
            pred == (|p: PodView| spec_pod_terminating(p)),
        decreases pods.len() - i,
    {
        proof {
            assert(pv[i as int] == pods@[i as int].deep_view());
            pv.lemma_take_succ_push(i as int);
            pv.take(i as int).lemma_filter_push(pv[i as int], pred);
        }
        let ghost before = r.deep_view();
        if is_pod_terminating(&pods[i]) {
            r.push(pods[i].deep_clone());
            proof {
                assert forall|j: int| 0 <= j < r.deep_view().len() implies r.deep_view()[j]
                    == before.push(pv[i as int])[j] by {
                    assert(r.deep_view()[j] == r@[j].deep_view());
                    if j < before.len() {
                        assert(before[j] == r@[j].deep_view());
                    }
                }
                assert(r.deep_view() =~= before.push(pv[i as int]));
            }
        }
        i = i + 1;
    }
    proof {
        assert(pv.take(pv.len() as int) =~= pv);
    }
    r
}

/// An owner reference pointing at the resource with this metadata.
pub open spec fn spec_controller_ref(md: MetadataView) -> crate::resources::OwnerReferenceView {
    crate::resources::OwnerReferenceView { name: md.name, uid: md.uid }
}

/// Build an owner reference naming the controller that owns new pods.
pub fn new_controller_ref(md: &Metadata) -> (r: OwnerReference)
    ensures
        r@ == spec_controller_ref(md@),
{
    OwnerReference { name: md.name.clone(), uid: md.uid.clone() }
}

/// The pod a template stamps out under an owner: the template's metadata and
/// spec, owned by the given reference, with no name of its own yet.
pub open spec fn spec_pod_from_template(
    template: crate::resources::PodTemplateSpecView,
    owner: crate::resources::OwnerReferenceView,
) -> PodView {
    PodView {
        metadata: MetadataView {
            name: Seq::empty(),
            uid: Seq::empty(),
            resource_version: Seq::empty(),
            generation: 0,
            owner_references: seq![owner],
            deletion_timestamp: None,
            creation_timestamp: None,
            ..template.metadata
        },
        spec: template.spec,
        status: crate::resources::PodStatusView {
            phase: PodPhase::Pending,
            conditions: Seq::empty(),
            container_statuses: Seq::empty(),
            init_container_statuses: Seq::empty(),
        },
    }
}

/// Stamp a pod out of a template, owned by the given reference.
pub fn get_pod_from_template(template: &PodTemplateSpec, owner: OwnerReference) -> (r: Pod)
    ensures
        r@ == spec_pod_from_template(template@, owner@),
{
    let mut refs: Vec<OwnerReference> = Vec::new();
    let ghost ov = owner@;
    refs.push(owner);
    let r = Pod {
        metadata: Metadata {
            name: String::new(),
            uid: String::new(),
            resource_version: String::new(),
            generation: 0,
            labels: crate::resources::deep_clone_vec(&template.metadata.labels),
            annotations: crate::resources::deep_clone_vec(&template.metadata.annotations),
            finalizers: crate::resources::deep_clone_vec(&template.metadata.finalizers),
            owner_references: refs,
            deletion_timestamp: None,
            creation_timestamp: None,
            generate_name: template.metadata.generate_name.clone(),
        },
        spec: template.spec.clone(),
        status: crate::resources::PodStatus {
            phase: PodPhase::Pending,
            conditions: Vec::new(),
            container_statuses: Vec::new(),
            init_container_statuses: Vec::new(),
        },
    };
    proof {
        assert(r@.metadata.owner_references =~= seq![ov]);
        assert(r@ =~= spec_pod_from_template(template@, ov));
    }
    r
}

} // verus!
