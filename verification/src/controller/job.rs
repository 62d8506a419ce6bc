//! The job reconciler: parallelism, indexed completion, backoff, pod failure
//! policies, finalizer-based tracking and suspension.

use vstd::prelude::*;

use crate::abstract_model::{Operation, OperationView};
use crate::controller::util::{filter_active_pods, filter_terminating_pods, is_pod_active,
    is_pod_ready, is_pod_terminating, get_pod_from_template, new_controller_ref, spec_pod_active,
    spec_pod_ready, spec_pod_terminal, spec_pod_terminating, spec_controller_ref,
    spec_pod_from_template};
use crate::resources::{deep_clone_vec, deep_eq_vec, ConditionStatus, Container, ContainerStatus,
    DeepClone, EnvVar, EnvVarSource, Job, JobCompletionMode, JobCondition, JobConditionType,
    JobPodFailurePolicy, JobPodFailurePolicyRule, JobPodFailurePolicyRuleAction,
    JobPodFailurePolicyRuleOnExitCodesRequirement,
    JobPodFailurePolicyRuleOnExitCodesRequirementOperator,
    JobPodFailurePolicyRuleOnPodConditionsPattern, JobView, Metadata, MetadataView,
    ObjectFieldSelector, OwnerReference, Pod, PodCondition, PodConditionType, PodPhase,
    PodRestartPolicy, PodSpecView, PodTemplateSpec, PodTemplateSpecView, PodView, Time,
    UncountedTerminatedPods,
    JobConditionView, spec_lookup, spec_upsert, lookup, upsert};
use crate::state::{StateView, StateViewView};
use crate::utils::{all_digits, dec_str, is_digit, lemma_dec_str_wf, str_eq, str_val,
    u64_to_string};

verus! {

/// The finalizer the job controller puts on pods it creates, held until the
/// pod's terminal state has been counted into the job status.
pub const JOB_TRACKING_FINALIZER: &'static str = "batch.kubernetes.io/job-tracking";

/// The annotation carrying a pod's completion index in indexed mode.
pub const JOB_COMPLETION_INDEX_ANNOTATION: &'static str =
    "batch.kubernetes.io/job-completion-index";

/// The environment variable exposing the completion index inside the pod.
pub const JOB_COMPLETION_INDEX_ENV_NAME: &'static str = "JOB_COMPLETION_INDEX";

/// The per-reconcile cap on pod creations and deletions.
pub const MAX_POD_CREATE_DELETE_PER_SYNC: usize = 500;

/// The longest generate-name prefix of an indexed pod, suffix included.
pub const MAX_GENERATED_NAME_LENGTH: usize = 58;

pub open spec fn spec_tracking_finalizer() -> Seq<char> {
    "batch.kubernetes.io/job-tracking"@
}

pub open spec fn spec_index_annotation() -> Seq<char> {
    "batch.kubernetes.io/job-completion-index"@
}

pub open spec fn spec_index_env_name() -> Seq<char> {
    "JOB_COMPLETION_INDEX"@
}

/// The pod carries the job-tracking finalizer.
pub open spec fn spec_has_tracking_finalizer(p: PodView) -> bool {
    p.metadata.finalizers.contains(spec_tracking_finalizer())
}

/// Whether the pod carries the job-tracking finalizer.
pub fn has_job_tracking_finalizer(pod: &Pod) -> (r: bool)
    ensures
        r == spec_has_tracking_finalizer(pod@),
{
    proof {
        reveal_strlit("batch.kubernetes.io/job-tracking");
    }
    let ghost fs = pod@.metadata.finalizers;
    let mut i: usize = 0;
    while i < pod.metadata.finalizers.len()
        invariant
            fs == pod@.metadata.finalizers,
            i <= pod.metadata.finalizers@.len() == fs.len(),
            forall|j: int| 0 <= j < i ==> #[trigger] fs[j] != spec_tracking_finalizer(),
        decreases pod.metadata.finalizers.len() - i,
    {
        proof {
            assert(fs[i as int] == pod.metadata.finalizers@[i as int]@);
        }
        if str_eq(pod.metadata.finalizers[i].as_str(), JOB_TRACKING_FINALIZER) {
            proof {
                assert(fs[i as int] == spec_tracking_finalizer());
            }
            return true;
        }
        i = i + 1;
    }
    proof {
        if fs.contains(spec_tracking_finalizer()) {
            let w = choose|w: int| 0 <= w < fs.len() && fs[w] == spec_tracking_finalizer();
            assert(false);
        }
    }
    false
}

/// The completion index a pod's annotations carry, if the value is a decimal
/// number that fits the index range.
pub open spec fn spec_completion_index(annotations: Seq<(Seq<char>, Seq<char>)>) -> Option<u32> {
    match spec_lookup(annotations, spec_index_annotation()) {
        None => None,
        Some(s) => if s.len() > 0 && all_digits(s) && str_val(s) <= u32::MAX as nat {
            Some(str_val(s) as u32)
        } else {
            None
        },
    }
}

/// The completion index carried by these annotations, if any.
pub fn get_completion_index(annotations: &Vec<(String, String)>) -> (r: Option<u32>)
    ensures
        r == spec_completion_index(annotations.deep_view()),
{
    proof {
        reveal_strlit("batch.kubernetes.io/job-completion-index");
    }
    match lookup(annotations, JOB_COMPLETION_INDEX_ANNOTATION) {
        None => None,
        Some(s) => {
            match crate::utils::parse_u64(s.as_str()) {
                Some(v) => {
                    if v <= (u32::MAX as u64) {
                        Some(v as u32)
                    } else {
                        None
                    }
                },
                None => None,
            }
        },
    }
}

// ---------------------------------------------------------------------------
// Interval lists over completion indexes
// ---------------------------------------------------------------------------

/// A sorted, disjoint list of closed intervals; neighbours may touch.
pub open spec fn iv_wf(s: Seq<(u32, u32)>) -> bool {
    &&& forall|i: int| 0 <= i < s.len() ==> (#[trigger] s[i]).0 <= s[i].1
    &&& forall|i: int, j: int|
        0 <= i < j < s.len() ==> (#[trigger] s[i]).1 < (#[trigger] s[j]).0
}

/// A compressed interval list: sorted, disjoint, and with a gap of at least
/// one between neighbours, so the representation of a set is unique.
pub open spec fn iv_canonical(s: Seq<(u32, u32)>) -> bool {
    iv_wf(s) && forall|i: int|
        0 <= i < s.len() - 1 ==> (#[trigger] s[i]).1 + 1 < s[i + 1].0
}

/// The interval list covers the number.
pub open spec fn iv_covers(s: Seq<(u32, u32)>, x: int) -> bool {
    exists|i: int| 0 <= i < s.len() && (#[trigger] s[i]).0 <= x <= s[i].1
}

/// What a merge of two interval lists produces: a compressed list covering
/// exactly the union.
pub open spec fn merge_post(a: Seq<(u32, u32)>, b: Seq<(u32, u32)>, out: Seq<(u32, u32)>) -> bool {
    &&& iv_canonical(out)
    &&& forall|x: int| #[trigger] iv_covers(out, x) == (iv_covers(a, x) || iv_covers(b, x))
}

/// In a compressed list every later interval starts past the head's end
/// plus one.
proof fn lemma_iv_gap(s: Seq<(u32, u32)>, i: int)
    requires
        iv_canonical(s),
        1 <= i < s.len(),
    ensures
        s[0].1 + 1 < s[i].0,
    decreases i,
{
    if i == 1 {
        assert(s[0].1 + 1 < s[1].0);
    } else {
        lemma_iv_gap(s, i - 1);
        assert(s[i - 1].0 <= s[i - 1].1);
        assert(s[i - 1].1 + 1 < s[i].0);
    }
}

/// A covered number at most one past the head's end is covered by the head.
proof fn lemma_iv_cover_in_head(s: Seq<(u32, u32)>, x: int)
    requires
        iv_canonical(s),
        s.len() > 0,
        iv_covers(s, x),
        x <= s[0].1 + 1,
    ensures
        s[0].0 <= x <= s[0].1,
{
    let i = choose|i: int| 0 <= i < s.len() && (#[trigger] s[i]).0 <= x <= s[i].1;
    if i > 0 {
        lemma_iv_gap(s, i);
    }
}

/// Dropping the first interval of a compressed list uncovers exactly the
/// numbers up to its end.
proof fn lemma_iv_drop_first(s: Seq<(u32, u32)>, x: int)
    requires
        iv_canonical(s),
        s.len() > 0,
    ensures
        iv_covers(s.drop_first(), x) == (iv_covers(s, x) && x > s[0].1),
{
    let s1 = s.drop_first();
    if iv_covers(s1, x) {
        let i = choose|i: int| 0 <= i < s1.len() && (#[trigger] s1[i]).0 <= x <= s1[i].1;
        assert(s1[i] == s[i + 1]);
        lemma_iv_gap(s, i + 1);
        assert(s[i + 1].0 <= x <= s[i + 1].1);
    }
    if iv_covers(s, x) && x > s[0].1 {
        let i = choose|i: int| 0 <= i < s.len() && (#[trigger] s[i]).0 <= x <= s[i].1;
        assert(i > 0);
        assert(s1[i - 1] == s[i]);
        assert(s1[i - 1].0 <= x <= s1[i - 1].1);
    }
}

/// Two compressed lists covering the same set have the same head interval.
proof fn lemma_iv_heads_eq(s1: Seq<(u32, u32)>, s2: Seq<(u32, u32)>)
    requires
        iv_canonical(s1),
        iv_canonical(s2),
        forall|x: int| iv_covers(s1, x) == #[trigger] iv_covers(s2, x),
        s1.len() > 0,
        s2.len() > 0,
    ensures
        s1[0] == s2[0],
{
    let a = s1[0];
    let b = s2[0];
    assert(a.0 <= a.1 && b.0 <= b.1);
    assert(iv_covers(s1, a.0 as int)) by {
        assert(s1[0].0 <= a.0 as int <= s1[0].1);
    }
    assert(iv_covers(s2, b.0 as int)) by {
        assert(s2[0].0 <= b.0 as int <= s2[0].1);
    }
    // the heads start together: below either start nothing is covered
    assert(a.0 == b.0) by {
        if a.0 < b.0 {
            lemma_iv_cover_in_head(s2, a.0 as int);
        }
        if b.0 < a.0 {
            lemma_iv_cover_in_head(s1, b.0 as int);
        }
    }
    // the heads end together: the gap after the shorter head would have to
    // be covered inside the longer one
    assert(a.1 == b.1) by {
        if a.1 < b.1 {
            assert(iv_covers(s2, a.1 + 1)) by {
                assert(s2[0].0 <= a.1 + 1 <= s2[0].1);
            }
            lemma_iv_cover_in_head(s1, a.1 + 1);
        }
        if b.1 < a.1 {
            assert(iv_covers(s1, b.1 + 1)) by {
                assert(s1[0].0 <= b.1 + 1 <= s1[0].1);
            }
            lemma_iv_cover_in_head(s2, b.1 + 1);
        }
    }
}

/// Covering the same set extends from two compressed lists to their tails.
proof fn lemma_iv_tails_cover_alike(s1: Seq<(u32, u32)>, s2: Seq<(u32, u32)>)
    requires
        iv_canonical(s1),
        iv_canonical(s2),
        forall|x: int| iv_covers(s1, x) == #[trigger] iv_covers(s2, x),
        s1.len() > 0,
        s2.len() > 0,
        s1[0] == s2[0],
    ensures
        forall|x: int|
            iv_covers(s1.drop_first(), x) == #[trigger] iv_covers(s2.drop_first(), x),
{
    assert forall|x: int|
        iv_covers(s1.drop_first(), x) == #[trigger] iv_covers(s2.drop_first(), x) by {
        lemma_iv_drop_first(s1, x);
        lemma_iv_drop_first(s2, x);
    }
}

/// The tail of a compressed list is compressed.
proof fn lemma_iv_tail_canonical(s: Seq<(u32, u32)>)
    requires
        iv_canonical(s),
        s.len() > 0,
    ensures
        iv_canonical(s.drop_first()),
{
    let t = s.drop_first();
    assert(forall|i: int| 0 <= i < t.len() ==> #[trigger] t[i] == s[i + 1]);
}

/// Equal heads and equal tails glue to equal lists.
proof fn lemma_iv_glue(s1: Seq<(u32, u32)>, s2: Seq<(u32, u32)>)
    requires
        s1.len() > 0,
        s2.len() > 0,
        s1[0] == s2[0],
        s1.drop_first() == s2.drop_first(),
    ensures
        s1 =~= s2,
{
    assert(s1.drop_first().len() == s2.drop_first().len());
    assert(s1.drop_first().len() == s1.len() - 1);
    assert(s2.drop_first().len() == s2.len() - 1);
    assert(s1.len() == s2.len());
    assert forall|k: int| 0 <= k < s1.len() implies s1[k] == s2[k] by {
        if k > 0 {
            assert(s1[k] == s1.drop_first()[k - 1]);
            assert(s2[k] == s2.drop_first()[k - 1]);
        }
    }
}

/// A compressed interval list is determined by the set it covers.
#[verifier::rlimit(100)]
#[verifier::spinoff_prover]
pub proof fn lemma_iv_canonical_unique(s1: Seq<(u32, u32)>, s2: Seq<(u32, u32)>)
    requires
        iv_canonical(s1),
        iv_canonical(s2),
        forall|x: int| iv_covers(s1, x) == #[trigger] iv_covers(s2, x),
    ensures
        s1 =~= s2,
    decreases s1.len(),
{
    if s1.len() == 0 {
        if s2.len() > 0 {
            assert(iv_covers(s2, s2[0].0 as int)) by {
                assert(s2[0].0 <= s2[0].0 as int <= s2[0].1);
            }
            assert(!iv_covers(s1, s2[0].0 as int));
        }
    } else if s2.len() == 0 {
        assert(iv_covers(s1, s1[0].0 as int)) by {
            assert(s1[0].0 <= s1[0].0 as int <= s1[0].1);
        }
        assert(!iv_covers(s2, s1[0].0 as int));
    } else {
        lemma_iv_heads_eq(s1, s2);
        lemma_iv_tails_cover_alike(s1, s2);
        lemma_iv_tail_canonical(s1);
        lemma_iv_tail_canonical(s2);
        lemma_iv_canonical_unique(s1.drop_first(), s2.drop_first());
        assert(s1.drop_first() == s2.drop_first());
        lemma_iv_glue(s1, s2);
    }
}

/// Merge two sorted interval lists into one compressed list covering exactly
/// their union, extending the last output interval whenever the next one
/// starts at its end plus one or earlier.
#[verifier::rlimit(100)]
#[verifier::spinoff_prover]
pub fn merge(oi: &Vec<(u32, u32)>, new_intervals: &Vec<(u32, u32)>) -> (r: Vec<(u32, u32)>)
    requires
        iv_wf(oi@),
        iv_wf(new_intervals@),
    ensures
        merge_post(oi@, new_intervals@, r@),
{
    let ghost av = oi@;
    let ghost bv = new_intervals@;
    let mut out: Vec<(u32, u32)> = Vec::new();
    let mut i: usize = 0;
    let mut j: usize = 0;
    proof {
        assert(av.take(0) =~= Seq::<(u32, u32)>::empty());
        assert(bv.take(0) =~= Seq::<(u32, u32)>::empty());
    }
    while i < oi.len() || j < new_intervals.len()
        invariant
            av == oi@,
            bv == new_intervals@,
            iv_wf(av),
            iv_wf(bv),
            i <= av.len(),
            j <= bv.len(),
            iv_canonical(out@),
            forall|x: int|
                #[trigger] iv_covers(out@, x) == (iv_covers(av.take(i as int), x) || iv_covers(
                    bv.take(j as int),
                    x,
                )),
            out@.len() > 0 && i < av.len() ==> out@.last().0 <= av[i as int].0,
            out@.len() > 0 && j < bv.len() ==> out@.last().0 <= bv[j as int].0,
        decreases oi.len() + new_intervals.len() - i - j,
    {
        let take_a = if i < oi.len() && j < new_intervals.len() {
            oi[i].0 <= new_intervals[j].0
        } else {
            i < oi.len()
        };
        let next: (u32, u32) = if take_a {
            oi[i]
        } else {
            new_intervals[j]
        };
        proof {
            assert(next.0 <= next.1);
        }
        let ghost out0 = out@;
        let ghost ta0 = av.take(i as int);
        let ghost tb0 = bv.take(j as int);
        proof {
            if take_a {
                av.lemma_take_succ_push(i as int);
            } else {
                bv.lemma_take_succ_push(j as int);
            }
            // the next interval starts no earlier than anything emitted
            if out0.len() > 0 {
                assert(out0.last().0 <= next.0);
            }
        }
        if out.len() == 0 || (next.0 as u64) > (out[out.len() - 1].1 as u64) + 1 {
            out.push(next);
            proof {
                lemma_iv_push(out0, next);
                assert(out@ == out0.push(next));
            }
        } else {
            let last = out.len() - 1;
            let lo = out[last].0;
            let hi = out[last].1;
            let new_hi = if next.1 > hi {
                next.1
            } else {
                hi
            };
            out.set(last, (lo, new_hi));
            proof {
                lemma_iv_extend(out0, next, lo, hi, new_hi);
                assert(out@ == out0.update(last as int, (lo, new_hi)));
            }
        }
        proof {
            if take_a {
                assert forall|x: int| #[trigger] iv_covers(out@, x) == (iv_covers(
                    av.take(i as int + 1),
                    x,
                ) || iv_covers(bv.take(j as int), x)) by {
                    lemma_iv_covers_push(ta0, next, x);
                    assert(iv_covers(out@, x) == (iv_covers(out0, x) || (next.0 <= x <= next.1)));
                    assert(iv_covers(out0, x) == (iv_covers(ta0, x) || iv_covers(tb0, x)));
                    assert(av.take(i as int + 1) == ta0.push(next));
                }
            } else {
                assert forall|x: int| #[trigger] iv_covers(out@, x) == (iv_covers(
                    av.take(i as int),
                    x,
                ) || iv_covers(bv.take(j as int + 1), x)) by {
                    lemma_iv_covers_push(tb0, next, x);
                    assert(iv_covers(out@, x) == (iv_covers(out0, x) || (next.0 <= x <= next.1)));
                    assert(iv_covers(out0, x) == (iv_covers(ta0, x) || iv_covers(tb0, x)));
                    assert(bv.take(j as int + 1) == tb0.push(next));
                }
            }
        }
        if take_a {
            i = i + 1;
        } else {
            j = j + 1;
        }
    }
    proof {
        assert(av.take(av.len() as int) =~= av);
        assert(bv.take(bv.len() as int) =~= bv);
    }
    out
}

/// Pushing an interval past the end of a compressed list keeps it
/// compressed and covers the interval's range in addition.
proof fn lemma_iv_push(out: Seq<(u32, u32)>, next: (u32, u32))
    requires
        iv_canonical(out),
        next.0 <= next.1,
        out.len() > 0 ==> (out.last().1 as int) + 1 < next.0 as int,
        out.len() > 0 ==> out.last().0 <= next.0,
    ensures
        iv_canonical(out.push(next)),
        forall|x: int|
            #[trigger] iv_covers(out.push(next), x) == (iv_covers(out, x) || (next.0 <= x
                <= next.1)),
{
    let o2 = out.push(next);
    assert forall|i: int, j: int| 0 <= i < j < o2.len() implies (#[trigger] o2[i]).1 < (
    #[trigger] o2[j]).0 by {
        if j == o2.len() - 1 {
            assert(o2[j] == next);
            if i < out.len() - 1 {
                assert(out[i].1 < out[out.len() - 1].0);
                assert(out[out.len() - 1].0 <= out.last().1);
            }
        }
    }
    assert forall|i: int| 0 <= i < o2.len() - 1 implies (#[trigger] o2[i]).1 + 1 < o2[i + 1].0 by {
        if i == o2.len() - 2 && out.len() > 0 {
            assert(o2[i] == out.last());
        }
    }
    assert forall|x: int| #[trigger] iv_covers(o2, x) == (iv_covers(out, x) || (next.0 <= x
        <= next.1)) by {
        if iv_covers(o2, x) {
            let k = choose|k: int| 0 <= k < o2.len() && (#[trigger] o2[k]).0 <= x <= o2[k].1;
            if k < out.len() {
                assert(iv_covers(out, x));
            }
        }
        if iv_covers(out, x) {
            let k = choose|k: int| 0 <= k < out.len() && (#[trigger] out[k]).0 <= x <= out[k].1;
            assert(o2[k] == out[k]);
        }
        if next.0 <= x <= next.1 {
            assert(o2[o2.len() - 1] == next);
        }
    }
}

/// Extending the last interval of a compressed list with one that starts at
/// its end plus one or later-but-overlapping keeps it compressed and covers
/// the new range in addition.
proof fn lemma_iv_extend(out: Seq<(u32, u32)>, next: (u32, u32), lo: u32, hi: u32, new_hi: u32)
    requires
        iv_canonical(out),
        out.len() > 0,
        next.0 <= next.1,
        out.last() == (lo, hi),
        out.last().0 <= next.0,
        next.0 as int <= hi as int + 1,
        new_hi == if next.1 > hi {
            next.1
        } else {
            hi
        },
    ensures
        iv_canonical(out.update(out.len() - 1, (lo, new_hi))),
        forall|x: int|
            #[trigger] iv_covers(out.update(out.len() - 1, (lo, new_hi)), x) == (iv_covers(out, x)
                || (next.0 <= x <= next.1)),
        out.update(out.len() - 1, (lo, new_hi)).last().0 == lo,
{
    let last = out.len() - 1;
    let o2 = out.update(last, (lo, new_hi));
    assert(o2.len() == out.len());
    assert forall|i: int, j: int| 0 <= i < j < o2.len() implies (#[trigger] o2[i]).1 < (
    #[trigger] o2[j]).0 by {
        if j < last {
            assert(o2[i] == out[i] && o2[j] == out[j]);
        } else {
            assert(o2[j].0 == lo);
            if i < last {
                assert(o2[i] == out[i]);
                assert(out[i].1 < out[last].0);
            }
        }
    }
    assert forall|i: int| 0 <= i < o2.len() - 1 implies (#[trigger] o2[i]).1 + 1 < o2[i + 1].0 by {
        assert(o2[i] == out[i]);
        if i + 1 < last {
            assert(o2[i + 1] == out[i + 1]);
        } else {
            assert(o2[i + 1].0 == lo);
        }
    }
    assert forall|x: int| #[trigger] iv_covers(o2, x) == (iv_covers(out, x) || (next.0 <= x
        <= next.1)) by {
        if iv_covers(o2, x) {
            let k = choose|k: int| 0 <= k < o2.len() && (#[trigger] o2[k]).0 <= x <= o2[k].1;
            if k < last {
                assert(out[k] == o2[k]);
                assert(iv_covers(out, x));
            } else {
                if x <= hi as int {
                    assert(out[last].0 <= x <= out[last].1);
                    assert(iv_covers(out, x));
                } else {
                    assert(next.0 <= x <= next.1);
                }
            }
        }
        if iv_covers(out, x) {
            let k = choose|k: int| 0 <= k < out.len() && (#[trigger] out[k]).0 <= x <= out[k].1;
            if k < last {
                assert(o2[k] == out[k]);
            } else {
                assert(o2[last].0 <= x <= o2[last].1);
            }
        }
        if next.0 <= x <= next.1 {
            if x <= new_hi as int {
                assert(o2[last].0 <= x <= o2[last].1);
            } else {
                assert(x <= next.1 <= new_hi);
            }
        }
    }
}

proof fn lemma_iv_covers_push(s: Seq<(u32, u32)>, next: (u32, u32), x: int)
    ensures
        iv_covers(s.push(next), x) == (iv_covers(s, x) || (next.0 <= x <= next.1)),
{
    let s2 = s.push(next);
    if iv_covers(s2, x) {
        let k = choose|k: int| 0 <= k < s2.len() && (#[trigger] s2[k]).0 <= x <= s2[k].1;
        if k < s.len() {
            assert(iv_covers(s, x));
        }
    }
    if iv_covers(s, x) {
        let k = choose|k: int| 0 <= k < s.len() && (#[trigger] s[k]).0 <= x <= s[k].1;
        assert(s2[k] == s[k]);
    }
    if next.0 <= x <= next.1 {
        assert(s2[s2.len() - 1] == next);
    }
}

/// Merging is associative: merging `a` with `b` and then with `c` yields the
/// same compressed list as merging `a` with the merge of `b` and `c`. This
/// holds because a merge covers exactly the union of what its inputs cover,
/// and a compressed list is determined by what it covers.
pub proof fn lemma_merge_associative(
    a: Seq<(u32, u32)>,
    b: Seq<(u32, u32)>,
    c: Seq<(u32, u32)>,
    ab: Seq<(u32, u32)>,
    ab_c: Seq<(u32, u32)>,
    bc: Seq<(u32, u32)>,
    a_bc: Seq<(u32, u32)>,
)
    requires
        merge_post(a, b, ab),
        merge_post(ab, c, ab_c),
        merge_post(b, c, bc),
        merge_post(a, bc, a_bc),
    ensures
        ab_c =~= a_bc,
{
    assert forall|x: int| iv_covers(ab_c, x) == #[trigger] iv_covers(a_bc, x) by {
        assert(merge_post(ab, c, ab_c));
        assert(merge_post(a, bc, a_bc));
        assert(merge_post(a, b, ab));
        assert(merge_post(b, c, bc));
        assert(iv_covers(ab_c, x) == (iv_covers(ab, x) || iv_covers(c, x)));
        assert(iv_covers(a_bc, x) == (iv_covers(a, x) || iv_covers(bc, x)));
    }
    lemma_iv_canonical_unique(ab_c, a_bc);
}

/// Turn single indexes into intervals and merge them into the list.
pub fn with_ordered_indexes(oi: &Vec<(u32, u32)>, new_indexes: &Vec<u32>) -> (r: Vec<(u32, u32)>)
    requires
        iv_wf(oi@),
        forall|i: int, j: int|
            0 <= i < j < new_indexes@.len() ==> new_indexes@[i] < new_indexes@[j],
    ensures
        iv_canonical(r@),
        forall|x: int|
            #[trigger] iv_covers(r@, x) == (iv_covers(oi@, x) || crate::utils::uset_covers(
                new_indexes@,
                x,
            )),
{
    let ghost nv = new_indexes@;
    let mut singles: Vec<(u32, u32)> = Vec::new();
    let mut i: usize = 0;
    while i < new_indexes.len()
        invariant
            nv == new_indexes@,
            i <= nv.len(),
            singles@.len() == i,
            forall|j: int| 0 <= j < i ==> #[trigger] singles@[j] == (nv[j], nv[j]),
            forall|i0: int, j0: int| 0 <= i0 < j0 < nv.len() ==> nv[i0] < nv[j0],
        decreases new_indexes.len() - i,
    {
        singles.push((new_indexes[i], new_indexes[i]));
        i = i + 1;
    }
    proof {
        assert(iv_wf(singles@)) by {
            assert(forall|i0: int, j0: int|
                0 <= i0 < j0 < singles@.len() ==> (#[trigger] singles@[i0]).1 < (
                #[trigger] singles@[j0]).0);
        }
    }
    let r = merge(oi, &singles);
    proof {
        assert forall|x: int|
            #[trigger] iv_covers(r@, x) == (iv_covers(oi@, x) || crate::utils::uset_covers(
                nv,
                x,
            )) by {
            assert(merge_post(oi@, singles@, r@));
            assert(iv_covers(r@, x) == (iv_covers(oi@, x) || iv_covers(singles@, x)));
            if iv_covers(singles@, x) {
                let k = choose|k: int|
                    0 <= k < singles@.len() && (#[trigger] singles@[k]).0 <= x <= singles@[k].1;
                assert(nv[k] == x);
            }
            if crate::utils::uset_covers(nv, x) {
                let k = choose|k: int| 0 <= k < nv.len() && #[trigger] nv[k] == x;
                assert(singles@[k].0 <= x <= singles@[k].1);
            }
        }
    }
    r
}


// ---------------------------------------------------------------------------
// Counting and classification
// ---------------------------------------------------------------------------

/// How many of these pods are ready.
pub open spec fn spec_count_ready(pods: Seq<PodView>) -> nat {
    pods.filter(|p: PodView| spec_pod_ready(p)).len()
}

/// Count the ready pods.
pub fn count_ready_pods(pods: &Vec<Pod>) -> (r: usize)
    ensures
        r == spec_count_ready(pods.deep_view()),
{
    let ghost pv = pods.deep_view();
    let ghost pred = |p: PodView| spec_pod_ready(p);
    let mut c: usize = 0;
    let mut i: usize = 0;
    while i < pods.len()
        invariant
            pv == pods.deep_view(),
            i <= pods@.len() == pv.len(),
            c == pv.take(i as int).filter(pred).len(),
            c <= i,
            pred == (|p: PodView| spec_pod_ready(p)),
        decreases pods.len() - i,
    {
        proof {
            assert(pv[i as int] == pods@[i as int].deep_view());
            pv.lemma_take_succ_push(i as int);
            pv.take(i as int).lemma_filter_push(pv[i as int], pred);
            pv.take(i as int).lemma_filter_len(pred);
        }
        if is_pod_ready(&pods[i]) {
            c = c + 1;
        }
        i = i + 1;
    }
    proof {
        assert(pv.take(pv.len() as int) =~= pv);
    }
    c
}

/// How many of these pods are terminating.
pub open spec fn spec_count_terminating(pods: Seq<PodView>) -> nat {
    pods.filter(|p: PodView| spec_pod_terminating(p)).len()
}

/// Count the terminating pods.
pub fn count_terminating_pods(pods: &Vec<Pod>) -> (r: usize)
    ensures
        r == spec_count_terminating(pods.deep_view()),
{
    let ghost pv = pods.deep_view();
    let ghost pred = |p: PodView| spec_pod_terminating(p);
    let mut c: usize = 0;
    let mut i: usize = 0;
    while i < pods.len()
        invariant
            pv == pods.deep_view(),
            i <= pods@.len() == pv.len(),
            c == pv.take(i as int).filter(pred).len(),
            c <= i,
            pred == (|p: PodView| spec_pod_terminating(p)),
        decreases pods.len() - i,
    {
        proof {
            assert(pv[i as int] == pods@[i as int].deep_view());
            pv.lemma_take_succ_push(i as int);
            pv.take(i as int).lemma_filter_push(pv[i as int], pred);
            pv.take(i as int).lemma_filter_len(pred);
        }
        if is_pod_terminating(&pods[i]) {
            c = c + 1;
        }
        i = i + 1;
    }
    proof {
        assert(pv.take(pv.len() as int) =~= pv);
    }
    c
}

/// The job replaces only failed pods, which holds exactly when it carries a
/// pod failure policy.
pub open spec fn spec_only_replace_failed_pods(j: JobView) -> bool {
    j.spec.pod_failure_policy is Some
}

/// Whether the job replaces only failed pods.
pub fn only_replace_failed_pods(job: &Job) -> (r: bool)
    ensures
        r == spec_only_replace_failed_pods(job@),
{
    job.spec.pod_failure_policy.is_some()
}

/// A pod counts as failed for this job: with a failure policy only the
/// `Failed` phase counts; otherwise a deleted pod that did not succeed
/// counts too, standing in for orphans that never reach a terminal phase.
pub open spec fn spec_is_pod_failed(p: PodView, j: JobView) -> bool {
    if j.spec.pod_failure_policy is Some {
        p.status.phase == PodPhase::Failed
    } else if p.status.phase == PodPhase::Failed {
        true
    } else {
        p.metadata.deletion_timestamp is Some && p.status.phase != PodPhase::Succeeded
    }
}

/// Whether the pod counts as failed for this job.
pub fn is_pod_failed(pod: &Pod, job: &Job) -> (r: bool)
    ensures
        r == spec_is_pod_failed(pod@, job@),
{
    if job.spec.pod_failure_policy.is_some() {
        pod.status.phase == PodPhase::Failed
    } else if pod.status.phase == PodPhase::Failed {
        true
    } else {
        pod.metadata.deletion_timestamp.is_some() && pod.status.phase != PodPhase::Succeeded
    }
}

/// The uid list contains this uid.
pub open spec fn spec_has_uid(uids: Seq<Seq<char>>, uid: Seq<char>) -> bool {
    uids.contains(uid)
}

/// Whether the uid list contains this uid.
pub fn uids_contain(uids: &Vec<String>, uid: &str) -> (r: bool)
    ensures
        r == spec_has_uid(uids.deep_view(), uid@),
{
    let ghost uv = uids.deep_view();
    let mut i: usize = 0;
    while i < uids.len()
        invariant
            uv == uids.deep_view(),
            i <= uids@.len() == uv.len(),
            forall|j: int| 0 <= j < i ==> #[trigger] uv[j] != uid@,
        decreases uids.len() - i,
    {
        proof {
            assert(uv[i as int] == uids@[i as int]@);
        }
        if str_eq(uids[i].as_str(), uid) {
            proof {
                assert(uv[i as int] == uid@);
            }
            return true;
        }
        i = i + 1;
    }
    proof {
        if uv.contains(uid@) {
            let w = choose|w: int| 0 <= w < uv.len() && uv[w] == uid@;
            assert(false);
        }
    }
    false
}

/// A finished pod is newly finished when it still carries the tracking
/// finalizer, is not recorded in the uncounted set, and (for an indexed job)
/// carries a completion index within range.
pub open spec fn spec_valid_finished(j: JobView, uncounted_uids: Seq<Seq<char>>, p: PodView)
    -> bool {
    &&& spec_has_tracking_finalizer(p)
    &&& !spec_has_uid(uncounted_uids, p.metadata.uid)
    &&& (j.spec.completion_mode == JobCompletionMode::Indexed ==> match spec_completion_index(
        p.metadata.annotations,
    ) {
        Some(ix) => (ix as nat) < spec_completions_or_zero(j),
        None => false,
    })
}

/// The job's completion target, zero when unset.
pub open spec fn spec_completions_or_zero(j: JobView) -> nat {
    match j.spec.completions {
        Some(c) => c as nat,
        None => 0,
    }
}

/// The newly succeeded pods: succeeded, valid, and not yet counted.
pub open spec fn spec_new_succeeded(j: JobView, pods: Seq<PodView>) -> Seq<PodView> {
    pods.filter(
        |p: PodView|
            spec_valid_finished(j, j.status.uncounted_terminated_pods.succeeded, p)
                && p.status.phase == PodPhase::Succeeded,
    )
}

/// The newly failed pods: failed for this job, valid, and not yet counted.
pub open spec fn spec_new_failed(j: JobView, pods: Seq<PodView>) -> Seq<PodView> {
    pods.filter(
        |p: PodView|
            spec_valid_finished(j, j.status.uncounted_terminated_pods.failed, p)
                && spec_is_pod_failed(p, j),
    )
}

/// The finished pods not yet accounted in the job status, split into the
/// newly succeeded and the newly failed ones.
pub fn get_new_finished_pods(job: &Job, pods: &Vec<Pod>) -> (r: (Vec<Pod>, Vec<Pod>))
    ensures
        r.0.deep_view() == spec_new_succeeded(job@, pods.deep_view()),
        r.1.deep_view() == spec_new_failed(job@, pods.deep_view()),
{
    let succeeded = get_valid_pods_with_filter(job, pods, false);
    let failed = get_valid_pods_with_filter(job, pods, true);
    (succeeded, failed)
}

/// The pods passing the validity screen and the chosen finished test: the
/// failed test when `failed` is set, the succeeded test otherwise.
pub fn get_valid_pods_with_filter(job: &Job, pods: &Vec<Pod>, failed: bool) -> (r: Vec<Pod>)
    ensures
        !failed ==> r.deep_view() == spec_new_succeeded(job@, pods.deep_view()),
        failed ==> r.deep_view() == spec_new_failed(job@, pods.deep_view()),
{
    let ghost pv = pods.deep_view();
    let ghost jv = job@;
    let ghost pred = if failed {
        |p: PodView|
            spec_valid_finished(jv, jv.status.uncounted_terminated_pods.failed, p)
                && spec_is_pod_failed(p, jv)
    } else {
        |p: PodView|
            spec_valid_finished(jv, jv.status.uncounted_terminated_pods.succeeded, p)
                && p.status.phase == PodPhase::Succeeded
    };
    let uncounted: &Vec<String> = if failed {
        &job.status.uncounted_terminated_pods.failed
    } else {
        &job.status.uncounted_terminated_pods.succeeded
    };
    let indexed = job.spec.completion_mode == JobCompletionMode::Indexed;
    let completions = match job.spec.completions {
        Some(c) => c,
        None => 0,
    };
    let mut r: Vec<Pod> = Vec::new();
    let mut i: usize = 0;
    while i < pods.len()
        invariant
            pv == pods.deep_view(),
            jv == job@,
            i <= pods@.len() == pv.len(),
            r.deep_view() == pv.take(i as int).filter(pred),
            indexed == (jv.spec.completion_mode == JobCompletionMode::Indexed),
            completions as nat == spec_completions_or_zero(jv),
            uncounted.deep_view() == if failed {
                jv.status.uncounted_terminated_pods.failed
            } else {
                jv.status.uncounted_terminated_pods.succeeded
            },
            pred == if failed {
                |p: PodView|
                    spec_valid_finished(jv, jv.status.uncounted_terminated_pods.failed, p)
                        && spec_is_pod_failed(p, jv)
            } else {
                |p: PodView|
                    spec_valid_finished(jv, jv.status.uncounted_terminated_pods.succeeded, p)
                        && p.status.phase == PodPhase::Succeeded
            },
        decreases pods.len() - i,
    {
        proof {
            assert(pv[i as int] == pods@[i as int].deep_view());
            pv.lemma_take_succ_push(i as int);
            pv.take(i as int).lemma_filter_push(pv[i as int], pred);
        }
        let p = &pods[i];
        let mut keep = has_job_tracking_finalizer(p) && !uids_contain(
            uncounted,
            p.metadata.uid.as_str(),
        );
        if keep && indexed {
            keep = match get_completion_index(&p.metadata.annotations) {
                Some(ix) => ix < completions,
                None => false,
            };
        }
        if keep {
            keep = if failed {
                is_pod_failed(p, job)
            } else {
                p.status.phase == PodPhase::Succeeded
            };
        }
        let ghost before = r.deep_view();
        if keep {
            r.push(pods[i].deep_clone());
            proof {
                assert forall|j: int| 0 <= j < r.deep_view().len() implies r.deep_view()[j]
                    == before.push(pv[i as int])[j] by {
                    assert(r.deep_view()[j] == r@[j].deep_view());
                    if j < before.len() {
                        assert(before[j] == r@[j].deep_view());
                    }
                }
                assert(r.deep_view() =~= before.push(pv[i as int]));
            }
        }
        i = i + 1;
    }
    proof {
        assert(pv.take(pv.len() as int) =~= pv);
    }
    r
}

// ---------------------------------------------------------------------------
// Pod failure policy
// ---------------------------------------------------------------------------

/// A failed container's exit code satisfies the requirement's operator.
pub open spec fn spec_operator_matches(
    exit_code: u32,
    req: crate::resources::JobPodFailurePolicyRuleOnExitCodesRequirementView,
) -> bool {
    match req.operator {
        JobPodFailurePolicyRuleOnExitCodesRequirementOperator::In => req.values.contains(
            exit_code,
        ),
        JobPodFailurePolicyRuleOnExitCodesRequirementOperator::NotIn => !req.values.contains(
            exit_code,
        ),
    }
}

/// Whether the exit code satisfies the requirement's operator.
pub fn is_on_exit_codes_operator_matching(
    exit_code: u32,
    requirement: &JobPodFailurePolicyRuleOnExitCodesRequirement,
) -> (r: bool)
    ensures
        r == spec_operator_matches(exit_code, requirement@),
{
    let ghost vs = requirement@.values;
    let mut found = false;
    let mut i: usize = 0;
    while i < requirement.values.len()
        invariant
            vs == requirement@.values,
            i <= requirement.values@.len() == vs.len(),
            found <==> exists|j: int| 0 <= j < i && #[trigger] vs[j] == exit_code,
        decreases requirement.values.len() - i,
    {
        proof {
            assert(vs[i as int] == requirement.values@[i as int]);
        }
        if requirement.values[i] == exit_code {
            found = true;
            proof {
                assert(vs[i as int] == exit_code);
            }
        }
        i = i + 1;
    }
    proof {
        if vs.contains(exit_code) {
            let w = choose|w: int| 0 <= w < vs.len() && vs[w] == exit_code;
            assert(found);
        }
        if found {
            let w = choose|w: int| 0 <= w < i && #[trigger] vs[w] == exit_code;
            assert(vs.contains(exit_code));
        }
    }
    match requirement.operator {
        JobPodFailurePolicyRuleOnExitCodesRequirementOperator::In => found,
        JobPodFailurePolicyRuleOnExitCodesRequirementOperator::NotIn => !found,
    }
}

/// A container status matches the exit-code requirement: terminated, with a
/// non-zero exit code satisfying the operator, under the right name if one
/// is required.
pub open spec fn spec_container_matches(
    cs: crate::resources::ContainerStatusView,
    req: crate::resources::JobPodFailurePolicyRuleOnExitCodesRequirementView,
) -> bool {
    match cs.state.terminated {
        None => false,
        Some(t) => (match req.container_name {
            None => true,
            Some(n) => n == cs.name,
        }) && t.exit_code != 0 && spec_operator_matches(t.exit_code, req),
    }
}

/// The first container status matching the requirement.
pub open spec fn spec_first_matching_container(
    css: Seq<crate::resources::ContainerStatusView>,
    req: crate::resources::JobPodFailurePolicyRuleOnExitCodesRequirementView,
) -> Option<crate::resources::ContainerStatusView>
    decreases css.len(),
{
    if css.len() == 0 {
        None
    } else if spec_container_matches(css[0], req) {
        Some(css[0])
    } else {
        spec_first_matching_container(css.drop_first(), req)
    }
}

/// The first container status in the list matching the requirement.
pub fn get_matching_container_from_list(
    css: &Vec<ContainerStatus>,
    requirement: &JobPodFailurePolicyRuleOnExitCodesRequirement,
) -> (r: Option<ContainerStatus>)
    ensures
        r.deep_view() == spec_first_matching_container(css.deep_view(), requirement@),
{
    let ghost cv = css.deep_view();
    proof {
        assert(cv.skip(0) =~= cv);
    }
    let mut i: usize = 0;
    while i < css.len()
        invariant
            cv == css.deep_view(),
            i <= css@.len() == cv.len(),
            spec_first_matching_container(cv, requirement@) == spec_first_matching_container(
                cv.skip(i as int),
                requirement@,
            ),
        decreases css.len() - i,
    {
        proof {
            assert(cv[i as int] == css@[i as int].deep_view());
            assert(cv.skip(i as int)[0] == cv[i as int]);
            assert(cv.skip(i as int).drop_first() =~= cv.skip(i + 1));
        }
        let cs = &css[i];
        let matched = match cs.state.terminated {
            None => false,
            Some(t) => {
                let name_ok = match &requirement.container_name {
                    None => true,
                    Some(n) => str_eq(n.as_str(), cs.name.as_str()),
                };
                name_ok && t.exit_code != 0 && is_on_exit_codes_operator_matching(
                    t.exit_code,
                    requirement,
                )
            },
        };
        if matched {
            proof {
                assert(spec_container_matches(cv[i as int], requirement@));
            }
            return Some(css[i].deep_clone());
        }
        proof {
            assert(!spec_container_matches(cv[i as int], requirement@));
        }
        i = i + 1;
    }
    proof {
        assert(cv.skip(cv.len() as int) =~= Seq::<crate::resources::ContainerStatusView>::empty());
    }
    None
}

/// The first matching container among the pod's main containers, then its
/// init containers.
pub open spec fn spec_match_on_exit_codes(
    status: crate::resources::PodStatusView,
    req: crate::resources::JobPodFailurePolicyRuleOnExitCodesRequirementView,
) -> Option<crate::resources::ContainerStatusView> {
    match spec_first_matching_container(status.container_statuses, req) {
        Some(cs) => Some(cs),
        None => spec_first_matching_container(status.init_container_statuses, req),
    }
}

/// The first container of the pod matching the exit-code requirement.
pub fn match_on_exit_codes(
    pod_status: &crate::resources::PodStatus,
    requirement: &JobPodFailurePolicyRuleOnExitCodesRequirement,
) -> (r: Option<ContainerStatus>)
    ensures
        r.deep_view() == spec_match_on_exit_codes(pod_status@, requirement@),
{
    match get_matching_container_from_list(&pod_status.container_statuses, requirement) {
        Some(cs) => Some(cs),
        None => get_matching_container_from_list(&pod_status.init_container_statuses, requirement),
    }
}

/// A pod condition matches one of the patterns.
pub open spec fn spec_condition_matches(
    pc: PodCondition,
    patterns: Seq<JobPodFailurePolicyRuleOnPodConditionsPattern>,
) -> bool {
    exists|i: int|
        0 <= i < patterns.len() && (#[trigger] patterns[i]).cond_type == pc.cond_type
            && patterns[i].status == pc.status
}

/// The first pod condition matching any of the patterns.
pub open spec fn spec_match_on_pod_conditions(
    conds: Seq<PodCondition>,
    patterns: Seq<JobPodFailurePolicyRuleOnPodConditionsPattern>,
) -> Option<PodCondition>
    decreases conds.len(),
{
    if conds.len() == 0 {
        None
    } else if spec_condition_matches(conds[0], patterns) {
        Some(conds[0])
    } else {
        spec_match_on_pod_conditions(conds.drop_first(), patterns)
    }
}

/// The first pod condition matching any of the patterns.
pub fn match_on_pod_conditions(
    pod_status: &crate::resources::PodStatus,
    requirement: &Vec<JobPodFailurePolicyRuleOnPodConditionsPattern>,
) -> (r: Option<PodCondition>)
    ensures
        r == spec_match_on_pod_conditions(pod_status@.conditions, requirement@),
{
    let ghost cv = pod_status@.conditions;
    let ghost ps = requirement@;
    proof {
        assert(cv.skip(0) =~= cv);
    }
    let mut i: usize = 0;
    while i < pod_status.conditions.len()
        invariant
            cv == pod_status@.conditions,
            ps == requirement@,
            i <= pod_status.conditions@.len() == cv.len(),
            spec_match_on_pod_conditions(cv, ps) == spec_match_on_pod_conditions(
                cv.skip(i as int),
                ps,
            ),
        decreases pod_status.conditions.len() - i,
    {
        proof {
            assert(cv[i as int] == pod_status.conditions@[i as int].deep_view());
            assert(cv.skip(i as int)[0] == cv[i as int]);
            assert(cv.skip(i as int).drop_first() =~= cv.skip(i + 1));
        }
        let pc = pod_status.conditions[i];
        let mut matched = false;
        let mut k: usize = 0;
        while k < requirement.len()
            invariant
                ps == requirement@,
                k <= requirement@.len() == ps.len(),
                matched <==> exists|j: int|
                    0 <= j < k && (#[trigger] ps[j]).cond_type == pc.cond_type && ps[j].status
                        == pc.status,
            decreases requirement.len() - k,
        {
            proof {
                assert(ps[k as int] == requirement@[k as int]);
            }
            if requirement[k].cond_type == pc.cond_type && requirement[k].status == pc.status {
                matched = true;
                proof {
                    assert((ps[k as int]).cond_type == pc.cond_type && ps[k as int].status
                        == pc.status);
                }
            }
            k = k + 1;
        }
        proof {
            assert(matched == spec_condition_matches(pc, ps)) by {
                if spec_condition_matches(pc, ps) {
                    let w = choose|w: int|
                        0 <= w < ps.len() && (#[trigger] ps[w]).cond_type == pc.cond_type
                            && ps[w].status == pc.status;
                    assert(matched);
                }
            }
            assert(pc == cv[i as int]);
        }
        if matched {
            return Some(pc);
        }
        i = i + 1;
    }
    proof {
        assert(cv.skip(cv.len() as int) =~= Seq::<PodCondition>::empty());
    }
    None
}

/// The job controller; it carries no configuration.
#[derive(Debug, Clone, Copy, PartialEq, Eq, Hash, Structural, Default)]
pub struct JobController;

/// The job controller's local state; the reconciler is pure and needs none.
#[derive(Debug, Default, Hash, Clone, Copy, PartialEq, Eq, Structural)]
pub struct JobControllerState;

/// What the job controller asks the store to do.
#[derive(Debug, Hash, Clone, PartialEq, Eq)]
pub enum JobControllerAction {
    ControllerJoin(usize),
    UpdateJobStatus(Job),
    CreatePod(Pod),
    UpdatePod(Pod),
    DeletePod(Pod),
}

#[verifier::ext_equal]
pub enum JobControllerActionView {
    ControllerJoin(usize),
    UpdateJobStatus(JobView),
    CreatePod(PodView),
    UpdatePod(PodView),
    DeletePod(PodView),
}

impl View for JobControllerAction {
    type V = JobControllerActionView;

    open spec fn view(&self) -> JobControllerActionView {
        match self {
            JobControllerAction::ControllerJoin(id) => JobControllerActionView::ControllerJoin(
                *id,
            ),
            JobControllerAction::UpdateJobStatus(j) => JobControllerActionView::UpdateJobStatus(
                j@,
            ),
            JobControllerAction::CreatePod(p) => JobControllerActionView::CreatePod(p@),
            JobControllerAction::UpdatePod(p) => JobControllerActionView::UpdatePod(p@),
            JobControllerAction::DeletePod(p) => JobControllerActionView::DeletePod(p@),
        }
    }
}

impl DeepView for JobControllerAction {
    type V = JobControllerActionView;

    open spec fn deep_view(&self) -> JobControllerActionView {
        self.view()
    }
}

/// A job controller action lifted to a store operation.
pub open spec fn spec_action_to_operation(a: JobControllerActionView) -> OperationView {
    match a {
        JobControllerActionView::ControllerJoin(id) => OperationView::ControllerJoin(id),
        JobControllerActionView::UpdateJobStatus(j) => OperationView::UpdateJobStatus(j),
        JobControllerActionView::CreatePod(p) => OperationView::CreatePod(p),
        JobControllerActionView::UpdatePod(p) => OperationView::UpdatePod(p),
        JobControllerActionView::DeletePod(p) => OperationView::DeletePod(p),
    }
}

impl JobControllerAction {
    /// Lift the action to a store operation.
    pub fn into_operation(self) -> (r: Operation)
        ensures
            r@ == spec_action_to_operation(self@),
    {
        match self {
            JobControllerAction::ControllerJoin(id) => Operation::ControllerJoin(id),
            JobControllerAction::UpdateJobStatus(j) => Operation::UpdateJobStatus(j),
            JobControllerAction::CreatePod(p) => Operation::CreatePod(p),
            JobControllerAction::UpdatePod(p) => Operation::UpdatePod(p),
            JobControllerAction::DeletePod(p) => Operation::DeletePod(p),
        }
    }
}

// ---------------------------------------------------------------------------
// Failure policy decisions and messages
// ---------------------------------------------------------------------------

/// The deterministic message recorded when a rule with the `FailJob` action
/// matches a failed container.
pub open spec fn spec_exit_code_message(
    container: Seq<char>,
    pod: Seq<char>,
    exit_code: u32,
    idx: nat,
) -> Seq<char> {
    "Container "@ + container + " for pod "@ + pod + " failed with exit code "@ + dec_str(
        exit_code as nat,
    ) + " matching FailJob rule at index "@ + dec_str(idx)
}

/// The deterministic message recorded when a rule with the `FailJob` action
/// matches a pod condition.
pub open spec fn spec_condition_message(pod: Seq<char>, idx: nat) -> Seq<char> {
    "Pod "@ + pod + " has condition matching FailJob rule at index "@ + dec_str(idx)
}

/// What matching a failed pod against the policy rules yields, scanning the
/// rules from `idx` on: an optional job failure message (for a `FailJob`
/// rule), whether the failure counts against the backoff limit (not for an
/// `Ignore` rule), and the action of the matched rule.
pub open spec fn spec_match_pfp(
    rules: Seq<crate::resources::JobPodFailurePolicyRuleView>,
    p: PodView,
    idx: nat,
) -> (Option<Seq<char>>, bool, Option<JobPodFailurePolicyRuleAction>)
    decreases rules.len(),
{
    if rules.len() == 0 {
        (None, true, None)
    } else {
        let rule = rules[0];
        let rest = spec_match_pfp(rules.drop_first(), p, idx + 1);
        match rule.on_exit_codes {
            Some(req) => match spec_match_on_exit_codes(p.status, req) {
                Some(cs) => match rule.action {
                    JobPodFailurePolicyRuleAction::Ignore => (
                        None,
                        false,
                        Some(JobPodFailurePolicyRuleAction::Ignore),
                    ),
                    JobPodFailurePolicyRuleAction::FailIndex => rest,
                    JobPodFailurePolicyRuleAction::Count => (
                        None,
                        true,
                        Some(JobPodFailurePolicyRuleAction::Count),
                    ),
                    JobPodFailurePolicyRuleAction::FailJob => (
                        Some(
                            spec_exit_code_message(
                                cs.name,
                                p.metadata.name,
                                match cs.state.terminated {
                                    Some(t) => t.exit_code,
                                    None => 0,
                                },
                                idx,
                            ),
                        ),
                        true,
                        Some(JobPodFailurePolicyRuleAction::FailJob),
                    ),
                },
                None => rest,
            },
            None => match rule.on_pod_conditions {
                Some(patterns) => match spec_match_on_pod_conditions(p.status.conditions, patterns) {
                    Some(_) => match rule.action {
                        JobPodFailurePolicyRuleAction::Ignore => (
                            None,
                            false,
                            Some(JobPodFailurePolicyRuleAction::Ignore),
                        ),
                        JobPodFailurePolicyRuleAction::FailIndex => rest,
                        JobPodFailurePolicyRuleAction::Count => (
                            None,
                            true,
                            Some(JobPodFailurePolicyRuleAction::Count),
                        ),
                        JobPodFailurePolicyRuleAction::FailJob => (
                            Some(spec_condition_message(p.metadata.name, idx)),
                            true,
                            Some(JobPodFailurePolicyRuleAction::FailJob),
                        ),
                    },
                    None => rest,
                },
                None => rest,
            },
        }
    }
}

/// Match a failed pod against the policy rules; the first matching rule
/// decides the message, whether the failure counts, and the action.
pub fn match_pod_failure_policy(pfp: &JobPodFailurePolicy, pod: &Pod) -> (r: (
    Option<String>,
    bool,
    Option<JobPodFailurePolicyRuleAction>,
))
    ensures
        (r.0.deep_view(), r.1, r.2) == spec_match_pfp(pfp@.rules, pod@, 0),
{
    proof {
        reveal_strlit("Container ");
        reveal_strlit(" for pod ");
        reveal_strlit(" failed with exit code ");
        reveal_strlit(" matching FailJob rule at index ");
        reveal_strlit("Pod ");
        reveal_strlit(" has condition matching FailJob rule at index ");
    }
    let ghost rv = pfp@.rules;
    let ghost pv = pod@;
    let mut i: usize = 0;
    proof {
        assert(rv.skip(0) =~= rv);
    }
    while i < pfp.rules.len()
        invariant
            rv == pfp@.rules,
            pv == pod@,
            i <= pfp.rules@.len() == rv.len(),
            spec_match_pfp(rv, pv, 0) == spec_match_pfp(rv.skip(i as int), pv, i as nat),
        decreases pfp.rules.len() - i,
    {
        proof {
            assert(rv[i as int] == pfp.rules@[i as int].deep_view());
            assert(rv.skip(i as int)[0] == rv[i as int]);
            assert(rv.skip(i as int).drop_first() =~= rv.skip(i + 1));
        }
        let rule = &pfp.rules[i];
        let ghost step = spec_match_pfp(rv.skip(i as int), pv, i as nat);
        match &rule.on_exit_codes {
            Some(req) => {
                proof {
                    assert(rv[i as int].on_exit_codes == Some(req@));
                }
                let m = match_on_exit_codes(&pod.status, req);
                match m {
                    Some(cs) => {
                        proof {
                            assert(m.deep_view() == Some(cs.deep_view()));
                            assert(spec_match_on_exit_codes(pv.status, req@) == Some(
                                cs.deep_view(),
                            ));
                        }
                        match rule.action {
                            JobPodFailurePolicyRuleAction::Ignore => {
                                return (None, false, Some(JobPodFailurePolicyRuleAction::Ignore));
                            },
                            JobPodFailurePolicyRuleAction::FailIndex => {},
                            JobPodFailurePolicyRuleAction::Count => {
                                return (None, true, Some(JobPodFailurePolicyRuleAction::Count));
                            },
                            JobPodFailurePolicyRuleAction::FailJob => {
                                let exit_code = match cs.state.terminated {
                                    Some(t) => t.exit_code,
                                    None => 0,
                                };
                                let mut msg = String::new();
                                msg.append("Container ");
                                msg.append(cs.name.as_str());
                                msg.append(" for pod ");
                                msg.append(pod.metadata.name.as_str());
                                msg.append(" failed with exit code ");
                                let code_str = u64_to_string(exit_code as u64);
                                msg.append(code_str.as_str());
                                msg.append(" matching FailJob rule at index ");
                                let idx_str = u64_to_string(i as u64);
                                msg.append(idx_str.as_str());
                                proof {
                                    assert(msg@ =~= spec_exit_code_message(
                                        cs.deep_view().name,
                                        pv.metadata.name,
                                        exit_code,
                                        i as nat,
                                    ));
                                }
                                return (
                                    Some(msg),
                                    true,
                                    Some(JobPodFailurePolicyRuleAction::FailJob),
                                );
                            },
                        }
                    },
                    None => {
                        proof {
                            assert(m.deep_view() is None);
                            assert(spec_match_on_exit_codes(pv.status, req@) is None);
                            assert(step == spec_match_pfp(rv.skip(i + 1), pv, (i + 1) as nat));
                        }
                    },
                }
            },
            None => {
                proof {
                    assert(rv[i as int].on_exit_codes is None);
                }
                match &rule.on_pod_conditions {
                    Some(patterns) => {
                        proof {
                            assert(rv[i as int].on_pod_conditions == Some(patterns@));
                        }
                        match match_on_pod_conditions(&pod.status, patterns) {
                            Some(_) => {
                                match rule.action {
                                    JobPodFailurePolicyRuleAction::Ignore => {
                                        return (
                                            None,
                                            false,
                                            Some(JobPodFailurePolicyRuleAction::Ignore),
                                        );
                                    },
                                    JobPodFailurePolicyRuleAction::FailIndex => {},
                                    JobPodFailurePolicyRuleAction::Count => {
                                        return (
                                            None,
                                            true,
                                            Some(JobPodFailurePolicyRuleAction::Count),
                                        );
                                    },
                                    JobPodFailurePolicyRuleAction::FailJob => {
                                        let mut msg = String::new();
                                        msg.append("Pod ");
                                        msg.append(pod.metadata.name.as_str());
                                        msg.append(" has condition matching FailJob rule at index ");
                                        let idx_str = u64_to_string(i as u64);
                                        msg.append(idx_str.as_str());
                                        proof {
                                            assert(msg@ =~= spec_condition_message(
                                                pv.metadata.name,
                                                i as nat,
                                            ));
                                        }
                                        return (
                                            Some(msg),
                                            true,
                                            Some(JobPodFailurePolicyRuleAction::FailJob),
                                        );
                                    },
                                }
                            },
                            None => {
                                proof {
                                    assert(step == spec_match_pfp(
                                        rv.skip(i + 1),
                                        pv,
                                        (i + 1) as nat,
                                    ));
                                }
                            },
                        }
                    },
                    None => {
                        proof {
                            assert(rv[i as int].on_pod_conditions is None);
                            assert(step == spec_match_pfp(rv.skip(i + 1), pv, (i + 1) as nat));
                        }
                    },
                }
            },
        }
        i = i + 1;
    }
    proof {
        assert(rv.skip(rv.len() as int) =~= Seq::<
            crate::resources::JobPodFailurePolicyRuleView,
        >::empty());
    }
    (None, true, None)
}

/// How many newly failed pods count against the job: all of them, less those
/// a rule with the `Ignore` action matched.
pub open spec fn spec_non_ignored_count(j: JobView, failed_pods: Seq<PodView>) -> nat {
    match j.spec.pod_failure_policy {
        None => failed_pods.len(),
        Some(pfp) => failed_pods.filter(
            |p: PodView| spec_match_pfp(pfp.rules, p, 0).1,
        ).len(),
    }
}

/// Count the newly failed pods that the policy does not ignore.
pub fn non_ignored_failed_pods_count(job: &Job, failed_pods: &Vec<Pod>) -> (r: usize)
    ensures
        r == spec_non_ignored_count(job@, failed_pods.deep_view()),
{
    let ghost pv = failed_pods.deep_view();
    match &job.spec.pod_failure_policy {
        None => failed_pods.len(),
        Some(pfp) => {
            let ghost pred = |p: PodView| spec_match_pfp(pfp@.rules, p, 0).1;
            let mut c: usize = 0;
            let mut i: usize = 0;
            while i < failed_pods.len()
                invariant
                    pv == failed_pods.deep_view(),
                    i <= failed_pods@.len() == pv.len(),
                    c == pv.take(i as int).filter(pred).len(),
                    c <= i,
                    pred == (|p: PodView| spec_match_pfp(pfp@.rules, p, 0).1),
                decreases failed_pods.len() - i,
            {
                proof {
                    assert(pv[i as int] == failed_pods@[i as int].deep_view());
                    pv.lemma_take_succ_push(i as int);
                    pv.take(i as int).lemma_filter_push(pv[i as int], pred);
                    pv.take(i as int).lemma_filter_len(pred);
                }
                let m = match_pod_failure_policy(pfp, &failed_pods[i]);
                if m.1 {
                    c = c + 1;
                }
                i = i + 1;
            }
            proof {
                assert(pv.take(pv.len() as int) =~= pv);
            }
            c
        },
    }
}

/// The first failure message produced by a `FailJob` rule over the failed
/// pods, scanning the pods in order.
pub open spec fn spec_fail_job_message(j: JobView, pods: Seq<PodView>) -> Option<Seq<char>>
    decreases pods.len(),
{
    if pods.len() == 0 {
        None
    } else {
        let head = if spec_is_pod_failed(pods[0], j) {
            match j.spec.pod_failure_policy {
                Some(pfp) => spec_match_pfp(pfp.rules, pods[0], 0).0,
                None => None,
            }
        } else {
            None
        };
        match head {
            Some(m) => Some(m),
            None => spec_fail_job_message(j, pods.drop_first()),
        }
    }
}

/// The failure message of the first failed pod a `FailJob` rule matches.
pub fn get_fail_job_message(job: &Job, pods: &Vec<Pod>) -> (r: Option<String>)
    ensures
        r.deep_view() == spec_fail_job_message(job@, pods.deep_view()),
{
    let ghost pv = pods.deep_view();
    proof {
        assert(pv.skip(0) =~= pv);
    }
    let mut i: usize = 0;
    while i < pods.len()
        invariant
            pv == pods.deep_view(),
            i <= pods@.len() == pv.len(),
            spec_fail_job_message(job@, pv) == spec_fail_job_message(job@, pv.skip(i as int)),
        decreases pods.len() - i,
    {
        proof {
            assert(pv[i as int] == pods@[i as int].deep_view());
            assert(pv.skip(i as int)[0] == pv[i as int]);
            assert(pv.skip(i as int).drop_first() =~= pv.skip(i + 1));
        }
        if is_pod_failed(&pods[i], job) {
            match &job.spec.pod_failure_policy {
                Some(pfp) => {
                    let m = match_pod_failure_policy(pfp, &pods[i]);
                    match m.0 {
                        Some(msg) => {
                            return Some(msg);
                        },
                        None => {},
                    }
                },
                None => {},
            }
        }
        i = i + 1;
    }
    proof {
        assert(pv.skip(pv.len() as int) =~= Seq::<PodView>::empty());
    }
    None
}

// ---------------------------------------------------------------------------
// Conditions
// ---------------------------------------------------------------------------

/// The first condition of the given type.
pub open spec fn spec_find_condition(
    conds: Seq<JobConditionView>,
    t: JobConditionType,
) -> Option<JobConditionView>
    decreases conds.len(),
{
    if conds.len() == 0 {
        None
    } else if conds[0].cond_type == t {
        Some(conds[0])
    } else {
        spec_find_condition(conds.drop_first(), t)
    }
}

/// Find the first condition of the given type.
pub fn find_condition_by_type(conditions: &Vec<JobCondition>, cond_type: JobConditionType) -> (r:
    Option<JobCondition>)
    ensures
        r.deep_view() == spec_find_condition(conditions.deep_view(), cond_type),
{
    let ghost cv = conditions.deep_view();
    proof {
        assert(cv.skip(0) =~= cv);
    }
    let mut i: usize = 0;
    while i < conditions.len()
        invariant
            cv == conditions.deep_view(),
            i <= conditions@.len() == cv.len(),
            spec_find_condition(cv, cond_type) == spec_find_condition(
                cv.skip(i as int),
                cond_type,
            ),
        decreases conditions.len() - i,
    {
        proof {
            assert(cv[i as int] == conditions@[i as int].deep_view());
            assert(cv.skip(i as int)[0] == cv[i as int]);
            assert(cv.skip(i as int).drop_first() =~= cv.skip(i + 1));
        }
        if conditions[i].cond_type == cond_type {
            return Some(conditions[i].deep_clone());
        }
        i = i + 1;
    }
    proof {
        assert(cv.skip(cv.len() as int) =~= Seq::<JobConditionView>::empty());
    }
    None
}

/// A fresh condition with both of its timestamps at `now`.
pub open spec fn spec_new_condition(
    cond_type: JobConditionType,
    status: ConditionStatus,
    reason: Seq<char>,
    message: Seq<char>,
    now: Time,
) -> JobConditionView {
    JobConditionView {
        cond_type,
        status,
        reason,
        message,
        last_probe_time: Some(now),
        last_transition_time: Some(now),
    }
}

/// Build a fresh condition with both of its timestamps at `now`.
pub fn new_condition(
    condition_type: JobConditionType,
    status: ConditionStatus,
    reason: String,
    message: String,
    now: Time,
) -> (r: JobCondition)
    ensures
        r@ == spec_new_condition(condition_type, status, reason@, message@, now),
{
    let r = JobCondition {
        cond_type: condition_type,
        status,
        reason,
        message,
        last_probe_time: Some(now),
        last_transition_time: Some(now),
    };
    proof {
        assert(r@ =~= spec_new_condition(r.cond_type, r.status, r.reason@, r.message@, now));
    }
    r
}

/// The condition list with the given type forced to the given status: the
/// first condition of that type is replaced when its status, reason or
/// message differs, a missing condition is appended unless the status is
/// false, and `None` means the list already agrees.
pub open spec fn spec_ensure_condition(
    conds: Seq<JobConditionView>,
    cond_type: JobConditionType,
    status: ConditionStatus,
    reason: Seq<char>,
    message: Seq<char>,
    now: Time,
) -> Option<Seq<JobConditionView>>
    decreases conds.len(),
{
    if conds.len() == 0 {
        if status != ConditionStatus::False {
            Some(seq![spec_new_condition(cond_type, status, reason, message, now)])
        } else {
            None
        }
    } else if conds[0].cond_type == cond_type {
        if conds[0].status != status || conds[0].reason != reason || conds[0].message != message {
            Some(
                seq![spec_new_condition(cond_type, status, reason, message, now)]
                    + conds.drop_first(),
            )
        } else {
            None
        }
    } else {
        match spec_ensure_condition(conds.drop_first(), cond_type, status, reason, message, now) {
            None => None,
            Some(rest) => Some(seq![conds[0]] + rest),
        }
    }
}

/// What the recursive form yields once the scan position is known.
proof fn lemma_ensure_condition_unfold(
    conds: Seq<JobConditionView>,
    cond_type: JobConditionType,
    status: ConditionStatus,
    reason: Seq<char>,
    message: Seq<char>,
    now: Time,
    i: int,
)
    requires
        0 <= i <= conds.len(),
        forall|j: int| 0 <= j < i ==> (#[trigger] conds[j]).cond_type != cond_type,
        i < conds.len() ==> conds[i].cond_type == cond_type,
    ensures
        spec_ensure_condition(conds, cond_type, status, reason, message, now) == if i
            < conds.len() {
            if conds[i].status != status || conds[i].reason != reason || conds[i].message
                != message {
                Some(
                    conds.update(i, spec_new_condition(cond_type, status, reason, message, now)),
                )
            } else {
                None
            }
        } else {
            if status != ConditionStatus::False {
                Some(conds.push(spec_new_condition(cond_type, status, reason, message, now)))
            } else {
                None
            }
        },
    decreases i,
{
    let new = spec_new_condition(cond_type, status, reason, message, now);
    if i == 0 {
        if conds.len() == 0 {
            if status != ConditionStatus::False {
                assert(seq![new] =~= conds.push(new));
            }
        } else if conds[0].cond_type == cond_type {
            if conds[0].status != status || conds[0].reason != reason || conds[0].message
                != message {
                assert(seq![new] + conds.drop_first() =~= conds.update(0, new));
            }
        }
    } else {
        let c1 = conds.drop_first();
        assert(forall|j: int| 0 <= j < i - 1 ==> (#[trigger] c1[j]).cond_type != cond_type) by {
            assert(forall|j: int| 0 <= j < i - 1 ==> #[trigger] c1[j] == conds[j + 1]);
        }
        assert(i - 1 < c1.len() ==> c1[i - 1].cond_type == cond_type);
        lemma_ensure_condition_unfold(c1, cond_type, status, reason, message, now, i - 1);
        assert(conds[0].cond_type != cond_type);
        if i < conds.len() {
            assert(c1[i - 1] == conds[i]);
            if conds[i].status != status || conds[i].reason != reason || conds[i].message
                != message {
                assert(seq![conds[0]] + c1.update(i - 1, new) =~= conds.update(i, new));
            }
        } else {
            if status != ConditionStatus::False {
                assert(seq![conds[0]] + c1.push(new) =~= conds.push(new));
            }
        }
    }
}

/// Force a condition of the given type to the given status, returning the
/// changed list, or nothing when the list already agrees. A missing
/// condition is appended only when the status is not false: going from
/// nothing to false means nothing.
pub fn ensure_job_condition_status(
    conditions: &Vec<JobCondition>,
    cond_type: JobConditionType,
    status: ConditionStatus,
    reason: String,
    message: String,
    now: Time,
) -> (r: Option<Vec<JobCondition>>)
    ensures
        r.deep_view() == spec_ensure_condition(
            conditions.deep_view(),
            cond_type,
            status,
            reason@,
            message@,
            now,
        ),
{
    let ghost cv = conditions.deep_view();
    let mut i: usize = 0;
    while i < conditions.len() && conditions[i].cond_type != cond_type
        invariant
            cv == conditions.deep_view(),
            i <= conditions@.len() == cv.len(),
            forall|j: int| 0 <= j < i ==> (#[trigger] cv[j]).cond_type != cond_type,
        decreases conditions.len() - i,
    {
        proof {
            assert(cv[i as int] == conditions@[i as int].deep_view());
        }
        i = i + 1;
    }
    proof {
        if i < conditions.len() {
            assert(cv[i as int] == conditions@[i as int].deep_view());
        }
        lemma_ensure_condition_unfold(cv, cond_type, status, reason@, message@, now, i as int);
    }
    if i < conditions.len() {
        let differs = !(conditions[i].status == status && str_eq(
            conditions[i].reason.as_str(),
            reason.as_str(),
        ) && str_eq(conditions[i].message.as_str(), message.as_str()));
        if differs {
            let mut out = deep_clone_vec(conditions);
            let ghost pre = out@;
            out.set(i, new_condition(cond_type, status, reason, message, now));
            proof {
                let new = spec_new_condition(cond_type, status, reason@, message@, now);
                assert forall|j: int| 0 <= j < out.deep_view().len() implies out.deep_view()[j]
                    == cv.update(i as int, new)[j] by {
                    assert(out.deep_view()[j] == out@[j].deep_view());
                    if j != i {
                        assert(out@[j] == pre[j]);
                        assert(pre[j].deep_view() == cv[j]);
                    }
                }
                assert(out.deep_view() =~= cv.update(i as int, new));
            }
            Some(out)
        } else {
            None
        }
    } else {
        if status != ConditionStatus::False {
            let mut out = deep_clone_vec(conditions);
            let ghost pre = out@;
            out.push(new_condition(cond_type, status, reason, message, now));
            proof {
                let new = spec_new_condition(cond_type, status, reason@, message@, now);
                assert forall|j: int| 0 <= j < out.deep_view().len() implies out.deep_view()[j]
                    == cv.push(new)[j] by {
                    assert(out.deep_view()[j] == out@[j].deep_view());
                    if j < pre.len() {
                        assert(out@[j] == pre[j]);
                        assert(pre[j].deep_view() == cv[j]);
                    }
                }
                assert(out.deep_view() =~= cv.push(new));
            }
            Some(out)
        } else {
            None
        }
    }
}

// ---------------------------------------------------------------------------
// Backoff and deadline
// ---------------------------------------------------------------------------

/// Addition that stops at the top of the counter instead of wrapping.
pub open spec fn sat_add64(a: u64, b: u64) -> u64 {
    if a + b > u64::MAX {
        u64::MAX
    } else {
        (a + b) as u64
    }
}

/// Add, stopping at the top of the counter.
pub fn sat_add(a: u64, b: u64) -> (r: u64)
    ensures
        r == sat_add64(a, b),
{
    if a > u64::MAX - b {
        u64::MAX
    } else {
        a + b
    }
}

/// The restarts of a list of containers, summed.
pub open spec fn spec_restart_sum(css: Seq<crate::resources::ContainerStatusView>) -> u64
    decreases css.len(),
{
    if css.len() == 0 {
        0
    } else {
        sat_add64(
            spec_restart_sum(css.drop_last()),
            css.last().restart_count as u64,
        )
    }
}

/// Sum the restarts of a list of containers.
pub fn restart_sum(css: &Vec<ContainerStatus>) -> (r: u64)
    ensures
        r == spec_restart_sum(css.deep_view()),
{
    let ghost cv = css.deep_view();
    let mut r: u64 = 0;
    let mut i: usize = 0;
    while i < css.len()
        invariant
            cv == css.deep_view(),
            i <= css@.len() == cv.len(),
            r == spec_restart_sum(cv.take(i as int)),
        decreases css.len() - i,
    {
        proof {
            assert(cv[i as int] == css@[i as int].deep_view());
            assert(cv.take(i + 1).drop_last() =~= cv.take(i as int));
            assert(cv.take(i + 1).last() == cv[i as int]);
        }
        r = sat_add(r, css[i].restart_count as u64);
        i = i + 1;
    }
    proof {
        assert(cv.take(cv.len() as int) =~= cv);
    }
    r
}

/// The summed container restarts of the pending and running pods.
pub open spec fn spec_pods_restart_sum(pods: Seq<PodView>) -> u64
    decreases pods.len(),
{
    if pods.len() == 0 {
        0
    } else {
        let rest = spec_pods_restart_sum(pods.drop_last());
        let p = pods.last();
        if p.status.phase == PodPhase::Running || p.status.phase == PodPhase::Pending {
            sat_add64(
                rest,
                sat_add64(
                    spec_restart_sum(p.status.init_container_statuses),
                    spec_restart_sum(p.status.container_statuses),
                ),
            )
        } else {
            rest
        }
    }
}

/// The job's backoff limit has been exhausted by container restarts; this
/// applies only when the pod template restarts containers on failure.
pub open spec fn spec_past_backoff(j: JobView, pods: Seq<PodView>) -> bool {
    if j.spec.template.spec.restart_policy != Some(PodRestartPolicy::OnFailure) {
        false
    } else {
        let total = spec_pods_restart_sum(pods);
        match j.spec.backoff_limit {
            Some(bl) => if bl == 0 {
                total > 0
            } else {
                total >= bl as u64
            },
            None => true,
        }
    }
}

/// Whether container restarts have exhausted the backoff limit; applies only
/// to jobs whose pods restart containers on failure.
pub fn past_backoff_limit_on_failure(job: &Job, pods: &Vec<Pod>) -> (r: bool)
    ensures
        r == spec_past_backoff(job@, pods.deep_view()),
{
    let applies = match job.spec.template.spec.restart_policy {
        Some(PodRestartPolicy::OnFailure) => true,
        _ => false,
    };
    if !applies {
        return false;
    }
    let ghost pv = pods.deep_view();
    let mut total: u64 = 0;
    let mut i: usize = 0;
    while i < pods.len()
        invariant
            pv == pods.deep_view(),
            i <= pods@.len() == pv.len(),
            total == spec_pods_restart_sum(pv.take(i as int)),
        decreases pods.len() - i,
    {
        proof {
            assert(pv[i as int] == pods@[i as int].deep_view());
            assert(pv.take(i + 1).drop_last() =~= pv.take(i as int));
            assert(pv.take(i + 1).last() == pv[i as int]);
        }
        let p = &pods[i];
        if p.status.phase == PodPhase::Running || p.status.phase == PodPhase::Pending {
            let inits = restart_sum(&p.status.init_container_statuses);
            let mains = restart_sum(&p.status.container_statuses);
            total = sat_add(total, sat_add(inits, mains));
        }
        i = i + 1;
    }
    proof {
        assert(pv.take(pv.len() as int) =~= pv);
    }
    match job.spec.backoff_limit {
        Some(bl) => {
            if bl == 0 {
                total > 0
            } else {
                total >= bl as u64
            }
        },
        None => true,
    }
}

/// The job has run past its active deadline: a deadline is set, the job has
/// started, it is not suspended, and the elapsed logical time since the
/// start reaches the deadline.
pub open spec fn spec_past_active_deadline(j: JobView, now: Time) -> bool {
    match (j.spec.active_deadline_seconds, j.status.start_time) {
        (Some(d), Some(st)) => !j.spec.suspend && now.0 >= st.0 && now.0 - st.0 >= d,
        _ => false,
    }
}

/// Whether the job has run past its active deadline; a suspended job never
/// has.
pub fn past_active_deadline(job: &Job, now: Time) -> (r: bool)
    ensures
        r == spec_past_active_deadline(job@, now),
{
    match (job.spec.active_deadline_seconds, job.status.start_time) {
        (Some(d), Some(st)) => !job.spec.suspend && now.0 >= st.0 && now.0 - st.0 >= d,
        _ => false,
    }
}


// ---------------------------------------------------------------------------
// Interval strings
// ---------------------------------------------------------------------------

/// One interval in its string form: a bare number, or start and end joined
/// by a dash.
pub open spec fn spec_interval_token(p: (u32, u32)) -> Seq<char> {
    if p.0 == p.1 {
        dec_str(p.0 as nat)
    } else {
        dec_str(p.0 as nat) + "-"@ + dec_str(p.1 as nat)
    }
}

/// An interval list in its string form: tokens joined by commas.
pub open spec fn spec_intervals_str(s: Seq<(u32, u32)>) -> Seq<char>
    decreases s.len(),
{
    if s.len() == 0 {
        Seq::empty()
    } else if s.len() == 1 {
        spec_interval_token(s[0])
    } else {
        spec_intervals_str(s.drop_last()) + ","@ + spec_interval_token(s.last())
    }
}

/// Print an interval list in its canonical string form.
pub fn intervals_to_string(iv: &Vec<(u32, u32)>) -> (r: String)
    ensures
        r@ == spec_intervals_str(iv@),
{
    proof {
        reveal_strlit("-");
        reveal_strlit(",");
    }
    let mut r = String::new();
    let mut i: usize = 0;
    while i < iv.len()
        invariant
            i <= iv@.len(),
            r@ == spec_intervals_str(iv@.take(i as int)),
        decreases iv.len() - i,
    {
        proof {
            assert(iv@.take(i + 1).drop_last() =~= iv@.take(i as int));
            assert(iv@.take(i + 1).last() == iv@[i as int]);
            if i + 1 == 1 {
                assert(iv@.take(1)[0] == iv@[0]);
            }
        }
        if i > 0 {
            r.append(",");
        }
        let p = iv[i];
        let lo = u64_to_string(p.0 as u64);
        r.append(lo.as_str());
        if p.0 != p.1 {
            r.append("-");
            let hi = u64_to_string(p.1 as u64);
            r.append(hi.as_str());
        }
        proof {
            assert(r@ =~= spec_intervals_str(iv@.take(i + 1)));
        }
        i = i + 1;
    }
    proof {
        assert(iv@.take(iv@.len() as int) =~= iv@);
    }
    r
}

/// The tail of an interval string from its `t`-th token on: each remaining
/// token with its leading comma.
pub open spec fn spec_intervals_str_from(s: Seq<(u32, u32)>, t: int) -> Seq<char>
    decreases s.len() - t,
{
    if t < 0 || t >= s.len() {
        Seq::empty()
    } else {
        ","@ + spec_interval_token(s[t]) + spec_intervals_str_from(s, t + 1)
    }
}

/// Where the `t`-th token of an interval string starts.
pub open spec fn spec_tok_pos(s: Seq<(u32, u32)>, t: int) -> int {
    if t <= 0 {
        0
    } else {
        spec_intervals_str(s.take(t)).len() as int + 1
    }
}

/// An interval string splits after any leading run of whole tokens.
proof fn lemma_iv_str_decompose(s: Seq<(u32, u32)>, t: int)
    requires
        1 <= t <= s.len(),
    ensures
        spec_intervals_str(s) == spec_intervals_str(s.take(t)) + spec_intervals_str_from(s, t),
    decreases s.len() - t,
{
    if t == s.len() {
        assert(s.take(t) =~= s);
        assert(spec_intervals_str(s.take(t)) + spec_intervals_str_from(s, t)
            =~= spec_intervals_str(s));
    } else {
        lemma_iv_str_decompose(s, t + 1);
        assert(s.take(t + 1).drop_last() =~= s.take(t));
        assert(s.take(t + 1).last() == s[t]);
        assert(spec_intervals_str(s.take(t + 1)) == spec_intervals_str(s.take(t)) + ","@
            + spec_interval_token(s[t]));
        assert(spec_intervals_str(s.take(t)) + spec_intervals_str_from(s, t)
            =~= spec_intervals_str(s.take(t + 1)) + spec_intervals_str_from(s, t + 1));
    }
}

/// A token holds digits and dashes alone, never a comma; a single-index
/// token is all digits; a range token is two digit runs around one dash.
proof fn lemma_token_chars(p: (u32, u32))
    ensures
        spec_interval_token(p).len() >= 1,
        forall|j: int|
            0 <= j < spec_interval_token(p).len() ==> #[trigger] spec_interval_token(p)[j] != ',',
        p.0 == p.1 ==> spec_interval_token(p) == dec_str(p.0 as nat),
        p.0 != p.1 ==> spec_interval_token(p) == dec_str(p.0 as nat) + "-"@ + dec_str(p.1 as nat)
            && (forall|j: int|
            0 <= j < dec_str(p.0 as nat).len() ==> #[trigger] spec_interval_token(p)[j] != '-')
            && spec_interval_token(p)[dec_str(p.0 as nat).len() as int] == '-',
        all_digits(dec_str(p.0 as nat)),
        all_digits(dec_str(p.1 as nat)),
{
    reveal_strlit("-");
    lemma_dec_str_wf(p.0 as nat);
    lemma_dec_str_wf(p.1 as nat);
    let a = dec_str(p.0 as nat);
    let b = dec_str(p.1 as nat);
    assert forall|j: int| 0 <= j < a.len() implies a[j] != ',' && a[j] != '-' by {
        assert(is_digit(a[j]));
    }
    assert forall|j: int| 0 <= j < b.len() implies b[j] != ',' by {
        assert(is_digit(b[j]));
    }
    if p.0 != p.1 {
        let tok = a + "-"@ + b;
        assert(tok[a.len() as int] == '-');
        assert forall|j: int| 0 <= j < tok.len() implies #[trigger] tok[j] != ',' by {
            if j < a.len() {
                assert(tok[j] == a[j]);
            } else if j == a.len() {
            } else {
                assert(tok[j] == b[j - a.len() - 1]);
            }
        }
        assert forall|j: int| 0 <= j < a.len() implies #[trigger] tok[j] != '-' by {
            assert(tok[j] == a[j]);
        }
    }
}

/// Around the `t`-th token the printed string reads: a prefix, the token,
/// then the remaining tokens with their commas.
proof fn lemma_iv_str_at(s: Seq<(u32, u32)>, t: int)
    requires
        0 <= t < s.len(),
    ensures
        ({
            let full = spec_intervals_str(s);
            let p = spec_tok_pos(s, t);
            let tok = spec_interval_token(s[t]);
            let rest = spec_intervals_str_from(s, t + 1);
            &&& 0 <= p
            &&& p + tok.len() + rest.len() == full.len()
            &&& (forall|j: int| 0 <= j < tok.len() ==> full[p + j] == #[trigger] tok[j])
            &&& (forall|j: int| 0 <= j < rest.len() ==> full[p + tok.len() + j] == #[trigger] rest[j])
            &&& (t + 1 < s.len() ==> rest.len() > spec_interval_token(s[t + 1]).len() && rest[0]
                == ',')
            &&& (t + 1 == s.len() ==> rest.len() == 0)
            &&& (t + 1 < s.len() ==> spec_tok_pos(s, t + 1) == p + tok.len() + 1)
        }),
{
    let full = spec_intervals_str(s);
    let tok = spec_interval_token(s[t]);
    let rest = spec_intervals_str_from(s, t + 1);
    lemma_token_chars(s[t]);
    if t + 1 < s.len() {
        lemma_token_chars(s[t + 1]);
        assert(rest == ","@ + spec_interval_token(s[t + 1]) + spec_intervals_str_from(s, t + 2));
        reveal_strlit(",");
        assert(rest[0] == ',');
    }
    if t == 0 {
        if s.len() == 1 {
            assert(full == tok);
            assert(rest =~= Seq::<char>::empty());
        } else {
            lemma_iv_str_decompose(s, 1);
            assert(s.take(1).drop_last() =~= Seq::<(u32, u32)>::empty());
            assert(s.take(1)[0] == s[0]);
            assert(spec_intervals_str(s.take(1)) == tok);
            assert(full == tok + rest);
        }
        assert forall|j: int| 0 <= j < tok.len() implies full[0 + j] == #[trigger] tok[j] by {}
        if t + 1 < s.len() {
            assert(spec_tok_pos(s, 1) == spec_intervals_str(s.take(1)).len() + 1);
            assert(spec_intervals_str(s.take(1)) == spec_interval_token(s.take(1)[0]));
            assert(s.take(1)[0] == s[0]);
        }
    } else {
        lemma_iv_str_decompose(s, t);
        let pre = spec_intervals_str(s.take(t));
        assert(full == pre + (","@ + tok + spec_intervals_str_from(s, t + 1)));
        reveal_strlit(",");
        assert forall|j: int| 0 <= j < tok.len() implies full[spec_tok_pos(s, t) + j]
            == #[trigger] tok[j] by {}
        if t + 1 < s.len() {
            assert(s.take(t + 1).drop_last() =~= s.take(t));
            assert(s.take(t + 1).last() == s[t]);
            assert(spec_intervals_str(s.take(t + 1)) == pre + ","@ + tok);
            assert(spec_tok_pos(s, t + 1) == pre.len() + 1 + tok.len() + 1);
        }
    }
}

/// The string is the canonical printing of this compressed interval list,
/// every interval of which ends below the completion count.
pub open spec fn spec_iv_printing_of(
    str: Seq<char>,
    completions: u32,
    s: Seq<(u32, u32)>,
) -> bool {
    &&& iv_canonical(s)
    &&& (forall|k: int| 0 <= k < s.len() ==> (#[trigger] s[k]).1 < completions)
    &&& str == spec_intervals_str(s)
}

/// Parse a compressed-interval string leniently: malformed, out-of-range or
/// out-of-order tokens are dropped, a token at or past the completion count
/// stops the scan, and a token starting right after the last interval's end
/// extends it. The result is always compressed and bounded by the
/// completion count; in particular, the canonical printing of a compressed
/// list bounded by the completion count parses back to exactly that list.
#[verifier::rlimit(100)]
#[verifier::spinoff_prover]
pub fn parse_indexes_from_string(indexes_str: &str, completions: u32) -> (r: Vec<(u32, u32)>)
    ensures
        iv_canonical(r@),
        forall|k: int| 0 <= k < r@.len() ==> (#[trigger] r@[k]).1 < completions,
        forall|s: Seq<(u32, u32)>|
            #[trigger] spec_iv_printing_of(indexes_str@, completions, s) ==> r@ == s,
{
    let len = indexes_str.unicode_len();
    let mut out: Vec<(u32, u32)> = Vec::new();
    let mut pos: usize = 0;
    proof {
        assert forall|s: Seq<(u32, u32)>|
            #[trigger] spec_iv_printing_of(indexes_str@, completions, s) implies out@ == s.take(
            0,
        ) && (0 == s.len() ==> 0 == len) by {
            assert(out@ =~= s.take(0));
            if s.len() == 0 {
                assert(spec_intervals_str(s).len() == 0);
            }
        }
    }
    while pos < len
        invariant
            len == indexes_str@.len(),
            pos <= len,
            iv_canonical(out@),
            forall|k: int| 0 <= k < out@.len() ==> (#[trigger] out@[k]).1 < completions,
            forall|s: Seq<(u32, u32)>|
                #[trigger] spec_iv_printing_of(indexes_str@, completions, s) ==> {
                    &&& out@.len() <= s.len()
                    &&& out@ == s.take(out@.len() as int)
                    &&& (out@.len() < s.len() ==> pos == spec_tok_pos(s, out@.len() as int))
                    &&& (out@.len() == s.len() ==> pos == len)
                },
        decreases len - pos,
    {
        let ghost out0 = out@;
        let ghost pos0 = pos as int;
        let ghost t = out0.len() as int;
        // find the end of this token
        let mut end: usize = pos;
        while end < len && indexes_str.get_char(end) != ','
            invariant
                len == indexes_str@.len(),
                pos <= end <= len,
                forall|j: int| pos <= j < end ==> indexes_str@[j] != ',',
            decreases len - end,
        {
            end = end + 1;
        }
        // split the token at a dash, if any
        let mut dash: usize = pos;
        while dash < end && indexes_str.get_char(dash) != '-'
            invariant
                pos <= dash <= end <= len,
                len == indexes_str@.len(),
                forall|j: int| pos <= j < dash ==> indexes_str@[j] != '-',
            decreases end - dash,
        {
            dash = dash + 1;
        }
        let first_str = indexes_str.substring_char(pos, dash);
        let first_val = crate::utils::parse_u64(first_str);
        let second_val = if dash < end {
            let second_str = indexes_str.substring_char(dash + 1, end);
            crate::utils::parse_u64(second_str)
        } else {
            first_val
        };
        proof {
            // on the printing of a bounded compressed list the scans cut out
            // exactly the next token, and its numbers parse back
            assert forall|s: Seq<(u32, u32)>|
                #[trigger] spec_iv_printing_of(indexes_str@, completions, s) implies t < s.len()
                && out0 == s.take(t) && first_val == Some(s[t].0 as u64) && second_val == Some(
                s[t].1 as u64,
            ) && ((end as int) < len <==> t + 1 < s.len()) && (t + 1 < s.len() ==> end as int + 1
                == spec_tok_pos(s, t + 1)) by {
                let full = indexes_str@;
                if t == s.len() {
                    assert(false);
                }
                lemma_iv_str_at(s, t);
                lemma_token_chars(s[t]);
                lemma_dec_str_wf(s[t].0 as nat);
                lemma_dec_str_wf(s[t].1 as nat);
                let tok = spec_interval_token(s[t]);
                let rest = spec_intervals_str_from(s, t + 1);
                assert(pos0 == spec_tok_pos(s, t));
                assert(end as int == pos0 + tok.len()) by {
                    if (end as int) < pos0 + tok.len() {
                        assert(full[end as int] == tok[end - pos0]);
                        assert(false);
                    }
                    if (end as int) > pos0 + tok.len() {
                        if rest.len() > 0 {
                            assert(full[pos0 + tok.len()] == rest[0]);
                        }
                        assert(false);
                    }
                }
                let a = dec_str(s[t].0 as nat);
                let b = dec_str(s[t].1 as nat);
                if s[t].0 == s[t].1 {
                    assert(dash == end) by {
                        if (dash as int) < end {
                            assert(full[dash as int] == tok[dash - pos0]);
                            assert(is_digit(tok[dash - pos0]));
                            assert(false);
                        }
                    }
                    assert(first_str@ =~= a) by {
                        assert forall|j: int| 0 <= j < a.len() implies first_str@[j] == a[j] by {
                            assert(full[pos0 + j] == tok[j]);
                        }
                    }
                    assert(first_val == Some(s[t].0 as u64));
                } else {
                    assert(dash as int == pos0 + a.len()) by {
                        if (dash as int) < pos0 + a.len() {
                            assert(full[dash as int] == tok[dash - pos0]);
                            assert(false);
                        }
                        if (dash as int) > pos0 + a.len() {
                            assert(full[pos0 + a.len()] == tok[a.len() as int]);
                            assert(false);
                        }
                    }
                    assert(first_str@ =~= a) by {
                        assert forall|j: int| 0 <= j < a.len() implies first_str@[j] == a[j] by {
                            assert(full[pos0 + j] == tok[j]);
                        }
                    }
                    assert(first_val == Some(s[t].0 as u64));
                    assert(full.subrange(dash as int + 1, end as int) =~= b) by {
                        reveal_strlit("-");
                        assert(tok =~= (a + "-"@) + b);
                        assert((a + "-"@).len() == a.len() + 1);
                        assert forall|j: int| 0 <= j < b.len() implies full.subrange(
                            dash as int + 1,
                            end as int,
                        )[j] == b[j] by {
                            assert(full[pos0 + (a.len() + 1 + j)] == tok[a.len() + 1 + j]);
                            assert(tok[a.len() + 1 + j] == ((a + "-"@) + b)[a.len() + 1 + j]);
                            assert(((a + "-"@) + b)[a.len() + 1 + j] == b[j]);
                        }
                    }
                    assert(second_val == Some(s[t].1 as u64));
                }
            }
        }
        match (first_val, second_val) {
            (Some(f64v), Some(l64v)) => {
                if f64v <= u32::MAX as u64 && l64v <= u32::MAX as u64 {
                    let f = f64v as u32;
                    let mut l = l64v as u32;
                    if f >= completions {
                        // everything from here on is out of range
                        proof {
                            assert forall|s: Seq<(u32, u32)>|
                                #[trigger] spec_iv_printing_of(
                                    indexes_str@,
                                    completions,
                                    s,
                                ) implies out@ == s by {
                                assert(f as u64 == s[t].0 as u64);
                                assert(s[t].0 <= s[t].1 < completions);
                                assert(false);
                            }
                        }
                        return out;
                    }
                    if l >= completions {
                        l = completions - 1;
                    }
                    if f <= l {
                        let ghost outp = out@;
                        if out.len() == 0 || (f as u64) > (out[out.len() - 1].1 as u64) + 1 {
                            out.push((f, l));
                            proof {
                                lemma_iv_push(outp, (f, l));
                            }
                        } else if (f as u64) == (out[out.len() - 1].1 as u64) + 1 {
                            let last = out.len() - 1;
                            let lo = out[last].0;
                            let hi = out[last].1;
                            out.set(last, (lo, l));
                            proof {
                                lemma_iv_extend(outp, (f, l), lo, hi, l);
                            }
                        }
                        // an overlapping token is out of order: drop it
                    }
                }
            },
            _ => {},
        }
        if end < len {
            pos = end + 1;
        } else {
            pos = len;
        }
        proof {
            assert forall|s: Seq<(u32, u32)>|
                #[trigger] spec_iv_printing_of(indexes_str@, completions, s) implies {
                &&& out@.len() <= s.len()
                &&& out@ == s.take(out@.len() as int)
                &&& (out@.len() < s.len() ==> pos == spec_tok_pos(s, out@.len() as int))
                &&& (out@.len() == s.len() ==> pos == len)
            } by {
                // under the printing hypothesis the token was appended whole
                assert(s[t].0 <= s[t].1 < completions);
                assert(out@.len() == t + 1 && out@[t] == (s[t].0, s[t].1)) by {
                    if t > 0 {
                        assert(out0[t - 1] == s.take(t)[t - 1]);
                        assert(s[t - 1].1 + 1 < s[t].0);
                    }
                }
                assert(out@ =~= s.take(t + 1)) by {
                    assert forall|j: int| 0 <= j < t + 1 implies out@[j] == s.take(t + 1)[j] by {
                        if j < t {
                            assert(out@[j] == out0[j]);
                            assert(out0[j] == s.take(t)[j]);
                        } else {
                            assert(out@[t] == (s[t].0, s[t].1));
                        }
                    }
                }
            }
        }
    }
    proof {
        assert forall|s: Seq<(u32, u32)>|
            #[trigger] spec_iv_printing_of(indexes_str@, completions, s) implies out@ == s by {
            if out@.len() < s.len() {
                lemma_iv_str_at(s, out@.len() as int);
                lemma_token_chars(s[out@.len() as int]);
                assert(false);
            }
            assert(s.take(s.len() as int) =~= s);
        }
    }
    out
}

/// How many indexes an interval list covers.
pub open spec fn spec_iv_total(s: Seq<(u32, u32)>) -> nat
    decreases s.len(),
{
    if s.len() == 0 {
        0
    } else {
        spec_iv_total(s.drop_last()) + (s.last().1 - s.last().0 + 1) as nat
    }
}

/// Count the indexes an interval list covers.
pub fn iv_total(s: &Vec<(u32, u32)>) -> (r: u64)
    requires
        iv_wf(s@),
    ensures
        r == spec_iv_total(s@),
{
    let mut r: u64 = 0;
    let mut i: usize = 0;
    while i < s.len()
        invariant
            iv_wf(s@),
            i <= s@.len(),
            r == spec_iv_total(s@.take(i as int)),
            i > 0 ==> r <= s@[i - 1].1 + 1,
            i == 0 ==> r == 0,
        decreases s.len() - i,
    {
        proof {
            assert(s@.take(i + 1).drop_last() =~= s@.take(i as int));
            assert(s@.take(i + 1).last() == s@[i as int]);
            assert(s@[i as int].0 <= s@[i as int].1);
            if i > 0 {
                assert(s@[i - 1].1 < s@[i as int].0);
            }
        }
        let p = s[i];
        r = r + ((p.1 - p.0) as u64 + 1);
        i = i + 1;
    }
    proof {
        assert(s@.take(s@.len() as int) =~= s@);
    }
    r
}

/// A compressed list covers at most one past its last endpoint many
/// indexes.
proof fn lemma_iv_total_le_last(s: Seq<(u32, u32)>)
    requires
        iv_wf(s),
    ensures
        s.len() == 0 ==> spec_iv_total(s) == 0,
        s.len() > 0 ==> spec_iv_total(s) <= s.last().1 + 1,
    decreases s.len(),
{
    if s.len() > 0 {
        let d = s.drop_last();
        assert(iv_wf(d)) by {
            assert(forall|i: int| 0 <= i < d.len() ==> d[i] == s[i]);
        }
        lemma_iv_total_le_last(d);
        if s.len() > 1 {
            assert(d.last() == s[s.len() - 2]);
            assert(s[s.len() - 2].1 < s[s.len() - 1].0);
        }
    }
}

/// A sorted set of indexes, grown one at a time.
pub open spec fn u32set_put(s: Seq<u32>, x: u32) -> Seq<u32>
    decreases s.len(),
{
    if s.len() == 0 {
        seq![x]
    } else if s[0] < x {
        seq![s[0]] + u32set_put(s.drop_first(), x)
    } else if s[0] == x {
        s
    } else {
        seq![x] + s
    }
}

proof fn lemma_u32set_put_unfold(s: Seq<u32>, x: u32, i: int)
    requires
        forall|a: int, b: int| 0 <= a < b < s.len() ==> #[trigger] s[a] < #[trigger] s[b],
        0 <= i <= s.len(),
        forall|j: int| 0 <= j < i ==> #[trigger] s[j] < x,
        i < s.len() ==> s[i] >= x,
    ensures
        u32set_put(s, x) == if i < s.len() && s[i] == x {
            s
        } else {
            s.insert(i, x)
        },
    decreases i,
{
    if i == 0 {
        if s.len() == 0 {
            assert(u32set_put(s, x) =~= s.insert(0, x));
        } else if s[0] == x {
        } else {
            assert(u32set_put(s, x) =~= s.insert(0, x));
        }
    } else {
        let s1 = s.drop_first();
        assert(forall|a: int, b: int|
            0 <= a < b < s1.len() ==> #[trigger] s1[a] < #[trigger] s1[b]) by {
            assert(forall|a: int, b: int|
                0 <= a < b < s1.len() ==> #[trigger] s1[a] == s[a + 1] && #[trigger] s1[b] == s[b
                    + 1]);
        }
        assert(forall|j: int| 0 <= j < i - 1 ==> #[trigger] s1[j] < x) by {
            assert(forall|j: int| 0 <= j < i - 1 ==> #[trigger] s1[j] == s[j + 1]);
        }
        assert(i - 1 < s1.len() ==> s1[i - 1] >= x);
        lemma_u32set_put_unfold(s1, x, i - 1);
        assert(s[0] < x);
        assert(u32set_put(s, x) == seq![s[0]] + u32set_put(s1, x));
        if i < s.len() && s[i] == x {
            assert(s1[i - 1] == x);
            assert(seq![s[0]] + s1 =~= s);
        } else {
            assert(seq![s[0]] + s1.insert(i - 1, x) =~= s.insert(i, x));
        }
    }
}

/// Membership in the grown set is membership in the old set or the new key.
#[verifier::rlimit(100)]
#[verifier::spinoff_prover]
pub proof fn lemma_u32set_put_has(s: Seq<u32>, x: u32)
    requires
        forall|a: int, b: int| 0 <= a < b < s.len() ==> #[trigger] s[a] < #[trigger] s[b],
    ensures
        forall|a: int, b: int|
            0 <= a < b < u32set_put(s, x).len() ==> #[trigger] u32set_put(s, x)[a]
                < #[trigger] u32set_put(s, x)[b],
        forall|q: int|
            #[trigger] crate::utils::uset_covers(u32set_put(s, x), q)
                == (crate::utils::uset_covers(s, q) || q == x),
    decreases s.len(),
{
    let out = u32set_put(s, x);
    if s.len() == 0 {
        assert(out == seq![x]);
        assert(out[0] == x);
        assert forall|q: int|
            crate::utils::uset_covers(out, q) == (crate::utils::uset_covers(s, q) || q
                == x) by {
            if crate::utils::uset_covers(out, q) {
                let k = choose|k: int| 0 <= k < out.len() && #[trigger] out[k] == q;
                assert(out[k] == x);
            }
            if q == x {
                assert(out[0] == q);
            }
        }
    } else if s[0] < x {
        let s1 = s.drop_first();
        assert(forall|a: int, b: int|
            0 <= a < b < s1.len() ==> #[trigger] s1[a] < #[trigger] s1[b]) by {
            assert(forall|a: int, b: int|
                0 <= a < b < s1.len() ==> #[trigger] s1[a] == s[a + 1] && #[trigger] s1[b] == s[b
                    + 1]);
        }
        lemma_u32set_put_has(s1, x);
        let o1 = u32set_put(s1, x);
        assert(out == seq![s[0]] + o1);
        assert forall|a: int, b: int| 0 <= a < b < out.len() implies #[trigger] out[a]
            < #[trigger] out[b] by {
            if a == 0 {
                assert(out[b] == o1[b - 1]);
                assert(crate::utils::uset_covers(o1, o1[b - 1] as int)) by {
                    assert(o1[b - 1] == o1[b - 1]);
                }
                if crate::utils::uset_covers(s1, o1[b - 1] as int) {
                    let k = choose|k: int| 0 <= k < s1.len() && #[trigger] s1[k] == o1[b - 1];
                    assert(s1[k] == s[k + 1]);
                } else {
                    assert(o1[b - 1] == x);
                }
            } else {
                assert(out[a] == o1[a - 1] && out[b] == o1[b - 1]);
            }
        }
        assert forall|q: int|
            crate::utils::uset_covers(out, q) == (crate::utils::uset_covers(s, q) || q
                == x) by {
            if crate::utils::uset_covers(out, q) {
                let k = choose|k: int| 0 <= k < out.len() && #[trigger] out[k] == q;
                if k == 0 {
                    assert(s[0] == q);
                } else {
                    assert((seq![s[0]] + o1)[k] == o1[k - 1]);
                    assert(o1[k - 1] == q);
                    assert(crate::utils::uset_covers(o1, q));
                    if crate::utils::uset_covers(s1, q) {
                        let w = choose|w: int| 0 <= w < s1.len() && #[trigger] s1[w] == q;
                        assert(s[w + 1] == q);
                    }
                }
            }
            if crate::utils::uset_covers(s, q) {
                let k = choose|k: int| 0 <= k < s.len() && #[trigger] s[k] == q;
                if k == 0 {
                    assert(out[0] == q);
                } else {
                    assert(s1[k - 1] == q);
                    assert(crate::utils::uset_covers(o1, q)) by {
                        assert(o1 == u32set_put(s1, x));
                    }
                    let w = choose|w: int| 0 <= w < o1.len() && #[trigger] o1[w] == q;
                    assert((seq![s[0]] + o1)[w + 1] == o1[w]);
                    assert(out[w + 1] == q);
                }
            }
            if q == x {
                assert(crate::utils::uset_covers(o1, q)) by {
                    assert(o1 == u32set_put(s1, x));
                }
                let w = choose|w: int| 0 <= w < o1.len() && #[trigger] o1[w] == q;
                assert((seq![s[0]] + o1)[w + 1] == o1[w]);
                assert(out[w + 1] == q);
            }
        }
    } else if s[0] == x {
        assert(out == s);
        assert forall|q: int|
            crate::utils::uset_covers(out, q) == (crate::utils::uset_covers(s, q) || q
                == x) by {
            if q == x {
                assert(out[0] == q);
            }
        }
    } else {
        assert(out == seq![x] + s);
        assert forall|a: int, b: int| 0 <= a < b < out.len() implies #[trigger] out[a]
            < #[trigger] out[b] by {
            if a == 0 {
                assert(out[b] == s[b - 1]);
                if b > 1 {
                    assert(s[0] < s[b - 1]);
                }
            } else {
                assert(out[a] == s[a - 1] && out[b] == s[b - 1]);
            }
        }
        assert forall|q: int|
            crate::utils::uset_covers(out, q) == (crate::utils::uset_covers(s, q) || q
                == x) by {
            if crate::utils::uset_covers(out, q) {
                let k = choose|k: int| 0 <= k < out.len() && #[trigger] out[k] == q;
                if k > 0 {
                    assert(s[k - 1] == q);
                }
            }
            if crate::utils::uset_covers(s, q) {
                let k = choose|k: int| 0 <= k < s.len() && #[trigger] s[k] == q;
                assert(out[k + 1] == q);
            }
            if q == x {
                assert(out[0] == q);
            }
        }
    }
}

/// Add an index to a sorted set of indexes.
pub fn u32set_insert(v: &mut Vec<u32>, x: u32)
    requires
        forall|a: int, b: int|
            0 <= a < b < old(v)@.len() ==> #[trigger] old(v)@[a] < #[trigger] old(v)@[b],
    ensures
        final(v)@ == u32set_put(old(v)@, x),
{
    let ghost s0 = old(v)@;
    let mut i: usize = 0;
    while i < v.len() && v[i] < x
        invariant
            v@ == s0,
            i <= s0.len(),
            forall|a: int, b: int| 0 <= a < b < s0.len() ==> #[trigger] s0[a] < #[trigger] s0[b],
            forall|j: int| 0 <= j < i ==> #[trigger] s0[j] < x,
        decreases v.len() - i,
    {
        i = i + 1;
    }
    proof {
        lemma_u32set_put_unfold(s0, x, i as int);
    }
    if i < v.len() && v[i] == x {
        return ;
    }
    v.insert(i, x);
}

/// The indexes of the succeeded, still-tracked pods of an indexed job, as a
/// sorted set.
pub open spec fn spec_succeeded_index(j: JobView, pods: Seq<PodView>, x: int) -> bool {
    exists|i: int|
        0 <= i < pods.len() && spec_completion_index((#[trigger] pods[i]).metadata.annotations)
            == Some(x as u32) && 0 <= x < spec_completions_or_zero(j) && pods[i].status.phase
            == PodPhase::Succeeded && spec_has_tracking_finalizer(pods[i])
}

/// The old and new succeeded-index lists of an indexed job: the old one read
/// from the recorded interval string, the new one merged with the indexes of
/// succeeded pods that still carry the tracking finalizer.
#[verifier::rlimit(100)]
#[verifier::spinoff_prover]
pub fn calculate_succeeded_indexes(job: &Job, pods: &Vec<Pod>) -> (r: (
    Vec<(u32, u32)>,
    Vec<(u32, u32)>,
))
    ensures
        iv_canonical(r.0@),
        iv_canonical(r.1@),
        forall|x: int|
            #[trigger] iv_covers(r.1@, x) == (iv_covers(r.0@, x) || spec_succeeded_index(
                job@,
                pods.deep_view(),
                x,
            )),
        forall|k: int| 0 <= k < r.1@.len() ==> (#[trigger] r.1@[k]).1 < spec_completions_or_zero(
            job@,
        ) || iv_covers(r.0@, r.1@[k].1 as int),
        forall|s: Seq<(u32, u32)>|
            #[trigger] spec_iv_printing_of(
                job@.status.completed_indexes,
                spec_completions_or_zero(job@) as u32,
                s,
            ) ==> r.0@ == s,
        spec_status_printed(job@) ==> r.1@ == spec_indexed_merged(job@, pods.deep_view()),
{
    let completions = match job.spec.completions {
        Some(c) => c,
        None => 0,
    };
    proof {
        assert(completions == spec_completions_or_zero(job@) as u32);
    }
    let prev = parse_indexes_from_string(job.status.completed_indexes.as_str(), completions);
    let ghost pv = pods.deep_view();
    let ghost jv = job@;
    let mut new_idx: Vec<u32> = Vec::new();
    let mut i: usize = 0;
    while i < pods.len()
        invariant
            pv == pods.deep_view(),
            jv == job@,
            completions as nat == spec_completions_or_zero(jv),
            i <= pods@.len() == pv.len(),
            forall|a: int, b: int|
                0 <= a < b < new_idx@.len() ==> #[trigger] new_idx@[a] < #[trigger] new_idx@[b],
            forall|q: int|
                crate::utils::uset_covers(new_idx@, q) == exists|k: int|
                    0 <= k < i && spec_completion_index(
                        (#[trigger] pv[k]).metadata.annotations,
                    ) == Some(q as u32) && 0 <= q < completions && pv[k].status.phase
                        == PodPhase::Succeeded && spec_has_tracking_finalizer(pv[k]),
        decreases pods.len() - i,
    {
        proof {
            assert(pv[i as int] == pods@[i as int].deep_view());
        }
        let ghost before = new_idx@;
        let p = &pods[i];
        match get_completion_index(&p.metadata.annotations) {
            Some(ix) => {
                if p.status.phase == PodPhase::Succeeded && ix < completions
                    && has_job_tracking_finalizer(p) {
                    proof {
                        lemma_u32set_put_has(before, ix);
                    }
                    u32set_insert(&mut new_idx, ix);
                    proof {
                        assert forall|q: int|
                            crate::utils::uset_covers(new_idx@, q) == exists|k: int|
                                0 <= k < i + 1 && spec_completion_index(
                                    (#[trigger] pv[k]).metadata.annotations,
                                ) == Some(q as u32) && 0 <= q < completions && pv[k].status.phase
                                    == PodPhase::Succeeded && spec_has_tracking_finalizer(
                                    pv[k],
                                ) by {
                            if crate::utils::uset_covers(new_idx@, q) {
                                if q == ix {
                                    assert(spec_completion_index(pv[i as int].metadata.annotations)
                                        == Some(q as u32));
                                } else {
                                    assert(crate::utils::uset_covers(before, q));
                                }
                            }
                            if exists|k: int|
                                0 <= k < i + 1 && spec_completion_index(
                                    (#[trigger] pv[k]).metadata.annotations,
                                ) == Some(q as u32) && 0 <= q < completions && pv[k].status.phase
                                    == PodPhase::Succeeded && spec_has_tracking_finalizer(pv[k]) {
                                let k = choose|k: int|
                                    0 <= k < i + 1 && spec_completion_index(
                                        (#[trigger] pv[k]).metadata.annotations,
                                    ) == Some(q as u32) && 0 <= q < completions
                                        && pv[k].status.phase == PodPhase::Succeeded
                                        && spec_has_tracking_finalizer(pv[k]);
                                if k < i {
                                    assert(crate::utils::uset_covers(before, q));
                                    assert(crate::utils::uset_covers(new_idx@, q));
                                } else {
                                    assert(q == ix);
                                    assert(crate::utils::uset_covers(new_idx@, q));
                                }
                            }
                        }
                    }
                } else {
                    proof {
                        assert forall|q: int|
                            crate::utils::uset_covers(new_idx@, q) == exists|k: int|
                                0 <= k < i + 1 && spec_completion_index(
                                    (#[trigger] pv[k]).metadata.annotations,
                                ) == Some(q as u32) && 0 <= q < completions && pv[k].status.phase
                                    == PodPhase::Succeeded && spec_has_tracking_finalizer(
                                    pv[k],
                                ) by {
                            if exists|k: int|
                                0 <= k < i + 1 && spec_completion_index(
                                    (#[trigger] pv[k]).metadata.annotations,
                                ) == Some(q as u32) && 0 <= q < completions && pv[k].status.phase
                                    == PodPhase::Succeeded && spec_has_tracking_finalizer(pv[k]) {
                                let k = choose|k: int|
                                    0 <= k < i + 1 && spec_completion_index(
                                        (#[trigger] pv[k]).metadata.annotations,
                                    ) == Some(q as u32) && 0 <= q < completions
                                        && pv[k].status.phase == PodPhase::Succeeded
                                        && spec_has_tracking_finalizer(pv[k]);
                                assert(k < i);
                            }
                        }
                    }
                }
            },
            None => {
                proof {
                    assert forall|q: int|
                        crate::utils::uset_covers(new_idx@, q) == exists|k: int|
                            0 <= k < i + 1 && spec_completion_index(
                                (#[trigger] pv[k]).metadata.annotations,
                            ) == Some(q as u32) && 0 <= q < completions && pv[k].status.phase
                                == PodPhase::Succeeded && spec_has_tracking_finalizer(pv[k]) by {
                        if exists|k: int|
                            0 <= k < i + 1 && spec_completion_index(
                                (#[trigger] pv[k]).metadata.annotations,
                            ) == Some(q as u32) && 0 <= q < completions && pv[k].status.phase
                                == PodPhase::Succeeded && spec_has_tracking_finalizer(pv[k]) {
                            let k = choose|k: int|
                                0 <= k < i + 1 && spec_completion_index(
                                    (#[trigger] pv[k]).metadata.annotations,
                                ) == Some(q as u32) && 0 <= q < completions && pv[k].status.phase
                                    == PodPhase::Succeeded && spec_has_tracking_finalizer(pv[k]);
                            assert(k < i);
                        }
                    }
                }
            },
        }
        i = i + 1;
    }
    let merged = with_ordered_indexes(&prev, &new_idx);
    proof {
        assert forall|x: int| #[trigger] iv_covers(merged@, x) == (iv_covers(prev@, x)
            || spec_succeeded_index(jv, pv, x)) by {
            assert(iv_covers(merged@, x) == (iv_covers(prev@, x) || crate::utils::uset_covers(
                new_idx@,
                x,
            )));
            assert(crate::utils::uset_covers(new_idx@, x) == spec_succeeded_index(jv, pv, x));
        }
        assert forall|k: int| 0 <= k < merged@.len() implies (#[trigger] merged@[k]).1
            < spec_completions_or_zero(jv) || iv_covers(prev@, merged@[k].1 as int) by {
            assert(iv_covers(merged@, merged@[k].1 as int)) by {
                assert(merged@[k].0 <= merged@[k].1 as int <= merged@[k].1);
            }
            if !iv_covers(prev@, merged@[k].1 as int) {
                assert(spec_succeeded_index(jv, pv, merged@[k].1 as int));
            }
        }
        if spec_status_printed(jv) {
            lemma_calc_pinned(jv, pv, prev@, merged@);
        }
    }
    (prev, merged)
}

/// The pending indexes below the bound: those not covered by the merged
/// non-pending intervals, ascending.
pub open spec fn spec_pending_upto(np: Seq<(u32, u32)>, b: int) -> Seq<u32>
    decreases b,
{
    if b <= 0 {
        Seq::empty()
    } else {
        let p = spec_pending_upto(np, b - 1);
        if !iv_covers(np, b - 1) {
            p.push((b - 1) as u32)
        } else {
            p
        }
    }
}

/// Every pending sequence is a prefix of the longer ones.
proof fn lemma_pending_prefix(np: Seq<(u32, u32)>, a: int, b: int)
    requires
        0 <= a <= b,
    ensures
        spec_pending_upto(np, a) == spec_pending_upto(np, b).take(
            spec_pending_upto(np, a).len() as int,
        ),
        spec_pending_upto(np, a).len() <= spec_pending_upto(np, b).len(),
    decreases b - a,
{
    if a < b {
        lemma_pending_prefix(np, a, b - 1);
        let pa = spec_pending_upto(np, a);
        let pb1 = spec_pending_upto(np, b - 1);
        let pb = spec_pending_upto(np, b);
        if !iv_covers(np, b - 1) {
            assert(pb == pb1.push((b - 1) as u32));
            assert(pb.take(pa.len() as int) =~= pb1.take(pa.len() as int));
        }
    } else {
        assert(spec_pending_upto(np, a).take(spec_pending_upto(np, a).len() as int)
            =~= spec_pending_upto(np, a));
    }
}

/// Whether the interval list covers an index.
pub fn iv_contains(iv: &Vec<(u32, u32)>, x: u32) -> (r: bool)
    ensures
        r == iv_covers(iv@, x as int),
{
    let mut i: usize = 0;
    while i < iv.len()
        invariant
            i <= iv@.len(),
            forall|j: int| 0 <= j < i ==> !((#[trigger] iv@[j]).0 <= x as int <= iv@[j].1),
        decreases iv.len() - i,
    {
        if iv[i].0 <= x && x <= iv[i].1 {
            proof {
                assert(iv@[i as int].0 <= x as int <= iv@[i as int].1);
            }
            return true;
        }
        i = i + 1;
    }
    proof {
        if iv_covers(iv@, x as int) {
            let w = choose|w: int| 0 <= w < iv@.len() && (#[trigger] iv@[w]).0 <= x as int
                <= iv@[w].1;
            assert(false);
        }
    }
    false
}

/// An index is non-pending for the job: already succeeded, carried by an
/// active pod, or (for a job that only replaces failed pods) carried by a
/// terminating pod.
pub open spec fn spec_non_pending(
    j: JobView,
    succ: Seq<(u32, u32)>,
    active: Seq<PodView>,
    pods: Seq<PodView>,
    x: int,
) -> bool {
    iv_covers(succ, x) || crate::utils::uset_covers(spec_indexes_of(active), x) || (
    spec_only_replace_failed_pods(j) && crate::utils::uset_covers(
        spec_indexes_of(pods.filter(|p: PodView| spec_pod_terminating(p))),
        x,
    ))
}

/// The pending sequence holds exactly the uncovered indexes below the bound,
/// in ascending order.
proof fn lemma_pending_props(np: Seq<(u32, u32)>, b: int)
    requires
        b <= u32::MAX + 1,
    ensures
        forall|a2: int, b2: int|
            0 <= a2 < b2 < spec_pending_upto(np, b).len() ==> #[trigger] spec_pending_upto(
                np,
                b,
            )[a2] < #[trigger] spec_pending_upto(np, b)[b2],
        forall|k: int|
            0 <= k < spec_pending_upto(np, b).len() ==> 0 <= #[trigger] spec_pending_upto(
                np,
                b,
            )[k] < b && !iv_covers(np, spec_pending_upto(np, b)[k] as int),
        forall|x: int|
            0 <= x < b && !iv_covers(np, x) ==> #[trigger] crate::utils::uset_covers(
                spec_pending_upto(np, b),
                x,
            ),
    decreases b,
{
    if b > 0 {
        lemma_pending_props(np, b - 1);
        let p = spec_pending_upto(np, b - 1);
        let q = spec_pending_upto(np, b);
        if !iv_covers(np, b - 1) {
            assert(q == p.push((b - 1) as u32));
            assert forall|a2: int, b2: int| 0 <= a2 < b2 < q.len() implies #[trigger] q[a2]
                < #[trigger] q[b2] by {
                if b2 < p.len() {
                    assert(p.push((b - 1) as u32)[a2] == p[a2]);
                    assert(p.push((b - 1) as u32)[b2] == p[b2]);
                    assert(p[a2] < p[b2]);
                } else {
                    assert(p.push((b - 1) as u32)[b2] == (b - 1) as u32);
                    assert(p.push((b - 1) as u32)[a2] == p[a2]);
                    assert(p[a2] < b - 1);
                }
            }
            assert forall|x: int|
                0 <= x < b && !iv_covers(np, x) implies crate::utils::uset_covers(q, x) by {
                if x < b - 1 {
                    assert(crate::utils::uset_covers(p, x));
                    let w = choose|w: int| 0 <= w < p.len() && #[trigger] p[w] == x;
                    assert(p.push((b - 1) as u32)[w] == p[w]);
                    assert(q[w] == x);
                } else {
                    assert(x == b - 1);
                    assert(p.push((b - 1) as u32)[p.len() as int] == (b - 1) as u32);
                    assert(q[q.len() - 1] == (b - 1) as u32);
                }
            }
        } else {
            assert(q == p);
        }
    }
}

/// The lowest `count` completion indexes that are neither succeeded, active
/// nor (for a job that only replaces failed pods) terminating: ascending,
/// all pending, and missing a pending index only past its last entry once
/// `count` are found.
pub fn first_pending_indexes(
    count: usize,
    completions: u32,
    pods: &Vec<Pod>,
    active_pods: &Vec<Pod>,
    job: &Job,
    succeeded_indexes: &Vec<(u32, u32)>,
) -> (r: Vec<u32>)
    requires
        iv_wf(succeeded_indexes@),
    ensures
        r@.len() <= count,
        forall|a2: int, b2: int| 0 <= a2 < b2 < r@.len() ==> #[trigger] r@[a2] < #[trigger] r@[b2],
        forall|k: int|
            0 <= k < r@.len() ==> (#[trigger] r@[k]) < completions && !spec_non_pending(
                job@,
                succeeded_indexes@,
                active_pods.deep_view(),
                pods.deep_view(),
                r@[k] as int,
            ),
        forall|x: int|
            0 <= x < completions && !spec_non_pending(
                job@,
                succeeded_indexes@,
                active_pods.deep_view(),
                pods.deep_view(),
                x,
            ) && (r@.len() < count || (r@.len() > 0 && x <= r@.last() as int))
                ==> crate::utils::uset_covers(r@, x),
{
    let ghost jv = job@;
    let ghost sv = succeeded_indexes@;
    let ghost av = active_pods.deep_view();
    let ghost allv = pods.deep_view();
    let active_idx = get_indexes_sorted(active_pods);
    let mut non_pending = with_ordered_indexes(succeeded_indexes, &active_idx);
    let replace_only = only_replace_failed_pods(job);
    if replace_only {
        let terminating = filter_terminating_pods(pods);
        let term_idx = get_indexes_sorted(&terminating);
        let merged = with_ordered_indexes(&non_pending, &term_idx);
        non_pending = merged;
    }
    let ghost np = non_pending@;
    proof {
        assert forall|x: int|
            iv_covers(np, x) == spec_non_pending(jv, sv, av, allv, x) by {}
    }
    let mut r: Vec<u32> = Vec::new();
    let mut x: u32 = 0;
    while x < completions && r.len() < count
        invariant
            np == non_pending@,
            0 <= x <= completions,
            r@.len() <= count,
            r@ == spec_pending_upto(np, x as int),
        decreases completions - x,
    {
        if !iv_contains(&non_pending, x) {
            r.push(x);
        }
        x = x + 1;
    }
    proof {
        lemma_pending_props(np, x as int);
        lemma_pending_props(np, completions as int);
        lemma_pending_prefix(np, x as int, completions as int);
        let full = spec_pending_upto(np, completions as int);
        assert forall|q: int|
            0 <= q < completions && !spec_non_pending(jv, sv, av, allv, q) && (r@.len() < count
                || (r@.len() > 0 && q <= r@.last() as int)) implies crate::utils::uset_covers(
            r@,
            q,
        ) by {
            assert(!iv_covers(np, q));
            assert(crate::utils::uset_covers(full, q));
            let w = choose|w: int| 0 <= w < full.len() && #[trigger] full[w] == q;
            if r@.len() < count {
                // the scan ran out of indexes, so everything pending is here
                assert(x == completions);
                assert(r@ == full.take(r@.len() as int));
                assert(r@.len() == full.len());
                assert(r@ =~= full);
                assert(r@[w] == q);
            } else {
                // `q` is at most the last entry, so it sits inside the prefix
                assert(r@.len() > 0);
                assert(r@ == full.take(r@.len() as int));
                assert(r@.last() == full[r@.len() - 1]);
                if w >= r@.len() {
                    assert(full[r@.len() - 1] < full[w]);
                    assert(false);
                }
                assert(r@[w] == q);
            }
        }
    }
    r
}

/// The completion indexes the pods carry, as a sorted set.
pub open spec fn spec_indexes_of(pods: Seq<PodView>) -> Seq<u32>
    decreases pods.len(),
{
    if pods.len() == 0 {
        Seq::empty()
    } else {
        let rest = spec_indexes_of(pods.drop_last());
        match spec_completion_index(pods.last().metadata.annotations) {
            Some(ix) => u32set_put(rest, ix),
            None => rest,
        }
    }
}

/// Collect the completion indexes of these pods into a sorted set.
pub fn get_indexes_sorted(pods: &Vec<Pod>) -> (r: Vec<u32>)
    ensures
        r@ == spec_indexes_of(pods.deep_view()),
        forall|a: int, b: int| 0 <= a < b < r@.len() ==> #[trigger] r@[a] < #[trigger] r@[b],
{
    let ghost pv = pods.deep_view();
    let mut r: Vec<u32> = Vec::new();
    let mut i: usize = 0;
    while i < pods.len()
        invariant
            pv == pods.deep_view(),
            i <= pods@.len() == pv.len(),
            r@ == spec_indexes_of(pv.take(i as int)),
            forall|a: int, b: int| 0 <= a < b < r@.len() ==> #[trigger] r@[a] < #[trigger] r@[b],
        decreases pods.len() - i,
    {
        proof {
            assert(pv[i as int] == pods@[i as int].deep_view());
            assert(pv.take(i + 1).drop_last() =~= pv.take(i as int));
            assert(pv.take(i + 1).last() == pv[i as int]);
        }
        match get_completion_index(&pods[i].metadata.annotations) {
            Some(ix) => {
                proof {
                    lemma_u32set_put_has(r@, ix);
                }
                u32set_insert(&mut r, ix);
            },
            None => {},
        }
        i = i + 1;
    }
    proof {
        assert(pv.take(pv.len() as int) =~= pv);
    }
    r
}

/// The completion indexes the pods carry; kept for callers that want the
/// plain list.
pub fn get_indexes(pods: &Vec<Pod>) -> (r: Vec<u32>)
    ensures
        r@ == spec_indexes_of(pods.deep_view()),
{
    get_indexes_sorted(pods)
}


// ---------------------------------------------------------------------------
// Choosing pods to remove
// ---------------------------------------------------------------------------

/// The removal order on active pods, least valuable first: unassigned before
/// assigned, pending before unknown before running, not ready before ready,
/// most recently ready first, more container restarts first, and finally
/// newest first with never-created sorting before everything.
pub open spec fn spec_pod_rank(p: PodView) -> (int, int, int, int, int, int) {
    (
        if p.spec.node_name is Some {
            1
        } else {
            0
        },
        match p.status.phase {
            PodPhase::Pending => 0,
            PodPhase::Unknown => 1,
            PodPhase::Running => 2,
            PodPhase::Succeeded => 3,
            PodPhase::Failed => 4,
        },
        if spec_pod_ready(p) {
            1
        } else {
            0
        },
        if spec_pod_ready(p) {
            match spec_pod_ready_time(p) {
                None => 0,
                Some(t) => u64::MAX - t.0,
            }
        } else {
            0
        },
        u32::MAX - spec_max_restarts(p),
        match p.metadata.creation_timestamp {
            None => 0,
            Some(t) => u64::MAX - t.0,
        },
    )
}

/// The first time at which the pod's `Ready` condition became true, if it is
/// ready now.
pub open spec fn spec_pod_ready_time(p: PodView) -> Option<Time> {
    if spec_pod_ready(p) {
        spec_first_ready_time(p.status.conditions)
    } else {
        None
    }
}

/// The transition time of the first true `Ready` condition.
pub open spec fn spec_first_ready_time(conds: Seq<PodCondition>) -> Option<Time>
    decreases conds.len(),
{
    if conds.len() == 0 {
        None
    } else if conds[0].cond_type == PodConditionType::Ready && conds[0].status
        == ConditionStatus::True {
        conds[0].last_transition_time
    } else {
        spec_first_ready_time(conds.drop_first())
    }
}

/// The time the pod became ready, if it is ready.
pub fn pod_ready_time(pod: &Pod) -> (r: Option<Time>)
    ensures
        r == spec_pod_ready_time(pod@),
{
    if !is_pod_ready(pod) {
        return None;
    }
    let ghost cv = pod@.status.conditions;
    proof {
        assert(cv.skip(0) =~= cv);
    }
    let mut i: usize = 0;
    while i < pod.status.conditions.len()
        invariant
            cv == pod@.status.conditions,
            i <= pod.status.conditions@.len() == cv.len(),
            spec_first_ready_time(cv) == spec_first_ready_time(cv.skip(i as int)),
        decreases pod.status.conditions.len() - i,
    {
        proof {
            assert(cv[i as int] == pod.status.conditions@[i as int].deep_view());
            assert(cv.skip(i as int)[0] == cv[i as int]);
            assert(cv.skip(i as int).drop_first() =~= cv.skip(i + 1));
        }
        let c = pod.status.conditions[i];
        if c.cond_type == PodConditionType::Ready && c.status == ConditionStatus::True {
            return c.last_transition_time;
        }
        i = i + 1;
    }
    proof {
        assert(cv.skip(cv.len() as int) =~= Seq::<PodCondition>::empty());
    }
    None
}

/// The largest restart count among the pod's main containers.
pub open spec fn spec_max_restarts(p: PodView) -> u32 {
    spec_max_restarts_of(p.status.container_statuses)
}

pub open spec fn spec_max_restarts_of(css: Seq<crate::resources::ContainerStatusView>) -> u32
    decreases css.len(),
{
    if css.len() == 0 {
        0
    } else {
        let rest = spec_max_restarts_of(css.drop_last());
        if css.last().restart_count > rest {
            css.last().restart_count
        } else {
            rest
        }
    }
}

/// The largest restart count among the pod's main containers.
pub fn max_container_restarts(pod: &Pod) -> (r: u32)
    ensures
        r == spec_max_restarts(pod@),
{
    let ghost cv = pod@.status.container_statuses;
    let mut r: u32 = 0;
    let mut i: usize = 0;
    while i < pod.status.container_statuses.len()
        invariant
            cv == pod@.status.container_statuses,
            i <= pod.status.container_statuses@.len() == cv.len(),
            r == spec_max_restarts_of(cv.take(i as int)),
        decreases pod.status.container_statuses.len() - i,
    {
        proof {
            assert(cv[i as int] == pod.status.container_statuses@[i as int].deep_view());
            assert(cv.take(i + 1).drop_last() =~= cv.take(i as int));
            assert(cv.take(i + 1).last() == cv[i as int]);
        }
        let c = pod.status.container_statuses[i].restart_count;
        if c > r {
            r = c;
        }
        i = i + 1;
    }
    proof {
        assert(cv.take(cv.len() as int) =~= cv);
    }
    r
}

/// One pod sorts at or before another in removal order.
pub open spec fn spec_pod_le(a: PodView, b: PodView) -> bool {
    let ra = spec_pod_rank(a);
    let rb = spec_pod_rank(b);
    if ra.0 != rb.0 {
        ra.0 < rb.0
    } else if ra.1 != rb.1 {
        ra.1 < rb.1
    } else if ra.2 != rb.2 {
        ra.2 < rb.2
    } else if ra.3 != rb.3 {
        ra.3 < rb.3
    } else if ra.4 != rb.4 {
        ra.4 < rb.4
    } else {
        ra.5 <= rb.5
    }
}

/// Whether the first pod comes no later than the second, by the timestamp
/// keys: an absent time sorts first, a later time before an earlier one.
pub fn after_or_zero(t1: &Option<Time>, t2: &Option<Time>) -> (r: bool)
    ensures
        r == ({
            let k1 = match *t1 {
                None => 0,
                Some(t) => u64::MAX - t.0,
            };
            let k2 = match *t2 {
                None => 0,
                Some(t) => u64::MAX - t.0,
            };
            k1 <= k2
        }),
{
    let k1: u64 = match t1 {
        None => 0,
        Some(t) => u64::MAX - t.0,
    };
    let k2: u64 = match t2 {
        None => 0,
        Some(t) => u64::MAX - t.0,
    };
    k1 <= k2
}

/// Decide the removal order of two pods.
pub fn pod_le(a: &Pod, b: &Pod) -> (r: bool)
    ensures
        r == spec_pod_le(a@, b@),
{
    let a0: u64 = if a.spec.node_name.is_some() {
        1
    } else {
        0
    };
    let b0: u64 = if b.spec.node_name.is_some() {
        1
    } else {
        0
    };
    if a0 != b0 {
        return a0 < b0;
    }
    let a1: u64 = match a.status.phase {
        PodPhase::Pending => 0,
        PodPhase::Unknown => 1,
        PodPhase::Running => 2,
        PodPhase::Succeeded => 3,
        PodPhase::Failed => 4,
    };
    let b1: u64 = match b.status.phase {
        PodPhase::Pending => 0,
        PodPhase::Unknown => 1,
        PodPhase::Running => 2,
        PodPhase::Succeeded => 3,
        PodPhase::Failed => 4,
    };
    if a1 != b1 {
        return a1 < b1;
    }
    let ra = is_pod_ready(a);
    let rb = is_pod_ready(b);
    let a2: u64 = if ra {
        1
    } else {
        0
    };
    let b2: u64 = if rb {
        1
    } else {
        0
    };
    if a2 != b2 {
        return a2 < b2;
    }
    let a3: u64 = if ra {
        match pod_ready_time(a) {
            None => 0,
            Some(t) => u64::MAX - t.0,
        }
    } else {
        0
    };
    let b3: u64 = if rb {
        match pod_ready_time(b) {
            None => 0,
            Some(t) => u64::MAX - t.0,
        }
    } else {
        0
    };
    if a3 != b3 {
        return a3 < b3;
    }
    let a4 = u32::MAX - max_container_restarts(a);
    let b4 = u32::MAX - max_container_restarts(b);
    if a4 != b4 {
        return a4 < b4;
    }
    let a5: u64 = match a.metadata.creation_timestamp {
        None => 0,
        Some(t) => u64::MAX - t.0,
    };
    let b5: u64 = match b.metadata.creation_timestamp {
        None => 0,
        Some(t) => u64::MAX - t.0,
    };
    a5 <= b5
}

/// A list of pods sorted in removal order.
pub open spec fn spec_sorted_pods(s: Seq<PodView>) -> bool {
    forall|i: int, j: int|
        0 <= i < j < s.len() ==> spec_pod_le(#[trigger] s[i], #[trigger] s[j])
}

/// A pod inserted behind every pod that sorts at or before it.
pub open spec fn spec_sorted_insert(s: Seq<PodView>, p: PodView) -> Seq<PodView>
    decreases s.len(),
{
    if s.len() == 0 {
        seq![p]
    } else if spec_pod_le(s[0], p) {
        seq![s[0]] + spec_sorted_insert(s.drop_first(), p)
    } else {
        seq![p] + s
    }
}

/// A list of pods sorted in removal order by repeated insertion.
pub open spec fn spec_sort_pods(s: Seq<PodView>) -> Seq<PodView>
    decreases s.len(),
{
    if s.len() == 0 {
        Seq::empty()
    } else {
        spec_sorted_insert(spec_sort_pods(s.drop_last()), s.last())
    }
}

proof fn lemma_sorted_insert_unfold(s: Seq<PodView>, p: PodView, i: int)
    requires
        0 <= i <= s.len(),
        forall|j: int| 0 <= j < i ==> spec_pod_le(#[trigger] s[j], p),
        i < s.len() ==> !spec_pod_le(s[i], p),
    ensures
        spec_sorted_insert(s, p) == s.insert(i, p),
    decreases i,
{
    if i == 0 {
        if s.len() == 0 {
            assert(spec_sorted_insert(s, p) =~= s.insert(0, p));
        } else {
            assert(spec_sorted_insert(s, p) =~= s.insert(0, p));
        }
    } else {
        let s1 = s.drop_first();
        assert(forall|j: int| 0 <= j < i - 1 ==> spec_pod_le(#[trigger] s1[j], p)) by {
            assert(forall|j: int| 0 <= j < i - 1 ==> #[trigger] s1[j] == s[j + 1]);
        }
        assert(i - 1 < s1.len() ==> !spec_pod_le(s1[i - 1], p));
        lemma_sorted_insert_unfold(s1, p, i - 1);
        assert(spec_pod_le(s[0], p));
        assert(spec_sorted_insert(s, p) == seq![s[0]] + spec_sorted_insert(s1, p));
        assert(seq![s[0]] + s1.insert(i - 1, p) =~= s.insert(i, p));
    }
}

/// Sorting by insertion keeps the list sorted: the order is total and
/// transitive because it compares plain keys lexicographically.
pub proof fn lemma_sorted_insert_sorted(s: Seq<PodView>, p: PodView)
    requires
        spec_sorted_pods(s),
    ensures
        spec_sorted_pods(spec_sorted_insert(s, p)),
        spec_sorted_insert(s, p).len() == s.len() + 1,
    decreases s.len(),
{
    let out = spec_sorted_insert(s, p);
    if s.len() == 0 {
    } else if spec_pod_le(s[0], p) {
        let s1 = s.drop_first();
        assert(spec_sorted_pods(s1)) by {
            assert(forall|i: int, j: int|
                0 <= i < j < s1.len() ==> #[trigger] s1[i] == s[i + 1] && #[trigger] s1[j] == s[j
                    + 1]);
        }
        lemma_sorted_insert_sorted(s1, p);
        let o1 = spec_sorted_insert(s1, p);
        assert(out == seq![s[0]] + o1);
        assert forall|i: int, j: int| 0 <= i < j < out.len() implies spec_pod_le(
            #[trigger] out[i],
            #[trigger] out[j],
        ) by {
            if i == 0 {
                assert(out[j] == o1[j - 1]);
                lemma_sorted_insert_mem(s1, p, j - 1);
                if o1[j - 1] == p {
                    assert(spec_pod_le(s[0], p));
                } else {
                    let w = choose|w: int| 0 <= w < s1.len() && s1[w] == o1[j - 1];
                    assert(s1[w] == s[w + 1]);
                    assert(spec_pod_le(s[0], s[w + 1]));
                }
            } else {
                assert(out[i] == o1[i - 1] && out[j] == o1[j - 1]);
            }
        }
    } else {
        assert(out == seq![p] + s);
        assert forall|i: int, j: int| 0 <= i < j < out.len() implies spec_pod_le(
            #[trigger] out[i],
            #[trigger] out[j],
        ) by {
            if i == 0 {
                assert(out[j] == s[j - 1]);
                assert(!spec_pod_le(s[0], p));
                assert(spec_pod_le(p, s[0]));
                if j > 1 {
                    assert(spec_pod_le(s[0], s[j - 1]));
                }
            } else {
                assert(out[i] == s[i - 1] && out[j] == s[j - 1]);
            }
        }
    }
}

/// Everything in an insertion result is the new pod or one of the old ones.
proof fn lemma_sorted_insert_mem(s: Seq<PodView>, p: PodView, k: int)
    requires
        0 <= k < spec_sorted_insert(s, p).len(),
    ensures
        spec_sorted_insert(s, p)[k] == p || exists|w: int|
            0 <= w < s.len() && #[trigger] s[w] == spec_sorted_insert(s, p)[k],
    decreases s.len(),
{
    let out = spec_sorted_insert(s, p);
    if s.len() == 0 {
    } else if spec_pod_le(s[0], p) {
        let s1 = s.drop_first();
        let o1 = spec_sorted_insert(s1, p);
        assert(out == seq![s[0]] + o1);
        if k == 0 {
            assert(s[0] == out[0]);
        } else {
            lemma_sorted_insert_mem(s1, p, k - 1);
            assert(out[k] == o1[k - 1]);
            if o1[k - 1] != p {
                let w = choose|w: int| 0 <= w < s1.len() && #[trigger] s1[w] == o1[k - 1];
                assert(s[w + 1] == out[k]);
            }
        }
    } else {
        assert(out == seq![p] + s);
        if k > 0 {
            assert(s[k - 1] == out[k]);
        }
    }
}

/// Sort the pods in removal order, least valuable first.
pub fn sort_active_pods(pods: &mut Vec<Pod>)
    ensures
        final(pods).deep_view() == spec_sort_pods(old(pods).deep_view()),
        spec_sorted_pods(final(pods).deep_view()),
{
    let ghost pv = old(pods).deep_view();
    let mut out: Vec<Pod> = Vec::new();
    let mut i: usize = 0;
    proof {
        assert(spec_sort_pods(pv.take(0)) =~= Seq::<PodView>::empty());
        assert(out.deep_view() =~= Seq::<PodView>::empty());
    }
    while i < pods.len()
        invariant
            pv == pods.deep_view(),
            i <= pods@.len() == pv.len(),
            out.deep_view() == spec_sort_pods(pv.take(i as int)),
            spec_sorted_pods(out.deep_view()),
        decreases pods.len() - i,
    {
        proof {
            assert(pv[i as int] == pods@[i as int].deep_view());
            assert(pv.take(i + 1).drop_last() =~= pv.take(i as int));
            assert(pv.take(i + 1).last() == pv[i as int]);
        }
        let ghost before = out.deep_view();
        let p = pods[i].deep_clone();
        // find the insertion point
        let mut k: usize = 0;
        while k < out.len() && pod_le(&out[k], &p)
            invariant
                before == out.deep_view(),
                k <= out@.len() == before.len(),
                p.deep_view() == pv[i as int],
                forall|j: int| 0 <= j < k ==> spec_pod_le(#[trigger] before[j], p.deep_view()),
            decreases out.len() - k,
        {
            proof {
                assert(before[k as int] == out@[k as int].deep_view());
            }
            k = k + 1;
        }
        proof {
            if k < out.len() {
                assert(before[k as int] == out@[k as int].deep_view());
            }
            lemma_sorted_insert_unfold(before, pv[i as int], k as int);
            lemma_sorted_insert_sorted(before, pv[i as int]);
        }
        let ghost pre = out@;
        out.insert(k, p);
        proof {
            assert forall|j: int| 0 <= j < out.deep_view().len() implies out.deep_view()[j]
                == before.insert(k as int, pv[i as int])[j] by {
                assert(out.deep_view()[j] == out@[j].deep_view());
                if j < k {
                    assert(out@[j] == pre[j]);
                    assert(before[j] == pre[j].deep_view());
                } else if j > k {
                    assert(out@[j] == pre[j - 1]);
                    assert(before[j - 1] == pre[j - 1].deep_view());
                }
            }
            assert(out.deep_view() =~= before.insert(k as int, pv[i as int]));
        }
        i = i + 1;
    }
    proof {
        assert(pv.take(pv.len() as int) =~= pv);
    }
    *pods = out;
}

/// Every sorted pod is one of the originals.
pub proof fn lemma_sort_pods_mem(s: Seq<PodView>, k: int)
    requires
        0 <= k < spec_sort_pods(s).len(),
    ensures
        spec_sort_pods(s).len() == s.len(),
        exists|w: int| 0 <= w < s.len() && #[trigger] s[w] == spec_sort_pods(s)[k],
    decreases s.len(),
{
    lemma_sort_pods_len(s);
    let out = spec_sort_pods(s);
    let s1 = s.drop_last();
    let o1 = spec_sort_pods(s1);
    lemma_sorted_insert_mem(o1, s.last(), k);
    if out[k] == s.last() {
        assert(s[s.len() - 1] == out[k]);
    } else {
        let w = choose|w: int| 0 <= w < o1.len() && #[trigger] o1[w] == out[k];
        lemma_sort_pods_len(s1);
        lemma_sort_pods_mem(s1, w);
        let v = choose|v: int| 0 <= v < s1.len() && #[trigger] s1[v] == o1[w];
        assert(s[v] == out[k]);
    }
}

/// Sorting keeps the length.
pub proof fn lemma_sort_pods_len(s: Seq<PodView>)
    ensures
        spec_sort_pods(s).len() == s.len(),
    decreases s.len(),
{
    if s.len() > 0 {
        let s1 = s.drop_last();
        lemma_sort_pods_len(s1);
        lemma_sorted_insert_len(spec_sort_pods(s1), s.last());
    }
}

proof fn lemma_sorted_insert_len(s: Seq<PodView>, p: PodView)
    ensures
        spec_sorted_insert(s, p).len() == s.len() + 1,
    decreases s.len(),
{
    if s.len() > 0 && spec_pod_le(s[0], p) {
        lemma_sorted_insert_len(s.drop_first(), p);
    }
}

/// Every pod appears in its own sort.
pub open spec fn spec_from(pods: Seq<PodView>, p: PodView) -> bool {
    exists|w: int| 0 <= w < pods.len() && #[trigger] pods[w] == p
}

/// The pod carries a completion index below the completion count.
pub open spec fn spec_valid_index(p: PodView, completions: u32) -> bool {
    spec_completion_index(p.metadata.annotations) matches Some(ix) && ix < completions
}

/// What splitting the pods of an indexed job yields: every pod lands in
/// exactly one of `rm` and `left`; `left` keeps exactly one pod per valid
/// completion index present — one that no pod of the same index outranks
/// under the removal order — and everything else, the pods without a valid
/// index and the outranked duplicates, goes to `rm`.
pub open spec fn dup_split_post(
    pv: Seq<PodView>,
    completions: u32,
    rmn: Seq<PodView>,
    leftn: Seq<PodView>,
) -> bool {
    &&& rmn.to_multiset().add(leftn.to_multiset()) == pv.to_multiset()
    &&& (forall|k: int| 0 <= k < leftn.len() ==> spec_valid_index(#[trigger] leftn[k], completions))
    &&& (forall|k: int, w: int|
        0 <= k < leftn.len() && 0 <= w < pv.len() && spec_completion_index(
            (#[trigger] pv[w]).metadata.annotations,
        ) == spec_completion_index((#[trigger] leftn[k]).metadata.annotations)
            ==> spec_pod_le(pv[w], leftn[k]))
    &&& (forall|k1: int, k2: int|
        0 <= k1 < k2 < leftn.len() ==> spec_completion_index(
            (#[trigger] leftn[k1]).metadata.annotations,
        ) != spec_completion_index((#[trigger] leftn[k2]).metadata.annotations))
    &&& (forall|w: int|
        0 <= w < pv.len() && spec_valid_index(#[trigger] pv[w], completions) ==> exists|k: int|
            0 <= k < leftn.len() && spec_completion_index(
                (#[trigger] leftn[k]).metadata.annotations,
            ) == spec_completion_index(pv[w].metadata.annotations))
}

/// Split the pods of an indexed job, starting from empty accumulators:
/// pods without a valid index and all but one pod of each duplicated index
/// go to `rm`, one pod per valid index — never outranked within its index —
/// goes to `left`; see [`dup_split_post`] for the exact split.
#[verifier::rlimit(100)]
#[verifier::spinoff_prover]
pub fn append_duplicated_index_pods_for_removal(
    rm: &mut Vec<Pod>,
    left: &mut Vec<Pod>,
    pods: &Vec<Pod>,
    completions: u32,
)
    requires
        old(rm)@.len() == 0,
        old(left)@.len() == 0,
    ensures
        final(rm).deep_view().len() + final(left).deep_view().len() == pods.deep_view().len(),
        forall|k: int|
            0 <= k < final(rm).deep_view().len() ==> spec_from(
                pods.deep_view(),
                #[trigger] final(rm).deep_view()[k],
            ),
        forall|k: int|
            0 <= k < final(left).deep_view().len() ==> spec_from(
                pods.deep_view(),
                #[trigger] final(left).deep_view()[k],
            ),
        dup_split_post(
            pods.deep_view(),
            completions,
            final(rm).deep_view(),
            final(left).deep_view(),
        ),
{
    broadcast use vstd::seq_lib::group_to_multiset_ensures;
    broadcast use vstd::multiset::group_multiset_axioms;

    let ghost pv = pods.deep_view();
    // order the pods by index so duplicates are adjacent
    let mut by_index = deep_clone_vec(pods);
    sort_pods_by_index(&mut by_index);
    let ghost bv = by_index.deep_view();
    proof {
        assert(rm.deep_view() =~= Seq::<PodView>::empty());
        assert(left.deep_view() =~= Seq::<PodView>::empty());
        assert(bv.take(0) =~= Seq::<PodView>::empty());
        assert(rm.deep_view().to_multiset().add(left.deep_view().to_multiset()) =~= bv.take(
            0,
        ).to_multiset());
    }
    let mut i: usize = 0;
    while i < by_index.len()
        invariant
            pv == pods.deep_view(),
            bv == by_index.deep_view(),
            i <= by_index@.len() == bv.len(),
            bv.len() == pv.len(),
            bv.to_multiset() == pv.to_multiset(),
            forall|k: int| 0 <= k < bv.len() ==> spec_from(pv, #[trigger] bv[k]),
            forall|a2: int, b2: int|
                0 <= a2 < b2 < bv.len() ==> spec_index_key(#[trigger] bv[a2]) <= spec_index_key(
                    #[trigger] bv[b2],
                ),
            rm.deep_view().len() + left.deep_view().len() == i,
            rm.deep_view().to_multiset().add(left.deep_view().to_multiset()) == bv.take(
                i as int,
            ).to_multiset(),
            forall|k: int| 0 <= k < rm.deep_view().len() ==> spec_from(
                pv,
                #[trigger] rm.deep_view()[k],
            ),
            forall|k: int| 0 <= k < left.deep_view().len() ==> spec_from(
                pv,
                #[trigger] left.deep_view()[k],
            ),
            forall|k: int|
                0 <= k < left.deep_view().len() ==> spec_valid_index(
                    #[trigger] left.deep_view()[k],
                    completions,
                ),
            forall|k: int, w: int|
                0 <= k < left.deep_view().len() && 0 <= w < i && spec_completion_index(
                    (#[trigger] bv[w]).metadata.annotations,
                ) == spec_completion_index(
                    (#[trigger] left.deep_view()[k]).metadata.annotations,
                ) ==> spec_pod_le(bv[w], left.deep_view()[k]),
            forall|k1: int, k2: int|
                0 <= k1 < k2 < left.deep_view().len() ==> spec_completion_index(
                    (#[trigger] left.deep_view()[k1]).metadata.annotations,
                ) != spec_completion_index(
                    (#[trigger] left.deep_view()[k2]).metadata.annotations,
                ),
            forall|w: int|
                0 <= w < i && spec_valid_index(#[trigger] bv[w], completions) ==> exists|k: int|
                    0 <= k < left.deep_view().len() && spec_completion_index(
                        (#[trigger] left.deep_view()[k]).metadata.annotations,
                    ) == spec_completion_index(bv[w].metadata.annotations),
            forall|k: int, w: int|
                0 <= k < left.deep_view().len() && i <= w < bv.len() ==> spec_completion_index(
                    (#[trigger] bv[w]).metadata.annotations,
                ) != spec_completion_index(
                    (#[trigger] left.deep_view()[k]).metadata.annotations,
                ),
        decreases by_index.len() - i,
    {
        proof {
            assert(bv[i as int] == by_index@[i as int].deep_view());
        }
        let ix = get_completion_index(&by_index[i].metadata.annotations);
        let valid = match ix {
            Some(v) => v < completions,
            None => false,
        };
        if !valid {
            let ghost rmb = rm.deep_view();
            push_from(rm, &by_index, i);
            proof {
                assert(!spec_valid_index(bv[i as int], completions));
                assert(rm.deep_view() == rmb.push(bv[i as int]));
                vstd::seq_lib::to_multiset_build(rmb, bv[i as int]);
                bv.lemma_take_succ_push(i as int);
                vstd::seq_lib::to_multiset_build(bv.take(i as int), bv[i as int]);
                assert(bv.take(i + 1).to_multiset() == bv.take(i as int).to_multiset().insert(
                    bv[i as int],
                ));
                assert(rm.deep_view().to_multiset().add(left.deep_view().to_multiset())
                    =~= bv.take(i + 1).to_multiset());
            }
            i = i + 1;
        } else {
            let ghost gix = spec_completion_index(bv[i as int].metadata.annotations);
            // find the extent of this index group
            let mut j: usize = i + 1;
            while j < by_index.len() && same_index(&by_index[j], &by_index[i])
                invariant
                    bv == by_index.deep_view(),
                    i < j <= bv.len(),
                    gix == spec_completion_index(bv[i as int].metadata.annotations),
                    forall|w: int|
                        i <= w < j ==> spec_completion_index(
                            (#[trigger] bv[w]).metadata.annotations,
                        ) == gix,
                decreases by_index.len() - j,
            {
                proof {
                    assert(bv[j as int] == by_index@[j as int].deep_view());
                }
                j = j + 1;
            }
            proof {
                if j < by_index.len() {
                    assert(bv[j as int] == by_index@[j as int].deep_view());
                }
            }
            // keep the most valuable pod of the group, remove the others
            let mut best: usize = i;
            let mut k: usize = i + 1;
            while k < j
                invariant
                    bv == by_index.deep_view(),
                    i <= best < k <= j <= bv.len(),
                    forall|w: int| i <= w < k ==> spec_pod_le(#[trigger] bv[w], bv[best as int]),
                decreases j - k,
            {
                proof {
                    assert(bv[k as int] == by_index@[k as int].deep_view());
                    assert(bv[best as int] == by_index@[best as int].deep_view());
                }
                if !pod_le(&by_index[k], &by_index[best]) {
                    let ghost ob = best as int;
                    best = k;
                    proof {
                        assert(spec_pod_le(bv[ob], bv[best as int]));
                        assert forall|w: int| i <= w < k implies spec_pod_le(
                            #[trigger] bv[w],
                            bv[best as int],
                        ) by {
                            assert(spec_pod_le(bv[w], bv[ob]));
                        }
                    }
                }
                k = k + 1;
            }
            proof {
                assert(spec_pod_le(bv[best as int], bv[best as int]));
            }
            // the group's index occurs nowhere outside the group
            proof {
                assert forall|w: int| 0 <= w < i implies spec_completion_index(
                    (#[trigger] bv[w]).metadata.annotations,
                ) != gix by {
                    if spec_completion_index(bv[w].metadata.annotations) == gix {
                        // a finished group would already hold a pod of this
                        // index, yet the group head still carries it
                        assert(spec_valid_index(bv[w], completions));
                        let kk = choose|kk: int|
                            0 <= kk < left.deep_view().len() && spec_completion_index(
                                (#[trigger] left.deep_view()[kk]).metadata.annotations,
                            ) == spec_completion_index(bv[w].metadata.annotations);
                        assert(spec_completion_index(bv[i as int].metadata.annotations)
                            != spec_completion_index(
                            left.deep_view()[kk].metadata.annotations,
                        ));
                        assert(false);
                    }
                }
                assert forall|w: int| j <= w < bv.len() implies spec_completion_index(
                    (#[trigger] bv[w]).metadata.annotations,
                ) != gix by {
                    if spec_completion_index(bv[w].metadata.annotations) == gix {
                        // the sort keeps equal indexes adjacent, and the
                        // group boundary carries a strictly larger key
                        assert(spec_index_key(bv[i as int]) <= spec_index_key(bv[j as int]));
                        assert(spec_completion_index(bv[j as int].metadata.annotations) != gix);
                        assert(spec_index_key(bv[j as int]) != spec_index_key(bv[i as int]));
                        assert(spec_index_key(bv[j as int]) <= spec_index_key(bv[w]));
                        assert(spec_index_key(bv[w]) == spec_index_key(bv[i as int]));
                        assert(false);
                    }
                }
            }
            let ghost left0 = left.deep_view();
            let mut m: usize = i;
            while m < j
                invariant
                    pv == pods.deep_view(),
                    bv == by_index.deep_view(),
                    bv.len() == pv.len(),
                    i <= m <= j <= bv.len(),
                    i <= best < j,
                    gix == spec_completion_index(bv[i as int].metadata.annotations),
                    spec_valid_index(bv[i as int], completions),
                    forall|w: int|
                        i <= w < j ==> spec_completion_index(
                            (#[trigger] bv[w]).metadata.annotations,
                        ) == gix,
                    forall|w: int|
                        0 <= w < i ==> spec_completion_index(
                            (#[trigger] bv[w]).metadata.annotations,
                        ) != gix,
                    forall|w: int|
                        j <= w < bv.len() ==> spec_completion_index(
                            (#[trigger] bv[w]).metadata.annotations,
                        ) != gix,
                    forall|w: int| i <= w < j ==> spec_pod_le(#[trigger] bv[w], bv[best as int]),
                    forall|q: int| 0 <= q < bv.len() ==> spec_from(pv, #[trigger] bv[q]),
                    rm.deep_view().len() + left.deep_view().len() == m,
                    rm.deep_view().to_multiset().add(left.deep_view().to_multiset()) == bv.take(
                        m as int,
                    ).to_multiset(),
                    forall|q: int| 0 <= q < rm.deep_view().len() ==> spec_from(
                        pv,
                        #[trigger] rm.deep_view()[q],
                    ),
                    forall|q: int| 0 <= q < left.deep_view().len() ==> spec_from(
                        pv,
                        #[trigger] left.deep_view()[q],
                    ),
                    m <= best ==> left.deep_view() == left0,
                    m > best ==> left.deep_view() == left0.push(bv[best as int]),
                    forall|k2: int|
                        0 <= k2 < left0.len() ==> spec_valid_index(
                            #[trigger] left0[k2],
                            completions,
                        ),
                    forall|k2: int, w: int|
                        0 <= k2 < left0.len() && 0 <= w < i && spec_completion_index(
                            (#[trigger] bv[w]).metadata.annotations,
                        ) == spec_completion_index((#[trigger] left0[k2]).metadata.annotations)
                            ==> spec_pod_le(bv[w], left0[k2]),
                    forall|k1: int, k2: int|
                        0 <= k1 < k2 < left0.len() ==> spec_completion_index(
                            (#[trigger] left0[k1]).metadata.annotations,
                        ) != spec_completion_index((#[trigger] left0[k2]).metadata.annotations),
                    forall|w: int|
                        0 <= w < i && spec_valid_index(#[trigger] bv[w], completions)
                            ==> exists|k2: int|
                            0 <= k2 < left0.len() && spec_completion_index(
                                (#[trigger] left0[k2]).metadata.annotations,
                            ) == spec_completion_index(bv[w].metadata.annotations),
                    forall|k2: int, w: int|
                        0 <= k2 < left0.len() && i <= w < bv.len() ==> spec_completion_index(
                            (#[trigger] bv[w]).metadata.annotations,
                        ) != spec_completion_index((#[trigger] left0[k2]).metadata.annotations),
                decreases j - m,
            {
                let ghost rmb = rm.deep_view();
                let ghost leftb = left.deep_view();
                if m == best {
                    push_from(left, &by_index, m);
                    proof {
                        assert(left.deep_view() == leftb.push(bv[m as int]));
                        vstd::seq_lib::to_multiset_build(leftb, bv[m as int]);
                    }
                } else {
                    push_from(rm, &by_index, m);
                    proof {
                        assert(rm.deep_view() == rmb.push(bv[m as int]));
                        vstd::seq_lib::to_multiset_build(rmb, bv[m as int]);
                    }
                }
                proof {
                    bv.lemma_take_succ_push(m as int);
                    vstd::seq_lib::to_multiset_build(bv.take(m as int), bv[m as int]);
                    assert(bv.take(m + 1).to_multiset() == bv.take(m as int).to_multiset().insert(
                        bv[m as int],
                    ));
                    assert(rm.deep_view().to_multiset().add(left.deep_view().to_multiset())
                        =~= bv.take(m + 1).to_multiset());
                }
                m = m + 1;
            }
            proof {
                // the group is spent: one representative joined `left`, and
                // the outer picture holds again with the scan at the boundary
                assert(left.deep_view() == left0.push(bv[best as int]));
                let lv = left.deep_view();
                assert(lv[lv.len() - 1] == bv[best as int]);
                assert(forall|k2: int| 0 <= k2 < left0.len() ==> #[trigger] lv[k2] == left0[k2]);
                assert(spec_completion_index(bv[best as int].metadata.annotations) == gix);
                assert(spec_valid_index(bv[best as int], completions));
                assert forall|k1: int, k2: int| 0 <= k1 < k2 < lv.len() implies
                    spec_completion_index((#[trigger] lv[k1]).metadata.annotations)
                        != spec_completion_index((#[trigger] lv[k2]).metadata.annotations) by {
                    if k2 == lv.len() - 1 {
                        assert(spec_completion_index((#[trigger] bv[i as int]).metadata.annotations)
                            != spec_completion_index(
                            (#[trigger] left0[k1]).metadata.annotations,
                        ));
                    }
                }
                assert forall|k2: int, w: int|
                    0 <= k2 < lv.len() && 0 <= w < j && spec_completion_index(
                        (#[trigger] bv[w]).metadata.annotations,
                    ) == spec_completion_index((#[trigger] lv[k2]).metadata.annotations) implies
                    spec_pod_le(bv[w], lv[k2]) by {
                    if k2 < left0.len() {
                        assert(spec_completion_index(lv[k2].metadata.annotations)
                            != gix);
                        assert(w < i);
                    } else {
                        assert(lv[k2] == bv[best as int]);
                        assert(i <= w < j);
                    }
                }
                assert forall|k2: int, w: int|
                    0 <= k2 < lv.len() && j <= w < bv.len() implies spec_completion_index(
                    (#[trigger] bv[w]).metadata.annotations,
                ) != spec_completion_index((#[trigger] lv[k2]).metadata.annotations) by {
                    if k2 < left0.len() {
                        assert(spec_completion_index(bv[w].metadata.annotations)
                            != spec_completion_index(left0[k2].metadata.annotations));
                    }
                }
                assert forall|w: int|
                    0 <= w < j && spec_valid_index(#[trigger] bv[w], completions) implies exists|
                    k2: int,
                |
                    0 <= k2 < lv.len() && spec_completion_index(
                        (#[trigger] lv[k2]).metadata.annotations,
                    ) == spec_completion_index(bv[w].metadata.annotations) by {
                    if w < i {
                        let k0 = choose|k0: int|
                            0 <= k0 < left0.len() && spec_completion_index(
                                (#[trigger] left0[k0]).metadata.annotations,
                            ) == spec_completion_index(bv[w].metadata.annotations);
                        assert(lv[k0] == left0[k0]);
                    } else {
                        assert(lv[lv.len() - 1] == bv[best as int]);
                        assert(spec_completion_index(lv[lv.len() - 1].metadata.annotations)
                            == spec_completion_index(bv[w].metadata.annotations));
                    }
                }
            }
            i = j;
        }
    }
    proof {
        assert(bv.take(bv.len() as int) =~= bv);
        // membership moves between the sorted copy and the input
        assert forall|k2: int, w: int|
            0 <= k2 < left.deep_view().len() && 0 <= w < pv.len() && spec_completion_index(
                (#[trigger] pv[w]).metadata.annotations,
            ) == spec_completion_index(
                (#[trigger] left.deep_view()[k2]).metadata.annotations,
            ) implies spec_pod_le(pv[w], left.deep_view()[k2]) by {
            assert(pv.contains(pv[w]));
            assert(pv.to_multiset().count(pv[w]) > 0);
            assert(bv.to_multiset().count(pv[w]) > 0);
            assert(bv.contains(pv[w]));
            let u = choose|u: int| 0 <= u < bv.len() && bv[u] == pv[w];
            assert(spec_pod_le(bv[u], left.deep_view()[k2]));
        }
        assert forall|w: int|
            0 <= w < pv.len() && spec_valid_index(#[trigger] pv[w], completions) implies exists|
            k2: int,
        |
            0 <= k2 < left.deep_view().len() && spec_completion_index(
                (#[trigger] left.deep_view()[k2]).metadata.annotations,
            ) == spec_completion_index(pv[w].metadata.annotations) by {
            assert(pv.contains(pv[w]));
            assert(pv.to_multiset().count(pv[w]) > 0);
            assert(bv.to_multiset().count(pv[w]) > 0);
            assert(bv.contains(pv[w]));
            let u = choose|u: int| 0 <= u < bv.len() && bv[u] == pv[w];
            assert(spec_valid_index(bv[u], completions));
        }
        assert(rm.deep_view().len() + left.deep_view().len() == pv.len());
    }
}

/// Whether two pods carry the same completion index.
fn same_index(a: &Pod, b: &Pod) -> (r: bool)
    ensures
        r == (spec_completion_index(a@.metadata.annotations) == spec_completion_index(
            b@.metadata.annotations,
        )),
{
    let ia = get_completion_index(&a.metadata.annotations);
    let ib = get_completion_index(&b.metadata.annotations);
    match (ia, ib) {
        (Some(x), Some(y)) => x == y,
        (None, None) => true,
        _ => false,
    }
}

/// Push a clone of one pod of the list, recording where it came from.
fn push_from(dst: &mut Vec<Pod>, src: &Vec<Pod>, i: usize)
    requires
        i < src@.len(),
    ensures
        final(dst).deep_view().len() == old(dst).deep_view().len() + 1,
        final(dst).deep_view() == old(dst).deep_view().push(src.deep_view()[i as int]),
        forall|k: int|
            0 <= k < old(dst).deep_view().len() ==> #[trigger] final(dst).deep_view()[k] == old(
                dst,
            ).deep_view()[k],
        spec_from(src.deep_view(), final(dst).deep_view()[final(dst).deep_view().len() - 1]),
{
    let ghost before = dst.deep_view();
    let ghost pre = dst@;
    dst.push(src[i].deep_clone());
    proof {
        assert(src.deep_view()[i as int] == src@[i as int].deep_view());
        assert forall|k: int| 0 <= k < dst.deep_view().len() implies dst.deep_view()[k]
            == before.push(src.deep_view()[i as int])[k] by {
            assert(dst.deep_view()[k] == dst@[k].deep_view());
            if k < pre.len() {
                assert(dst@[k] == pre[k]);
                assert(before[k] == pre[k].deep_view());
            }
        }
        assert(dst.deep_view() =~= before.push(src.deep_view()[i as int]));
    }
}

/// Order pods by their completion index, pods without an index first.
fn sort_pods_by_index(pods: &mut Vec<Pod>)
    ensures
        final(pods).deep_view().len() == old(pods).deep_view().len(),
        forall|k: int|
            0 <= k < final(pods).deep_view().len() ==> spec_from(
                old(pods).deep_view(),
                #[trigger] final(pods).deep_view()[k],
            ),
        forall|a2: int, b2: int|
            0 <= a2 < b2 < final(pods).deep_view().len() ==> spec_index_key(
                #[trigger] final(pods).deep_view()[a2],
            ) <= spec_index_key(#[trigger] final(pods).deep_view()[b2]),
        final(pods).deep_view().to_multiset() == old(pods).deep_view().to_multiset(),
{
    broadcast use vstd::seq_lib::group_to_multiset_ensures;

    let ghost pv = old(pods).deep_view();
    let mut out: Vec<Pod> = Vec::new();
    proof {
        assert(out.deep_view() =~= Seq::<PodView>::empty());
        assert(pv.take(0) =~= Seq::<PodView>::empty());
    }
    let mut i: usize = 0;
    while i < pods.len()
        invariant
            pv == pods.deep_view(),
            i <= pods@.len() == pv.len(),
            out.deep_view().len() == i,
            out.deep_view().to_multiset() == pv.take(i as int).to_multiset(),
            forall|k: int|
                0 <= k < out.deep_view().len() ==> spec_from(pv, #[trigger] out.deep_view()[k]),
            forall|a2: int, b2: int|
                0 <= a2 < b2 < out.deep_view().len() ==> spec_index_key(
                    #[trigger] out.deep_view()[a2],
                ) <= spec_index_key(#[trigger] out.deep_view()[b2]),
        decreases pods.len() - i,
    {
        proof {
            assert(pv[i as int] == pods@[i as int].deep_view());
        }
        let ghost before = out.deep_view();
        let p = pods[i].deep_clone();
        let pk = index_key(&p);
        let mut k: usize = 0;
        while k < out.len() && index_key(&out[k]) <= pk
            invariant
                before == out.deep_view(),
                k <= out@.len() == before.len(),
                p.deep_view() == pv[i as int],
                pk == spec_index_key(p.deep_view()),
                forall|j: int|
                    0 <= j < k ==> spec_index_key(#[trigger] before[j]) <= spec_index_key(
                        p.deep_view(),
                    ),
            decreases out.len() - k,
        {
            proof {
                assert(before[k as int] == out@[k as int].deep_view());
            }
            k = k + 1;
        }
        proof {
            if k < out.len() {
                assert(before[k as int] == out@[k as int].deep_view());
            }
        }
        let ghost pre = out@;
        out.insert(k, p);
        proof {
            assert forall|j: int| 0 <= j < out.deep_view().len() implies out.deep_view()[j]
                == before.insert(k as int, pv[i as int])[j] by {
                assert(out.deep_view()[j] == out@[j].deep_view());
                if j < k {
                    assert(out@[j] == pre[j]);
                    assert(before[j] == pre[j].deep_view());
                } else if j > k {
                    assert(out@[j] == pre[j - 1]);
                    assert(before[j - 1] == pre[j - 1].deep_view());
                }
            }
            assert(out.deep_view() =~= before.insert(k as int, pv[i as int]));
            before.insert_ensures(k as int, pv[i as int]);
            assert forall|a2: int, b2: int| 0 <= a2 < b2 < out.deep_view().len() implies
                spec_index_key(#[trigger] out.deep_view()[a2]) <= spec_index_key(
                #[trigger] out.deep_view()[b2],
            ) by {
                let ins = before.insert(k as int, pv[i as int]);
                if a2 < k && b2 == k {
                    assert(ins[a2] == before[a2]);
                } else if a2 == k && b2 > k {
                    assert(ins[(b2 - 1) + 1] == before[b2 - 1]);
                    assert(!(spec_index_key(before[b2 - 1]) <= spec_index_key(pv[i as int])) ==> (
                    spec_index_key(pv[i as int]) <= spec_index_key(before[b2 - 1])));
                } else if a2 < k && b2 > k {
                    assert(ins[a2] == before[a2]);
                    assert(ins[(b2 - 1) + 1] == before[b2 - 1]);
                    if b2 - 1 == a2 {
                        assert(spec_index_key(before[a2]) <= spec_index_key(pv[i as int]));
                        assert(spec_index_key(pv[i as int]) <= spec_index_key(before[b2 - 1]));
                    }
                } else if b2 < k {
                    assert(ins[a2] == before[a2]);
                    assert(ins[b2] == before[b2]);
                } else if a2 > k {
                    assert(ins[(a2 - 1) + 1] == before[a2 - 1]);
                    assert(ins[(b2 - 1) + 1] == before[b2 - 1]);
                }
            }
            vstd::seq_lib::to_multiset_insert(before, k as int, pv[i as int]);
            pv.lemma_take_succ_push(i as int);
            vstd::seq_lib::to_multiset_build(pv.take(i as int), pv[i as int]);
            assert(out.deep_view().to_multiset() == pv.take(i + 1).to_multiset());
        }
        i = i + 1;
    }
    proof {
        assert(out.deep_view().len() == pv.len());
        assert(pv.take(pv.len() as int) =~= pv);
    }
    *pods = out;
}

/// The ordering key of a pod's completion index: no index first.
pub open spec fn spec_index_key(p: PodView) -> int {
    match spec_completion_index(p.metadata.annotations) {
        None => 0,
        Some(ix) => ix as int + 1,
    }
}

/// Compute the ordering key of a pod's completion index.
fn index_key(p: &Pod) -> (r: u64)
    ensures
        r == spec_index_key(p@),
{
    match get_completion_index(&p.metadata.annotations) {
        None => 0,
        Some(ix) => ix as u64 + 1,
    }
}


// ---------------------------------------------------------------------------
// Building and tearing down pods
// ---------------------------------------------------------------------------

/// A pod with the tracking finalizer removed.
pub open spec fn spec_strip_finalizer(p: PodView) -> PodView {
    PodView {
        metadata: MetadataView {
            finalizers: p.metadata.finalizers.filter(
                |f: Seq<char>| f != spec_tracking_finalizer(),
            ),
            ..p.metadata
        },
        ..p
    }
}

/// An update removing the tracking finalizer from the pod, if it carries it.
pub fn remove_tracking_finalizer_patch(pod: &Pod) -> (r: Option<JobControllerAction>)
    ensures
        r.deep_view() == if spec_has_tracking_finalizer(pod@) {
            Some(JobControllerActionView::UpdatePod(spec_strip_finalizer(pod@)))
        } else {
            None::<JobControllerActionView>
        },
{
    proof {
        reveal_strlit("batch.kubernetes.io/job-tracking");
    }
    if !has_job_tracking_finalizer(pod) {
        return None;
    }
    let ghost fv = pod@.metadata.finalizers;
    let ghost pred = |f: Seq<char>| f != spec_tracking_finalizer();
    let mut kept: Vec<String> = Vec::new();
    let mut i: usize = 0;
    while i < pod.metadata.finalizers.len()
        invariant
            fv == pod@.metadata.finalizers,
            i <= pod.metadata.finalizers@.len() == fv.len(),
            kept.deep_view() == fv.take(i as int).filter(pred),
            pred == (|f: Seq<char>| f != spec_tracking_finalizer()),
        decreases pod.metadata.finalizers.len() - i,
    {
        proof {
            assert(fv[i as int] == pod.metadata.finalizers@[i as int]@);
            fv.lemma_take_succ_push(i as int);
            fv.take(i as int).lemma_filter_push(fv[i as int], pred);
        }
        let ghost before = kept.deep_view();
        if !str_eq(pod.metadata.finalizers[i].as_str(), JOB_TRACKING_FINALIZER) {
            kept.push(pod.metadata.finalizers[i].clone());
            proof {
                assert forall|j: int| 0 <= j < kept.deep_view().len() implies kept.deep_view()[j]
                    == before.push(fv[i as int])[j] by {
                    assert(kept.deep_view()[j] == kept@[j]@);
                    if j < before.len() {
                        assert(before[j] == kept@[j]@);
                    }
                }
                assert(kept.deep_view() =~= before.push(fv[i as int]));
            }
        }
        i = i + 1;
    }
    proof {
        assert(fv.take(fv.len() as int) =~= fv);
    }
    let mut p = pod.clone();
    let mut md = p.metadata;
    md.finalizers = kept;
    p.metadata = md;
    proof {
        assert(p@ =~= spec_strip_finalizer(pod@));
    }
    Some(JobControllerAction::UpdatePod(p))
}

/// Delete the first of these pods: strip its tracking finalizer first, and
/// once that is off, ask for the deletion itself.
pub fn delete_job_pods(job: &Job, pods: &Vec<Pod>) -> (r: Option<JobControllerAction>)
    ensures
        r.deep_view() == if pods.deep_view().len() == 0 {
            None::<JobControllerActionView>
        } else if spec_has_tracking_finalizer(pods.deep_view()[0]) {
            Some(JobControllerActionView::UpdatePod(spec_strip_finalizer(pods.deep_view()[0])))
        } else {
            Some(JobControllerActionView::DeletePod(pods.deep_view()[0]))
        },
{
    if pods.len() == 0 {
        return None;
    }
    proof {
        assert(pods.deep_view()[0] == pods@[0].deep_view());
    }
    match remove_tracking_finalizer_patch(&pods[0]) {
        Some(op) => Some(op),
        None => Some(JobControllerAction::DeletePod(pods[0].deep_clone())),
    }
}

/// Delete the first active pod while the job is finishing.
pub fn delete_active_pods(job: &Job, pods: &Vec<Pod>) -> (r: Option<JobControllerAction>)
    ensures
        r.deep_view() == if pods.deep_view().len() == 0 {
            None::<JobControllerActionView>
        } else {
            Some(JobControllerActionView::DeletePod(pods.deep_view()[0]))
        },
{
    if pods.len() == 0 {
        return None;
    }
    proof {
        assert(pods.deep_view()[0] == pods@[0].deep_view());
    }
    Some(JobControllerAction::DeletePod(pods[0].deep_clone()))
}

/// The tracking finalizer appended when absent.
pub open spec fn spec_with_tracking_finalizer(fs: Seq<Seq<char>>) -> Seq<Seq<char>> {
    if fs.contains(spec_tracking_finalizer()) {
        fs
    } else {
        fs.push(spec_tracking_finalizer())
    }
}

/// Append the tracking finalizer when it is absent.
pub fn append_job_completion_finalizer_if_not_found(finalizers: &mut Vec<String>)
    ensures
        final(finalizers).deep_view() == spec_with_tracking_finalizer(
            old(finalizers).deep_view(),
        ),
{
    proof {
        reveal_strlit("batch.kubernetes.io/job-tracking");
    }
    let ghost fv = old(finalizers).deep_view();
    let mut found = false;
    let mut i: usize = 0;
    while i < finalizers.len()
        invariant
            fv == finalizers.deep_view(),
            old(finalizers)@ == finalizers@,
            i <= finalizers@.len() == fv.len(),
            found <==> exists|j: int| 0 <= j < i && #[trigger] fv[j] == spec_tracking_finalizer(),
        decreases finalizers.len() - i,
    {
        proof {
            assert(fv[i as int] == finalizers@[i as int]@);
        }
        if str_eq(finalizers[i].as_str(), JOB_TRACKING_FINALIZER) {
            found = true;
            proof {
                assert(fv[i as int] == spec_tracking_finalizer());
            }
        }
        i = i + 1;
    }
    proof {
        if fv.contains(spec_tracking_finalizer()) {
            let w = choose|w: int| 0 <= w < fv.len() && fv[w] == spec_tracking_finalizer();
            assert(found);
        }
        if found {
            let w = choose|w: int| 0 <= w < i && #[trigger] fv[w] == spec_tracking_finalizer();
            assert(fv.contains(spec_tracking_finalizer()));
        }
    }
    if !found {
        let ghost pre = finalizers@;
        let mut f = String::new();
        f.append(JOB_TRACKING_FINALIZER);
        finalizers.push(f);
        proof {
            assert forall|j: int| 0 <= j < finalizers.deep_view().len() implies
                finalizers.deep_view()[j] == fv.push(spec_tracking_finalizer())[j] by {
                assert(finalizers.deep_view()[j] == finalizers@[j]@);
                if j < pre.len() {
                    assert(finalizers@[j] == pre[j]);
                    assert(fv[j] == pre[j]@);
                }
            }
            assert(finalizers.deep_view() =~= fv.push(spec_tracking_finalizer()));
        }
    }
}

/// The annotations with the completion index bound to `index`.
pub open spec fn spec_with_index_annotation(
    anns: Seq<(Seq<char>, Seq<char>)>,
    index: u32,
) -> Seq<(Seq<char>, Seq<char>)> {
    spec_upsert(anns, spec_index_annotation(), dec_str(index as nat))
}

/// Record the completion index in the template's annotations.
pub fn add_completion_index_annotation(template: &mut PodTemplateSpec, index: u32)
    ensures
        final(template)@ == (PodTemplateSpecView {
            metadata: MetadataView {
                annotations: spec_with_index_annotation(
                    old(template)@.metadata.annotations,
                    index,
                ),
                ..old(template)@.metadata
            },
            ..old(template)@
        }),
{
    proof {
        reveal_strlit("batch.kubernetes.io/job-completion-index");
    }
    let mut key = String::new();
    key.append(JOB_COMPLETION_INDEX_ANNOTATION);
    let value = u64_to_string(index as u64);
    upsert(&mut template.metadata.annotations, key, value);
    proof {
        assert(template@ =~= (PodTemplateSpecView {
            metadata: MetadataView {
                annotations: spec_with_index_annotation(
                    old(template)@.metadata.annotations,
                    index,
                ),
                ..old(template)@.metadata
            },
            ..old(template)@
        }));
    }
}

/// The environment of a container with the completion-index variable
/// injected, pointing at the index label; a container that already has the
/// variable is left alone.
pub open spec fn spec_with_index_env(c: crate::resources::ContainerView)
    -> crate::resources::ContainerView {
    if exists|i: int|
        0 <= i < c.env.len() && (#[trigger] c.env[i]).name == spec_index_env_name() {
        c
    } else {
        crate::resources::ContainerView {
            env: c.env.push(
                crate::resources::EnvVarView {
                    name: spec_index_env_name(),
                    value: None,
                    value_from: Some(
                        crate::resources::EnvVarSourceView {
                            field_ref: Some(
                                crate::resources::ObjectFieldSelectorView {
                                    field_path: spec_index_field_path(),
                                },
                            ),
                        },
                    ),
                },
            ),
            ..c
        }
    }
}

/// Where the injected variable reads the index from.
pub open spec fn spec_index_field_path() -> Seq<char> {
    "metadata.labels['batch.kubernetes.io/job-completion-index']"@
}

/// Inject the completion-index variable into one container.
pub fn add_completion_index_env_variable(container: &mut Container)
    ensures
        final(container)@ == spec_with_index_env(old(container)@),
{
    proof {
        reveal_strlit("JOB_COMPLETION_INDEX");
        reveal_strlit("metadata.labels['batch.kubernetes.io/job-completion-index']");
    }
    let ghost ev = old(container)@.env;
    let mut found = false;
    let mut i: usize = 0;
    while i < container.env.len()
        invariant
            ev == container.env.deep_view(),
            container@ == old(container)@,
            i <= container.env@.len() == ev.len(),
            found <==> exists|j: int|
                0 <= j < i && (#[trigger] ev[j]).name == spec_index_env_name(),
        decreases container.env.len() - i,
    {
        proof {
            assert(ev[i as int] == container.env@[i as int].deep_view());
        }
        if str_eq(container.env[i].name.as_str(), JOB_COMPLETION_INDEX_ENV_NAME) {
            found = true;
            proof {
                assert(ev[i as int].name == spec_index_env_name());
            }
        }
        i = i + 1;
    }
    proof {
        if exists|j: int| 0 <= j < ev.len() && (#[trigger] ev[j]).name == spec_index_env_name() {
            let w = choose|w: int|
                0 <= w < ev.len() && (#[trigger] ev[w]).name == spec_index_env_name();
            assert(found);
        }
    }
    if found {
        return ;
    }
    let mut name = String::new();
    name.append(JOB_COMPLETION_INDEX_ENV_NAME);
    let mut path = String::new();
    path.append("metadata.labels['batch.kubernetes.io/job-completion-index']");
    let ghost pre = container.env@;
    container.env.push(
        EnvVar {
            name,
            value: None,
            value_from: Some(
                EnvVarSource { field_ref: Some(ObjectFieldSelector { field_path: path }) },
            ),
        },
    );
    proof {
        assert forall|j: int| 0 <= j < container.env.deep_view().len() implies
            container.env.deep_view()[j] == spec_with_index_env(old(container)@).env[j] by {
            assert(container.env.deep_view()[j] == container.env@[j].deep_view());
            if j < pre.len() {
                assert(container.env@[j] == pre[j]);
                assert(ev[j] == pre[j].deep_view());
            } else {
                assert(container.env@[j].deep_view() =~= (crate::resources::EnvVarView {
                    name: spec_index_env_name(),
                    value: None,
                    value_from: Some(
                        crate::resources::EnvVarSourceView {
                            field_ref: Some(
                                crate::resources::ObjectFieldSelectorView {
                                    field_path: spec_index_field_path(),
                                },
                            ),
                        },
                    ),
                }));
            }
        }
        assert(container.env.deep_view() =~= spec_with_index_env(old(container)@).env);
        assert(container@ =~= spec_with_index_env(old(container)@));
    }
}

/// Inject the completion-index variable into every container of the
/// template.
pub fn add_completion_index_env_variables(template: &mut PodTemplateSpec)
    ensures
        final(template)@ == (PodTemplateSpecView {
            spec: PodSpecView {
                init_containers: old(template)@.spec.init_containers.map_values(
                    |c: crate::resources::ContainerView| spec_with_index_env(c),
                ),
                containers: old(template)@.spec.containers.map_values(
                    |c: crate::resources::ContainerView| spec_with_index_env(c),
                ),
                ..old(template)@.spec
            },
            ..old(template)@
        }),
{
    let ghost iv0 = old(template)@.spec.init_containers;
    let ghost cv0 = old(template)@.spec.containers;
    let mut i: usize = 0;
    while i < template.spec.init_containers.len()
        invariant
            template@.metadata == old(template)@.metadata,
            template@.spec.containers == cv0,
            template@.spec.node_name == old(template)@.spec.node_name,
            template@.spec.restart_policy == old(template)@.spec.restart_policy,
            template@.spec.hostname == old(template)@.spec.hostname,
            template.spec.init_containers@.len() == iv0.len(),
            i <= iv0.len(),
            forall|j: int|
                0 <= j < i ==> #[trigger] template.spec.init_containers.deep_view()[j]
                    == spec_with_index_env(iv0[j]),
            forall|j: int|
                i <= j < iv0.len() ==> #[trigger] template.spec.init_containers.deep_view()[j]
                    == iv0[j],
        decreases template.spec.init_containers.len() - i,
    {
        proof {
            assert(template.spec.init_containers.deep_view()[i as int]
                == template.spec.init_containers@[i as int].deep_view());
        }
        let mut c = template.spec.init_containers[i].deep_clone();
        add_completion_index_env_variable(&mut c);
        let ghost pre = template.spec.init_containers@;
        let ghost predv = template.spec.init_containers.deep_view();
        proof {
            assert(forall|j: int|
                0 <= j < pre.len() ==> #[trigger] predv[j] == pre[j].deep_view());
        }
        template.spec.init_containers.set(i, c);
        proof {
            assert forall|j: int| 0 <= j < iv0.len() implies
                #[trigger] template.spec.init_containers.deep_view()[j] == if j <= i {
                    spec_with_index_env(iv0[j])
                } else {
                    iv0[j]
                } by {
                assert(template.spec.init_containers.deep_view()[j]
                    == template.spec.init_containers@[j].deep_view());
                if j != i {
                    assert(template.spec.init_containers@[j] == pre[j]);
                    assert(predv[j] == pre[j].deep_view());
                }
            }
        }
        i = i + 1;
    }
    let mut k: usize = 0;
    while k < template.spec.containers.len()
        invariant
            template@.metadata == old(template)@.metadata,
            template@.spec.node_name == old(template)@.spec.node_name,
            template@.spec.restart_policy == old(template)@.spec.restart_policy,
            template@.spec.hostname == old(template)@.spec.hostname,
            template.spec.init_containers@.len() == iv0.len(),
            forall|j: int|
                0 <= j < iv0.len() ==> #[trigger] template.spec.init_containers.deep_view()[j]
                    == spec_with_index_env(iv0[j]),
            template.spec.containers@.len() == cv0.len(),
            k <= cv0.len(),
            forall|j: int|
                0 <= j < k ==> #[trigger] template.spec.containers.deep_view()[j]
                    == spec_with_index_env(cv0[j]),
            forall|j: int|
                k <= j < cv0.len() ==> #[trigger] template.spec.containers.deep_view()[j]
                    == cv0[j],
        decreases template.spec.containers.len() - k,
    {
        proof {
            assert(template.spec.containers.deep_view()[k as int]
                == template.spec.containers@[k as int].deep_view());
        }
        let mut c = template.spec.containers[k].deep_clone();
        add_completion_index_env_variable(&mut c);
        let ghost pre = template.spec.containers@;
        let ghost predv = template.spec.containers.deep_view();
        proof {
            assert(forall|j: int|
                0 <= j < pre.len() ==> #[trigger] predv[j] == pre[j].deep_view());
        }
        template.spec.containers.set(k, c);
        proof {
            assert forall|j: int| 0 <= j < cv0.len() implies
                #[trigger] template.spec.containers.deep_view()[j] == if j <= k {
                    spec_with_index_env(cv0[j])
                } else {
                    cv0[j]
                } by {
                assert(template.spec.containers.deep_view()[j]
                    == template.spec.containers@[j].deep_view());
                if j != k {
                    assert(template.spec.containers@[j] == pre[j]);
                    assert(predv[j] == pre[j].deep_view());
                }
            }
        }
        k = k + 1;
    }
    proof {
        assert(template@.spec.init_containers =~= iv0.map_values(
            |c: crate::resources::ContainerView| spec_with_index_env(c),
        ));
        assert(template@.spec.containers =~= cv0.map_values(
            |c: crate::resources::ContainerView| spec_with_index_env(c),
        ));
        assert(template@ =~= (PodTemplateSpecView {
            spec: PodSpecView {
                init_containers: iv0.map_values(
                    |c: crate::resources::ContainerView| spec_with_index_env(c),
                ),
                containers: cv0.map_values(
                    |c: crate::resources::ContainerView| spec_with_index_env(c),
                ),
                ..old(template)@.spec
            },
            ..old(template)@
        }));
    }
}

/// The generate-name prefix of an indexed pod: the job name, the index and a
/// trailing dash, with the job name cut so the whole prefix stays within the
/// generated-name budget.
pub open spec fn spec_generate_name_with_index(job_name: Seq<char>, index: u32) -> Seq<char> {
    let suffix = "-"@ + dec_str(index as nat) + "-"@;
    if job_name.len() + suffix.len() > MAX_GENERATED_NAME_LENGTH {
        job_name.take(MAX_GENERATED_NAME_LENGTH - suffix.len()) + suffix
    } else {
        job_name + suffix
    }
}

/// Build the generate-name prefix of an indexed pod.
pub fn pod_generate_name_with_index(job_name: String, index: u32) -> (r: String)
    ensures
        r@ == spec_generate_name_with_index(job_name@, index),
{
    proof {
        reveal_strlit("-");
        lemma_dec_str_wf(index as nat);
        crate::utils::lemma_dec_str_len(index as nat);
    }
    let idx = u64_to_string(index as u64);
    let mut suffix = String::new();
    suffix.append("-");
    suffix.append(idx.as_str());
    suffix.append("-");
    let suffix_len = suffix.as_str().unicode_len();
    let name_len = job_name.as_str().unicode_len();
    proof {
        assert(suffix@.len() <= 12);
    }
    if name_len > MAX_GENERATED_NAME_LENGTH - suffix_len {
        let keep = MAX_GENERATED_NAME_LENGTH - suffix_len;
        let mut r = String::new();
        let prefix = job_name.as_str().substring_char(0, keep);
        r.append(prefix);
        r.append(suffix.as_str());
        proof {
            assert(job_name@.subrange(0, keep as int) =~= job_name@.take(keep as int));
            assert(r@ =~= spec_generate_name_with_index(job_name@, index));
        }
        r
    } else {
        let mut r = String::new();
        r.append(job_name.as_str());
        r.append(suffix.as_str());
        proof {
            assert(r@ =~= spec_generate_name_with_index(job_name@, index));
        }
        r
    }
}

/// The hostname of an indexed pod: the job name and the index.
pub open spec fn spec_hostname_with_index(job_name: Seq<char>, index: u32) -> Seq<char> {
    job_name + "-"@ + dec_str(index as nat)
}

/// Build the hostname of an indexed pod.
pub fn pod_hostname_with_index(job_name: &String, index: u32) -> (r: String)
    ensures
        r@ == spec_hostname_with_index(job_name@, index),
{
    proof {
        reveal_strlit("-");
    }
    let idx = u64_to_string(index as u64);
    let mut r = String::new();
    r.append(job_name.as_str());
    r.append("-");
    r.append(idx.as_str());
    proof {
        assert(r@ =~= spec_hostname_with_index(job_name@, index));
    }
    r
}

/// The template a created pod is stamped from: the job's template, with the
/// completion-index environment variable injected into every container in
/// indexed mode, the tracking finalizer appended, and for an indexed pod
/// the completion-index annotation and the `{job}-{index}` hostname.
#[verifier::opaque]
pub open spec fn spec_prepared_template(j: JobView, ix: Option<u32>) -> PodTemplateSpecView {
    let t0 = j.spec.template;
    let t1 = if ix is Some {
        PodTemplateSpecView {
            spec: PodSpecView {
                init_containers: t0.spec.init_containers.map_values(
                    |c: crate::resources::ContainerView| spec_with_index_env(c),
                ),
                containers: t0.spec.containers.map_values(
                    |c: crate::resources::ContainerView| spec_with_index_env(c),
                ),
                ..t0.spec
            },
            ..t0
        }
    } else {
        t0
    };
    let t2 = PodTemplateSpecView {
        metadata: MetadataView {
            finalizers: spec_with_tracking_finalizer(t1.metadata.finalizers),
            ..t1.metadata
        },
        ..t1
    };
    match ix {
        Some(i) => PodTemplateSpecView {
            metadata: MetadataView {
                annotations: spec_with_index_annotation(t2.metadata.annotations, i),
                ..t2.metadata
            },
            spec: PodSpecView {
                hostname: spec_hostname_with_index(j.metadata.name, i),
                ..t2.spec
            },
            ..t2
        },
        None => t2,
    }
}

/// The pod one management step creates: stamped from the prepared template,
/// owned by the job, and for an indexed pod named after the job and the
/// chosen index.
#[verifier::opaque]
pub open spec fn spec_created_pod(j: JobView, ix: Option<u32>) -> PodView {
    let t = spec_prepared_template(j, ix);
    let base = spec_pod_from_template(t, spec_controller_ref(j.metadata));
    match ix {
        Some(i) => PodView {
            metadata: MetadataView {
                generate_name: spec_generate_name_with_index(j.metadata.name, i),
                ..base.metadata
            },
            ..base
        },
        None => base,
    }
}

/// The pods already claimed toward the job's target: the terminating pods
/// count only for a job that replaces failed pods alone.
pub open spec fn spec_term_count(j: JobView, pods: Seq<PodView>) -> nat {
    if spec_only_replace_failed_pods(j) {
        spec_count_terminating(pods)
    } else {
        0
    }
}

/// How many active pods the job wants: the remaining completions capped by
/// the parallelism, or, without a completion count, the parallelism until a
/// first success and the current active count after it.
pub open spec fn spec_want_active(j: JobView, active: nat, succeeded: u64) -> nat {
    let par: nat = match j.spec.parallelism {
        Some(p) => p as nat,
        None => 0,
    };
    match j.spec.completions {
        Some(c) => {
            let remaining: nat = if c as u64 > succeeded {
                (c - succeeded) as nat
            } else {
                0
            };
            if remaining > par {
                par
            } else {
                remaining
            }
        },
        None => if succeeded > 0 {
            active
        } else {
            par
        },
    }
}

/// How many pods one management step wants removed at least.
pub open spec fn spec_rm_at_least(
    j: JobView,
    pods: Seq<PodView>,
    active: nat,
    succeeded: u64,
) -> nat {
    let want = spec_want_active(j, active, succeeded);
    let sum = active + spec_term_count(j, pods);
    let total: nat = if sum > usize::MAX {
        usize::MAX as nat
    } else {
        sum
    };
    if total > want {
        (total - want) as nat
    } else {
        0
    }
}

/// How many pods one management step is short of the target.
pub open spec fn spec_grow_diff(
    j: JobView,
    pods: Seq<PodView>,
    active: nat,
    succeeded: u64,
) -> nat {
    let want = spec_want_active(j, active, succeeded);
    let claimed = active + spec_term_count(j, pods);
    if want > claimed {
        (want - claimed) as nat
    } else {
        0
    }
}

/// `ix` is the least completion index of the job that is still pending.
pub open spec fn spec_is_first_pending(
    j: JobView,
    succ: Seq<(u32, u32)>,
    active: Seq<PodView>,
    pods: Seq<PodView>,
    completions: u32,
    ix: u32,
) -> bool {
    &&& ix < completions
    &&& !spec_non_pending(j, succ, active, pods, ix as int)
    &&& forall|y: int| 0 <= y < ix ==> spec_non_pending(j, succ, active, pods, y)
}

/// The action that retires one pod: strip the tracking finalizer while the
/// pod still carries it, delete it otherwise.
pub open spec fn spec_retire_pod(p: PodView) -> JobControllerActionView {
    if spec_has_tracking_finalizer(p) {
        JobControllerActionView::UpdatePod(spec_strip_finalizer(p))
    } else {
        JobControllerActionView::DeletePod(p)
    }
}

/// The pod created for the job from a prepared template.
pub fn create_pod_with_generate_name(
    job: &Job,
    template: &PodTemplateSpec,
    controller_ref: OwnerReference,
    generate_name: String,
) -> (r: JobControllerAction)
    ensures
        r@ matches JobControllerActionView::CreatePod(p) && p == (PodView {
            metadata: MetadataView {
                generate_name: if generate_name@.len() > 0 {
                    generate_name@
                } else {
                    template@.metadata.generate_name
                },
                ..spec_pod_from_template(template@, controller_ref@).metadata
            },
            ..spec_pod_from_template(template@, controller_ref@)
        }),
{
    let ghost cr = controller_ref@;
    let mut pod = get_pod_from_template(template, controller_ref);
    if generate_name.as_str().unicode_len() > 0 {
        let mut md = pod.metadata;
        md.generate_name = generate_name;
        pod.metadata = md;
    }
    proof {
        assert(pod@ =~= (PodView {
            metadata: MetadataView {
                generate_name: if generate_name@.len() > 0 {
                    generate_name@
                } else {
                    template@.metadata.generate_name
                },
                ..spec_pod_from_template(template@, cr).metadata
            },
            ..spec_pod_from_template(template@, cr)
        }));
    }
    JobControllerAction::CreatePod(pod)
}


// ---------------------------------------------------------------------------
// Managing the number of running pods
// ---------------------------------------------------------------------------

/// Pick at least `rm_at_least` active pods for removal: for an indexed job
/// first the pods with an invalid or duplicated completion index, then the
/// least valuable of the remaining pods in removal order. Every chosen pod
/// is one of the given pods.
pub fn active_pods_for_removal(job: &Job, pods: &Vec<Pod>, rm_at_least: usize) -> (r: Vec<Pod>)
    ensures
        forall|k: int|
            0 <= k < r.deep_view().len() ==> spec_from(
                pods.deep_view(),
                #[trigger] r.deep_view()[k],
            ),
        job@.spec.completion_mode != JobCompletionMode::Indexed ==> r.deep_view().len() == if (
        rm_at_least as int) <= pods.deep_view().len() {
            rm_at_least as int
        } else {
            pods.deep_view().len() as int
        },
        job@.spec.completion_mode != JobCompletionMode::Indexed ==> forall|k: int|
            0 <= k < r.deep_view().len() ==> #[trigger] r.deep_view()[k] == spec_sort_pods(
                pods.deep_view(),
            )[k],
        r.deep_view().len() >= if (rm_at_least as int) <= pods.deep_view().len() {
            rm_at_least as int
        } else {
            pods.deep_view().len() as int
        },
        job@.spec.completion_mode == JobCompletionMode::Indexed ==> exists|
            rmn: Seq<PodView>,
            leftn: Seq<PodView>,
        |
            #[trigger] dup_split_post(
                pods.deep_view(),
                spec_completions_or_zero(job@) as u32,
                rmn,
                leftn,
            ) && r.deep_view() == (if rmn.len() as int >= rm_at_least as int {
                rmn
            } else {
                rmn + spec_sort_pods(leftn).take(
                    if rm_at_least as int - rmn.len() as int <= leftn.len() as int {
                        rm_at_least as int - rmn.len() as int
                    } else {
                        leftn.len() as int
                    },
                )
            }),
{
    let indexed = job.spec.completion_mode == JobCompletionMode::Indexed;
    let completions = match job.spec.completions {
        Some(c) => c,
        None => 0,
    };
    let mut rm: Vec<Pod> = Vec::new();
    let mut left: Vec<Pod> = Vec::new();
    if indexed {
        append_duplicated_index_pods_for_removal(&mut rm, &mut left, pods, completions);
    } else {
        left = deep_clone_vec(pods);
    }
    let ghost rm0 = rm.deep_view();
    let ghost left0 = left.deep_view();
    proof {
        if !indexed {
            assert(rm0.len() == 0);
            assert(left0 == pods.deep_view());
        }
    }
    if rm.len() < rm_at_least {
        let need = rm_at_least - rm.len();
        proof {
            if !indexed {
                assert(need == rm_at_least);
            }
        }
        sort_active_pods(&mut left);
        let ghost sorted = left.deep_view();
        let mut m: usize = 0;
        while m < left.len() && m < need
            invariant
                sorted == left.deep_view(),
                m <= need,
                m <= left@.len() == sorted.len(),
                rm.deep_view().len() == rm0.len() + m,
                forall|k: int| 0 <= k < rm0.len() ==> #[trigger] rm.deep_view()[k] == rm0[k],
                forall|k: int|
                    rm0.len() <= k < rm.deep_view().len() ==> #[trigger] rm.deep_view()[k]
                        == sorted[k - rm0.len()],
            decreases left.len() - m,
        {
            push_from(&mut rm, &left, m);
            m = m + 1;
        }
        proof {
            lemma_sort_pods_len(left0);
            assert forall|k: int| 0 <= k < rm.deep_view().len() implies spec_from(
                pods.deep_view(),
                #[trigger] rm.deep_view()[k],
            ) by {
                if k >= rm0.len() {
                    assert(rm.deep_view()[k] == sorted[k - rm0.len()]);
                    lemma_sort_pods_mem(left0, k - rm0.len());
                    let w = choose|w: int|
                        0 <= w < left0.len() && #[trigger] left0[w] == sorted[k - rm0.len()];
                    if indexed {
                        assert(spec_from(pods.deep_view(), left0[w]));
                    } else {
                        assert(left0[w] == pods.deep_view()[w]);
                    }
                }
            }
            if !indexed {
                assert(rm.deep_view().len() == if (rm_at_least as int)
                    <= pods.deep_view().len() {
                    rm_at_least as int
                } else {
                    pods.deep_view().len() as int
                });
                assert forall|k: int| 0 <= k < rm.deep_view().len() implies
                    #[trigger] rm.deep_view()[k] == spec_sort_pods(pods.deep_view())[k] by {
                    assert(rm.deep_view()[k] == sorted[k - rm0.len()]);
                }
            }
            // at least the requested number leaves, up to the pod count
            assert(m == need || m as int == left0.len());
            assert(rm0.len() + left0.len() == pods.deep_view().len());
            if m == need {
                assert(rm.deep_view().len() >= rm_at_least);
            } else {
                assert(rm.deep_view().len() == pods.deep_view().len());
            }
            if indexed {
                let cz = spec_completions_or_zero(job@) as u32;
                assert(completions == cz);
                assert(dup_split_post(pods.deep_view(), cz, rm0, left0));
                assert(m as int == if rm_at_least as int - rm0.len() as int <= left0.len() as int {
                    rm_at_least as int - rm0.len() as int
                } else {
                    left0.len() as int
                });
                assert(rm.deep_view() =~= rm0 + spec_sort_pods(left0).take(m as int));
            }
        }
    } else {
        proof {
            if !indexed {
                assert(rm_at_least == 0);
                assert(rm.deep_view().len() == 0);
            }
            assert(rm.deep_view().len() >= rm_at_least);
            if indexed {
                let cz = spec_completions_or_zero(job@) as u32;
                assert(completions == cz);
                assert(dup_split_post(pods.deep_view(), cz, rm0, left0));
                assert(rm.deep_view() == rm0);
            }
        }
    }
    rm
}

/// Manage the number of running pods of a job that is neither finished nor
/// being deleted: a suspended job drains its active pods and never creates
/// one; too many pods are reduced, preferring invalid and duplicated
/// indexes and then the least valuable pods; too few are grown by creating
/// exactly the pod stamped from the template — carrying the tracking
/// finalizer, owned by the job, and in indexed mode annotated with the
/// first pending completion index, named and host-named after it — and
/// nothing comes back only when no growth or reduction is owed.
pub fn manage_job(
    job: &Job,
    pods: &Vec<Pod>,
    active_pods: &Vec<Pod>,
    succeeded: u64,
    succeeded_indexes: &Vec<(u32, u32)>,
    now: Time,
) -> (r: Option<JobControllerAction>)
    requires
        iv_wf(succeeded_indexes@),
    ensures
        r matches Some(a) ==> match a@ {
            JobControllerActionView::CreatePod(p) => spec_has_tracking_finalizer(p) && (
            job@.spec.completion_mode == JobCompletionMode::Indexed ==> (spec_completion_index(
                p.metadata.annotations,
            ) matches Some(ix) && (ix as nat) < spec_completions_or_zero(job@)))
                && !job@.spec.suspend && spec_grow_diff(
                job@,
                pods.deep_view(),
                active_pods.deep_view().len(),
                succeeded,
            ) > 0 && (if job@.spec.completion_mode == JobCompletionMode::Indexed {
                exists|ix: u32|
                    #[trigger] spec_is_first_pending(
                        job@,
                        succeeded_indexes@,
                        active_pods.deep_view(),
                        pods.deep_view(),
                        spec_completions_or_zero(job@) as u32,
                        ix,
                    ) && p == spec_created_pod(job@, Some(ix))
            } else {
                p == spec_created_pod(job@, None)
            }),
            JobControllerActionView::DeletePod(p) => spec_from(active_pods.deep_view(), p)
                && !spec_has_tracking_finalizer(p),
            JobControllerActionView::UpdatePod(p) => exists|q: PodView|
                spec_from(active_pods.deep_view(), q) && spec_has_tracking_finalizer(q) && p
                    == #[trigger] spec_strip_finalizer(q),
            _ => false,
        },
        job@.spec.suspend && active_pods.deep_view().len() > 0 ==> r is Some,
        job@.spec.suspend && active_pods.deep_view().len() == 0 ==> r is None,
        !job@.spec.suspend && spec_rm_at_least(
            job@,
            pods.deep_view(),
            active_pods.deep_view().len(),
            succeeded,
        ) > 0 && active_pods.deep_view().len() > 0 ==> r is Some,
        !job@.spec.suspend && spec_grow_diff(
            job@,
            pods.deep_view(),
            active_pods.deep_view().len(),
            succeeded,
        ) > 0 && (job@.spec.completion_mode == JobCompletionMode::Indexed ==> exists|ix: u32|
            #[trigger] spec_is_first_pending(
                job@,
                succeeded_indexes@,
                active_pods.deep_view(),
                pods.deep_view(),
                spec_completions_or_zero(job@) as u32,
                ix,
            )) ==> r is Some,
        !job@.spec.suspend && job@.spec.completion_mode != JobCompletionMode::Indexed
            && spec_rm_at_least(
            job@,
            pods.deep_view(),
            active_pods.deep_view().len(),
            succeeded,
        ) == 0 && spec_grow_diff(
            job@,
            pods.deep_view(),
            active_pods.deep_view().len(),
            succeeded,
        ) == 0 ==> r is None,
        !job@.spec.suspend && job@.spec.completion_mode != JobCompletionMode::Indexed
            && spec_rm_at_least(
            job@,
            pods.deep_view(),
            active_pods.deep_view().len(),
            succeeded,
        ) == 0 && spec_grow_diff(
            job@,
            pods.deep_view(),
            active_pods.deep_view().len(),
            succeeded,
        ) > 0 ==> r.deep_view() == Some(
            JobControllerActionView::CreatePod(spec_created_pod(job@, None)),
        ),
        job@.spec.completion_mode != JobCompletionMode::Indexed ==> (r matches Some(a) ==> (a@
            is CreatePod || (active_pods.deep_view().len() > 0 && a@ == spec_retire_pod(
            spec_sort_pods(active_pods.deep_view())[0],
        )))),
{
    let ghost jv = job@;
    let ghost av = active_pods.deep_view();
    let ghost allv = pods.deep_view();
    let active = active_pods.len();
    let parallelism = match job.spec.parallelism {
        Some(p) => p as usize,
        None => 0,
    };
    proof {
        assert(av.len() == active_pods@.len());
    }
    if job.spec.suspend {
        // drain every active pod of a suspended job
        let pods_to_delete = active_pods_for_removal(job, active_pods, active);
        if pods_to_delete.len() > 0 {
            let r = delete_job_pods(job, &pods_to_delete);
            proof {
                assert(spec_from(av, pods_to_delete.deep_view()[0]));
                assert(av.len() > 0) by {
                    let w = choose|w: int|
                        0 <= w < av.len() && #[trigger] av[w] == pods_to_delete.deep_view()[0];
                }
                if jv.spec.completion_mode != JobCompletionMode::Indexed {
                    assert(pods_to_delete.deep_view()[0] == spec_sort_pods(av)[0]);
                }
            }
            return r;
        }
        // the removal pick covers every active pod, so none were left
        proof {
            if av.len() > 0 {
                assert(pods_to_delete.deep_view().len() > 0);
                assert(false);
            }
        }
        return None;
    }
    let mut terminating: usize = 0;
    if only_replace_failed_pods(job) {
        terminating = count_terminating_pods(pods);
    }
    let want_active: usize = match job.spec.completions {
        Some(completions) => {
            let remaining = if (completions as u64) > succeeded {
                (completions as u64 - succeeded) as usize
            } else {
                0
            };
            if remaining > parallelism {
                parallelism
            } else {
                remaining
            }
        },
        None => {
            if succeeded > 0 {
                active
            } else {
                parallelism
            }
        },
    };
    let total = if active > usize::MAX - terminating {
        usize::MAX
    } else {
        active + terminating
    };
    let rm_at_least = if total > want_active {
        total - want_active
    } else {
        0
    };
    proof {
        assert(terminating as nat == spec_term_count(jv, allv));
        assert(want_active as nat == spec_want_active(jv, av.len(), succeeded));
        assert(rm_at_least as nat == spec_rm_at_least(jv, allv, av.len(), succeeded));
    }
    let pods_to_delete = active_pods_for_removal(job, active_pods, rm_at_least);
    if pods_to_delete.len() > 0 {
        let r = delete_job_pods(job, &pods_to_delete);
        proof {
            assert(spec_from(av, pods_to_delete.deep_view()[0]));
            if jv.spec.completion_mode != JobCompletionMode::Indexed {
                assert(rm_at_least > 0);
                assert(pods_to_delete.deep_view()[0] == spec_sort_pods(av)[0]);
            }
        }
        return r;
    }
    proof {
        // nothing was picked, so either nothing was owed or nothing is active
        if rm_at_least > 0 && av.len() > 0 {
            assert(pods_to_delete.deep_view().len() > 0);
            assert(false);
        }
    }
    let mut diff: usize = want_active;
    if diff > terminating {
        diff = diff - terminating;
    } else {
        diff = 0;
    }
    if diff > active {
        diff = diff - active;
    } else {
        diff = 0;
    }
    proof {
        assert(diff as nat == spec_grow_diff(jv, allv, av.len(), succeeded));
    }
    if diff == 0 {
        return None;
    }
    if diff > MAX_POD_CREATE_DELETE_PER_SYNC {
        diff = MAX_POD_CREATE_DELETE_PER_SYNC;
    }
    let indexed = job.spec.completion_mode == JobCompletionMode::Indexed;
    let completions = match job.spec.completions {
        Some(c) => c,
        None => 0,
    };
    proof {
        assert(completions as nat == spec_completions_or_zero(jv));
    }
    let mut completion_index: Option<u32> = None;
    if indexed {
        let indexes_to_add = first_pending_indexes(
            diff,
            completions,
            pods,
            active_pods,
            job,
            succeeded_indexes,
        );
        if indexes_to_add.len() == 0 {
            proof {
                // no index is pending, so in particular no first pending one
                if exists|ix: u32|
                    spec_is_first_pending(jv, succeeded_indexes@, av, allv, completions, ix) {
                    let ix = choose|ix: u32|
                        spec_is_first_pending(jv, succeeded_indexes@, av, allv, completions, ix);
                    assert(crate::utils::uset_covers(indexes_to_add@, ix as int));
                    assert(false);
                }
            }
            return None;
        }
        proof {
            let rr = indexes_to_add@;
            assert(rr[0] < completions);
            assert(spec_is_first_pending(jv, succeeded_indexes@, av, allv, completions, rr[0]))
                by {
                assert forall|y: int| 0 <= y < rr[0] implies spec_non_pending(
                    jv,
                    succeeded_indexes@,
                    av,
                    allv,
                    y,
                ) by {
                    if !spec_non_pending(jv, succeeded_indexes@, av, allv, y) {
                        assert(rr[0] <= rr[rr.len() - 1]) by {
                            if rr.len() > 1 {
                                assert(rr[0] < rr[rr.len() - 1]);
                            }
                        }
                        assert(crate::utils::uset_covers(rr, y));
                        let w = choose|w: int| 0 <= w < rr.len() && #[trigger] rr[w] == y;
                        if w > 0 {
                            assert(rr[0] < rr[w]);
                        }
                        assert(false);
                    }
                }
            }
        }
        completion_index = Some(indexes_to_add[0]);
        proof {
            assert(completion_index matches Some(cix) && spec_is_first_pending(
                jv,
                succeeded_indexes@,
                av,
                allv,
                completions,
                cix,
            ));
        }
    }
    let mut pod_template = job.spec.template.clone();
    let ghost t0 = jv.spec.template;
    proof {
        assert(pod_template@ == t0);
    }
    if indexed {
        add_completion_index_env_variables(&mut pod_template);
    }
    let ghost t1 = pod_template@;
    proof {
        if indexed {
            assert(t1 =~= (PodTemplateSpecView {
                spec: PodSpecView {
                    init_containers: t0.spec.init_containers.map_values(
                        |c: crate::resources::ContainerView| spec_with_index_env(c),
                    ),
                    containers: t0.spec.containers.map_values(
                        |c: crate::resources::ContainerView| spec_with_index_env(c),
                    ),
                    ..t0.spec
                },
                ..t0
            }));
        }
    }
    let ghost fin0 = pod_template@.metadata.finalizers;
    append_job_completion_finalizer_if_not_found(&mut pod_template.metadata.finalizers);
    let ghost t2 = pod_template@;
    proof {
        assert(t2 =~= (PodTemplateSpecView {
            metadata: MetadataView {
                finalizers: spec_with_tracking_finalizer(t1.metadata.finalizers),
                ..t1.metadata
            },
            ..t1
        }));
        assert(pod_template@.metadata.finalizers.contains(spec_tracking_finalizer())) by {
            if fin0.contains(spec_tracking_finalizer()) {
                let w = choose|w: int| 0 <= w < fin0.len() && fin0[w] == spec_tracking_finalizer();
                assert(pod_template@.metadata.finalizers[w] == spec_tracking_finalizer());
            } else {
                let fs = fin0.push(spec_tracking_finalizer());
                assert(fs[fs.len() - 1] == spec_tracking_finalizer());
            }
        }
    }
    let ghost ann0 = pod_template@.metadata.annotations;
    let generate_name = match completion_index {
        Some(ix) => {
            add_completion_index_annotation(&mut pod_template, ix);
            let hostname = pod_hostname_with_index(&job.metadata.name, ix);
            let mut spec2 = pod_template.spec;
            spec2.hostname = hostname;
            pod_template.spec = spec2;
            pod_generate_name_with_index(job.metadata.name.clone(), ix)
        },
        None => String::new(),
    };
    proof {
        reveal(spec_prepared_template);
        match completion_index {
            Some(ix) => {
                assert(pod_template@ =~= spec_prepared_template(jv, Some(ix)));
                assert(generate_name@ == spec_generate_name_with_index(jv.metadata.name, ix));
                // the generated prefix is never empty
                reveal_strlit("-");
                lemma_dec_str_wf(ix as nat);
                crate::utils::lemma_dec_str_len(ix as nat);
                assert(generate_name@.len() > 0);
            },
            None => {
                assert(pod_template@ =~= spec_prepared_template(jv, None));
                assert(generate_name@.len() == 0);
            },
        }
    }
    let owner = new_controller_ref(&job.metadata);
    let action = create_pod_with_generate_name(job, &pod_template, owner, generate_name);
    proof {
        reveal(spec_created_pod);
        reveal(spec_prepared_template);
        match action@ {
            JobControllerActionView::CreatePod(p) => {
                assert(p.metadata.finalizers == pod_template@.metadata.finalizers);
                match completion_index {
                    Some(ix) => {
                        assert(p.metadata.annotations == pod_template@.metadata.annotations);
                        assert(pod_template@.metadata.annotations == spec_with_index_annotation(
                            ann0,
                            ix,
                        ));
                        crate::resources::lemma_upsert_lookup(
                            ann0,
                            spec_index_annotation(),
                            dec_str(ix as nat),
                        );
                        lemma_dec_str_wf(ix as nat);
                        assert(str_val(dec_str(ix as nat)) <= u32::MAX as nat);
                        assert(spec_completion_index(p.metadata.annotations) == Some(ix));
                        assert(p =~= spec_created_pod(jv, Some(ix)));
                        let cz = spec_completions_or_zero(jv) as u32;
                        assert(cz == completions);
                        assert(spec_is_first_pending(jv, succeeded_indexes@, av, allv, cz, ix));
                    },
                    None => {
                        assert(p =~= spec_created_pod(jv, None));
                    },
                }
            },
            _ => {
                assert(false);
            },
        }
    }
    Some(action)
}


// ---------------------------------------------------------------------------
// Status bookkeeping and the reconcile step
// ---------------------------------------------------------------------------

/// A count clipped to the width of a status counter.
pub open spec fn sat32(n: nat) -> u32 {
    if n > u32::MAX {
        u32::MAX
    } else {
        n as u32
    }
}

/// Clip a count to the width of a status counter.
pub fn sat32_of(n: u64) -> (r: u32)
    ensures
        r == sat32(n as nat),
{
    if n > u32::MAX as u64 {
        u32::MAX
    } else {
        n as u32
    }
}

/// Some pod with this uid still carries the tracking finalizer.
pub open spec fn spec_uid_tracked(pods: Seq<PodView>, uid: Seq<char>) -> bool {
    exists|i: int|
        0 <= i < pods.len() && (#[trigger] pods[i]).metadata.uid == uid
            && spec_has_tracking_finalizer(pods[i])
}

/// Whether some pod with this uid still carries the tracking finalizer.
fn has_tracked_pod(pods: &Vec<Pod>, uid: &str) -> (r: bool)
    ensures
        r == spec_uid_tracked(pods.deep_view(), uid@),
{
    let ghost pv = pods.deep_view();
    let mut i: usize = 0;
    while i < pods.len()
        invariant
            pv == pods.deep_view(),
            i <= pods@.len() == pv.len(),
            forall|j: int|
                0 <= j < i ==> !((#[trigger] pv[j]).metadata.uid == uid@
                    && spec_has_tracking_finalizer(pv[j])),
        decreases pods.len() - i,
    {
        proof {
            assert(pv[i as int] == pods@[i as int].deep_view());
        }
        if str_eq(pods[i].metadata.uid.as_str(), uid) && has_job_tracking_finalizer(&pods[i]) {
            proof {
                assert(pv[i as int].metadata.uid == uid@);
            }
            return true;
        }
        i = i + 1;
    }
    proof {
        if spec_uid_tracked(pv, uid@) {
            let w = choose|w: int|
                0 <= w < pv.len() && (#[trigger] pv[w]).metadata.uid == uid@
                    && spec_has_tracking_finalizer(pv[w]);
            assert(false);
        }
    }
    false
}

/// Split the uncounted uids into those whose pod still carries the tracking
/// finalizer (kept) and the rest (moved into the numeric counters).
fn prune_uncounted(uids: &Vec<String>, pods: &Vec<Pod>) -> (r: (Vec<String>, u64))
    ensures
        r.0.deep_view() == uids.deep_view().filter(
            |u: Seq<char>| spec_uid_tracked(pods.deep_view(), u),
        ),
        r.1 as int == uids.deep_view().len() - r.0.deep_view().len(),
        r.1 as int <= uids.deep_view().len(),
{
    let ghost uv = uids.deep_view();
    let ghost pred = |u: Seq<char>| spec_uid_tracked(pods.deep_view(), u);
    let mut kept: Vec<String> = Vec::new();
    let mut i: usize = 0;
    while i < uids.len()
        invariant
            uv == uids.deep_view(),
            i <= uids@.len() == uv.len(),
            kept.deep_view() == uv.take(i as int).filter(pred),
            kept.deep_view().len() <= i,
            pred == (|u: Seq<char>| spec_uid_tracked(pods.deep_view(), u)),
        decreases uids.len() - i,
    {
        proof {
            assert(uv[i as int] == uids@[i as int]@);
            uv.lemma_take_succ_push(i as int);
            uv.take(i as int).lemma_filter_push(uv[i as int], pred);
            uv.take(i as int).lemma_filter_len(pred);
        }
        let ghost before = kept.deep_view();
        if has_tracked_pod(pods, uids[i].as_str()) {
            kept.push(uids[i].clone());
            proof {
                assert forall|j: int| 0 <= j < kept.deep_view().len() implies kept.deep_view()[j]
                    == before.push(uv[i as int])[j] by {
                    assert(kept.deep_view()[j] == kept@[j]@);
                    if j < before.len() {
                        assert(before[j] == kept@[j]@);
                    }
                }
                assert(kept.deep_view() =~= before.push(uv[i as int]));
            }
        }
        i = i + 1;
    }
    proof {
        assert(uv.take(uv.len() as int) =~= uv);
        uv.lemma_filter_len(pred);
    }
    let moved = (uids.len() - kept.len()) as u64;
    (kept, moved)
}

/// Compare two job statuses at the level of their views.
fn status_deep_eq(a: &crate::resources::JobStatus, b: &crate::resources::JobStatus) -> (r: bool)
    ensures
        r == (a@ == b@),
{
    let r = a.active == b.active && a.ready == b.ready && a.succeeded == b.succeeded && a.failed
        == b.failed && str_eq(a.completed_indexes.as_str(), b.completed_indexes.as_str())
        && deep_eq_vec(
        &a.uncounted_terminated_pods.succeeded,
        &b.uncounted_terminated_pods.succeeded,
    ) && deep_eq_vec(&a.uncounted_terminated_pods.failed, &b.uncounted_terminated_pods.failed)
        && deep_eq_vec(&a.conditions, &b.conditions) && crate::resources::opt_time_eq(
        &a.start_time,
        &b.start_time,
    );
    proof {
        if r {
            assert(a@.uncounted_terminated_pods =~= b@.uncounted_terminated_pods);
            assert(a@ =~= b@);
        }
    }
    r
}

/// The active pods the job sees.
pub open spec fn spec_active_of(pods: Seq<PodView>) -> Seq<PodView> {
    pods.filter(|p: PodView| spec_pod_active(p))
}

/// The job's backoff limit, zero when unset.
pub open spec fn spec_backoff_limit(j: JobView) -> u64 {
    match j.spec.backoff_limit {
        Some(bl) => bl as u64,
        None => 0,
    }
}

/// The failures counted against the backoff limit: the recorded count, the
/// newly failed pods the policy does not ignore, and the uncounted uids.
pub open spec fn spec_failed_count(j: JobView, pods: Seq<PodView>) -> u64 {
    sat_add64(
        j.status.failed as u64,
        sat_add64(
            spec_non_ignored_count(j, spec_new_failed(j, pods)) as u64,
            j.status.uncounted_terminated_pods.failed.len() as u64,
        ),
    )
}

/// The successes one step sees for a job that is not indexed: the recorded
/// count, the newly succeeded pods and the uncounted uids.
pub open spec fn spec_succeeded_count(j: JobView, pods: Seq<PodView>) -> u64 {
    sat_add64(
        j.status.succeeded as u64,
        sat_add64(
            spec_new_succeeded(j, pods).len() as u64,
            j.status.uncounted_terminated_pods.succeeded.len() as u64,
        ),
    )
}

/// The terminal failure condition one step derives, in priority order: a
/// prior true `FailureTarget` becomes `Failed`, a matched `FailJob` rule
/// imposes a `FailureTarget`, an exhausted backoff limit or an elapsed
/// active deadline imposes `Failed`.
#[verifier::opaque]
pub open spec fn spec_finished_condition(j: JobView, pods: Seq<PodView>, now: Time) -> Option<
    JobConditionView,
> {
    let ft = spec_find_condition(j.status.conditions, JobConditionType::FailureTarget);
    if ft is Some && ft.unwrap().status == ConditionStatus::True {
        Some(
            spec_new_condition(
                JobConditionType::Failed,
                ConditionStatus::True,
                ft.unwrap().reason,
                ft.unwrap().message,
                now,
            ),
        )
    } else if spec_fail_job_message(j, pods) is Some {
        Some(
            spec_new_condition(
                JobConditionType::FailureTarget,
                ConditionStatus::True,
                "PodFailurePolicy"@,
                spec_fail_job_message(j, pods).unwrap(),
                now,
            ),
        )
    } else if spec_failed_count(j, pods) > spec_backoff_limit(j) || spec_past_backoff(j, pods) {
        Some(
            spec_new_condition(
                JobConditionType::Failed,
                ConditionStatus::True,
                "BackoffLimitExceeded"@,
                "Job has reached the specified backoff limit"@,
                now,
            ),
        )
    } else if spec_past_active_deadline(j, now) {
        Some(
            spec_new_condition(
                JobConditionType::Failed,
                ConditionStatus::True,
                "DeadlineExceeded"@,
                "Job was active longer than specified deadline"@,
                now,
            ),
        )
    } else {
        None
    }
}

/// Whether the job is complete for the given success tally: no active pod is
/// left, and either any success (no completion count) or enough of them.
pub open spec fn spec_complete(j: JobView, pods: Seq<PodView>, succ: u64) -> bool {
    spec_active_of(pods).len() == 0 && (match j.spec.completions {
        None => succ > 0,
        Some(c) => succ >= c as u64,
    })
}

/// The condition one step records, failure or completion.
#[verifier::opaque]
pub open spec fn spec_finished_or_complete(
    j: JobView,
    pods: Seq<PodView>,
    now: Time,
    succ: u64,
) -> Option<JobConditionView> {
    match spec_finished_condition(j, pods, now) {
        Some(c) => Some(c),
        None => if spec_complete(j, pods, succ) {
            Some(
                spec_new_condition(
                    JobConditionType::Complete,
                    ConditionStatus::True,
                    Seq::empty(),
                    Seq::empty(),
                    now,
                ),
            )
        } else {
            None
        },
    }
}

/// The conditions a recorded status carries: the derived terminal condition
/// is imposed; otherwise a live job gains `Suspended(True, JobSuspended)`
/// while suspended and `Suspended(False, JobResumed)` once resumed, each
/// only where that changes the list.
#[verifier::opaque]
pub open spec fn spec_new_conditions(j: JobView, pods: Seq<PodView>, now: Time, succ: u64) -> Seq<
    JobConditionView,
> {
    let conds = j.status.conditions;
    match spec_finished_or_complete(j, pods, now, succ) {
        Some(c) => match spec_ensure_condition(
            conds,
            c.cond_type,
            ConditionStatus::True,
            c.reason,
            c.message,
            now,
        ) {
            Some(cs) => cs,
            None => conds,
        },
        None => if j.metadata.deletion_timestamp is None {
            if j.spec.suspend {
                match spec_ensure_condition(
                    conds,
                    JobConditionType::Suspended,
                    ConditionStatus::True,
                    "JobSuspended"@,
                    "Job suspended"@,
                    now,
                ) {
                    Some(cs) => cs,
                    None => conds,
                }
            } else {
                match spec_ensure_condition(
                    conds,
                    JobConditionType::Suspended,
                    ConditionStatus::False,
                    "JobResumed"@,
                    "Job resumed"@,
                    now,
                ) {
                    Some(cs) => cs,
                    None => conds,
                }
            }
        } else {
            conds
        },
    }
}

/// The start time a recorded status carries: set to `now` on the first
/// unsuspended sighting, and reset to `now` when the resumption transition
/// is recorded, so the active deadline reads continuously-active time.
#[verifier::opaque]
pub open spec fn spec_new_start_time(j: JobView, pods: Seq<PodView>, now: Time, succ: u64)
    -> Option<Time> {
    let st0 = if j.status.start_time is None && !j.spec.suspend {
        Some(now)
    } else {
        j.status.start_time
    };
    if spec_finished_or_complete(j, pods, now, succ) is None && j.metadata.deletion_timestamp
        is None && !j.spec.suspend && spec_ensure_condition(
        j.status.conditions,
        JobConditionType::Suspended,
        ConditionStatus::False,
        "JobResumed"@,
        "Job resumed"@,
        now,
    ) is Some {
        Some(now)
    } else {
        st0
    }
}

/// What one reconcile step may return, and what each kind of result
/// guarantees; see [`reconcile`].
/// The unique compressed list whose canonical printing the string is, when
/// one is.
#[verifier::opaque]
pub open spec fn spec_printed_list(str: Seq<char>, completions: u32) -> Seq<(u32, u32)> {
    choose|s: Seq<(u32, u32)>| spec_iv_printing_of(str, completions, s)
}

/// The job's recorded completed-indexes string is a canonical printing —
/// which everything the controller itself writes is.
#[verifier::opaque]
pub open spec fn spec_status_printed(j: JobView) -> bool {
    exists|s: Seq<(u32, u32)>|
        #[trigger] spec_iv_printing_of(
            j.status.completed_indexes,
            spec_completions_or_zero(j) as u32,
            s,
        )
}

/// The compressed list covering exactly the previously recorded indexes and
/// the indexes of the job's succeeded pods.
#[verifier::opaque]
pub open spec fn spec_merge_result(
    j: JobView,
    pods: Seq<PodView>,
    prev: Seq<(u32, u32)>,
) -> Seq<(u32, u32)> {
    choose|m: Seq<(u32, u32)>|
        iv_canonical(m) && (forall|x: int| #[trigger]
            iv_covers(m, x) == (iv_covers(prev, x) || spec_succeeded_index(j, pods, x)))
}

/// The merged succeeded-index list an indexed job's step works from, when
/// its recorded string is canonical.
#[verifier::opaque]
pub open spec fn spec_indexed_merged(j: JobView, pods: Seq<PodView>) -> Seq<(u32, u32)> {
    spec_merge_result(
        j,
        pods,
        spec_printed_list(j.status.completed_indexes, spec_completions_or_zero(j) as u32),
    )
}

/// The success tally one step sees: the count of merged succeeded indexes
/// for an indexed job, the counter arithmetic otherwise.
#[verifier::opaque]
pub open spec fn spec_succ_tally(j: JobView, pods: Seq<PodView>) -> u64 {
    if j.spec.completion_mode == JobCompletionMode::Indexed {
        spec_iv_total(spec_indexed_merged(j, pods)) as u64
    } else {
        spec_succeeded_count(j, pods)
    }
}

/// The step's success tally is a function of the job and pods alone: always
/// outside indexed mode, and for an indexed job whenever its recorded
/// completed-indexes string is canonical.
pub open spec fn spec_tally_pinned(j: JobView) -> bool {
    j.spec.completion_mode != JobCompletionMode::Indexed || spec_status_printed(j)
}

/// A canonical list covering exactly the printed indexes and the succeeded
/// ones is the merged list: compressed lists with one coverage are equal.
proof fn lemma_merged_pinned(j: JobView, pods: Seq<PodView>, m: Seq<(u32, u32)>)
    requires
        iv_canonical(m),
        forall|x: int| #[trigger]
            iv_covers(m, x) == (iv_covers(
                spec_printed_list(
                    j.status.completed_indexes,
                    spec_completions_or_zero(j) as u32,
                ),
                x,
            ) || spec_succeeded_index(j, pods, x)),
    ensures
        m == spec_indexed_merged(j, pods),
{
    reveal(spec_merge_result);
    reveal(spec_indexed_merged);
    let sp = spec_printed_list(j.status.completed_indexes, spec_completions_or_zero(j) as u32);
    let mr = spec_merge_result(j, pods, sp);
    assert(exists|m2: Seq<(u32, u32)>|
        iv_canonical(m2) && (forall|x: int| #[trigger]
            iv_covers(m2, x) == (iv_covers(sp, x) || spec_succeeded_index(j, pods, x))));
    assert(iv_canonical(mr) && (forall|x: int| #[trigger]
        iv_covers(mr, x) == (iv_covers(sp, x) || spec_succeeded_index(j, pods, x))));
    lemma_iv_canonical_unique(m, mr);
}

/// The parse of a canonically printed string, merged with the succeeded
/// indexes, is the pinned merged list.
#[verifier::rlimit(100)]
#[verifier::spinoff_prover]
proof fn lemma_calc_pinned(
    j: JobView,
    pods: Seq<PodView>,
    prev: Seq<(u32, u32)>,
    m: Seq<(u32, u32)>,
)
    requires
        spec_status_printed(j),
        forall|s: Seq<(u32, u32)>|
            #[trigger] spec_iv_printing_of(
                j.status.completed_indexes,
                spec_completions_or_zero(j) as u32,
                s,
            ) ==> prev == s,
        iv_canonical(m),
        forall|x: int| #[trigger]
            iv_covers(m, x) == (iv_covers(prev, x) || spec_succeeded_index(j, pods, x)),
    ensures
        m == spec_indexed_merged(j, pods),
{
    reveal(spec_status_printed);
    reveal(spec_printed_list);
    let cz = spec_completions_or_zero(j) as u32;
    let sp = spec_printed_list(j.status.completed_indexes, cz);
    assert(spec_iv_printing_of(j.status.completed_indexes, cz, sp));
    assert(prev == sp);
    lemma_merged_pinned(j, pods, m);
}

pub open spec fn reconcile_post(
    j: JobView,
    pods: Seq<PodView>,
    now: Time,
    r: Option<JobControllerActionView>,
) -> bool {
    let active = spec_active_of(pods);
    let indexed = j.spec.completion_mode == JobCompletionMode::Indexed;
    let pinned = spec_tally_pinned(j);
    let succ = spec_succ_tally(j, pods);
    let finc = spec_finished_condition(j, pods, now);
    &&& (r is None ==> j.status.active == sat32(active.len()) && j.status.ready == sat32(
        spec_count_ready(active),
    ))
    &&& (match r {
        Some(a) => match a {
            JobControllerActionView::ControllerJoin(_) => false,
            JobControllerActionView::CreatePod(p) => spec_has_tracking_finalizer(p)
                && !j.spec.suspend && finc is None && j.metadata.deletion_timestamp is None && (
            if indexed {
                (spec_completion_index(p.metadata.annotations) matches Some(ix) && (ix as nat)
                    < spec_completions_or_zero(j) && p == spec_created_pod(j, Some(ix))) && (
                spec_status_printed(j) ==> spec_grow_diff(j, pods, active.len(), succ) > 0
                    && exists|ix: u32|
                    #[trigger] spec_is_first_pending(
                        j,
                        spec_indexed_merged(j, pods),
                        active,
                        pods,
                        spec_completions_or_zero(j) as u32,
                        ix,
                    ) && p == spec_created_pod(j, Some(ix)))
            } else {
                spec_grow_diff(j, pods, active.len(), succ) > 0 && p == spec_created_pod(j, None)
            }),
            JobControllerActionView::DeletePod(p) => spec_from(pods, p),
            JobControllerActionView::UpdatePod(p) => exists|q: PodView|
                spec_from(pods, q) && p == #[trigger] spec_strip_finalizer(q),
            JobControllerActionView::UpdateJobStatus(j2) => j2.metadata == j.metadata && j2.spec
                == j.spec && j2.status.active == sat32(active.len()) && j2.status.ready == sat32(
                spec_count_ready(active),
            ) && (pinned ==> j2.status.conditions == spec_new_conditions(j, pods, now, succ)
                && j2.status.start_time == spec_new_start_time(j, pods, now, succ)) && (indexed
                && spec_status_printed(j) ==> j2.status.completed_indexes == spec_intervals_str(
                spec_indexed_merged(j, pods),
            ) && j2.status.succeeded == sat32(spec_iv_total(spec_indexed_merged(j, pods)))),
        },
        None => true,
    })
    // a finishing job drains its active pods, first one first
    &&& (finc is Some && active.len() > 0 ==> r == Some(
        JobControllerActionView::DeletePod(active[0]),
    ))
    // a live suspended job with active pods acts
    &&& (finc is None && j.metadata.deletion_timestamp is None && j.spec.suspend && active.len()
        > 0 ==> r is Some)
    // and outside indexed mode retires exactly the least valuable pod
    &&& (finc is None && j.metadata.deletion_timestamp is None && j.spec.suspend && active.len()
        > 0 && !indexed ==> r == Some(spec_retire_pod(spec_sort_pods(active)[0])))
    // too many pods: the least valuable one is retired
    &&& (finc is None && j.metadata.deletion_timestamp is None && !j.spec.suspend && !indexed
        && spec_rm_at_least(j, pods, active.len(), succ) > 0 && active.len() > 0 ==> r == Some(
        spec_retire_pod(spec_sort_pods(active)[0]),
    ))
    // too few pods: the templated pod is created
    &&& (finc is None && j.metadata.deletion_timestamp is None && !j.spec.suspend && !indexed
        && spec_rm_at_least(j, pods, active.len(), succ) == 0 && spec_grow_diff(
        j,
        pods,
        active.len(),
        succ,
    ) > 0 ==> r == Some(JobControllerActionView::CreatePod(spec_created_pod(j, None))))
    // a silent step leaves a status that already carries the derived
    // conditions, start time and, in indexed mode, the merged index list
    &&& (r is None && pinned ==> j.status.conditions == spec_new_conditions(j, pods, now, succ)
        && j.status.start_time == spec_new_start_time(j, pods, now, succ))
    &&& (r is None && indexed && spec_status_printed(j) ==> j.status.completed_indexes
        == spec_intervals_str(spec_indexed_merged(j, pods)) && j.status.succeeded == sat32(
        spec_iv_total(spec_indexed_merged(j, pods)),
    ))
}

/// An active pod is one of the observed pods.
proof fn lemma_active_from(pods: Seq<PodView>, active: Seq<PodView>, w: int)
    requires
        active == spec_active_of(pods),
        0 <= w < active.len(),
    ensures
        spec_from(pods, active[w]),
{
    let pred = |p: PodView| spec_pod_active(p);
    assert(active.contains(active[w]));
    pods.lemma_filter_contains_rev(pred, active[w]);
    let v = choose|v: int| 0 <= v < pods.len() && #[trigger] pods[v] == active[w];
    assert(spec_from(pods, active[w]));
}

/// Derive the terminal failure condition one step imposes: the priority
/// chain of [`spec_finished_condition`], computed from the observed pods and
/// the newly failed ones.
fn derive_finished_condition(
    job: &Job,
    pods: &Vec<Pod>,
    new_fail: &Vec<Pod>,
    now: Time,
) -> (r: Option<JobCondition>)
    requires
        new_fail.deep_view() == spec_new_failed(job@, pods.deep_view()),
    ensures
        r.deep_view() == spec_finished_condition(job@, pods.deep_view(), now),
{
    proof {
        reveal(spec_finished_condition);
        reveal_strlit("PodFailurePolicy");
        reveal_strlit("BackoffLimitExceeded");
        reveal_strlit("Job has reached the specified backoff limit");
        reveal_strlit("DeadlineExceeded");
        reveal_strlit("Job was active longer than specified deadline");
    }
    let failed_count: u64 = sat_add(
        job.status.failed as u64,
        sat_add(
            non_ignored_failed_pods_count(job, &new_fail) as u64,
            job.status.uncounted_terminated_pods.failed.len() as u64,
        ),
    );
    // the terminal condition this step imposes, if any
    let backoff = match job.spec.backoff_limit {
        Some(bl) => bl as u64,
        None => 0,
    };
    let mut finished: Option<JobCondition> = None;
    match find_condition_by_type(&job.status.conditions, JobConditionType::FailureTarget) {
        Some(ft) => {
            if ft.status == ConditionStatus::True {
                finished = Some(
                    new_condition(
                        JobConditionType::Failed,
                        ConditionStatus::True,
                        ft.reason,
                        ft.message,
                        now,
                    ),
                );
            }
        },
        None => {},
    }
    if finished.is_none() {
        match get_fail_job_message(job, pods) {
            Some(m) => {
                let mut reason = String::new();
                reason.append("PodFailurePolicy");
                finished = Some(
                    new_condition(
                        JobConditionType::FailureTarget,
                        ConditionStatus::True,
                        reason,
                        m,
                        now,
                    ),
                );
            },
            None => {},
        }
    }
    if finished.is_none() {
        if failed_count > backoff || past_backoff_limit_on_failure(job, pods) {
            let mut reason = String::new();
            reason.append("BackoffLimitExceeded");
            let mut message = String::new();
            message.append("Job has reached the specified backoff limit");
            finished = Some(
                new_condition(
                    JobConditionType::Failed,
                    ConditionStatus::True,
                    reason,
                    message,
                    now,
                ),
            );
        } else if past_active_deadline(job, now) {
            let mut reason = String::new();
            reason.append("DeadlineExceeded");
            let mut message = String::new();
            message.append("Job was active longer than specified deadline");
            finished = Some(
                new_condition(
                    JobConditionType::Failed,
                    ConditionStatus::True,
                    reason,
                    message,
                    now,
                ),
            );
        }
    }
    proof {
        assert(Seq::<char>::empty() + "PodFailurePolicy"@ =~= "PodFailurePolicy"@);
        assert(Seq::<char>::empty() + "BackoffLimitExceeded"@ =~= "BackoffLimitExceeded"@);
        assert(Seq::<char>::empty() + "Job has reached the specified backoff limit"@
            =~= "Job has reached the specified backoff limit"@);
        assert(Seq::<char>::empty() + "DeadlineExceeded"@ =~= "DeadlineExceeded"@);
        assert(Seq::<char>::empty() + "Job was active longer than specified deadline"@
            =~= "Job was active longer than specified deadline"@);
        assert(finished.deep_view() == spec_finished_condition(job@, pods.deep_view(), now));
    }
    finished
}

/// Act on the observed pods where the step owes an action: a finishing job
/// drains its first active pod; a live job is handed to [`manage_job`].
/// Nothing comes back exactly when no pod action is owed and the step should
/// fall through to status bookkeeping.
#[verifier::rlimit(100)]
#[verifier::spinoff_prover]
fn act_on_pods(
    job: &Job,
    pods: &Vec<Pod>,
    active: &Vec<Pod>,
    succeeded_count: u64,
    merged: &Vec<(u32, u32)>,
    finished: &Option<JobCondition>,
    now: Time,
) -> (r: Option<JobControllerAction>)
    requires
        active.deep_view() == spec_active_of(pods.deep_view()),
        finished.deep_view() == spec_finished_condition(job@, pods.deep_view(), now),
        spec_tally_pinned(job@) ==> succeeded_count == spec_succ_tally(job@, pods.deep_view()),
        job@.spec.completion_mode == JobCompletionMode::Indexed && spec_status_printed(job@)
            ==> merged@ == spec_indexed_merged(job@, pods.deep_view()),
        iv_wf(merged@),
    ensures
        ({
            let jv = job@;
            let pv = pods.deep_view();
            let avs = spec_active_of(pv);
            let indexed = jv.spec.completion_mode == JobCompletionMode::Indexed;
            let succ = spec_succ_tally(jv, pv);
            let finc = spec_finished_condition(jv, pv, now);
            &&& (match r.deep_view() {
                Some(a) => match a {
                    JobControllerActionView::CreatePod(p) => spec_has_tracking_finalizer(p)
                        && !jv.spec.suspend && finc is None && jv.metadata.deletion_timestamp
                        is None && (if indexed {
                        (spec_completion_index(p.metadata.annotations) matches Some(ix) && (
                        ix as nat) < spec_completions_or_zero(jv) && p == spec_created_pod(
                            jv,
                            Some(ix),
                        )) && (spec_status_printed(jv) ==> spec_grow_diff(jv, pv, avs.len(), succ)
                            > 0 && exists|ix: u32|
                            #[trigger] spec_is_first_pending(
                                jv,
                                spec_indexed_merged(jv, pv),
                                avs,
                                pv,
                                spec_completions_or_zero(jv) as u32,
                                ix,
                            ) && p == spec_created_pod(jv, Some(ix)))
                    } else {
                        spec_grow_diff(jv, pv, avs.len(), succ) > 0 && p == spec_created_pod(
                            jv,
                            None,
                        )
                    }),
                    JobControllerActionView::DeletePod(p) => spec_from(pv, p),
                    JobControllerActionView::UpdatePod(p) => exists|q: PodView|
                        spec_from(pv, q) && p == #[trigger] spec_strip_finalizer(q),
                    _ => false,
                },
                None => true,
            })
            &&& (finc is Some && avs.len() > 0 ==> r.deep_view() == Some(
                JobControllerActionView::DeletePod(avs[0]),
            ))
            &&& (finc is None && jv.metadata.deletion_timestamp is None && jv.spec.suspend
                && avs.len() > 0 ==> r is Some)
            &&& (finc is None && jv.metadata.deletion_timestamp is None && jv.spec.suspend
                && avs.len() > 0 && !indexed ==> r.deep_view() == Some(
                spec_retire_pod(spec_sort_pods(avs)[0]),
            ))
            &&& (finc is None && jv.metadata.deletion_timestamp is None && !jv.spec.suspend
                && !indexed && spec_rm_at_least(jv, pv, avs.len(), succ) > 0 && avs.len() > 0
                ==> r.deep_view() == Some(spec_retire_pod(spec_sort_pods(avs)[0])))
            &&& (finc is None && jv.metadata.deletion_timestamp is None && !jv.spec.suspend
                && !indexed && spec_rm_at_least(jv, pv, avs.len(), succ) == 0 && spec_grow_diff(
                jv,
                pv,
                avs.len(),
                succ,
            ) > 0 ==> r.deep_view() == Some(
                JobControllerActionView::CreatePod(spec_created_pod(jv, None)),
            ))
        }),
{
    let ghost jv = job@;
    let ghost pv = pods.deep_view();
    let ghost av = active.deep_view();
    let indexed = job.spec.completion_mode == JobCompletionMode::Indexed;
    let ghost pinned = spec_tally_pinned(jv);
    let ghost succ0 = spec_succ_tally(jv, pv);
    let ghost finc = spec_finished_condition(jv, pv, now);
    // a finishing job drains its active pods first
    if finished.is_some() && active.len() > 0 {
        let r = delete_active_pods(job, active);
        proof {
            assert(av[0] == active@[0].deep_view());
            lemma_active_from(pv, av, 0);
            assert(r.deep_view() == Some(JobControllerActionView::DeletePod(av[0])));
        }
        return r;
    }
    // manage the pod count while the job is alive
    if finished.is_none() && job.metadata.deletion_timestamp.is_none() {
        match manage_job(job, pods, active, succeeded_count, merged, now) {
            Some(a) => {
                proof {
                    assert(av.len() == active@.len());
                    // too many and too few pods exclude one another
                    assert(!(spec_rm_at_least(jv, pv, av.len(), succ0) > 0 && spec_grow_diff(
                        jv,
                        pv,
                        av.len(),
                        succ0,
                    ) > 0));
                    match a@ {
                        JobControllerActionView::DeletePod(p) => {
                            let w = choose|w: int| 0 <= w < av.len() && #[trigger] av[w] == p;
                            lemma_active_from(pv, av, w);
                        },
                        JobControllerActionView::UpdatePod(p) => {
                            let q = choose|q: PodView|
                                spec_from(av, q) && p == #[trigger] spec_strip_finalizer(q);
                            let w = choose|w: int| 0 <= w < av.len() && #[trigger] av[w] == q;
                            lemma_active_from(pv, av, w);
                        },
                        JobControllerActionView::CreatePod(p) => {
                            if indexed {
                                reveal(spec_created_pod);
                                reveal(spec_prepared_template);
                                let cz = spec_completions_or_zero(jv) as u32;
                                let ix = choose|ix: u32|
                                    #[trigger] spec_is_first_pending(
                                        jv,
                                        merged@,
                                        av,
                                        pv,
                                        cz,
                                        ix,
                                    ) && p == spec_created_pod(jv, Some(ix));
                                let t = spec_prepared_template(jv, Some(ix));
                                assert(p.metadata.annotations == t.metadata.annotations);
                                let t2anns = jv.spec.template.metadata.annotations;
                                assert(t.metadata.annotations == spec_with_index_annotation(
                                    t2anns,
                                    ix,
                                ));
                                crate::resources::lemma_upsert_lookup(
                                    t2anns,
                                    spec_index_annotation(),
                                    dec_str(ix as nat),
                                );
                                lemma_dec_str_wf(ix as nat);
                                assert(str_val(dec_str(ix as nat)) <= u32::MAX as nat);
                                assert(spec_completion_index(p.metadata.annotations) == Some(ix));
                                if spec_status_printed(jv) {
                                    assert(merged@ == spec_indexed_merged(jv, pv));
                                    assert(spec_is_first_pending(
                                        jv,
                                        spec_indexed_merged(jv, pv),
                                        av,
                                        pv,
                                        cz,
                                        ix,
                                    ));
                                    assert(spec_grow_diff(jv, pv, av.len(), succ0) > 0);
                                }
                            }
                        },
                        _ => {},
                    }
                }
                return Some(a);
            },
            None => {
                proof {
                    // nothing was owed: record what that rules out
                    assert(!(jv.spec.suspend && av.len() > 0));
                    if !indexed {
                        assert(!(spec_rm_at_least(jv, pv, av.len(), succ0) > 0 && av.len() > 0));
                        assert(!(!jv.spec.suspend && spec_rm_at_least(jv, pv, av.len(), succ0)
                            == 0 && spec_grow_diff(jv, pv, av.len(), succ0) > 0));
                    }
                }
            },
        }
    }
    None
}

/// Record the bookkeeping of one step once no pod management is owed:
/// derive the completion condition, assemble the status this step wants
/// recorded, and return the status update, a finalizer strip for a counted
/// pod, or nothing when the recorded status already agrees.
#[verifier::rlimit(100)]
#[verifier::spinoff_prover]
fn record_job_status(
    job: &Job,
    pods: &Vec<Pod>,
    active: &Vec<Pod>,
    ready: usize,
    new_succ: &Vec<Pod>,
    new_fail: &Vec<Pod>,
    merged: &Vec<(u32, u32)>,
    succeeded_count: u64,
    finished: Option<JobCondition>,
    now: Time,
) -> (r: Option<JobControllerAction>)
    requires
        active.deep_view() == spec_active_of(pods.deep_view()),
        ready == spec_count_ready(spec_active_of(pods.deep_view())),
        new_succ.deep_view() == spec_new_succeeded(job@, pods.deep_view()),
        new_fail.deep_view() == spec_new_failed(job@, pods.deep_view()),
        finished.deep_view() == spec_finished_condition(job@, pods.deep_view(), now),
        spec_tally_pinned(job@) ==> succeeded_count == spec_succ_tally(job@, pods.deep_view()),
        job@.spec.completion_mode == JobCompletionMode::Indexed && spec_status_printed(job@)
            ==> merged@ == spec_indexed_merged(job@, pods.deep_view()),
        iv_canonical(merged@),
    ensures
        ({
            let jv = job@;
            let pv = pods.deep_view();
            let avs = spec_active_of(pv);
            let succ = spec_succ_tally(jv, pv);
            let pinned = spec_tally_pinned(jv);
            let printed = jv.spec.completion_mode == JobCompletionMode::Indexed
                && spec_status_printed(jv);
            match r.deep_view() {
                None => jv.status.active == sat32(avs.len()) && jv.status.ready == sat32(
                    spec_count_ready(avs),
                ) && (pinned ==> jv.status.conditions == spec_new_conditions(jv, pv, now, succ)
                    && jv.status.start_time == spec_new_start_time(jv, pv, now, succ)) && (printed
                    ==> jv.status.completed_indexes == spec_intervals_str(
                    spec_indexed_merged(jv, pv),
                ) && jv.status.succeeded == sat32(spec_iv_total(spec_indexed_merged(jv, pv)))),
                Some(a) => match a {
                    JobControllerActionView::UpdateJobStatus(j2) => j2.metadata == jv.metadata
                        && j2.spec == jv.spec && j2.status.active == sat32(avs.len())
                        && j2.status.ready == sat32(spec_count_ready(avs)) && (pinned
                        ==> j2.status.conditions == spec_new_conditions(jv, pv, now, succ)
                        && j2.status.start_time == spec_new_start_time(jv, pv, now, succ)) && (
                    printed ==> j2.status.completed_indexes == spec_intervals_str(
                        spec_indexed_merged(jv, pv),
                    ) && j2.status.succeeded == sat32(
                        spec_iv_total(spec_indexed_merged(jv, pv)),
                    )),
                    JobControllerActionView::UpdatePod(p) => exists|q: PodView|
                        spec_from(pv, q) && p == #[trigger] spec_strip_finalizer(q),
                    _ => false,
                },
            }
        }),
{
    proof {
        reveal(spec_finished_or_complete);
        reveal(spec_new_conditions);
        reveal(spec_new_start_time);
        reveal_strlit("JobSuspended");
        reveal_strlit("Job suspended");
        reveal_strlit("JobResumed");
        reveal_strlit("Job resumed");
    }
    let ghost jv = job@;
    let ghost pv = pods.deep_view();
    let ghost av = active.deep_view();
    let indexed = job.spec.completion_mode == JobCompletionMode::Indexed;
    let ghost pinned = spec_tally_pinned(jv);
    let ghost succ0 = spec_succ_tally(jv, pv);
    let mut finished = finished;
    // completion
    let complete = if active.len() == 0 {
        match job.spec.completions {
            None => succeeded_count > 0,
            Some(c) => succeeded_count >= c as u64,
        }
    } else {
        false
    };
    if finished.is_none() && complete {
        finished = Some(
            new_condition(
                JobConditionType::Complete,
                ConditionStatus::True,
                String::new(),
                String::new(),
                now,
            ),
        );
    }
    proof {
        if pinned {
            assert(finished.deep_view() == spec_finished_or_complete(jv, pv, now, succ0));
        }
    }
    // bookkeeping: assemble the status this step wants recorded
    let mut new_status = job.status.clone();
    new_status.active = sat32_of(active.len() as u64);
    new_status.ready = sat32_of(ready as u64);
    if job.status.start_time.is_none() && !job.spec.suspend {
        new_status.start_time = Some(now);
    }
    if indexed {
        new_status.completed_indexes = intervals_to_string(&merged);
        new_status.succeeded = sat32_of(succeeded_count);
    }
    match &finished {
        Some(c) => {
            match ensure_job_condition_status(
                &new_status.conditions,
                c.cond_type,
                ConditionStatus::True,
                c.reason.clone(),
                c.message.clone(),
                now,
            ) {
                Some(cs) => {
                    new_status.conditions = cs;
                },
                None => {},
            }
        },
        None => {
            if job.metadata.deletion_timestamp.is_none() {
                if job.spec.suspend {
                    let mut reason = String::new();
                    reason.append("JobSuspended");
                    let mut message = String::new();
                    message.append("Job suspended");
                    match ensure_job_condition_status(
                        &new_status.conditions,
                        JobConditionType::Suspended,
                        ConditionStatus::True,
                        reason,
                        message,
                        now,
                    ) {
                        Some(cs) => {
                            new_status.conditions = cs;
                        },
                        None => {},
                    }
                } else {
                    let mut reason = String::new();
                    reason.append("JobResumed");
                    let mut message = String::new();
                    message.append("Job resumed");
                    match ensure_job_condition_status(
                        &new_status.conditions,
                        JobConditionType::Suspended,
                        ConditionStatus::False,
                        reason,
                        message,
                        now,
                    ) {
                        Some(cs) => {
                            new_status.conditions = cs;
                            // a resumed job starts its deadline clock afresh
                            new_status.start_time = Some(now);
                        },
                        None => {},
                    }
                }
            }
        },
    }
    // record newly finished pods in the uncounted set
    let ghost want_active_field = new_status@.active;
    let ghost want_ready_field = new_status@.ready;
    let ghost want_conds = new_status@.conditions;
    let ghost want_start = new_status@.start_time;
    let ghost want_ci = new_status@.completed_indexes;
    let ghost want_succ = new_status@.succeeded;
    proof {
        if pinned {
            assert(want_conds == spec_new_conditions(jv, pv, now, succ0));
            assert(want_start == spec_new_start_time(jv, pv, now, succ0));
        }
        if indexed && spec_status_printed(jv) {
            reveal(spec_succ_tally);
            assert(want_ci == spec_intervals_str(spec_indexed_merged(jv, pv)));
            lemma_iv_total_le_last(merged@);
            let t = spec_iv_total(spec_indexed_merged(jv, pv));
            assert(t <= u64::MAX);
            assert((t as u64) as nat == t);
            assert(want_succ == sat32(spec_iv_total(spec_indexed_merged(jv, pv))));
        }
    }
    let mut i: usize = 0;
    while i < new_succ.len()
        invariant
            i <= new_succ@.len(),
            new_status@.active == want_active_field,
            new_status@.ready == want_ready_field,
            new_status@.conditions == want_conds,
            new_status@.start_time == want_start,
            new_status@.completed_indexes == want_ci,
            new_status@.succeeded == want_succ,
        decreases new_succ.len() - i,
    {
        if !uids_contain(
            &new_status.uncounted_terminated_pods.succeeded,
            new_succ[i].metadata.uid.as_str(),
        ) {
            new_status.uncounted_terminated_pods.succeeded.push(new_succ[i].metadata.uid.clone());
        }
        i = i + 1;
    }
    let mut k: usize = 0;
    while k < new_fail.len()
        invariant
            k <= new_fail@.len(),
            new_status@.active == want_active_field,
            new_status@.ready == want_ready_field,
            new_status@.conditions == want_conds,
            new_status@.start_time == want_start,
            new_status@.completed_indexes == want_ci,
            new_status@.succeeded == want_succ,
        decreases new_fail.len() - k,
    {
        if !uids_contain(
            &new_status.uncounted_terminated_pods.failed,
            new_fail[k].metadata.uid.as_str(),
        ) {
            new_status.uncounted_terminated_pods.failed.push(new_fail[k].metadata.uid.clone());
        }
        k = k + 1;
    }
    // move uncounted uids whose finalizer is gone into the numeric counters
    let (kept_s, moved_s) = prune_uncounted(&new_status.uncounted_terminated_pods.succeeded, pods);
    new_status.uncounted_terminated_pods.succeeded = kept_s;
    if !indexed {
        new_status.succeeded = sat32_of(sat_add(new_status.succeeded as u64, moved_s));
    }
    let (kept_f, moved_f) = prune_uncounted(&new_status.uncounted_terminated_pods.failed, pods);
    new_status.uncounted_terminated_pods.failed = kept_f;
    new_status.failed = sat32_of(sat_add(new_status.failed as u64, moved_f));
    if !status_deep_eq(&new_status, &job.status) {
        let j2 = Job { metadata: job.metadata.clone(), spec: job.spec.clone(), status: new_status };
        proof {
            assert(j2@.metadata == jv.metadata && j2@.spec == jv.spec);
            assert(j2@.status.active == sat32(av.len()));
            assert(j2@.status.ready == sat32(spec_count_ready(av)));
            if pinned {
                assert(j2@.status.conditions == spec_new_conditions(jv, pv, now, succ0));
                assert(j2@.status.start_time == spec_new_start_time(jv, pv, now, succ0));
            }
            if indexed && spec_status_printed(jv) {
                assert(j2@.status.completed_indexes == spec_intervals_str(
                    spec_indexed_merged(jv, pv),
                ));
                assert(j2@.status.succeeded == sat32(spec_iv_total(spec_indexed_merged(jv, pv))));
            }
        }
        return Some(JobControllerAction::UpdateJobStatus(j2));
    }
    // the recorded counts already agree with the observed pods
    proof {
        assert(new_status@ == jv.status);
        assert(jv.status.active == sat32(av.len()));
        assert(jv.status.ready == sat32(spec_count_ready(av)));
        if pinned {
            assert(jv.status.conditions == spec_new_conditions(jv, pv, now, succ0));
            assert(jv.status.start_time == spec_new_start_time(jv, pv, now, succ0));
        }
        if indexed && spec_status_printed(jv) {
            assert(jv.status.completed_indexes == spec_intervals_str(
                spec_indexed_merged(jv, pv),
            ));
            assert(jv.status.succeeded == sat32(spec_iv_total(spec_indexed_merged(jv, pv))));
        }
    }
    // strip the finalizer of a recorded pod
    let mut m: usize = 0;
    while m < pods.len()
        invariant
            pv == pods.deep_view(),
            jv == job@,
            m <= pods@.len() == pv.len(),
        decreases pods.len() - m,
    {
        proof {
            assert(pv[m as int] == pods@[m as int].deep_view());
        }
        if has_job_tracking_finalizer(&pods[m]) && (uids_contain(
            &job.status.uncounted_terminated_pods.succeeded,
            pods[m].metadata.uid.as_str(),
        ) || uids_contain(
            &job.status.uncounted_terminated_pods.failed,
            pods[m].metadata.uid.as_str(),
        )) {
            let r = remove_tracking_finalizer_patch(&pods[m]);
            proof {
                match r.deep_view() {
                    Some(a) => {
                        match a {
                            JobControllerActionView::UpdatePod(p) => {
                                assert(spec_from(pv, pv[m as int]));
                                assert(p == spec_strip_finalizer(pv[m as int]));
                            },
                            _ => {
                                assert(false);
                            },
                        }
                    },
                    None => {
                        assert(false);
                    },
                }
            }
            return r;
        }
        m = m + 1;
    }
    None
}

/// Reconcile one job against the pods its selector matched. At most one
/// action comes back, and each kind of action keeps its promise:
///
/// - nothing comes back only when the recorded status already carries the
///   observed counts, the derived conditions and start time, and in indexed
///   mode the merged index list;
/// - a created pod is exactly the templated pod: tracking finalizer, owner
///   reference, and in indexed mode the first pending completion index with
///   its annotation, hostname and environment variable;
/// - a deleted pod is one of the observed pods;
/// - a pod update only strips the tracking finalizer from an observed pod;
/// - a status update changes the status alone and records the observed
///   counts, the derived conditions and start time, and in indexed mode the
///   merged index list and its tally;
/// - a finishing job with active pods drains them first, starting with the
///   first active pod, and a job owing growth or reduction acts on it.
///
/// The indexed-mode status clauses hold whenever the recorded
/// completed-indexes string is canonical, which every string this
/// reconciler writes is.
#[verifier::rlimit(100)]
#[verifier::spinoff_prover]
pub fn reconcile(job: &Job, pods: &Vec<Pod>, now: Time) -> (r: Option<JobControllerAction>)
    ensures
        reconcile_post(job@, pods.deep_view(), now, r.deep_view()),
{
    let ghost jv = job@;
    let ghost pv = pods.deep_view();
    let active = filter_active_pods(pods);
    let ghost av = active.deep_view();
    let ready = count_ready_pods(&active);
    let (new_succ, new_fail) = get_new_finished_pods(job, pods);
    let indexed = job.spec.completion_mode == JobCompletionMode::Indexed;
    // the succeeded tally and, for an indexed job, the merged index list
    let mut merged: Vec<(u32, u32)> = Vec::new();
    let succeeded_count: u64;
    if indexed {
        let calc = calculate_succeeded_indexes(job, pods);
        merged = calc.1;
        succeeded_count = iv_total(&merged);
    } else {
        succeeded_count = sat_add(
            job.status.succeeded as u64,
            sat_add(
                new_succ.len() as u64,
                job.status.uncounted_terminated_pods.succeeded.len() as u64,
            ),
        );
    }
    let ghost pinned = spec_tally_pinned(jv);
    let ghost succ0 = spec_succ_tally(jv, pv);
    proof {
        reveal(spec_succ_tally);
        if !indexed {
            assert(new_succ.deep_view().len() == new_succ@.len());
            assert(succeeded_count == succ0);
        }
        if indexed && spec_status_printed(jv) {
            assert(merged@ == spec_indexed_merged(jv, pv));
            assert(succeeded_count == succ0);
        }
    }
    // the terminal condition this step imposes, if any
    let finished = derive_finished_condition(job, pods, &new_fail, now);
    // an owed pod action pre-empts the bookkeeping
    let acted = act_on_pods(job, pods, &active, succeeded_count, &merged, &finished, now);
    match acted {
        Some(a) => {
            return Some(a);
        },
        None => {},
    }
    // record the bookkeeping this step wants written
    let r = record_job_status(
        job,
        pods,
        &active,
        ready,
        &new_succ,
        &new_fail,
        &merged,
        succeeded_count,
        finished,
        now,
    );
    proof {
        assert(av.len() == active@.len());
        match r.deep_view() {
            Some(a) => match a {
                JobControllerActionView::UpdatePod(_) => {},
                JobControllerActionView::UpdateJobStatus(_) => {},
                _ => {
                    assert(false);
                },
            },
            None => {},
        }
    }
    r
}

// ---------------------------------------------------------------------------
// The controller
// ---------------------------------------------------------------------------

/// The pods a job's selector matches, in name order.
pub open spec fn spec_selected_pods(pods: Seq<PodView>, j: JobView) -> Seq<PodView> {
    pods.filter(
        |p: PodView|
            crate::resources::spec_selector_matches(j.spec.selector, p.metadata.labels),
    )
}

/// What a job-controller step may emit: its own registration while
/// unregistered, and otherwise the lifted form of an action that the first
/// unsettled job's reconcile allows — every job before it reconciles to
/// nothing, and a step that emits nothing leaves every job settled.
pub open spec fn job_step_post(id: usize, v: StateViewView, r: Option<OperationView>) -> bool {
    if !crate::utils::uset_has(v.controllers, id) {
        r == Some(OperationView::ControllerJoin(id))
    } else {
        match r {
            None => forall|w: int|
                0 <= w < v.jobs.len() ==> #[trigger] reconcile_post(
                    v.jobs[w],
                    spec_selected_pods(v.pods, v.jobs[w]),
                    Time(v.revision.0 as u64),
                    None,
                ),
            Some(op) => exists|w: int, a: JobControllerActionView|
                0 <= w < v.jobs.len() && #[trigger] reconcile_post(
                    v.jobs[w],
                    spec_selected_pods(v.pods, v.jobs[w]),
                    Time(v.revision.0 as u64),
                    Some(a),
                ) && op == #[trigger] spec_action_to_operation(a) && (forall|u: int|
                    0 <= u < w ==> reconcile_post(
                        v.jobs[u],
                        spec_selected_pods(v.pods, v.jobs[u]),
                        Time(v.revision.0 as u64),
                        None,
                    )),
        }
    }
}

/// One job-controller pass over a snapshot, before lifting: the
/// registration while unregistered, and otherwise the first unsettled job's
/// action.
fn job_step_action(id: usize, state: &StateView) -> (r: Option<JobControllerAction>)
    requires
        state.wf(),
    ensures
        job_step_post(
            id,
            state@,
            match r.deep_view() {
                Some(a) => Some(spec_action_to_operation(a)),
                None => None,
            },
        ),
{
    if !crate::utils::uset_contains(&state.controllers, id) {
        return Some(JobControllerAction::ControllerJoin(id));
    }
    let now = Time(state.revision.0 as u64);
    let jobs = state.jobs.to_vec();
    let ghost jvs = state@.jobs;
    let mut i: usize = 0;
    while i < jobs.len()
        invariant
            state.wf(),
            crate::utils::uset_has(state@.controllers, id),
            now == Time(state@.revision.0 as u64),
            jobs.deep_view() == jvs,
            jvs == state@.jobs,
            i <= jobs@.len() == jvs.len(),
            forall|u: int|
                0 <= u < i ==> #[trigger] reconcile_post(
                    jvs[u],
                    spec_selected_pods(state@.pods, jvs[u]),
                    now,
                    None,
                ),
        decreases jobs.len() - i,
    {
        proof {
            assert(jvs[i as int] == jobs@[i as int].deep_view());
        }
        let pods = state.pods.matching(&jobs[i].spec.selector);
        proof {
            let f1 = |p: PodView|
                crate::resources::spec_selector_matches(
                    jvs[i as int].spec.selector,
                    <Pod as crate::resources::Meta>::md_of(p).labels,
                );
            let f2 = |p: PodView|
                crate::resources::spec_selector_matches(
                    jvs[i as int].spec.selector,
                    p.metadata.labels,
                );
            assert(f1 =~= f2) by {
                assert forall|p: PodView| #[trigger] f1(p) == f2(p) by {
                    assert(<Pod as crate::resources::Meta>::md_of(p) == p.metadata);
                }
            }
            assert(pods.deep_view() == state@.pods.filter(f2));
            assert(pods.deep_view() == spec_selected_pods(state@.pods, jvs[i as int]));
        }
        match reconcile(&jobs[i], &pods, now) {
            Some(a) => {
                proof {
                    assert(reconcile_post(jvs[i as int], pods.deep_view(), now, Some(a@)));
                }
                return Some(a);
            },
            None => {},
        }
        i = i + 1;
    }
    None
}

/// One job-controller step on an observed snapshot, lifted to a store
/// operation.
pub fn job_controller_step(id: usize, state: &StateView) -> (r: Option<Operation>)
    requires
        state.wf(),
    ensures
        job_step_post(id, state@, r.deep_view()),
{
    match job_step_action(id, state) {
        Some(a) => Some(a.into_operation()),
        None => None,
    }
}

/// The trait wiring of the job controller over the same reconcile step.
impl crate::controller::Controller for JobController {
    type State = JobControllerState;

    type Action = JobControllerAction;

    fn step(&self, id: usize, global_state: &StateView, local_state: &mut Self::State) -> Option<
        Self::Action,
    > {
        job_step_action(id, global_state)
    }

    fn name(&self) -> String {
        proof {
            reveal_strlit("Job");
        }
        String::from_str("Job")
    }
}

/// Every pod the reconciler creates carries the tracking finalizer, and for
/// an indexed job a completion index within the completion range.
pub proof fn lemma_created_pods_tracked(j: JobView, pods: Seq<PodView>, now: Time, p: PodView)
    requires
        reconcile_post(j, pods, now, Some(JobControllerActionView::CreatePod(p))),
    ensures
        spec_has_tracking_finalizer(p),
        j.spec.completion_mode == JobCompletionMode::Indexed ==> (spec_completion_index(
            p.metadata.annotations,
        ) matches Some(ix) && (ix as nat) < spec_completions_or_zero(j)),
{
}

/// A pod whose terminal state is being counted has its tracking finalizer
/// stripped first, and the stripped pod no longer carries it: the job status
/// counts a pod only after the finalizer is observed gone.
pub proof fn lemma_stripped_pod_untracked(p: PodView)
    ensures
        !spec_has_tracking_finalizer(spec_strip_finalizer(p)),
{
    let pred = |f: Seq<char>| f != spec_tracking_finalizer();
    let fs = p.metadata.finalizers.filter(pred);
    if fs.contains(spec_tracking_finalizer()) {
        let w = choose|w: int| 0 <= w < fs.len() && fs[w] == spec_tracking_finalizer();
        p.metadata.finalizers.lemma_filter_pred(pred, w);
        assert(false);
    }
}

/// A job the reconciler leaves alone records exactly its observed active and
/// ready pod counts.
pub proof fn lemma_settled_job_counts_match(j: JobView, pods: Seq<PodView>, now: Time)
    requires
        reconcile_post(j, pods, now, None),
    ensures
        j.status.active == sat32(spec_active_of(pods).len()),
        j.status.ready == sat32(spec_count_ready(spec_active_of(pods))),
{
}

/// Forcing a condition always leaves the list carrying that condition type
/// with the forced status, unless the status was false and nothing carried
/// the type.
proof fn lemma_ensure_condition_found(
    conds: Seq<JobConditionView>,
    cond_type: JobConditionType,
    status: ConditionStatus,
    reason: Seq<char>,
    message: Seq<char>,
    now: Time,
)
    ensures
        spec_ensure_condition(conds, cond_type, status, reason, message, now) matches Some(cs)
            ==> exists|i: int|
            0 <= i < cs.len() && (#[trigger] cs[i]).cond_type == cond_type && cs[i].status
                == status,
        spec_ensure_condition(conds, cond_type, status, reason, message, now) is None ==> status
            == ConditionStatus::False || exists|i: int|
            0 <= i < conds.len() && (#[trigger] conds[i]).cond_type == cond_type
                && conds[i].status == status,
    decreases conds.len(),
{
    let r = spec_ensure_condition(conds, cond_type, status, reason, message, now);
    if conds.len() == 0 {
        if status != ConditionStatus::False {
            assert(r == Some(seq![spec_new_condition(cond_type, status, reason, message, now)]));
            assert(r.unwrap()[0].cond_type == cond_type && r.unwrap()[0].status == status);
        }
    } else if conds[0].cond_type == cond_type {
        if conds[0].status != status || conds[0].reason != reason || conds[0].message != message {
            assert(r == Some(
                seq![spec_new_condition(cond_type, status, reason, message, now)]
                    + conds.drop_first(),
            ));
            assert(r.unwrap()[0].cond_type == cond_type && r.unwrap()[0].status == status);
        } else {
            assert(conds[0].cond_type == cond_type && conds[0].status == status);
        }
    } else {
        lemma_ensure_condition_found(conds.drop_first(), cond_type, status, reason, message, now);
        match spec_ensure_condition(conds.drop_first(), cond_type, status, reason, message, now) {
            None => {
                if status != ConditionStatus::False {
                    let w = choose|i: int|
                        0 <= i < conds.drop_first().len() && (
                        #[trigger] conds.drop_first()[i]).cond_type == cond_type
                            && conds.drop_first()[i].status == status;
                    assert(conds[w + 1].cond_type == cond_type && conds[w + 1].status == status);
                }
            },
            Some(rest) => {
                assert(r == Some(seq![conds[0]] + rest));
                let w = choose|i: int|
                    0 <= i < rest.len() && (#[trigger] rest[i]).cond_type == cond_type
                        && rest[i].status == status;
                assert(r.unwrap()[w + 1] == rest[w]);
                assert(r.unwrap()[w + 1].cond_type == cond_type && r.unwrap()[w + 1].status
                    == status);
            },
        }
    }
}

/// A job the reconciler leaves silent, whose success tally is pinned and
/// meets its completion rule, and which derives no failure, already carries
/// the `Complete` condition with status true: a job whose completions are
/// achieved ends marked complete.
pub proof fn lemma_silent_complete_job_is_marked(j: JobView, pods: Seq<PodView>, now: Time)
    requires
        spec_tally_pinned(j),
        reconcile_post(j, pods, now, None),
        spec_finished_condition(j, pods, now) is None,
        j.metadata.deletion_timestamp is None,
        spec_complete(j, pods, spec_succ_tally(j, pods)),
    ensures
        exists|i: int|
            0 <= i < j.status.conditions.len() && (#[trigger] j.status.conditions[i]).cond_type
                == JobConditionType::Complete && j.status.conditions[i].status
                == ConditionStatus::True,
{
    reveal(spec_new_conditions);
    reveal(spec_finished_or_complete);
    let succ = spec_succ_tally(j, pods);
    let conds = j.status.conditions;
    assert(conds == spec_new_conditions(j, pods, now, succ));
    let c = spec_finished_or_complete(j, pods, now, succ).unwrap();
    assert(c.cond_type == JobConditionType::Complete);
    lemma_ensure_condition_found(
        conds,
        c.cond_type,
        ConditionStatus::True,
        c.reason,
        c.message,
        now,
    );
    match spec_ensure_condition(conds, c.cond_type, ConditionStatus::True, c.reason, c.message, now) {
        Some(cs) => {
            assert(conds == cs);
        },
        None => {},
    }
}

} // verus!
