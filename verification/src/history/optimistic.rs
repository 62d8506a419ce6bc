//! The optimistic-linear history: the first snapshot is the last committed
//! one and the rest form a chain of optimistic extensions. A write whose
//! baseline is no longer the tail simulates a leader change: every snapshot
//! but the baseline is discarded, and the write extends the baseline.

use vstd::prelude::*;

use crate::abstract_model::{Change, ChangeView};
use crate::state::{apply_op_spec, hist_sorted, hist_wf, idx_of_rev, lemma_rev_unique, newest,
    rev_retained, retained_at, state_view_wf, History, Revision, StateView, StateViewView};

verus! {

/// A chain of snapshots whose head is committed and whose tail is
/// optimistic; the chain collapses to its tail every `commit_every` writes.
#[derive(Debug, PartialEq, Eq, Hash)]
pub struct OptimisticLinearHistory {
    pub states: Vec<StateView>,
    pub commit_every: usize,
}

#[verifier::ext_equal]
pub struct OptimisticLinearHistoryView {
    pub states: Seq<StateViewView>,
    pub commit_every: usize,
}

impl View for OptimisticLinearHistory {
    type V = OptimisticLinearHistoryView;

    open spec fn view(&self) -> OptimisticLinearHistoryView {
        OptimisticLinearHistoryView {
            states: self.states.deep_view(),
            commit_every: self.commit_every,
        }
    }
}

impl Clone for OptimisticLinearHistory {
    fn clone(&self) -> (r: Self)
        ensures
            r@ == self@,
    {
        let r = OptimisticLinearHistory {
            states: crate::resources::deep_clone_vec(&self.states),
            commit_every: self.commit_every,
        };
        proof {
            assert(r@ =~= self@);
        }
        r
    }
}

impl OptimisticLinearHistory {
    /// An optimistic history seeded with one committed snapshot.
    pub fn new(initial_state: StateView, commit_every: usize) -> (r: Self)
        ensures
            r@.states =~= seq![initial_state@],
            r@.commit_every == commit_every,
    {
        let mut states: Vec<StateView> = Vec::new();
        states.push(initial_state);
        let r = OptimisticLinearHistory { states, commit_every };
        proof {
            assert(r@.states[0] == r.states@[0].deep_view());
        }
        r
    }
}

impl History for OptimisticLinearHistory {
    open spec fn inv(v: OptimisticLinearHistoryView) -> bool {
        hist_wf(v.states)
    }

    open spec fn retained_of(v: OptimisticLinearHistoryView) -> Seq<StateViewView> {
        v.states
    }

    open spec fn valid_of(v: OptimisticLinearHistoryView, from: usize) -> Seq<Revision> {
        crate::state::revs_of(v.states)
    }

    open spec fn accepts_of(v: OptimisticLinearHistoryView, change: ChangeView) -> bool {
        rev_retained(v.states, change.revision)
    }

    open spec fn baseline_of(v: OptimisticLinearHistoryView, change: ChangeView)
        -> StateViewView {
        retained_at(v.states, change.revision)
    }

    open spec fn add_spec(
        v: OptimisticLinearHistoryView,
        change: ChangeView,
        from: usize,
    ) -> OptimisticLinearHistoryView {
        let i = idx_of_rev(v.states, change.revision);
        let rev = Revision((newest(v.states).0 + 1) as usize);
        let new = apply_op_spec(v.states[i], change.operation, rev);
        OptimisticLinearHistoryView {
            states: if i + 1 == v.states.len() {
                if v.states.len() > v.commit_every {
                    seq![new]
                } else {
                    v.states.push(new)
                }
            } else {
                seq![v.states[i], new]
            },
            commit_every: v.commit_every,
        }
    }

    proof fn lemma_inv(v: OptimisticLinearHistoryView, from: usize) {
        assert forall|i: int| 0 <= i < Self::valid_of(v, from).len() implies rev_retained(
            v.states,
            #[trigger] Self::valid_of(v, from)[i],
        ) by {
            assert(v.states[i].revision == Self::valid_of(v, from)[i]);
        }
    }

    fn add_change(&mut self, change: Change, from: usize) -> (rev: Revision) {
        let ghost v0 = self@;
        // locate the snapshot the change was generated from
        let mut index: usize = 0;
        let mut found = false;
        let mut i: usize = 0;
        while i < self.states.len()
            invariant
                v0 == self@,
                i <= self.states@.len() == v0.states.len(),
                hist_sorted(v0.states),
                rev_retained(v0.states, change.revision),
                found <==> exists|j: int|
                    0 <= j < i && (#[trigger] v0.states[j]).revision == change.revision,
                found ==> 0 <= index < i && v0.states[index as int].revision == change.revision,
            decreases self.states.len() - i,
        {
            proof {
                assert(v0.states[i as int] == self.states@[i as int].deep_view());
            }
            if self.states[i].revision.0 == change.revision.0 {
                index = i;
                found = true;
                proof {
                    assert(v0.states[i as int].revision == change.revision);
                }
            }
            i = i + 1;
        }
        proof {
            if !found {
                let w = choose|w: int|
                    0 <= w < v0.states.len() && (#[trigger] v0.states[w]).revision
                        == change.revision;
                assert(false);
            }
            lemma_rev_unique(v0.states, change.revision, index as int);
        }
        let last = self.states.len() - 1;
        proof {
            assert(v0.states[last as int] == self.states@[last as int].deep_view());
        }
        let next = self.states[last].revision.increment();
        let baseline = (&self.states[index]).clone();
        let mut new_state = baseline.clone();
        new_state.apply_operation(change.operation, next);
        let ghost newv = new_state@;
        if index + 1 == self.states.len() {
            if self.states.len() > self.commit_every {
                // commit point: the new snapshot becomes the whole history
                self.states.clear();
                self.states.push(new_state);
                proof {
                    assert(self@.states[0] == self.states@[0].deep_view());
                    assert(self@.states =~= seq![newv]);
                    assert(self@ =~= Self::add_spec(v0, change@, from));
                }
            } else {
                // extend the optimistic chain
                let ghost pre = self.states@;
                self.states.push(new_state);
                proof {
                    assert forall|j: int| 0 <= j < self@.states.len() implies self@.states[j]
                        == v0.states.push(newv)[j] by {
                        assert(self@.states[j] == self.states@[j].deep_view());
                        if j < pre.len() {
                            assert(self.states@[j] == pre[j]);
                            assert(v0.states[j] == pre[j].deep_view());
                        }
                    }
                    assert(self@.states =~= v0.states.push(newv));
                    assert(self@ =~= Self::add_spec(v0, change@, from));
                    assert(hist_wf(self@.states)) by {
                        assert(forall|k: int|
                            0 <= k < v0.states.len() ==> (#[trigger] v0.states[k]).revision.0
                                <= newest(v0.states).0);
                    }
                }
            }
        } else {
            // leader change: keep only the baseline and the new snapshot
            self.states.clear();
            self.states.push(baseline);
            self.states.push(new_state);
            proof {
                assert(self@.states[0] == self.states@[0].deep_view());
                assert(self@.states[1] == self.states@[1].deep_view());
                assert(self@.states =~= seq![v0.states[index as int], newv]);
                assert(self@ =~= Self::add_spec(v0, change@, from));
                assert(hist_wf(self@.states)) by {
                    assert(v0.states[index as int].revision.0 <= newest(v0.states).0);
                }
            }
        }
        proof {
            assert(Self::retained_of(self@).last() == newv);
        }
        next
    }

    fn max_revision(&self) -> (r: Revision) {
        let last = self.states.len() - 1;
        proof {
            assert(self@.states[last as int] == self.states@[last as int].deep_view());
        }
        self.states[last].revision
    }

    fn state_at(&self, revision: Revision) -> (s: &StateView) {
        let ghost ret = self@.states;
        let mut i: usize = 0;
        while i < self.states.len()
            invariant
                ret == self@.states,
                hist_sorted(ret),
                i <= self.states@.len() == ret.len(),
                rev_retained(ret, revision),
                forall|j: int| 0 <= j < i ==> (#[trigger] ret[j]).revision != revision,
            decreases self.states.len() - i,
        {
            proof {
                assert(ret[i as int] == self.states@[i as int].deep_view());
            }
            if self.states[i].revision.0 == revision.0 {
                proof {
                    assert(ret[i as int].revision == revision);
                    lemma_rev_unique(ret, revision, i as int);
                }
                return &self.states[i];
            }
            i = i + 1;
        }
        proof {
            let w = choose|w: int| 0 <= w < ret.len() && (#[trigger] ret[w]).revision == revision;
            assert(false);
        }
        &self.states[0]
    }

    fn valid_revisions(&self, from: usize) -> (rs: Vec<Revision>) {
        let mut rs: Vec<Revision> = Vec::new();
        let mut i: usize = 0;
        while i < self.states.len()
            invariant
                i <= self.states@.len() == self@.states.len(),
                rs@.len() == i,
                forall|j: int| 0 <= j < i ==> #[trigger] rs@[j] == self@.states[j].revision,
            decreases self.states.len() - i,
        {
            proof {
                assert(self@.states[i as int] == self.states@[i as int].deep_view());
            }
            rs.push(self.states[i].revision);
            i = i + 1;
        }
        proof {
            assert(rs@ =~= crate::state::revs_of(self@.states));
        }
        rs
    }

    fn can_accept(&self, change: &Change) -> (r: bool) {
        let ghost ret = self@.states;
        let mut i: usize = 0;
        while i < self.states.len()
            invariant
                ret == self@.states,
                i <= self.states@.len() == ret.len(),
                forall|j: int| 0 <= j < i ==> (#[trigger] ret[j]).revision != change@.revision,
            decreases self.states.len() - i,
        {
            proof {
                assert(ret[i as int] == self.states@[i as int].deep_view());
            }
            if self.states[i].revision.0 == change.revision.0 {
                proof {
                    assert(ret[i as int].revision == change@.revision);
                }
                return true;
            }
            i = i + 1;
        }
        false
    }

    fn reset_session(&mut self, from: usize) {
    }
}

} // verus!
