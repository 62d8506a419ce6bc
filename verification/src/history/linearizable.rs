//! A linearizable history: exactly one snapshot, the latest.

use vstd::prelude::*;

use crate::abstract_model::{Change, ChangeView};
use crate::state::{apply_op_spec, idx_of_rev, newest, rev_retained, retained_at, state_view_wf,
    History, Revision, StateView, StateViewView};

verus! {

/// Stores exactly the latest snapshot; every read observes the newest
/// revision and every write extends it.
#[derive(Debug, PartialEq, Eq, Hash)]
pub struct LinearizableHistory {
    pub state: StateView,
}

#[verifier::ext_equal]
pub struct LinearizableHistoryView {
    pub state: StateViewView,
}

impl View for LinearizableHistory {
    type V = LinearizableHistoryView;

    open spec fn view(&self) -> LinearizableHistoryView {
        LinearizableHistoryView { state: self.state@ }
    }
}

impl Clone for LinearizableHistory {
    fn clone(&self) -> (r: Self)
        ensures
            r@ == self@,
    {
        let r = LinearizableHistory { state: self.state.clone() };
        proof {
            assert(r@ =~= self@);
        }
        r
    }
}

impl LinearizableHistory {
    /// A linearizable history seeded with one snapshot.
    pub fn new(initial_state: StateView) -> (r: Self)
        ensures
            r@ == (LinearizableHistoryView { state: initial_state@ }),
    {
        LinearizableHistory { state: initial_state }
    }
}

impl History for LinearizableHistory {
    open spec fn inv(v: LinearizableHistoryView) -> bool {
        state_view_wf(v.state)
    }

    open spec fn retained_of(v: LinearizableHistoryView) -> Seq<StateViewView> {
        seq![v.state]
    }

    open spec fn valid_of(v: LinearizableHistoryView, from: usize) -> Seq<Revision> {
        seq![v.state.revision]
    }

    open spec fn accepts_of(v: LinearizableHistoryView, change: ChangeView) -> bool {
        true
    }

    open spec fn baseline_of(v: LinearizableHistoryView, change: ChangeView) -> StateViewView {
        v.state
    }

    open spec fn add_spec(
        v: LinearizableHistoryView,
        change: ChangeView,
        from: usize,
    ) -> LinearizableHistoryView {
        LinearizableHistoryView {
            state: apply_op_spec(
                v.state,
                change.operation,
                Revision((v.state.revision.0 + 1) as usize),
            ),
        }
    }

    proof fn lemma_inv(v: LinearizableHistoryView, from: usize) {
        let s = Self::retained_of(v);
        assert(s[0] == v.state);
        assert forall|i: int| 0 <= i < Self::valid_of(v, from).len() implies rev_retained(
            s,
            #[trigger] Self::valid_of(v, from)[i],
        ) by {
            assert(s[0].revision == Self::valid_of(v, from)[0]);
        }
    }

    fn add_change(&mut self, change: Change, from: usize) -> (rev: Revision) {
        let ghost v0 = self@;
        let next = self.state.revision.increment();
        self.state.apply_operation(change.operation, next);
        proof {
            assert(self@ =~= Self::add_spec(v0, change@, from));
            assert(Self::retained_of(self@).last() == self.state@);
            assert(Self::retained_of(v0)[0] == v0.state);
        }
        next
    }

    fn max_revision(&self) -> (r: Revision) {
        proof {
            assert(Self::retained_of(self@).last() == self.state@);
        }
        self.state.revision
    }

    fn state_at(&self, revision: Revision) -> (s: &StateView) {
        proof {
            let ret = Self::retained_of(self@);
            assert(ret[0] == self.state@);
            let i = idx_of_rev(ret, revision);
            assert(0 <= i < ret.len() && ret[i].revision == revision) by {
                let w = choose|w: int| 0 <= w < ret.len() && (#[trigger] ret[w]).revision
                    == revision;
                assert(ret[w].revision == revision);
            }
            assert(i == 0);
        }
        &self.state
    }

    fn valid_revisions(&self, from: usize) -> (rs: Vec<Revision>) {
        let mut rs: Vec<Revision> = Vec::new();
        rs.push(self.state.revision);
        proof {
            assert(rs@ =~= Self::valid_of(self@, from));
        }
        rs
    }

    fn can_accept(&self, change: &Change) -> (r: bool) {
        true
    }

    fn reset_session(&mut self, from: usize) {
    }
}


/// Under the linearizable history every write observes the latest revision
/// and produces the strictly larger next one, so the resource versions
/// observed across successive writes strictly increase.
pub proof fn lemma_linearizable_writes_strictly_increase(
    v: LinearizableHistoryView,
    change: ChangeView,
    from: usize,
)
    requires
        v.state.revision.0 < usize::MAX,
    ensures
        newest(
            LinearizableHistory::retained_of(LinearizableHistory::add_spec(v, change, from)),
        ).0 == newest(LinearizableHistory::retained_of(v)).0 + 1,
{
    crate::state::lemma_apply_revision(
        v.state,
        change.operation,
        Revision((v.state.revision.0 + 1) as usize),
    );
}

} // verus!
