//! The datastore half of the actor deployment: the process that owns the
//! store when the model runs as message-passing actors. The message protocol
//! lives here; the actor glue around it belongs to the embedding
//! application.

use vstd::prelude::*;

use crate::abstract_model::Change;
use crate::state::{Revision, StateView};

verus! {

/// The datastore actor's configuration: the snapshot it is seeded with.
#[derive(Debug)]
pub struct Datastore {
    pub initial_state: StateView,
}

/// What the other actors say to the datastore and what it answers.
#[derive(Debug, PartialEq, Eq, Hash)]
pub enum DatastoreMsg {
    /// Ask for the snapshots a session may observe.
    ViewsRequest(usize),
    /// One observable snapshot.
    ViewsResponse(StateView),
    /// Submit a change from a session.
    PushChange(usize, Change),
    /// The revision the change landed at.
    PushResponse(Revision),
}

} // verus!
