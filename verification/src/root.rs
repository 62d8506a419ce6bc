//! The sum of the actors a deployment runs, and the messages between them.

use vstd::prelude::*;

use crate::controller::node::Node;
use crate::controller::scheduler::Scheduler;
use crate::datastore::{Datastore, DatastoreMsg};

verus! {

/// An actor of the deployment.
#[derive(Debug)]
pub enum Root {
    Scheduler(Scheduler),
    Node(Node),
    Datastore(Datastore),
}

/// A message between actors; everything speaks the datastore protocol.
#[derive(Debug, PartialEq, Eq, Hash)]
pub enum RootMsg {
    Datastore(DatastoreMsg),
}

} // verus!
