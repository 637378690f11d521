use vstd::prelude::*;

use crate::util::minute::Minute;

use super::node::NodeId;

verus! {

/// The name of an edge.
#[derive(Debug, PartialEq, Eq, Clone)]
pub struct EdgeId(pub String);

impl View for EdgeId {
    type V = Seq<char>;

    open spec fn view(&self) -> Seq<char> {
        self.0@
    }
}

/// One direction of a connection: the station it leads to and how long the trip takes.
#[derive(Debug)]
pub struct Edge {
    pub id: EdgeId,
    pub node: NodeId,
    pub travel_time: Minute,
}

impl Edge {
    pub fn new(name: &str, node: NodeId, travel_time: Minute) -> (r: Edge)
        ensures
            r.id@ == name@,
            r.node@ == node@,
            r.travel_time == travel_time,
    {
        Edge { id: EdgeId(name.to_owned()), node, travel_time }
    }
}

} // verus!
