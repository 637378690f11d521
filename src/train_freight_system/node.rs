use vstd::prelude::*;

use crate::util::search::{first_index, lemma_first_index_is};

use super::{
    edge::{Edge, EdgeId},
    error::{Error, ErrorKind},
};

verus! {

/// The name of a station.
#[derive(Debug, Default, PartialEq, Clone, Hash, Eq)]
pub struct NodeId(pub String);

impl View for NodeId {
    type V = Seq<char>;

    open spec fn view(&self) -> Seq<char> {
        self.0@
    }
}

/// A station and the edges that leave it, in the order they were added.
#[derive(Debug, Default)]
pub struct Node {
    pub id: NodeId,
    pub edges: Vec<Edge>,
}

/// An edge that leads to station `n`.
pub open spec fn leads_to(n: Seq<char>) -> spec_fn(Edge) -> bool {
    |e: Edge| e.node@ == n
}

/// An edge named `id`.
pub open spec fn edge_named(id: Seq<char>) -> spec_fn(Edge) -> bool {
    |e: Edge| e.id@ == id
}

impl Node {
    pub fn new(name: &str) -> (r: Node)
        ensures
            r.id@ == name@,
            r.edges@.len() == 0,
    {
        Node { id: NodeId(name.to_owned()), edges: Vec::new() }
    }

    fn find_edge_index_by_id(&self, id: &EdgeId) -> (r: Option<usize>)
        ensures
            r is None <==> first_index(self.edges@, edge_named(id@)) < 0,
            r matches Some(i) ==> i == first_index(self.edges@, edge_named(id@)) && i < self.edges@.len(),
    {
        let mut i: usize = 0;
        while i < self.edges.len()
            invariant
                i <= self.edges@.len(),
                forall|j: int| 0 <= j < i ==> !edge_named(id@)(#[trigger] self.edges@[j]),
            decreases self.edges@.len() - i,
        {
            if self.edges[i].id.0 == id.0 {
                proof {
                    lemma_first_index_is(self.edges@, edge_named(id@), i as int);
                }
                return Some(i);
            }
            i = i + 1;
        }
        proof {
            lemma_first_index_is(self.edges@, edge_named(id@), -1);
        }
        None
    }

    /// Whether the station has an edge of that name.
    pub fn find_edge_with_name(&self, id: &EdgeId) -> (r: bool)
        ensures
            r == (first_index(self.edges@, edge_named(id@)) >= 0),
    {
        self.find_edge_index_by_id(id).is_some()
    }

    /// The first edge that leads to `node_id`.
    pub fn find_edge_with_node(&self, node_id: &NodeId) -> (r: Option<&Edge>)
        ensures
            r is None <==> first_index(self.edges@, leads_to(node_id@)) < 0,
            r matches Some(e) ==> *e == self.edges@[first_index(self.edges@, leads_to(node_id@))],
    {
        let mut i: usize = 0;
        while i < self.edges.len()
            invariant
                i <= self.edges@.len(),
                forall|j: int| 0 <= j < i ==> !leads_to(node_id@)(#[trigger] self.edges@[j]),
            decreases self.edges@.len() - i,
        {
            if self.edges[i].node.0 == node_id.0 {
                proof {
                    lemma_first_index_is(self.edges@, leads_to(node_id@), i as int);
                }
                return Some(&self.edges[i]);
            }
            i = i + 1;
        }
        proof {
            lemma_first_index_is(self.edges@, leads_to(node_id@), -1);
        }
        None
    }

    /// Adds an edge, unless the station already has one of that name.
    pub fn add_edge(&mut self, edge: Edge) -> (r: Result<(), Error>)
        ensures
            r is Err <==> first_index(old(self).edges@, edge_named(edge.id@)) >= 0,
            r matches Err(e) ==> e.kind == ErrorKind::DuplicateEdge && *final(self) == *old(self),
            r is Ok ==> final(self).id == old(self).id && final(self).edges@ == old(self).edges@.push(edge),
    {
        if self.find_edge_index_by_id(&edge.id).is_some() {
            return Err(Error::new(ErrorKind::DuplicateEdge, "edge already exists at this station"));
        }
        self.edges.push(edge);
        Ok(())
    }
}

} // verus!
