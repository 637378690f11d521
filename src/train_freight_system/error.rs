use vstd::prelude::*;

verus! {

/// What went wrong while registering a station, an edge, a train or a package.
#[derive(Debug, Clone, Copy, PartialEq, Eq, Structural)]
pub enum ErrorKind {
    DuplicateStation,
    NodeNotFound,
    SameStation,
    DuplicateEdge,
    DuplicateTrain,
    DuplicatePackage,
}

/// A registration error: its kind and a message for people.
#[derive(Debug)]
pub struct Error {
    pub kind: ErrorKind,
    pub msg: String,
}

impl Error {
    pub fn new(kind: ErrorKind, msg: &str) -> (r: Error)
        ensures
            r.kind == kind,
            r.msg@ == msg@,
    {
        Error { kind, msg: msg.to_owned() }
    }
}

} // verus!
