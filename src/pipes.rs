use vstd::prelude::*;

verus! {

/// A tile of the pipe grid and the ids of the tiles it connects to.
#[derive(Debug, Clone, Copy, PartialEq, Eq, Structural)]
pub struct Pipe {
    pub id: usize,
    pub left: Option<usize>,
    pub right: Option<usize>,
    pub up: Option<usize>,
    pub down: Option<usize>,
}

impl Pipe {
    /// A tile with no connections yet.
    pub fn new(id: usize) -> (r: Pipe)
        ensures
            r == (Pipe { id, left: None, right: None, up: None, down: None }),
    {
        Pipe { id, left: None, right: None, up: None, down: None }
    }
}

} // verus!
