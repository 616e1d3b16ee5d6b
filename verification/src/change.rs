//! Changes: the atoms that a change adds to a graph, and its dependencies.
use vstd::prelude::*;
use crate::pristine::{ChangePosition, EdgeFlags, ChangeHash, Position, Vertex};

verus! {

/// A new vertex introduced by a change, with the vertices it is attached to.
#[derive(Clone, Debug, PartialEq, Eq)]
pub struct NewVertex {
    pub up_context: Vec<Position<Option<ChangeHash>>>,
    pub down_context: Vec<Position<Option<ChangeHash>>>,
    pub flag: EdgeFlags,
    pub start: ChangePosition,
    pub end: ChangePosition,
    pub inode: Position<Option<ChangeHash>>,
}

/// An edge whose flags a change modifies, from `previous` to `flag`.
#[derive(Clone, Copy, Debug, PartialEq, Eq, Structural)]
pub struct NewEdge {
    pub previous: EdgeFlags,
    pub flag: EdgeFlags,
    pub from: Position<Option<ChangeHash>>,
    pub to: Vertex<Option<ChangeHash>>,
    pub introduced_by: Option<ChangeHash>,
}

/// A set of edges of the file `inode` modified by a change.
#[derive(Clone, Debug, PartialEq, Eq)]
pub struct EdgeMap {
    pub edges: Vec<NewEdge>,
    pub inode: Position<Option<ChangeHash>>,
}

#[derive(Clone, Debug, PartialEq, Eq)]
pub enum Atom {
    NewVertex(NewVertex),
    EdgeMap(EdgeMap),
}

/// A change: its dependencies, the other changes it knows of, and its atoms,
/// grouped by hunk.
#[derive(Clone, Debug)]
pub struct Change {
    pub dependencies: Vec<ChangeHash>,
    pub extra_known: Vec<ChangeHash>,
    pub changes: Vec<Vec<Atom>>,
}

impl NewEdge {
    pub open spec fn spec_to_start(&self) -> Position<Option<ChangeHash>> {
        Position { change: self.to.change, pos: self.to.start }
    }
}

impl Change {
    pub open spec fn spec_knows(&self, h: &ChangeHash) -> bool {
        self.dependencies@.contains(*h) || self.extra_known@.contains(*h)
    }

    /// Whether this change depends on, or otherwise knows of, the change `h`.
    #[verifier::when_used_as_spec(spec_knows)]
    pub fn knows(&self, h: &ChangeHash) -> (r: bool)
        ensures
            r == self.spec_knows(h),
    {
        hash_in(&self.dependencies, h) || hash_in(&self.extra_known, h)
    }

    /// The atoms of all hunks, in order.
    pub open spec fn atoms(&self) -> Seq<Atom> {
        self.changes@.map_values(|h: Vec<Atom>| h@).flatten()
    }
}

/// Whether `h` occurs in `v`.
pub fn hash_in(v: &Vec<ChangeHash>, h: &ChangeHash) -> (r: bool)
    ensures
        r == v@.contains(*h),
{
    let mut i: usize = 0;
    while i < v.len()
        invariant
            0 <= i <= v.len(),
            forall|j: int| 0 <= j < i ==> v@[j] != *h,
        decreases v.len() - i,
    {
        if v[i] == *h {
            assert(v@[i as int] == *h);
            return true;
        }
        i = i + 1;
    }
    false
}

/// The edges of an atom that is an edge map (none for a new vertex).
pub open spec fn edge_map_edges(a: Atom) -> Seq<NewEdge> {
    match a {
        Atom::EdgeMap(m) => m.edges@,
        Atom::NewVertex(_) => Seq::empty(),
    }
}

/// The file of an atom that is an edge map (that of its vertex for a new
/// vertex).
pub open spec fn atom_inode(a: Atom) -> Position<Option<ChangeHash>> {
    match a {
        Atom::EdgeMap(m) => m.inode,
        Atom::NewVertex(n) => n.inode,
    }
}

/// The edges of an edge map are child edges (the reverse parent edges are
/// added with them).
pub open spec fn edge_map_wf(m: EdgeMap) -> bool {
    forall|k: int| 0 <= k < m.edges@.len() ==> !(#[trigger] m.edges@[k]).flag.parent
}

/// The edge maps of `c` are well-formed.
pub open spec fn change_wf(c: Change) -> bool {
    forall|h: int, a: int|
        0 <= h < c.changes@.len() && 0 <= a < c.changes@[h]@.len() ==> match #[trigger] c.changes@[h]@[a] {
            Atom::EdgeMap(m) => edge_map_wf(m),
            _ => true,
        }
}

} // verus!
