//! The data model of a pristine: change identifiers, positions, vertices,
//! edge flags, and the graph of a channel.
use vstd::prelude::*;
use crate::base32::{decode_spec, decode_u64, encode_spec, encode_u64};

verus! {

/// Internal identifier of a change in a pristine.
#[derive(Clone, Copy, Debug, PartialEq, Eq, PartialOrd, Ord, Structural, Hash)]
pub struct ChangeId(pub u64);

impl ChangeId {
    /// The change that introduced the root of every repository.
    pub fn root() -> (r: ChangeId)
        ensures
            r.0 == 0,
    {
        ChangeId(0)
    }

    pub open spec fn spec_is_root(&self) -> bool {
        self.0 == 0
    }

    #[verifier::when_used_as_spec(spec_is_root)]
    pub fn is_root(&self) -> (r: bool)
        ensures
            r == self.spec_is_root(),
    {
        self.0 == 0
    }

    /// The text form of this identifier.
    pub fn to_base32(&self) -> (r: String)
        ensures
            r@ == encode_spec(self.0),
    {
        encode_u64(self.0)
    }

    /// The identifier of text form `s`, if `s` is one.
    pub fn from_base32(s: &str) -> (r: Option<ChangeId>)
        ensures
            r == (match decode_spec(s@) {
                Some(x) => Some(ChangeId(x)),
                None => None,
            }),
    {
        match decode_u64(s) {
            Some(x) => Some(ChangeId(x)),
            None => None,
        }
    }
}

/// A position (an offset) inside the contents of a change.
#[derive(Clone, Copy, Debug, PartialEq, Eq, PartialOrd, Ord, Structural, Hash)]
pub struct ChangePosition(pub u64);

/// The hash of a change. `Root` is the hash of the root change.
#[derive(Clone, Copy, Debug, PartialEq, Eq, PartialOrd, Ord, Structural, Hash)]
pub enum ChangeHash {
    Root,
    Blake3(u64, u64, u64, u64),
}

/// A position inside a change, the change being designated by `C`.
#[derive(Clone, Copy, Debug, PartialEq, Eq, PartialOrd, Ord, Structural, Hash)]
pub struct Position<C> {
    pub change: C,
    pub pos: ChangePosition,
}

/// A vertex of the graph: the byte interval `[start, end[` of a change.
#[derive(Clone, Copy, Debug, PartialEq, Eq, PartialOrd, Ord, Structural, Hash)]
pub struct Vertex<C> {
    pub change: C,
    pub start: ChangePosition,
    pub end: ChangePosition,
}

impl Position<ChangeId> {
    pub fn root() -> (r: Position<ChangeId>)
        ensures
            r.change.0 == 0,
            r.pos.0 == 0,
    {
        Position { change: ChangeId(0), pos: ChangePosition(0) }
    }

    pub open spec fn spec_inode_vertex(&self) -> Vertex<ChangeId> {
        Vertex { change: self.change, start: self.pos, end: self.pos }
    }

    /// The empty vertex at this position (used for inodes).
    #[verifier::when_used_as_spec(spec_inode_vertex)]
    pub fn inode_vertex(&self) -> (r: Vertex<ChangeId>)
        ensures
            r == self.spec_inode_vertex(),
    {
        Vertex { change: self.change, start: self.pos, end: self.pos }
    }
}

impl Vertex<ChangeId> {
    pub fn root() -> (r: Vertex<ChangeId>)
        ensures
            r.spec_is_root(),
    {
        Vertex { change: ChangeId(0), start: ChangePosition(0), end: ChangePosition(0) }
    }

    pub open spec fn spec_is_root(&self) -> bool {
        self.change.0 == 0 && self.start.0 == 0 && self.end.0 == 0
    }

    #[verifier::when_used_as_spec(spec_is_root)]
    pub fn is_root(&self) -> (r: bool)
        ensures
            r == self.spec_is_root(),
    {
        self.change.0 == 0 && self.start.0 == 0 && self.end.0 == 0
    }

    pub open spec fn spec_is_empty(&self) -> bool {
        self.start == self.end
    }

    #[verifier::when_used_as_spec(spec_is_empty)]
    pub fn is_empty(&self) -> (r: bool)
        ensures
            r == self.spec_is_empty(),
    {
        self.start.0 == self.end.0
    }

    pub open spec fn spec_start_pos(&self) -> Position<ChangeId> {
        Position { change: self.change, pos: self.start }
    }

    #[verifier::when_used_as_spec(spec_start_pos)]
    pub fn start_pos(&self) -> (r: Position<ChangeId>)
        ensures
            r == self.spec_start_pos(),
    {
        Position { change: self.change, pos: self.start }
    }

    pub open spec fn spec_end_pos(&self) -> Position<ChangeId> {
        Position { change: self.change, pos: self.end }
    }

    #[verifier::when_used_as_spec(spec_end_pos)]
    pub fn end_pos(&self) -> (r: Position<ChangeId>)
        ensures
            r == self.spec_end_pos(),
    {
        Position { change: self.change, pos: self.end }
    }
}

/// The flags of an edge. Their numeric encoding (see [`EdgeFlags::bits`])
/// orders the edges adjacent to a vertex.
#[derive(Clone, Copy, Debug, PartialEq, Eq, Structural, Hash)]
pub struct EdgeFlags {
    pub block: bool,
    pub pseudo: bool,
    pub folder: bool,
    pub parent: bool,
    pub deleted: bool,
}

impl EdgeFlags {
    pub open spec fn spec_bits(&self) -> u8 {
        ((if self.block { 1u8 } else { 0u8 }) + (if self.pseudo { 4u8 } else { 0u8 }) + (if self.folder {
            16u8
        } else {
            0u8
        }) + (if self.parent { 32u8 } else { 0u8 }) + (if self.deleted { 128u8 } else { 0u8 })) as u8
    }

    /// The numeric encoding: BLOCK = 1, PSEUDO = 4, FOLDER = 16, PARENT = 32, DELETED = 128.
    #[verifier::when_used_as_spec(spec_bits)]
    pub fn bits(&self) -> (r: u8)
        ensures
            r == self.spec_bits(),
    {
        let mut r: u8 = 0;
        if self.block {
            r = r + 1;
        }
        if self.pseudo {
            r = r + 4;
        }
        if self.folder {
            r = r + 16;
        }
        if self.parent {
            r = r + 32;
        }
        if self.deleted {
            r = r + 128;
        }
        r
    }

    pub fn empty() -> (r: EdgeFlags)
        ensures
            !r.block && !r.pseudo && !r.folder && !r.parent && !r.deleted,
    {
        EdgeFlags { block: false, pseudo: false, folder: false, parent: false, deleted: false }
    }

    pub fn all() -> (r: EdgeFlags)
        ensures
            r.block && r.pseudo && r.folder && r.parent && r.deleted,
    {
        EdgeFlags { block: true, pseudo: true, folder: true, parent: true, deleted: true }
    }

    pub fn block() -> (r: EdgeFlags)
        ensures
            r.block && !r.pseudo && !r.folder && !r.parent && !r.deleted,
    {
        EdgeFlags { block: true, pseudo: false, folder: false, parent: false, deleted: false }
    }

    pub fn pseudo() -> (r: EdgeFlags)
        ensures
            !r.block && r.pseudo && !r.folder && !r.parent && !r.deleted,
    {
        EdgeFlags { block: false, pseudo: true, folder: false, parent: false, deleted: false }
    }

    pub fn folder() -> (r: EdgeFlags)
        ensures
            !r.block && !r.pseudo && r.folder && !r.parent && !r.deleted,
    {
        EdgeFlags { block: false, pseudo: false, folder: true, parent: false, deleted: false }
    }

    pub fn parent() -> (r: EdgeFlags)
        ensures
            !r.block && !r.pseudo && !r.folder && r.parent && !r.deleted,
    {
        EdgeFlags { block: false, pseudo: false, folder: false, parent: true, deleted: false }
    }

    pub fn deleted() -> (r: EdgeFlags)
        ensures
            !r.block && !r.pseudo && !r.folder && !r.parent && r.deleted,
    {
        EdgeFlags { block: false, pseudo: false, folder: false, parent: false, deleted: true }
    }

    /// The flags `PSEUDO | FOLDER`, which identify pseudo-edges of folders.
    pub fn pseudof() -> (r: EdgeFlags)
        ensures
            !r.block && r.pseudo && r.folder && !r.parent && !r.deleted,
    {
        EdgeFlags { block: false, pseudo: true, folder: true, parent: false, deleted: false }
    }

    pub open spec fn spec_union(self, o: EdgeFlags) -> EdgeFlags {
        EdgeFlags {
            block: self.block || o.block,
            pseudo: self.pseudo || o.pseudo,
            folder: self.folder || o.folder,
            parent: self.parent || o.parent,
            deleted: self.deleted || o.deleted,
        }
    }

    /// `self | o`
    #[verifier::when_used_as_spec(spec_union)]
    pub fn union(self, o: EdgeFlags) -> (r: EdgeFlags)
        ensures
            r == self.spec_union(o),
    {
        EdgeFlags {
            block: self.block || o.block,
            pseudo: self.pseudo || o.pseudo,
            folder: self.folder || o.folder,
            parent: self.parent || o.parent,
            deleted: self.deleted || o.deleted,
        }
    }

    pub open spec fn spec_minus(self, o: EdgeFlags) -> EdgeFlags {
        EdgeFlags {
            block: self.block && !o.block,
            pseudo: self.pseudo && !o.pseudo,
            folder: self.folder && !o.folder,
            parent: self.parent && !o.parent,
            deleted: self.deleted && !o.deleted,
        }
    }

    /// `self - o`
    #[verifier::when_used_as_spec(spec_minus)]
    pub fn minus(self, o: EdgeFlags) -> (r: EdgeFlags)
        ensures
            r == self.spec_minus(o),
    {
        EdgeFlags {
            block: self.block && !o.block,
            pseudo: self.pseudo && !o.pseudo,
            folder: self.folder && !o.folder,
            parent: self.parent && !o.parent,
            deleted: self.deleted && !o.deleted,
        }
    }

    pub open spec fn spec_intersection(self, o: EdgeFlags) -> EdgeFlags {
        EdgeFlags {
            block: self.block && o.block,
            pseudo: self.pseudo && o.pseudo,
            folder: self.folder && o.folder,
            parent: self.parent && o.parent,
            deleted: self.deleted && o.deleted,
        }
    }

    /// `self & o`
    #[verifier::when_used_as_spec(spec_intersection)]
    pub fn intersection(self, o: EdgeFlags) -> (r: EdgeFlags)
        ensures
            r == self.spec_intersection(o),
    {
        EdgeFlags {
            block: self.block && o.block,
            pseudo: self.pseudo && o.pseudo,
            folder: self.folder && o.folder,
            parent: self.parent && o.parent,
            deleted: self.deleted && o.deleted,
        }
    }

    pub open spec fn spec_contains(self, o: EdgeFlags) -> bool {
        (o.block ==> self.block) && (o.pseudo ==> self.pseudo) && (o.folder ==> self.folder) && (
        o.parent ==> self.parent) && (o.deleted ==> self.deleted)
    }

    /// Whether every flag of `o` is set in `self`.
    #[verifier::when_used_as_spec(spec_contains)]
    pub fn contains(self, o: EdgeFlags) -> (r: bool)
        ensures
            r == self.spec_contains(o),
    {
        (!o.block || self.block) && (!o.pseudo || self.pseudo) && (!o.folder || self.folder) && (
        !o.parent || self.parent) && (!o.deleted || self.deleted)
    }

    pub fn is_parent(&self) -> (r: bool)
        ensures
            r == self.parent,
    {
        self.parent
    }

    pub fn is_folder(&self) -> (r: bool)
        ensures
            r == self.folder,
    {
        self.folder
    }

    pub fn is_deleted(&self) -> (r: bool)
        ensures
            r == self.deleted,
    {
        self.deleted
    }

    pub fn is_block(&self) -> (r: bool)
        ensures
            r == self.block,
    {
        self.block
    }
}

/// An edge, as stored in the graph, attached to its source vertex.
#[derive(Clone, Copy, Debug, PartialEq, Eq, Structural, Hash)]
pub struct Edge {
    pub flag: EdgeFlags,
    pub dest: Position<ChangeId>,
    pub introduced_by: ChangeId,
}

impl Edge {
    pub fn flag(&self) -> (r: EdgeFlags)
        ensures
            r == self.flag,
    {
        self.flag
    }

    pub fn dest(&self) -> (r: Position<ChangeId>)
        ensures
            r == self.dest,
    {
        self.dest
    }

    pub fn introduced_by(&self) -> (r: ChangeId)
        ensures
            r == self.introduced_by,
    {
        self.introduced_by
    }
}

/// The error returned when no vertex contains a position.
#[derive(Clone, Copy, Debug, PartialEq, Eq, Structural)]
pub struct BlockError {
    pub block: Position<ChangeId>,
}

} // verus!
