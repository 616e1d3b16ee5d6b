//! Detection of missing contexts: places where a change applies to parts
//! of a file that other changes, unknown to it, have modified.
use vstd::prelude::*;
use crate::change::{atom_inode, edge_map_edges, Atom, Change, NewEdge};
use crate::graph::{
    lookups_found, del_graph_with_rev, first_block, forward_edge, has_adjacent, is_alive_spec, keys, lemma_first_block_key, lemma_keys,
    lemma_remove_all_sub, remove_all, reverse_edge, sub_graph, Graph, removed_carry, removed_with_flags, lemma_adjacent_bits, lemma_bits_injective,
    lemma_remove_all_contains, adjacent,
};
use crate::apply::{keys_anchored, lemma_anchored_lookup, lemma_remove_pseudo_consistent};
use crate::pristine::{BlockError, ChangeHash, ChangeId, ChangePosition, Edge, EdgeFlags, Position, Vertex};
use crate::txn::{external_of, internal_pos, internal_pos_spec, InconsistentChange, Txn, TxnErr};

verus! {

#[derive(Clone, Copy, Debug, PartialEq, Eq, Structural)]
pub enum MissingError {
    Txn(TxnErr),
    Block(BlockError),
    Inconsistent(InconsistentChange),
}

/// The identifier of a line in the graph of a file.
#[derive(Clone, Copy, Debug, PartialEq, Eq, Structural)]
pub struct VertexId(pub usize);

/// The graph of the lines of a file, in the order in which they are output.
#[derive(Clone, Debug)]
pub struct AliveGraph {
    pub lines: Vec<Vertex<ChangeId>>,
}

/// One loaded file graph: the file's inode, its lines, and the line of each vertex.
#[derive(Clone, Debug)]
pub struct GraphEntry {
    pub inode: Position<Option<ChangeHash>>,
    pub graph: AliveGraph,
    pub vids: Vec<(Vertex<ChangeId>, VertexId)>,
}

/// The file graphs loaded while repairing the contexts of a change.
#[derive(Clone, Debug)]
pub struct Graphs(pub Vec<GraphEntry>);

/// The map that an association list denotes, the last entry of a key winning.
pub open spec fn vid_map(s: Seq<(Vertex<ChangeId>, VertexId)>) -> Map<Vertex<ChangeId>, VertexId>
    decreases s.len(),
{
    if s.len() == 0 {
        Map::empty()
    } else {
        vid_map(s.drop_last()).insert(s.last().0, s.last().1)
    }
}

/// `s` without the entries of key `k`.
pub open spec fn without_key(s: Seq<(Vertex<ChangeId>, VertexId)>, k: Vertex<ChangeId>) -> Seq<(Vertex<ChangeId>, VertexId)>
    decreases s.len(),
{
    if s.len() == 0 {
        s
    } else if s.last().0 == k {
        without_key(s.drop_last(), k)
    } else {
        without_key(s.drop_last(), k).push(s.last())
    }
}

pub proof fn lemma_without_key(s: Seq<(Vertex<ChangeId>, VertexId)>, k: Vertex<ChangeId>)
    ensures
        vid_map(without_key(s, k)) == vid_map(s).remove(k),
    decreases s.len(),
{
    if s.len() > 0 {
        lemma_without_key(s.drop_last(), k);
        let w = without_key(s.drop_last(), k);
        if s.last().0 != k {
            assert(w.push(s.last()).drop_last() == w);
        }
        assert(vid_map(without_key(s, k)) =~= vid_map(s).remove(k));
    }
}

/// The index of the entry of `inode` in a list of file graphs.
pub open spec fn graph_index(s: Seq<GraphEntry>, inode: Position<Option<ChangeHash>>) -> Option<int>
    decreases s.len(),
{
    if s.len() == 0 {
        None
    } else if s[0].inode == inode {
        Some(0)
    } else {
        match graph_index(s.drop_first(), inode) {
            Some(i) => Some(i + 1),
            None => None,
        }
    }
}

pub proof fn lemma_graph_index(s: Seq<GraphEntry>, inode: Position<Option<ChangeHash>>)
    ensures
        graph_index(s, inode) matches Some(i) ==> 0 <= i < s.len() && s[i].inode == inode && forall|j: int| 0 <= j < i ==> s[j].inode != inode,
        graph_index(s, inode) is None ==> forall|j: int| 0 <= j < s.len() ==> s[j].inode != inode,
    decreases s.len(),
{
    if s.len() > 0 {
        lemma_graph_index(s.drop_first(), inode);
        assert forall|j: int| 0 < j < s.len() implies s[j] == s.drop_first()[j - 1] by {}
    }
}

fn remove_vid(vids: &mut Vec<(Vertex<ChangeId>, VertexId)>, k: Vertex<ChangeId>) -> (r: Option<VertexId>)
    ensures
        vid_map(final(vids)@) == vid_map(old(vids)@).remove(k),
        r == (if vid_map(old(vids)@).contains_key(k) {
            Some(vid_map(old(vids)@)[k])
        } else {
            None
        }),
{
    let ghost s = vids@;
    let mut kept: Vec<(Vertex<ChangeId>, VertexId)> = Vec::new();
    let mut found: Option<VertexId> = None;
    let mut i: usize = 0;
    while i < vids.len()
        invariant
            0 <= i <= vids@.len(),
            vids@ == s,
            kept@ == without_key(s.take(i as int), k),
            found == (if vid_map(s.take(i as int)).contains_key(k) {
                Some(vid_map(s.take(i as int))[k])
            } else {
                None
            }),
        decreases vids.len() - i,
    {
        let x = vids[i];
        assert(s.take(i + 1).drop_last() == s.take(i as int));
        if x.0 == k {
            found = Some(x.1);
        } else {
            kept.push(x);
        }
        i = i + 1;
    }
    assert(s.take(s.len() as int) == s);
    proof { lemma_without_key(s, k); }
    *vids = kept;
    found
}

fn insert_vid(vids: &mut Vec<(Vertex<ChangeId>, VertexId)>, k: Vertex<ChangeId>, v: VertexId)
    ensures
        vid_map(final(vids)@) == vid_map(old(vids)@).insert(k, v),
{
    remove_vid(vids, k);
    let ghost w = vids@;
    vids.push((k, v));
    assert(vids@.drop_last() == w);
    assert(vid_map(vids@) =~= vid_map(old(vids)@).insert(k, v));
}

impl Graphs {
    pub fn new() -> (r: Graphs)
        ensures
            r.0@.len() == 0,
    {
        Graphs(Vec::new())
    }

    /// The loaded graph of the file `inode`, if any.
    pub fn get(&self, inode: Position<Option<ChangeHash>>) -> (r: Option<&GraphEntry>)
        ensures
            match graph_index(self.0@, inode) {
                Some(i) => r == Some(&self.0@[i]),
                None => r is None,
            },
    {
        let mut i: usize = 0;
        proof { lemma_graph_index(self.0@, inode); }
        while i < self.0.len()
            invariant
                0 <= i <= self.0@.len(),
                forall|j: int| 0 <= j < i ==> self.0@[j].inode != inode,
                graph_index(self.0@, inode) matches Some(k) ==> 0 <= k < self.0@.len() && self.0@[k].inode == inode
                    && forall|j: int| 0 <= j < k ==> self.0@[j].inode != inode,
                graph_index(self.0@, inode) is None ==> forall|j: int| 0 <= j < self.0@.len() ==> self.0@[j].inode != inode,
            decreases self.0.len() - i,
        {
            if self.0[i].inode == inode {
                return Some(&self.0[i]);
            }
            i = i + 1;
        }
        None
    }

    /// Records that `vertex`, of the file `inode`, was split at `mid`: both
    /// halves keep the line identifier of `vertex`.
    pub fn split(&mut self, inode: Position<Option<ChangeHash>>, vertex: Vertex<ChangeId>, mid: ChangePosition)
        ensures
            final(self).0@.len() == old(self).0@.len(),
            forall|j: int| 0 <= j < old(self).0@.len() && Some(j) != graph_index(old(self).0@, inode) ==> #[trigger] final(self).0@[j] == old(self).0@[j],
            match graph_index(old(self).0@, inode) {
                Some(i) => {
                    &&& final(self).0@[i].inode == old(self).0@[i].inode
                    &&& final(self).0@[i].graph.lines@ == old(self).0@[i].graph.lines@
                    &&& if vid_map(old(self).0@[i].vids@).contains_key(vertex) {
                        vid_map(final(self).0@[i].vids@) == vid_map(old(self).0@[i].vids@).remove(vertex).insert(
                            Vertex { end: mid, ..vertex },
                            vid_map(old(self).0@[i].vids@)[vertex],
                        ).insert(Vertex { start: mid, ..vertex }, vid_map(old(self).0@[i].vids@)[vertex])
                    } else {
                        vid_map(final(self).0@[i].vids@) == vid_map(old(self).0@[i].vids@)
                    }
                },
                None => true,
            },
    {
        proof { lemma_graph_index(self.0@, inode); }
        let mut i: usize = 0;
        while i < self.0.len()
            invariant
                0 <= i <= self.0@.len(),
                self.0@ == old(self).0@,
                forall|j: int| 0 <= j < i ==> self.0@[j].inode != inode,
                graph_index(old(self).0@, inode) matches Some(k) ==> 0 <= k < self.0@.len() && self.0@[k].inode == inode
                    && forall|j: int| 0 <= j < k ==> self.0@[j].inode != inode,
                graph_index(old(self).0@, inode) is None ==> forall|j: int| 0 <= j < self.0@.len() ==> self.0@[j].inode != inode,
            decreases self.0.len() - i,
        {
            if self.0[i].inode == inode {
                assert(graph_index(old(self).0@, inode) == Some(i as int));
                let mut entry = self.0.remove(i);
                let removed = remove_vid(&mut entry.vids, vertex);
                match removed {
                    Some(vid) => {
                        insert_vid(&mut entry.vids, Vertex { end: mid, ..vertex }, vid);
                        insert_vid(&mut entry.vids, Vertex { start: mid, ..vertex }, vid);
                    },
                    None => {},
                }
                self.0.insert(i, entry);
                return;
            }
            i = i + 1;
        }
    }
}

/// The workspace of the repair of missing contexts, reused between changes.
pub struct Workspace {
    pub unknown_parents: Vec<(Vertex<ChangeId>, Vertex<ChangeId>, Position<Option<ChangeHash>>, EdgeFlags)>,
    pub unknown: Vec<Edge>,
    pub parents: Vec<Edge>,
    pub pseudo: Vec<(Vertex<ChangeId>, Edge)>,
    pub repaired: Vec<Vertex<ChangeId>>,
    pub graphs: Graphs,
    pub covered_parents: Vec<(Vertex<ChangeId>, Vertex<ChangeId>)>,
    pub files: Vec<Vertex<ChangeId>>,
    pub alive_down_cache: Vec<(Vertex<ChangeId>, Option<Vec<Vertex<ChangeId>>>)>,
    pub alive_up_cache: Vec<(Vertex<ChangeId>, (Option<Vec<Vertex<ChangeId>>>, Vec<Vertex<ChangeId>>))>,
    pub missing_down: Vec<Vertex<ChangeId>>,
}

impl Workspace {
    /// Whether every cache of this workspace, except the set of files, is empty.
    pub open spec fn is_clear(&self) -> bool {
        &&& self.unknown@.len() == 0
        &&& self.unknown_parents@.len() == 0
        &&& self.pseudo@.len() == 0
        &&& self.parents@.len() == 0
        &&& self.graphs.0@.len() == 0
        &&& self.repaired@.len() == 0
        &&& self.covered_parents@.len() == 0
        &&& self.alive_up_cache@.len() == 0
        &&& self.alive_down_cache@.len() == 0
        &&& self.missing_down@.len() == 0
    }

    pub fn new() -> (r: Workspace)
        ensures
            r.is_clear(),
            r.files@.len() == 0,
    {
        Workspace {
            unknown_parents: Vec::new(),
            unknown: Vec::new(),
            parents: Vec::new(),
            pseudo: Vec::new(),
            repaired: Vec::new(),
            graphs: Graphs::new(),
            covered_parents: Vec::new(),
            files: Vec::new(),
            alive_down_cache: Vec::new(),
            alive_up_cache: Vec::new(),
            missing_down: Vec::new(),
        }
    }

    /// Empties the caches of this workspace. The set of files is kept.
    pub fn clear(&mut self)
        ensures
            final(self).is_clear(),
            final(self).files == old(self).files,
    {
        self.unknown.clear();
        self.unknown_parents.clear();
        self.pseudo.clear();
        self.parents.clear();
        self.graphs.0.clear();
        self.repaired.clear();
        self.covered_parents.clear();
        self.alive_up_cache.clear();
        self.alive_down_cache.clear();
        self.missing_down.clear();
    }

    /// Checks that the caches of this workspace are empty.
    pub fn assert_empty(&self)
        requires
            self.is_clear(),
    {
        proof {
            assert(self.unknown@.len() == 0);
            assert(self.graphs.0@.len() == 0);
        }
    }
}

/// Whether the edges of the source and target of the non-folder edge `e`
/// miss a context: either its source is dead, it is not a block edge, or
/// its target has a deleted child edge.
pub open spec fn missing_nondeleted_spec(g: Seq<(Vertex<ChangeId>, Edge)>, source: Vertex<ChangeId>, target: Vertex<ChangeId>, e: NewEdge) -> bool {
    if is_alive_spec(g, source) && e.flag.block {
        has_adjacent(g, target, 128, 149)
    } else {
        true
    }
}

/// What [has_missing_context_nondeleted] gives for the edge `e`.
pub open spec fn nondeleted_result(internal: Seq<(ChangeHash, ChangeId)>, g: Seq<(Vertex<ChangeId>, Edge)>, change_id: ChangeId, e: NewEdge) -> Result<
    bool,
    MissingError,
> {
    if e.flag.folder {
        Ok(false)
    } else {
        match internal_pos_spec(internal, e.from, change_id) {
            Err(x) => Err(MissingError::Inconsistent(x)),
            Ok(p) => match first_block(g, p, true) {
                None => Err(MissingError::Block(BlockError { block: p })),
                Some(source) => match internal_pos_spec(internal, e.spec_to_start(), change_id) {
                    Err(x) => Err(MissingError::Inconsistent(x)),
                    Ok(q) => match first_block(g, q, false) {
                        None => Err(MissingError::Block(BlockError { block: q })),
                        Some(target) => Ok(missing_nondeleted_spec(g, source, target, e)),
                    },
                },
            },
        }
    }
}

pub fn has_missing_context_nondeleted(txn: &Txn, g: &Graph, change_id: ChangeId, e: &NewEdge) -> (r: Result<bool, MissingError>)
    ensures
        r == nondeleted_result(txn.internal@, g@, change_id, *e),
{
    if e.flag.folder {
        return Ok(false);
    }
    let p = match internal_pos(txn, &e.from, change_id) {
        Ok(p) => p,
        Err(x) => return Err(MissingError::Inconsistent(x)),
    };
    let source = match g.find_block_end(p) {
        Ok(v) => v,
        Err(b) => return Err(MissingError::Block(b)),
    };
    let to_start = Position { change: e.to.change, pos: e.to.start };
    let q = match internal_pos(txn, &to_start, change_id) {
        Ok(q) => q,
        Err(x) => return Err(MissingError::Inconsistent(x)),
    };
    let target = match g.find_block(q) {
        Ok(v) => v,
        Err(b) => return Err(MissingError::Block(b)),
    };
    if g.is_alive(&source) && e.flag.block {
        let mut max = EdgeFlags::all();
        max.parent = false;
        Ok(g.has_adjacent(target, EdgeFlags::deleted(), max))
    } else {
        Ok(true)
    }
}

/// Every edge of the graph was introduced by the root change or by a registered change.
pub open spec fn intros_registered(internal: Seq<(ChangeHash, ChangeId)>, g: Seq<(Vertex<ChangeId>, Edge)>) -> bool {
    forall|i: int| 0 <= i < g.len() ==> (#[trigger] g[i].1).introduced_by.spec_is_root() || external_of(internal, g[i].1.introduced_by) is Some
}

/// `dest` has a deletion edge introduced by `c`.
pub open spec fn deleted_by(g: Seq<(Vertex<ChangeId>, Edge)>, dest: Vertex<ChangeId>, c: ChangeId) -> bool {
    exists|j: int| 0 <= j < g.len() && #[trigger] g[j].0 == dest && 160 <= g[j].1.flag.spec_bits() <= 181 && g[j].1.introduced_by == c
}

/// The entry `i` is a live child edge of `dest`, introduced by a change
/// other than the root and `change_id`, not deleted by its own introducer,
/// and whose introducer `change` does not know.
pub open spec fn unknown_child(internal: Seq<(ChangeHash, ChangeId)>, g: Seq<(Vertex<ChangeId>, Edge)>, dest: Vertex<ChangeId>, change_id: ChangeId, change: Change, i: int) -> bool {
    &&& g[i].0 == dest
    &&& g[i].1.flag.spec_bits() <= 21
    &&& g[i].1.introduced_by != change_id
    &&& !g[i].1.dest.change.spec_is_root()
    &&& !g[i].1.introduced_by.spec_is_root()
    &&& !deleted_by(g, dest, g[i].1.introduced_by)
    &&& !change.spec_knows(&external_of(internal, g[i].1.introduced_by).unwrap())
}

pub open spec fn has_unknown_children_spec(internal: Seq<(ChangeHash, ChangeId)>, g: Seq<(Vertex<ChangeId>, Edge)>, dest: Vertex<ChangeId>, change_id: ChangeId, change: Change) -> bool {
    exists|i: int| 0 <= i < g.len() && #[trigger] unknown_child(internal, g, dest, change_id, change, i)
}

fn is_deleted_by(g: &Graph, dest: Vertex<ChangeId>, c: ChangeId) -> (r: bool)
    ensures
        r == deleted_by(g@, dest, c),
{
    let mut j: usize = 0;
    while j < g.edges.len()
        invariant
            0 <= j <= g@.len(),
            forall|k: int| 0 <= k < j ==> !(#[trigger] g@[k].0 == dest && 160 <= g@[k].1.flag.spec_bits() <= 181 && g@[k].1.introduced_by == c),
        decreases g.edges.len() - j,
    {
        let (w, e) = g.edges[j];
        let b = e.flag.bits();
        if w == dest && 160 <= b && e.introduced_by == c {
            assert(g@[j as int].0 == dest);
            return true;
        }
        j = j + 1;
    }
    false
}

/// Whether `dest` has a live child introduced by a change that `change` does not know.
pub fn has_unknown_children(txn: &Txn, g: &Graph, dest: Vertex<ChangeId>, change_id: ChangeId, change: &Change) -> (r: Result<bool, TxnErr>)
    requires
        intros_registered(txn.internal@, g@),
    ensures
        r == Ok::<bool, TxnErr>(has_unknown_children_spec(txn.internal@, g@, dest, change_id, *change)),
{
    let mut i: usize = 0;
    while i < g.edges.len()
        invariant
            0 <= i <= g@.len(),
            intros_registered(txn.internal@, g@),
            forall|k: int| 0 <= k < i ==> !#[trigger] unknown_child(txn.internal@, g@, dest, change_id, *change, k),
        decreases g.edges.len() - i,
    {
        let (w, v) = g.edges[i];
        if w == dest && v.flag.bits() <= 21 && v.introduced_by != change_id && !v.dest.change.is_root()
            && !v.introduced_by.is_root() {
            if !is_deleted_by(g, dest, v.introduced_by) {
                assert(external_of(txn.internal@, g@[i as int].1.introduced_by) is Some);
                let intro = txn.get_external(v.introduced_by).unwrap();
                if !change.knows(&intro) {
                    assert(unknown_child(txn.internal@, g@, dest, change_id, *change, i as int));
                    return Ok(true);
                }
            }
        }
        i = i + 1;
    }
    Ok(false)
}

/// The blocks that a deleted vertex starting at `pos` and ending at
/// `to_end` spans, in order: each next one starts where the previous one
/// ends (the walk stops at a block that does not end further than where it
/// starts, or that reaches `to_end`).
pub open spec fn blocks_from(g: Seq<(Vertex<ChangeId>, Edge)>, pos: Position<ChangeId>, to_end: u64) -> Seq<Vertex<ChangeId>>
    decreases (if pos.pos.0 < to_end { to_end - pos.pos.0 } else { 0 }),
{
    match first_block(g, pos, false) {
        None => Seq::empty(),
        Some(dest) => if dest.end.0 < to_end && dest.end.0 > pos.pos.0 {
            seq![dest] + blocks_from(g, Position { change: pos.change, pos: dest.end }, to_end)
        } else {
            seq![dest]
        },
    }
}

/// One of the blocks from `p` to `to_end` (see [blocks_from]) has a live
/// child introduced by a change that `change` does not know.
pub open spec fn some_block_has_unknown_children(
    internal: Seq<(ChangeHash, ChangeId)>,
    g: Seq<(Vertex<ChangeId>, Edge)>,
    p: Position<ChangeId>,
    to_end: u64,
    change_id: ChangeId,
    change: Change,
) -> bool {
    exists|k: int| 0 <= k < blocks_from(g, p, to_end).len() && has_unknown_children_spec(internal, g, #[trigger] blocks_from(g, p, to_end)[k], change_id, change)
}

/// Whether the vertices deleted by `e` have live children introduced by
/// changes that `change` does not know.
/// What [has_missing_context_deleted] gives for the edge `e` of `change`.
pub open spec fn deleted_result(
    internal: Seq<(ChangeHash, ChangeId)>,
    g: Seq<(Vertex<ChangeId>, Edge)>,
    change_id: ChangeId,
    change: Change,
    e: NewEdge,
) -> Result<bool, MissingError> {
    if e.flag.folder {
        Ok(false)
    } else {
        match internal_pos_spec(internal, e.spec_to_start(), change_id) {
            Err(x) => Err(MissingError::Inconsistent(x)),
            Ok(p) => Ok(some_block_has_unknown_children(internal, g, p, e.to.end.0, change_id, change)),
        }
    }
}

pub fn has_missing_context_deleted(txn: &Txn, g: &Graph, change_id: ChangeId, change: &Change, e: &NewEdge) -> (r: Result<bool, MissingError>)
    requires
        intros_registered(txn.internal@, g@),
    ensures
        r == deleted_result(txn.internal@, g@, change_id, *change, *e),
{
    if e.flag.folder {
        return Ok(false);
    }
    let to_start = Position { change: e.to.change, pos: e.to.start };
    let mut pos = match internal_pos(txn, &to_start, change_id) {
        Ok(p) => p,
        Err(x) => return Err(MissingError::Inconsistent(x)),
    };
    let ghost p0 = pos;
    let ghost mut seen: Seq<Vertex<ChangeId>> = Seq::empty();
    assert(blocks_from(g@, p0, e.to.end.0) == seen + blocks_from(g@, pos, e.to.end.0));
    loop
        invariant
            intros_registered(txn.internal@, g@),
            !e.flag.folder,
            pos.change == p0.change,
            internal_pos_spec(txn.internal@, e.spec_to_start(), change_id) == Ok::<Position<ChangeId>, InconsistentChange>(p0),
            blocks_from(g@, p0, e.to.end.0) == seen + blocks_from(g@, pos, e.to.end.0),
            forall|k: int| 0 <= k < seen.len() ==> !has_unknown_children_spec(txn.internal@, g@, #[trigger] seen[k], change_id, *change),
        ensures
            forall|k: int| 0 <= k < blocks_from(g@, p0, e.to.end.0).len() ==> !has_unknown_children_spec(
                txn.internal@,
                g@,
                #[trigger] blocks_from(g@, p0, e.to.end.0)[k],
                change_id,
                *change,
            ),
        decreases e.to.end.0 - pos.pos.0,
    {
        match g.find_block(pos) {
            Ok(dest) => {
                if has_unknown_children(txn, g, dest, change_id, change).unwrap() {
                    assert(blocks_from(g@, p0, e.to.end.0)[seen.len() as int] == dest);
                    assert(has_unknown_children_spec(txn.internal@, g@, blocks_from(g@, p0, e.to.end.0)[seen.len() as int], change_id, *change));
                    assert(some_block_has_unknown_children(txn.internal@, g@, p0, e.to.end.0, change_id, *change));
                    return Ok(true);
                }
                let ghost rest = blocks_from(g@, pos, e.to.end.0);
                if dest.end.0 < e.to.end.0 && dest.end.0 > pos.pos.0 {
                    let next = Position { change: pos.change, pos: dest.end };
                    proof {
                        assert(rest == seq![dest] + blocks_from(g@, next, e.to.end.0));
                        assert(seen + rest == seen.push(dest) + blocks_from(g@, next, e.to.end.0));
                        seen = seen.push(dest);
                    }
                    pos = next;
                } else {
                    proof {
                        assert(rest == seq![dest]);
                        assert forall|k: int| 0 <= k < blocks_from(g@, p0, e.to.end.0).len() implies !has_unknown_children_spec(
                            txn.internal@,
                            g@,
                            #[trigger] blocks_from(g@, p0, e.to.end.0)[k],
                            change_id,
                            *change,
                        ) by {
                            if k < seen.len() {
                                assert(blocks_from(g@, p0, e.to.end.0)[k] == seen[k]);
                            } else {
                                assert(blocks_from(g@, p0, e.to.end.0)[k] == dest);
                            }
                        }
                    }
                    break;
                }
            },
            Err(_) => {
                proof {
                    assert(blocks_from(g@, pos, e.to.end.0) == Seq::<Vertex<ChangeId>>::empty());
                    assert(blocks_from(g@, p0, e.to.end.0) == seen);
                }
                break;
            },
        }
    }
    Ok(false)
}

} // verus!

verus! {

/// Whether `x` occurs in `v`.
pub fn vertex_in(v: &Vec<Vertex<ChangeId>>, x: &Vertex<ChangeId>) -> (r: bool)
    ensures
        r == v@.contains(*x),
{
    let mut i: usize = 0;
    while i < v.len()
        invariant
            0 <= i <= v.len(),
            forall|j: int| 0 <= j < i ==> v@[j] != *x,
        decreases v.len() - i,
    {
        if v[i] == *x {
            assert(v@[i as int] == *x);
            return true;
        }
        i = i + 1;
    }
    false
}

/// Where the search for dead folders starts, for the deleted edge `e` of the
/// file `inode`: the folder vertex that `e` points to, or else the source
/// of `e`, for a folder edge; the file otherwise.
pub open spec fn conflict_start(e: NewEdge, inode: Position<Option<ChangeHash>>) -> Position<Option<ChangeHash>> {
    if e.flag.folder {
        if e.to.start.0 == e.to.end.0 {
            Position { change: e.to.change, pos: e.to.start }
        } else {
            e.from
        }
    } else {
        inode
    }
}

/// `d` is an empty vertex of `g` with no live folder parent, no child, and
/// a folder pseudo-parent edge.
pub open spec fn dead_folder_with_pseudo_parent(g: Seq<(Vertex<ChangeId>, Edge)>, d: Vertex<ChangeId>) -> bool {
    &&& d.spec_is_empty()
    &&& !has_adjacent(g, d, 48, 49)
    &&& !has_adjacent(g, d, 0, 21)
    &&& adjacent(g, d, 52, 52).len() > 0
}

/// The folder pseudo-edge to `d` that doubles its first folder
/// pseudo-parent edge in `g` is not in `h`.
pub open spec fn first_pseudo_parent_gone(g: Seq<(Vertex<ChangeId>, Edge)>, h: Seq<(Vertex<ChangeId>, Edge)>, d: Vertex<ChangeId>) -> bool {
    let pe = adjacent(g, d, 52, 52)[0];
    match first_block(g, pe.dest, true) {
        Some(p) => !h.contains((p, forward_edge(EdgeFlags { block: false, pseudo: true, folder: true, parent: false, deleted: false }, d, pe.introduced_by))),
        None => false,
    }
}

/// The search for dead folders of [detect_folder_conflict_resolution]
/// starts at a dead empty folder vertex with a folder pseudo-parent edge.
pub open spec fn starts_at_dead_folder(
    internal: Seq<(ChangeHash, ChangeId)>,
    g: Seq<(Vertex<ChangeId>, Edge)>,
    change_id: ChangeId,
    inode: Position<Option<ChangeHash>>,
    e: NewEdge,
) -> bool {
    &&& internal_pos_spec(internal, conflict_start(e, inode), change_id) is Ok
    &&& first_block(g, internal_pos_spec(internal, conflict_start(e, inode), change_id).unwrap(), true) is Some
    &&& dead_folder_with_pseudo_parent(g, first_block(g, internal_pos_spec(internal, conflict_start(e, inode), change_id).unwrap(), true).unwrap())
}

/// If `e` deletes a folder edge (or an edge of a file), the folders above
/// it may have lost their last child: this removes the folder
/// pseudo-edges of the dead folders reachable from there.
pub fn detect_folder_conflict_resolution(
    txn: &Txn,
    g: &mut Graph,
    ws: &mut Workspace,
    change_id: ChangeId,
    inode: &Position<Option<ChangeHash>>,
    e: &NewEdge,
) -> (r: Result<(), MissingError>)
    ensures
        sub_graph(final(g)@, old(g)@),
        removed_carry(old(g)@, final(g)@, EdgeFlags { block: false, pseudo: true, folder: true, parent: false, deleted: false }),
        removed_with_flags(old(g)@, final(g)@, EdgeFlags { block: false, pseudo: true, folder: true, parent: false, deleted: false }),
        r is Ok ==> dead_start_cleared(txn.internal@, old(g)@, final(g)@, change_id, *inode, *e),
        final(ws).pseudo@ == old(ws).pseudo@,
        final(ws).files == old(ws).files,
        final(ws).graphs == old(ws).graphs,
        final(ws).unknown_parents == old(ws).unknown_parents,
        r matches Err(x) ==> x is Inconsistent || x is Block,
        lookups_found(old(g)@) && keys_anchored(old(g)@) && internal_pos_spec(txn.internal@, conflict_start(*e, *inode), change_id) is Ok
            ==> r is Ok && lookups_found(final(g)@) && keys_anchored(final(g)@),
{
    let ghost cons = (lookups_found(old(g)@) && keys_anchored(old(g)@) && internal_pos_spec(txn.internal@, conflict_start(*e, *inode), change_id) is Ok);
    let ghost cond = starts_at_dead_folder(txn.internal@, old(g)@, change_id, *inode, *e);
    let ghost d = first_block(old(g)@, internal_pos_spec(txn.internal@, conflict_start(*e, *inode), change_id).unwrap(), true).unwrap();
    let ghost pe0 = adjacent(old(g)@, d, 52, 52)[0];
    let start = if e.flag.folder {
        if e.to.start.0 == e.to.end.0 {
            Position { change: e.to.change, pos: e.to.start }
        } else {
            e.from
        }
    } else {
        *inode
    };
    let first = match internal_pos(txn, &start, change_id) {
        Ok(p) => p,
        Err(x) => {
            proof {
                assert(start == conflict_start(*e, *inode));
            }
            return Err(MissingError::Inconsistent(x));
        },
    };
    let mut stack: Vec<Position<ChangeId>> = Vec::new();
    stack.push(first);
    assert(start == conflict_start(*e, *inode));
    let len = ws.pseudo.len();
    let ghost prefix = ws.pseudo@;
    let mut visited: Vec<Vertex<ChangeId>> = Vec::new();
    let ghost universe = keys(g@);
    let ghost mut seen: Set<Vertex<ChangeId>> = Set::empty();
    proof {
        lemma_keys(g@, Vertex { change: ChangeId(0), start: ChangePosition(0), end: ChangePosition(0) });
    }
    let mut f = EdgeFlags::folder();
    f.parent = true;
    f.pseudo = true;
    let mut alive_max = EdgeFlags::folder();
    alive_max.parent = true;
    alive_max.block = true;
    let mut child_max = EdgeFlags::folder();
    child_max.block = true;
    child_max.pseudo = true;
    while stack.len() > 0
        invariant
            universe == keys(old(g)@),
            universe.finite(),
            g@ == old(g)@,
            cond ==> ((stack@ == seq![first] && ws.pseudo@.len() == len && visited@.len() == 0) || (ws.pseudo@.len() > len && ws.pseudo@[len as int] == (d, pe0))),
            cond ==> first_block(g@, first, true) == Some(d),
            cond ==> dead_folder_with_pseudo_parent(g@, d) && pe0 == adjacent(g@, d, 52, 52)[0],
            alive_max == (EdgeFlags { block: true, pseudo: false, folder: true, parent: true, deleted: false }),
            child_max == (EdgeFlags { block: true, pseudo: true, folder: true, parent: false, deleted: false }),
            f == (EdgeFlags { block: false, pseudo: true, folder: true, parent: true, deleted: false }),
            forall|j: int| len <= j < ws.pseudo@.len() ==> (#[trigger] ws.pseudo@[j]).1.flag == f,
            seen.subset_of(universe),
            seen.finite(),
            forall|x: Vertex<ChangeId>| seen.contains(x) <==> visited@.contains(x),
            len == prefix.len(),
            prefix == old(ws).pseudo@,
            ws.pseudo@.len() >= len,
            ws.pseudo@.take(len as int) == prefix,
            ws.files == old(ws).files,
            ws.graphs == old(ws).graphs,
            ws.unknown_parents == old(ws).unknown_parents,
            cons == (lookups_found(old(g)@) && keys_anchored(old(g)@) && internal_pos_spec(txn.internal@, conflict_start(*e, *inode), change_id) is Ok),
            forall|j: int| len <= j < ws.pseudo@.len() ==> old(g)@.contains(((#[trigger] ws.pseudo@[j]).0, ws.pseudo@[j].1)),
        decreases universe.len() - seen.len(), stack.len(),
    {
        proof { vstd::set_lib::lemma_len_subset(seen, universe); }
        let pos = stack.pop().unwrap();
        let dest = match g.find_block_end(pos) {
            Ok(d) => d,
            Err(_) => continue,
        };
        if !dest.is_empty() {
            continue;
        }
        if vertex_in(&visited, &dest) {
            continue;
        }
        proof {
            lemma_first_block_key(g@, pos, true);
            assert(!seen.contains(dest));
        }
        let ghost old_visited = visited@;
        visited.push(dest);
        proof {
            seen = seen.insert(dest);
            vstd::set_lib::lemma_len_subset(seen, universe);
            assert(visited@.drop_last() == old_visited);
            assert forall|x: Vertex<ChangeId>| seen.contains(x) <==> visited@.contains(x) by {
                if visited@.contains(x) {
                    let k = choose|k: int| 0 <= k < visited@.len() && #[trigger] visited@[k] == x;
                    if k < visited@.len() - 1 {
                        assert(visited@.drop_last()[k] == x);
                    }
                }
                if seen.contains(x) && x != dest {
                    assert(visited@.drop_last().contains(x));
                    let k = choose|k: int| 0 <= k < visited@.drop_last().len() && #[trigger] visited@.drop_last()[k] == x;
                    assert(visited@[k] == x);
                }
                if x == dest {
                    assert(visited@[visited@.len() - 1] == x);
                }
            }
        }
        // Is `dest` alive? If so, stop this path.
        if g.has_adjacent(dest, EdgeFlags::folder().union(EdgeFlags::parent()), alive_max) {
            continue;
        }
        // Does `dest` have alive or zombie descendants? If so, stop this path.
        if g.has_adjacent(dest, EdgeFlags::empty(), child_max) {
            continue;
        }
        // Else, `dest` is dead: its pseudo-parents must go.
        let parents = g.iter_adjacent(dest, f, f);
        let mut i: usize = 0;
        while i < parents.len()
            invariant
                0 <= i <= parents@.len(),
                parents@ == adjacent(g@, dest, f.spec_bits() as int, f.spec_bits() as int),
                g@ == old(g)@,
                cond ==> (ws.pseudo@.len() > len && ws.pseudo@[len as int] == (d, pe0)) || (ws.pseudo@.len() == len && dest == d && i == 0),
                cond ==> dead_folder_with_pseudo_parent(g@, d) && pe0 == adjacent(g@, d, 52, 52)[0],
                f == (EdgeFlags { block: false, pseudo: true, folder: true, parent: true, deleted: false }),
                forall|j: int| len <= j < ws.pseudo@.len() ==> (#[trigger] ws.pseudo@[j]).1.flag == f,
                len == prefix.len(),
                prefix == old(ws).pseudo@,
                ws.pseudo@.len() >= len,
                ws.pseudo@.take(len as int) == prefix,
                ws.files == old(ws).files,
                ws.graphs == old(ws).graphs,
                ws.unknown_parents == old(ws).unknown_parents,
                cons == (lookups_found(old(g)@) && keys_anchored(old(g)@) && internal_pos_spec(txn.internal@, conflict_start(*e, *inode), change_id) is Ok),
                forall|j: int| len <= j < ws.pseudo@.len() ==> old(g)@.contains(((#[trigger] ws.pseudo@[j]).0, ws.pseudo@[j].1)),
            decreases parents.len() - i,
        {
            let pe = parents[i];
            proof {
                lemma_adjacent_bits(g@, dest, f.spec_bits() as int, f.spec_bits() as int, i as int);
                lemma_bits_injective(pe.flag, f);
            }
            let ghost before = ws.pseudo@;
            ws.pseudo.push((dest, pe));
            assert(ws.pseudo@.take(len as int) == before.take(len as int));
            assert(before.len() > len ==> ws.pseudo@[len as int] == before[len as int]);
            let gr = match g.find_block_end(pe.dest) {
                Ok(v) => v,
                Err(b) => {
                    proof {
                        assert(g@.contains((dest, pe)));
                    }
                    ws.pseudo.truncate(len);
                    assert(ws.pseudo@ =~= prefix);
                    return Err(MissingError::Block(b));
                },
            };
            let grand = g.iter_adjacent(gr, f, f);
            let mut j: usize = 0;
            while j < grand.len()
                invariant
                    0 <= j <= grand@.len(),
                    grand@ == adjacent(g@, gr, f.spec_bits() as int, f.spec_bits() as int),
                    g@ == old(g)@,
                    cond ==> ws.pseudo@.len() > len && ws.pseudo@[len as int] == (d, pe0),
                    f == (EdgeFlags { block: false, pseudo: true, folder: true, parent: true, deleted: false }),
                    forall|j: int| len <= j < ws.pseudo@.len() ==> (#[trigger] ws.pseudo@[j]).1.flag == f,
                    len == prefix.len(),
                    ws.pseudo@.len() >= len,
                    ws.pseudo@.take(len as int) == prefix,
                    ws.files == old(ws).files,
                    ws.graphs == old(ws).graphs,
                    ws.unknown_parents == old(ws).unknown_parents,
                    cons == (lookups_found(old(g)@) && keys_anchored(old(g)@) && internal_pos_spec(txn.internal@, conflict_start(*e, *inode), change_id) is Ok),
                    forall|j: int| len <= j < ws.pseudo@.len() ==> old(g)@.contains(((#[trigger] ws.pseudo@[j]).0, ws.pseudo@[j].1)),
                decreases grand.len() - j,
            {
                let ge = grand[j];
                proof {
                    lemma_adjacent_bits(g@, gr, f.spec_bits() as int, f.spec_bits() as int, j as int);
                    lemma_bits_injective(ge.flag, f);
                }
                let ghost before = ws.pseudo@;
                ws.pseudo.push((gr, ge));
                assert(ws.pseudo@.take(len as int) == before.take(len as int));
                assert(before.len() > len ==> ws.pseudo@[len as int] == before[len as int]);
                stack.push(ge.dest);
                j = j + 1;
            }
            i = i + 1;
        }
    }
    // The folder pseudo-edges collected in `ws.pseudo` are deleted now.
    let mut k: usize = len;
    let n = ws.pseudo.len();
    while k < n
        invariant
            len <= k <= n,
            n == ws.pseudo@.len(),
            prefix == old(ws).pseudo@,
            len == prefix.len(),
            ws.pseudo@.take(len as int) == prefix,
            sub_graph(g@, old(g)@),
            f == (EdgeFlags { block: false, pseudo: true, folder: true, parent: true, deleted: false }),
            forall|j: int| len <= j < ws.pseudo@.len() ==> (#[trigger] ws.pseudo@[j]).1.flag == f,
            removed_carry(old(g)@, g@, EdgeFlags { block: false, pseudo: true, folder: true, parent: false, deleted: false }),
            removed_with_flags(old(g)@, g@, EdgeFlags { block: false, pseudo: true, folder: true, parent: false, deleted: false }),
            cond ==> ws.pseudo@.len() > len && ws.pseudo@[len as int] == (d, pe0),
            cond ==> dead_folder_with_pseudo_parent(old(g)@, d) && pe0 == adjacent(old(g)@, d, 52, 52)[0],
            k == len ==> g@ == old(g)@,
            cond && k > len ==> first_pseudo_parent_gone(old(g)@, g@, d),
            ws.files == old(ws).files,
            ws.graphs == old(ws).graphs,
            ws.unknown_parents == old(ws).unknown_parents,
            cons == (lookups_found(old(g)@) && keys_anchored(old(g)@) && internal_pos_spec(txn.internal@, conflict_start(*e, *inode), change_id) is Ok),
            forall|j: int| len <= j < ws.pseudo@.len() ==> old(g)@.contains(((#[trigger] ws.pseudo@[j]).0, ws.pseudo@[j].1)),
        decreases n - k,
    {
        let (v, pe) = ws.pseudo[k];
        let p = match g.find_block_end(pe.dest) {
            Ok(p) => p,
            Err(b) => {
                proof {
                    if cons {
                        assert(old(g)@.contains((v, pe)));
                        assert(pe.flag == f);
                        assert forall|x: (Vertex<ChangeId>, Edge)| #[trigger] old(g)@.contains(x) && !x.1.flag.pseudo implies g@.contains(x) by {
                            if !g@.contains(x) {
                                assert(x.1.flag.spec_contains(EdgeFlags { block: false, pseudo: true, folder: true, parent: false, deleted: false }));
                            }
                        }
                        lemma_anchored_lookup(old(g)@, g@, pe.dest, true);
                    }
                }
                ws.pseudo.truncate(len);
                assert(ws.pseudo@ =~= prefix);
                return Err(MissingError::Block(b));
            },
        };
        let ghost g0 = g@;
        del_graph_with_rev(g, pe.flag.minus(EdgeFlags::parent()), p, v, pe.introduced_by);
        proof {
            let x1 = (p, forward_edge(pe.flag.spec_minus(EdgeFlags { block: false, pseudo: false, folder: false, parent: true, deleted: false }), v, pe.introduced_by));
            lemma_remove_all_sub(g0, x1);
            let x2 = (v, reverse_edge(pe.flag.spec_minus(EdgeFlags { block: false, pseudo: false, folder: false, parent: true, deleted: false }), p, pe.introduced_by));
            lemma_remove_all_sub(remove_all(g0, x1), x2);
            assert(ws.pseudo@[k as int].1.flag == f);
            assert(!g@.contains(x1));
            if cond && k > len {
                assert(first_pseudo_parent_gone(old(g)@, g0, d));
                assert(adjacent(old(g)@, d, 52, 52)[0] == pe0);
                assert(first_block(old(g)@, pe0.dest, true) is Some);
                let y = (first_block(old(g)@, pe0.dest, true).unwrap(), forward_edge(EdgeFlags { block: false, pseudo: true, folder: true, parent: false, deleted: false }, d, pe0.introduced_by));
                assert(!g0.contains(y));
                lemma_remove_all_contains(g0, x1, y);
                lemma_remove_all_contains(remove_all(g0, x1), x2, y);
                assert(!g@.contains(y));
            }
            if cond && k == len {
                assert(ws.pseudo@[len as int] == (d, pe0));
                assert(v == d && pe == pe0);
                assert(pe.flag.spec_minus(EdgeFlags { block: false, pseudo: false, folder: false, parent: true, deleted: false }) == EdgeFlags { block: false, pseudo: true, folder: true, parent: false, deleted: false });
                assert(first_block(old(g)@, pe0.dest, true) == Some(p));
                assert(x1 == (p, forward_edge(EdgeFlags { block: false, pseudo: true, folder: true, parent: false, deleted: false }, d, pe0.introduced_by)));
            }
            assert forall|z: (Vertex<ChangeId>, Edge)| #[trigger] old(g)@.contains(z) && !g@.contains(z) implies z.1.flag.spec_contains(EdgeFlags { block: false, pseudo: true, folder: true, parent: false, deleted: false }) by {
                if g0.contains(z) {
                    lemma_remove_all_contains(g0, x1, z);
                    lemma_remove_all_contains(remove_all(g0, x1), x2, z);
                }
            }
            assert forall|z: (Vertex<ChangeId>, Edge)| #[trigger] old(g)@.contains(z) && !g@.contains(z) implies z.1.flag == EdgeFlags { block: false, pseudo: true, folder: true, parent: false, deleted: false } || z.1.flag == (EdgeFlags { block: false, pseudo: true, folder: true, parent: false, deleted: false }).spec_union(EdgeFlags { block: false, pseudo: false, folder: false, parent: true, deleted: false }) by {
                if g0.contains(z) {
                    lemma_remove_all_contains(g0, x1, z);
                    lemma_remove_all_contains(remove_all(g0, x1), x2, z);
                }
            }
        }
        k = k + 1;
    }
    ws.pseudo.truncate(len);
    assert(ws.pseudo@ =~= prefix);
    proof {
        if cons {
            assert forall|x: (Vertex<ChangeId>, Edge)| #[trigger] old(g)@.contains(x) && !x.1.flag.pseudo implies g@.contains(x) by {
                if !g@.contains(x) {
                    assert(x.1.flag.spec_contains(EdgeFlags { block: false, pseudo: true, folder: true, parent: false, deleted: false }));
                }
            }
            lemma_remove_pseudo_consistent(old(g)@, g@);
        }
    }
    Ok(())
}

/// If the search for the deleted edge `e` of the file `inode` starts, in
/// `g0`, at a dead empty folder vertex with a folder pseudo-parent edge, the
/// pseudo-edge that doubles that parent edge is not in `g1`.
pub open spec fn dead_start_cleared(
    internal: Seq<(ChangeHash, ChangeId)>,
    g0: Seq<(Vertex<ChangeId>, Edge)>,
    g1: Seq<(Vertex<ChangeId>, Edge)>,
    change_id: ChangeId,
    inode: Position<Option<ChangeHash>>,
    e: NewEdge,
) -> bool {
    starts_at_dead_folder(internal, g0, change_id, inode, e) ==> first_pseudo_parent_gone(
        g0,
        g1,
        first_block(g0, internal_pos_spec(internal, conflict_start(e, inode), change_id).unwrap(), true).unwrap(),
    )
}

/// What is gone from a graph stays gone from a part of it.
pub proof fn lemma_dead_start_cleared_sub(
    internal: Seq<(ChangeHash, ChangeId)>,
    g0: Seq<(Vertex<ChangeId>, Edge)>,
    g1: Seq<(Vertex<ChangeId>, Edge)>,
    g2: Seq<(Vertex<ChangeId>, Edge)>,
    change_id: ChangeId,
    inode: Position<Option<ChangeHash>>,
    e: NewEdge,
)
    requires
        dead_start_cleared(internal, g0, g1, change_id, inode, e),
        sub_graph(g2, g1),
    ensures
        dead_start_cleared(internal, g0, g2, change_id, inode, e),
{
}

/// The `k`-th edge of the `a`-th atom of the `h`-th hunk of `c` is a deletion.
pub open spec fn deleted_at(c: Change, h: int, a: int, k: int) -> bool {
    &&& 0 <= h < c.changes@.len()
    &&& 0 <= a < c.changes@[h]@.len()
    &&& 0 <= k < edge_map_edges(c.changes@[h]@[a]).len()
    &&& edge_map_edges(c.changes@[h]@[a])[k].flag.deleted
}

/// The position `(h1, a1, k1)` comes before `(h, a, k)`.
pub open spec fn lex_before(h1: int, a1: int, k1: int, h: int, a: int, k: int) -> bool {
    h1 < h || (h1 == h && (a1 < a || (a1 == a && k1 < k)))
}

/// No deletion of `c` comes before the position `(h, a, k)`.
pub open spec fn no_deletion_before(c: Change, h: int, a: int, k: int) -> bool {
    forall|h1: int, a1: int, k1: int| lex_before(h1, a1, k1, h, a, k) ==> !#[trigger] deleted_at(c, h1, a1, k1)
}

/// The deletion at `(h, a, k)` is the first deletion of `c`.
pub open spec fn first_deletion(c: Change, h: int, a: int, k: int) -> bool {
    deleted_at(c, h, a, k) && no_deletion_before(c, h, a, k)
}

/// The first deletion of `c`, if it comes before `(h, a, k)`, has had its
/// dead starting folder cleared, in `g1`, from `g0`.
pub open spec fn first_deletion_cleared(
    internal: Seq<(ChangeHash, ChangeId)>,
    g0: Seq<(Vertex<ChangeId>, Edge)>,
    g1: Seq<(Vertex<ChangeId>, Edge)>,
    change_id: ChangeId,
    c: Change,
    h: int,
    a: int,
    k: int,
) -> bool {
    forall|h1: int, a1: int, k1: int|
        #[trigger] first_deletion(c, h1, a1, k1) && lex_before(h1, a1, k1, h, a, k) ==> dead_start_cleared(
            internal,
            g0,
            g1,
            change_id,
            atom_inode(c.changes@[h1]@[a1]),
            edge_map_edges(c.changes@[h1]@[a1])[k1],
        )
}

/// Past the last edge of an atom, the next atom starts.
proof fn lemma_next_atom(c: Change, h: int, a: int)
    requires
        0 <= h < c.changes@.len(),
        0 <= a < c.changes@[h]@.len(),
    ensures
        forall|h1: int, a1: int, k1: int|
            lex_before(h1, a1, k1, h, a + 1, 0) && #[trigger] deleted_at(c, h1, a1, k1) ==> lex_before(
                h1,
                a1,
                k1,
                h,
                a,
                edge_map_edges(c.changes@[h]@[a]).len() as int,
            ),
        no_deletion_before(c, h, a + 1, 0) ==> no_deletion_before(c, h, a, edge_map_edges(c.changes@[h]@[a]).len() as int),
{
    let n = edge_map_edges(c.changes@[h]@[a]).len() as int;
    assert forall|h1: int, a1: int, k1: int| lex_before(h1, a1, k1, h, a, n) implies lex_before(h1, a1, k1, h, a + 1, 0) by {}
}

/// Past the last atom of a hunk, the next hunk starts.
proof fn lemma_next_hunk(c: Change, h: int)
    requires
        0 <= h < c.changes@.len(),
    ensures
        forall|h1: int, a1: int, k1: int|
            lex_before(h1, a1, k1, h + 1, 0, 0) && #[trigger] deleted_at(c, h1, a1, k1) ==> lex_before(
                h1,
                a1,
                k1,
                h,
                c.changes@[h]@.len() as int,
                0,
            ),
        no_deletion_before(c, h + 1, 0, 0) ==> no_deletion_before(c, h, c.changes@[h]@.len() as int, 0),
{
    let n = c.changes@[h]@.len() as int;
    assert forall|h1: int, a1: int, k1: int| lex_before(h1, a1, k1, h, n, 0) implies lex_before(h1, a1, k1, h + 1, 0, 0) by {}
}

/// Every edge of the edge maps of `change` has a start for the detection of
/// folder conflicts that resolves.
pub open spec fn starts_resolve(internal: Seq<(ChangeHash, ChangeId)>, change: Change, change_id: ChangeId) -> bool {
    forall|h: int, a: int, k: int|
        0 <= h < change.changes@.len() && 0 <= a < change.changes@[h]@.len() && 0 <= k < edge_map_edges(change.changes@[h]@[a]).len()
            ==> internal_pos_spec(
            internal,
            conflict_start(#[trigger] edge_map_edges(change.changes@[h]@[a])[k], atom_inode(change.changes@[h]@[a])),
            change_id,
        ) is Ok
}

/// Runs [`detect_folder_conflict_resolution`] on every deleted edge of `change`.
pub fn detect_folder_conflict_resolutions(
    txn: &Txn,
    g: &mut Graph,
    ws: &mut Workspace,
    change_id: ChangeId,
    change: &Change,
) -> (r: Result<(), MissingError>)
    ensures
        sub_graph(final(g)@, old(g)@),
        removed_carry(old(g)@, final(g)@, EdgeFlags { block: false, pseudo: true, folder: true, parent: false, deleted: false }),
        removed_with_flags(old(g)@, final(g)@, EdgeFlags { block: false, pseudo: true, folder: true, parent: false, deleted: false }),
        final(ws).pseudo@ == old(ws).pseudo@,
        final(ws).files == old(ws).files,
        final(ws).graphs == old(ws).graphs,
        final(ws).unknown_parents == old(ws).unknown_parents,
        r matches Err(x) ==> x is Inconsistent || x is Block,
        change.changes@.len() == 0 ==> r is Ok,
        (lookups_found(old(g)@) && keys_anchored(old(g)@) && starts_resolve(txn.internal@, *change, change_id)) ==> r is Ok && lookups_found(final(g)@) && keys_anchored(final(g)@),
        r is Ok ==> first_deletion_cleared(
            txn.internal@,
            old(g)@,
            final(g)@,
            change_id,
            *change,
            change.changes@.len() as int,
            0,
            0,
        ),
{
    let ghost cons = (lookups_found(old(g)@) && keys_anchored(old(g)@) && starts_resolve(txn.internal@, *change, change_id));
    let mut h: usize = 0;
    while h < change.changes.len()
        invariant
            0 <= h <= change.changes@.len(),
            no_deletion_before(*change, h as int, 0, 0) ==> g@ == old(g)@,
            first_deletion_cleared(txn.internal@, old(g)@, g@, change_id, *change, h as int, 0, 0),
            sub_graph(g@, old(g)@),
            removed_carry(old(g)@, g@, EdgeFlags { block: false, pseudo: true, folder: true, parent: false, deleted: false }),
            removed_with_flags(old(g)@, g@, EdgeFlags { block: false, pseudo: true, folder: true, parent: false, deleted: false }),
            ws.pseudo@ == old(ws).pseudo@,
            ws.files == old(ws).files,
            ws.graphs == old(ws).graphs,
            ws.unknown_parents == old(ws).unknown_parents,
            cons == (lookups_found(old(g)@) && keys_anchored(old(g)@) && starts_resolve(txn.internal@, *change, change_id)),
            cons ==> lookups_found(g@) && keys_anchored(g@),
        decreases change.changes.len() - h,
    {
        let hunk = &change.changes[h];
        let mut a: usize = 0;
        while a < hunk.len()
            invariant
                0 <= a <= hunk@.len(),
                0 <= h < change.changes@.len(),
                hunk == change.changes@[h as int],
                no_deletion_before(*change, h as int, a as int, 0) ==> g@ == old(g)@,
                first_deletion_cleared(txn.internal@, old(g)@, g@, change_id, *change, h as int, a as int, 0),
                sub_graph(g@, old(g)@),
                removed_carry(old(g)@, g@, EdgeFlags { block: false, pseudo: true, folder: true, parent: false, deleted: false }),
                removed_with_flags(old(g)@, g@, EdgeFlags { block: false, pseudo: true, folder: true, parent: false, deleted: false }),
                ws.pseudo@ == old(ws).pseudo@,
                ws.files == old(ws).files,
                ws.graphs == old(ws).graphs,
                ws.unknown_parents == old(ws).unknown_parents,
                cons == (lookups_found(old(g)@) && keys_anchored(old(g)@) && starts_resolve(txn.internal@, *change, change_id)),
                cons ==> lookups_found(g@) && keys_anchored(g@),
            decreases hunk.len() - a,
        {
            if let Atom::EdgeMap(n) = &hunk[a] {
                let mut k: usize = 0;
                while k < n.edges.len()
                    invariant
                        0 <= k <= n.edges@.len(),
                        0 <= h < change.changes@.len(),
                        0 <= a < hunk@.len(),
                        hunk == change.changes@[h as int],
                        change.changes@[h as int]@[a as int] == Atom::EdgeMap(*n),
                        no_deletion_before(*change, h as int, a as int, k as int) ==> g@ == old(g)@,
                        first_deletion_cleared(txn.internal@, old(g)@, g@, change_id, *change, h as int, a as int, k as int),
                        sub_graph(g@, old(g)@),
                        removed_carry(old(g)@, g@, EdgeFlags { block: false, pseudo: true, folder: true, parent: false, deleted: false }),
                        removed_with_flags(old(g)@, g@, EdgeFlags { block: false, pseudo: true, folder: true, parent: false, deleted: false }),
                        ws.pseudo@ == old(ws).pseudo@,
                        ws.files == old(ws).files,
                        ws.graphs == old(ws).graphs,
                        ws.unknown_parents == old(ws).unknown_parents,
                        cons == (lookups_found(old(g)@) && keys_anchored(old(g)@) && starts_resolve(txn.internal@, *change, change_id)),
                        cons ==> lookups_found(g@) && keys_anchored(g@),
                    decreases n.edges.len() - k,
                {
                    let edge = &n.edges[k];
                    proof {
                        assert(edge_map_edges(change.changes@[h as int]@[a as int]) == n.edges@);
                        assert(atom_inode(change.changes@[h as int]@[a as int]) == n.inode);
                    }
                    if edge.flag.deleted {
                        let ghost g1 = g@;
                        proof {
                            assert(deleted_at(*change, h as int, a as int, k as int));
                        }
                        proof {
                            if cons {
                                assert(edge_map_edges(change.changes@[h as int]@[a as int])[k as int] == *edge);
                                assert(atom_inode(change.changes@[h as int]@[a as int]) == n.inode);
                                assert(internal_pos_spec(txn.internal@, conflict_start(*edge, n.inode), change_id) is Ok);
                            }
                        }
                        detect_folder_conflict_resolution(txn, g, ws, change_id, &n.inode, edge)?;
                        assert(sub_graph(g@, old(g)@)) by {
                            assert forall|x: (Vertex<ChangeId>, Edge)| g@.contains(x) implies old(g)@.contains(x) by {
                                assert(g1.contains(x));
                            }
                        }
                        proof {
                            assert forall|h1: int, a1: int, k1: int|
                                #[trigger] first_deletion(*change, h1, a1, k1) && lex_before(h1, a1, k1, h as int, a as int, k + 1) implies dead_start_cleared(
                                    txn.internal@,
                                    old(g)@,
                                    g@,
                                    change_id,
                                    atom_inode(change.changes@[h1]@[a1]),
                                    edge_map_edges(change.changes@[h1]@[a1])[k1],
                                ) by {
                                if lex_before(h1, a1, k1, h as int, a as int, k as int) {
                                    lemma_dead_start_cleared_sub(txn.internal@, old(g)@, g1, g@, change_id, atom_inode(change.changes@[h1]@[a1]), edge_map_edges(change.changes@[h1]@[a1])[k1]);
                                } else {
                                    assert(h1 == h && a1 == a && k1 == k);
                                    assert(g1 == old(g)@);
                                }
                            }
                            assert(no_deletion_before(*change, h as int, a as int, k + 1) ==> false) by {
                                if no_deletion_before(*change, h as int, a as int, k + 1) {
                                    assert(lex_before(h as int, a as int, k as int, h as int, a as int, k + 1));
                                }
                            }
                        }
                    } else {
                        proof {
                            assert(!deleted_at(*change, h as int, a as int, k as int));
                            assert forall|h1: int, a1: int, k1: int|
                                #[trigger] first_deletion(*change, h1, a1, k1) && lex_before(h1, a1, k1, h as int, a as int, k + 1) implies lex_before(h1, a1, k1, h as int, a as int, k as int) by {
                                if !lex_before(h1, a1, k1, h as int, a as int, k as int) {
                                    assert(h1 == h && a1 == a && k1 == k);
                                }
                            }
                            assert(no_deletion_before(*change, h as int, a as int, k + 1) ==> no_deletion_before(*change, h as int, a as int, k as int));
                        }
                    }
                    k = k + 1;
                }
            }
            proof {
                lemma_next_atom(*change, h as int, a as int);
            }
            a = a + 1;
        }
        proof {
            lemma_next_hunk(*change, h as int);
        }
        h = h + 1;
    }
    Ok(())
}

} // verus!
