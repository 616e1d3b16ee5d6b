//! Applying changes to a channel, and repairing the graph afterwards:
//! zombies, obsolete pseudo-edges, missing contexts and cyclic paths.
use vstd::prelude::*;
use crate::change::{change_wf, edge_map_wf, Atom, Change, EdgeMap, NewEdge};
use crate::graph::{
    del_graph_with_rev, lemma_pairs_finite, pairs, first_block, is_alive_spec, lemma_del_with_rev_sub, grows_by_root, lemma_grows_by_root_refl, lemma_grows_by_root_trans, insert_once, keys, lemma_first_block_key, lemma_keys, lemma_put_with_rev_grows,
    put_graph_with_rev, sub_graph, Graph, removed_carry, lookups_found, lemma_put_with_rev_lookups, covers, lemma_first_block_covered, adjacent, lemma_adjacent_bits, lemma_adjacent_complete, lemma_remove_all_contains, remove_all, forward_edge, reverse_edge,
};
use crate::missing_context::{
    deleted_result, has_missing_context_deleted, has_missing_context_nondeleted, intros_registered, nondeleted_result, vertex_in,
    MissingError,
};
use crate::pristine::{BlockError, ChangeHash, ChangeId, ChangePosition, Edge, EdgeFlags, Position, Vertex};
use crate::txn::{internal_pos, internal_pos_spec, InconsistentChange, Txn, TxnErr};

verus! {

/// Errors while applying a change to a channel.
#[derive(Clone, Copy, Debug, PartialEq, Eq, Structural)]
pub enum LocalApplyError {
    DependencyMissing { hash: ChangeHash },
    ChangeAlreadyOnChannel { hash: ChangeHash },
    Txn(TxnErr),
    Tree(TxnErr),
    Block { block: Position<ChangeId> },
    InvalidChange,
    Corruption,
    MakeChange,
}

/// Errors while applying a change taken from a change store.
#[derive(Clone, Copy, Debug, PartialEq, Eq)]
pub enum ApplyError<C> {
    Changestore(C),
    LocalChange(LocalApplyError),
    MakeChange,
}

impl LocalApplyError {
    pub open spec fn spec_from_missing(err: MissingError) -> LocalApplyError {
        match err {
            MissingError::Txn(e) => LocalApplyError::Txn(e),
            MissingError::Block(e) => LocalApplyError::Block { block: e.block },
            MissingError::Inconsistent(_) => LocalApplyError::InvalidChange,
        }
    }

    /// The error of applying a change, for an error of its context repair.
    pub fn from_missing(err: MissingError) -> (r: LocalApplyError)
        ensures
            r == Self::spec_from_missing(err),
    {
        match err {
            MissingError::Txn(e) => LocalApplyError::Txn(e),
            MissingError::Block(e) => LocalApplyError::Block { block: e.block },
            MissingError::Inconsistent(_) => LocalApplyError::InvalidChange,
        }
    }

    pub open spec fn spec_from_inconsistent(err: InconsistentChange) -> LocalApplyError {
        match err {
            InconsistentChange::Txn(e) => LocalApplyError::Txn(e),
            _ => LocalApplyError::InvalidChange,
        }
    }

    pub fn from_inconsistent(err: InconsistentChange) -> (r: LocalApplyError)
        ensures
            r == Self::spec_from_inconsistent(err),
    {
        match err {
            InconsistentChange::Txn(e) => LocalApplyError::Txn(e),
            _ => LocalApplyError::InvalidChange,
        }
    }

    pub fn from_block(err: BlockError) -> (r: LocalApplyError)
        ensures
            r == (LocalApplyError::Block { block: err.block }),
    {
        LocalApplyError::Block { block: err.block }
    }
}

/// An error that comes from the graph or the tables, not from the
/// channel's log.
pub open spec fn graph_error(e: LocalApplyError) -> bool {
    e is Block || e is InvalidChange || e is Txn
}

/// The map that an association list of flags denotes, the last entry of a key winning.
pub open spec fn flag_map(s: Seq<(Vertex<ChangeId>, bool)>) -> Map<Vertex<ChangeId>, bool>
    decreases s.len(),
{
    if s.len() == 0 {
        Map::empty()
    } else {
        flag_map(s.drop_last()).insert(s.last().0, s.last().1)
    }
}

/// The value of `k` in the map that `s` denotes.
pub fn flag_get(s: &Vec<(Vertex<ChangeId>, bool)>, k: &Vertex<ChangeId>) -> (r: Option<bool>)
    ensures
        r == (if flag_map(s@).contains_key(*k) {
            Some(flag_map(s@)[*k])
        } else {
            None
        }),
{
    let mut r: Option<bool> = None;
    let mut i: usize = 0;
    while i < s.len()
        invariant
            0 <= i <= s@.len(),
            r == (if flag_map(s@.take(i as int)).contains_key(*k) {
                Some(flag_map(s@.take(i as int))[*k])
            } else {
                None
            }),
        decreases s.len() - i,
    {
        assert(s@.take(i + 1).drop_last() == s@.take(i as int));
        if s[i].0 == *k {
            r = Some(s[i].1);
        }
        i = i + 1;
    }
    assert(s@.take(s@.len() as int) == s@);
    r
}

/// Sets the value of `k` to `b` in the map that `s` denotes.
pub fn flag_insert(s: &mut Vec<(Vertex<ChangeId>, bool)>, k: Vertex<ChangeId>, b: bool)
    ensures
        flag_map(final(s)@) == flag_map(old(s)@).insert(k, b),
{
    s.push((k, b));
    assert(s@.drop_last() == old(s)@);
}

/// Marks every vertex of `visited` with `b`, and empties `visited`.
fn mark_all(rooted: &mut Vec<(Vertex<ChangeId>, bool)>, visited: &mut Vec<Vertex<ChangeId>>, b: bool)
    ensures
        final(visited)@.len() == 0,
        forall|x: Vertex<ChangeId>| #[trigger] old(visited)@.contains(x) ==> flag_map(final(rooted)@).contains_key(x) && flag_map(final(rooted)@)[x] == b,
{
    let mut i: usize = 0;
    while i < visited.len()
        invariant
            0 <= i <= visited@.len(),
            visited@ == old(visited)@,
            forall|x: Vertex<ChangeId>| #[trigger] visited@.take(i as int).contains(x) ==> flag_map(rooted@).contains_key(x) && flag_map(rooted@)[x] == b,
        decreases visited.len() - i,
    {
        let v = visited[i];
        let ghost before = flag_map(rooted@);
        flag_insert(rooted, v, b);
        let ghost i0 = i as int;
        i = i + 1;
        assert forall|x: Vertex<ChangeId>| #[trigger] visited@.take(i as int).contains(x) implies flag_map(rooted@).contains_key(x) && flag_map(rooted@)[x] == b by {
            let k = choose|k: int| 0 <= k < i && #[trigger] visited@.take(i as int)[k] == x;
            if x != v {
                assert(visited@.take(i0)[k] == x);
                assert(visited@.take(i0).contains(x));
                assert(before.contains_key(x) && before[x] == b);
            }
        }
    }
    assert(visited@.take(visited@.len() as int) == visited@);
    let ghost m = flag_map(rooted@);
    visited.clear();
    assert forall|x: Vertex<ChangeId>| old(visited)@.contains(x) implies m.contains_key(x) && m[x] == b by {
        assert(old(visited)@.take(old(visited)@.len() as int).contains(x));
    }
}

/// The reusable state of the application of changes.
pub struct Workspace {
    pub parents: Vec<Vertex<ChangeId>>,
    pub children: Vec<Vertex<ChangeId>>,
    pub pseudo: Vec<(Vertex<ChangeId>, Edge, Position<Option<ChangeHash>>)>,
    pub deleted_by: Vec<ChangeId>,
    pub up_context: Vec<Vertex<ChangeId>>,
    pub down_context: Vec<Vertex<ChangeId>>,
    pub missing_context: crate::missing_context::Workspace,
    pub rooted: Vec<(Vertex<ChangeId>, bool)>,
    pub adjbuf: Vec<Edge>,
    pub alive_folder: Vec<(Vertex<ChangeId>, bool)>,
    pub folder_stack: Vec<(Vertex<ChangeId>, bool)>,
}

impl Workspace {
    /// Whether all the caches of this workspace are empty.
    pub open spec fn is_clear(&self) -> bool {
        &&& self.children@.len() == 0
        &&& self.parents@.len() == 0
        &&& self.pseudo@.len() == 0
        &&& self.deleted_by@.len() == 0
        &&& self.up_context@.len() == 0
        &&& self.down_context@.len() == 0
        &&& self.missing_context.is_clear()
        &&& self.rooted@.len() == 0
        &&& self.adjbuf@.len() == 0
        &&& self.alive_folder@.len() == 0
        &&& self.folder_stack@.len() == 0
    }

    pub fn new() -> (r: Workspace)
        ensures
            r.is_clear(),
            r.missing_context.files@.len() == 0,
    {
        Workspace {
            parents: Vec::new(),
            children: Vec::new(),
            pseudo: Vec::new(),
            deleted_by: Vec::new(),
            up_context: Vec::new(),
            down_context: Vec::new(),
            missing_context: crate::missing_context::Workspace::new(),
            rooted: Vec::new(),
            adjbuf: Vec::new(),
            alive_folder: Vec::new(),
            folder_stack: Vec::new(),
        }
    }

    /// Empties the caches of this workspace (but the set of files of its
    /// missing-context workspace).
    pub fn clear(&mut self)
        ensures
            final(self).is_clear(),
            final(self).missing_context.files == old(self).missing_context.files,
    {
        self.children.clear();
        self.parents.clear();
        self.pseudo.clear();
        self.deleted_by.clear();
        self.up_context.clear();
        self.down_context.clear();
        self.missing_context.clear();
        self.rooted.clear();
        self.adjbuf.clear();
        self.alive_folder.clear();
        self.folder_stack.clear();
    }

    /// Checks that the caches of this workspace are empty.
    pub fn assert_empty(&self)
        requires
            self.is_clear(),
    {
        self.missing_context.assert_empty();
    }
}

/// Whether the file or folder vertex `v` is alive: it has a live folder
/// parent edge, or a non-deleted child edge.
pub open spec fn file_alive(g: Seq<(Vertex<ChangeId>, Edge)>, v: Vertex<ChangeId>) -> bool {
    exists|i: int| 0 <= i < g.len() && #[trigger] g[i].0 == v && (if g[i].1.flag.parent {
        g[i].1.flag.folder && !g[i].1.flag.deleted
    } else {
        !g[i].1.flag.deleted
    })
}

fn has_live_folder_edge(g: &Graph, v: Vertex<ChangeId>) -> (r: bool)
    ensures
        r == file_alive(g@, v),
{
    let mut i: usize = 0;
    while i < g.edges.len()
        invariant
            0 <= i <= g@.len(),
            forall|j: int| 0 <= j < i ==> !(#[trigger] g@[j].0 == v && (if g@[j].1.flag.parent {
                g@[j].1.flag.folder && !g@[j].1.flag.deleted
            } else {
                !g@[j].1.flag.deleted
            })),
        decreases g.edges.len() - i,
    {
        let (w, e) = g.edges[i];
        if w == v {
            let live = if e.flag.parent {
                e.flag.folder && !e.flag.deleted
            } else {
                !e.flag.deleted
            };
            if live {
                assert(g@[i as int].0 == v);
                return true;
            }
        }
        i = i + 1;
    }
    false
}

/// The flags `PARENT | FOLDER`.
pub fn parent_folder() -> (r: EdgeFlags)
    ensures
        r == (EdgeFlags { block: false, pseudo: false, folder: true, parent: true, deleted: false }),
{
    EdgeFlags { block: false, pseudo: false, folder: true, parent: true, deleted: false }
}

/// The flags `PARENT | FOLDER | PSEUDO | BLOCK`.
pub fn parent_folder_any() -> (r: EdgeFlags)
    ensures
        r == (EdgeFlags { block: true, pseudo: true, folder: true, parent: true, deleted: false }),
{
    EdgeFlags { block: true, pseudo: true, folder: true, parent: true, deleted: false }
}

/// `y` is the block that ends where a live folder parent edge of `x`
/// (possibly a pseudo-edge) points.
pub open spec fn folder_parent(g: Seq<(Vertex<ChangeId>, Edge)>, x: Vertex<ChangeId>, y: Vertex<ChangeId>) -> bool {
    exists|e: Edge| #[trigger] g.contains((x, e)) && 48 <= e.flag.spec_bits() <= 53 && first_block(g, e.dest, true) == Some(y)
}

/// The `i`-th step of the path `p` follows a live folder parent edge.
pub open spec fn parent_step(g: Seq<(Vertex<ChangeId>, Edge)>, p: Seq<Vertex<ChangeId>>, i: int) -> bool {
    folder_parent(g, p[i], p[i + 1])
}

/// `p` is a non-empty path up live folder parent edges.
pub open spec fn parent_path(g: Seq<(Vertex<ChangeId>, Edge)>, p: Seq<Vertex<ChangeId>>) -> bool {
    &&& p.len() >= 1
    &&& forall|i: int| 0 <= i < p.len() - 1 ==> #[trigger] parent_step(g, p, i)
}

/// `y` is reached from `x` up live folder parent edges.
pub open spec fn parent_reach(g: Seq<(Vertex<ChangeId>, Edge)>, x: Vertex<ChangeId>, y: Vertex<ChangeId>) -> bool {
    exists|p: Seq<Vertex<ChangeId>>| #[trigger] parent_path(g, p) && p[0] == x && p.last() == y
}

/// The root is reached from `x` up live folder parent edges.
pub open spec fn rooted(g: Seq<(Vertex<ChangeId>, Edge)>, x: Vertex<ChangeId>) -> bool {
    exists|y: Vertex<ChangeId>| #[trigger] parent_reach(g, x, y) && y.spec_is_root()
}

/// Every vertex that `cache` marks as rooted is.
pub open spec fn rooted_cache_sound(g: Seq<(Vertex<ChangeId>, Edge)>, cache: Seq<(Vertex<ChangeId>, bool)>) -> bool {
    forall|x: Vertex<ChangeId>| #[trigger] flag_map(cache).contains_key(x) && flag_map(cache)[x] ==> rooted(g, x)
}

/// Every vertex reaches itself.
pub proof fn lemma_parent_reach_refl(g: Seq<(Vertex<ChangeId>, Edge)>, x: Vertex<ChangeId>)
    ensures
        parent_reach(g, x, x),
{
    let p = seq![x];
    assert(parent_path(g, p));
}

/// A path up can be extended by one parent edge.
pub proof fn lemma_parent_reach_step(g: Seq<(Vertex<ChangeId>, Edge)>, x: Vertex<ChangeId>, y: Vertex<ChangeId>, z: Vertex<ChangeId>)
    requires
        parent_reach(g, x, y),
        folder_parent(g, y, z),
    ensures
        parent_reach(g, x, z),
{
    let p = choose|p: Seq<Vertex<ChangeId>>| #[trigger] parent_path(g, p) && p[0] == x && p.last() == y;
    let q = p.push(z);
    assert forall|i: int| 0 <= i < q.len() - 1 implies #[trigger] parent_step(g, q, i) by {
        if i < p.len() - 1 {
            assert(parent_step(g, p, i));
        }
    }
    assert(parent_path(g, q));
}

/// A vertex below a rooted vertex is rooted.
pub proof fn lemma_rooted_down(g: Seq<(Vertex<ChangeId>, Edge)>, x: Vertex<ChangeId>, y: Vertex<ChangeId>)
    requires
        parent_reach(g, x, y),
        rooted(g, y),
    ensures
        rooted(g, x),
{
    let z = choose|z: Vertex<ChangeId>| #[trigger] parent_reach(g, y, z) && z.spec_is_root();
    let p = choose|p: Seq<Vertex<ChangeId>>| #[trigger] parent_path(g, p) && p[0] == x && p.last() == y;
    let q = choose|q: Seq<Vertex<ChangeId>>| #[trigger] parent_path(g, q) && q[0] == y && q.last() == z;
    let r = p + q.drop_first();
    assert forall|i: int| 0 <= i < r.len() - 1 implies #[trigger] parent_step(g, r, i) by {
        if i < p.len() - 1 {
            assert(parent_step(g, p, i));
        } else {
            assert(parent_step(g, q, i - (p.len() - 1)));
        }
    }
    assert(parent_path(g, r));
    assert(parent_reach(g, x, z));
}

/// Every vertex that `cache` holds, it marks rooted exactly when it is.
pub open spec fn rooted_cache_exact(g: Seq<(Vertex<ChangeId>, Edge)>, cache: Seq<(Vertex<ChangeId>, bool)>) -> bool {
    forall|x: Vertex<ChangeId>| #[trigger] flag_map(cache).contains_key(x) ==> flag_map(cache)[x] == rooted(g, x)
}

/// `cache` marks `x` as not rooted.
pub open spec fn known_unrooted(cache: Seq<(Vertex<ChangeId>, bool)>, x: Vertex<ChangeId>) -> bool {
    flag_map(cache).contains_key(x) && !flag_map(cache)[x]
}

/// The end of a path up from one of its vertices is a path up too.
proof fn lemma_parent_path_suffix(g: Seq<(Vertex<ChangeId>, Edge)>, p: Seq<Vertex<ChangeId>>, i: int)
    requires
        parent_path(g, p),
        0 <= i < p.len(),
    ensures
        parent_path(g, p.subrange(i, p.len() as int)),
{
    let q = p.subrange(i, p.len() as int);
    assert forall|k: int| 0 <= k < q.len() - 1 implies #[trigger] parent_step(g, q, k) by {
        assert(parent_step(g, p, i + k));
        assert(q[k] == p[i + k] && q[k + 1] == p[i + k + 1]);
    }
}

/// A path up to the root from a vertex of a set closed under the steps up
/// (but at vertices known not to be rooted) stays in the set, and meets no
/// vertex known not to be rooted.
proof fn lemma_path_stays_in_known(
    g: Seq<(Vertex<ChangeId>, Edge)>,
    vs: Seq<Vertex<ChangeId>>,
    cache: Seq<(Vertex<ChangeId>, bool)>,
    p: Seq<Vertex<ChangeId>>,
    i: int,
)
    requires
        parent_path(g, p),
        p.last().spec_is_root(),
        vs.contains(p[0]),
        forall|x: Vertex<ChangeId>, y: Vertex<ChangeId>|
            #[trigger] vs.contains(x) && #[trigger] folder_parent(g, x, y) && !known_unrooted(cache, x) ==> vs.contains(y),
        forall|x: Vertex<ChangeId>| vs.contains(x) && known_unrooted(cache, x) ==> !rooted(g, x),
        0 <= i < p.len(),
    ensures
        vs.contains(p[i]),
        !known_unrooted(cache, p[i]),
    decreases i,
{
    if i > 0 {
        lemma_path_stays_in_known(g, vs, cache, p, i - 1);
        assert(parent_step(g, p, i - 1));
    }
    if known_unrooted(cache, p[i]) {
        lemma_parent_path_suffix(g, p, i);
        let q = p.subrange(i, p.len() as int);
        assert(q[0] == p[i] && q.last() == p.last());
        assert(parent_reach(g, p[i], p.last()));
        assert(rooted(g, p[i]));
    }
}

/// A vertex in a set closed under the steps up, but at vertices known not to
/// be rooted, with no root in it, is not rooted.
proof fn lemma_closed_not_rooted_known(
    g: Seq<(Vertex<ChangeId>, Edge)>,
    vs: Seq<Vertex<ChangeId>>,
    cache: Seq<(Vertex<ChangeId>, bool)>,
    v: Vertex<ChangeId>,
)
    requires
        vs.contains(v),
        forall|x: Vertex<ChangeId>, y: Vertex<ChangeId>|
            #[trigger] vs.contains(x) && #[trigger] folder_parent(g, x, y) && !known_unrooted(cache, x) ==> vs.contains(y),
        forall|x: Vertex<ChangeId>| vs.contains(x) ==> !x.spec_is_root(),
        forall|x: Vertex<ChangeId>| vs.contains(x) && known_unrooted(cache, x) ==> !rooted(g, x),
    ensures
        !rooted(g, v),
{
    if rooted(g, v) {
        let z = choose|z: Vertex<ChangeId>| #[trigger] parent_reach(g, v, z) && z.spec_is_root();
        let p = choose|p: Seq<Vertex<ChangeId>>| #[trigger] parent_path(g, p) && p[0] == v && p.last() == z;
        lemma_path_stays_in_known(g, vs, cache, p, p.len() - 1);
    }
}

/// Whether the file vertex `v` is connected to the root by live folder
/// edges (or is dead, in which case nothing needs to be repaired).
/// The vertices met on the way are recorded in `ws.rooted`.
#[verifier::spinoff_prover]
pub fn is_rooted(g: &Graph, v: Vertex<ChangeId>, ws: &mut Workspace) -> (r: Result<bool, LocalApplyError>)
    requires
        v.spec_is_empty(),
    ensures
        !file_alive(g@, v) ==> r == Ok::<bool, LocalApplyError>(true),
        rooted_cache_sound(g@, old(ws).rooted@) && file_alive(g@, v) && r == Ok::<bool, LocalApplyError>(true) ==> rooted(g@, v),
        old(ws).rooted@.len() == 0 && file_alive(g@, v) ==> (r matches Ok(b) ==> b == rooted(g@, v)),
        rooted_cache_exact(g@, old(ws).rooted@) && file_alive(g@, v) ==> (r matches Ok(b) ==> b == rooted(g@, v)),
        file_alive(g@, v) && !v.spec_is_root() ==> (r matches Ok(b) ==> flag_map(final(ws).rooted@).contains_key(v) && flag_map(
            final(ws).rooted@,
        )[v] == b),
        r matches Err(e) ==> e is Block,
        lookups_found(g@) ==> r is Ok,
        final(ws).missing_context == old(ws).missing_context,
        final(ws).pseudo == old(ws).pseudo,
        final(ws).alive_folder == old(ws).alive_folder,
        final(ws).folder_stack == old(ws).folder_stack,
        final(ws).children == old(ws).children,
        final(ws).down_context == old(ws).down_context,
        final(ws).deleted_by == old(ws).deleted_by,
        final(ws).adjbuf == old(ws).adjbuf,
{
    if !has_live_folder_edge(g, v) {
        return Ok(true);
    }
    ws.up_context.clear();
    ws.up_context.push(v);
    ws.parents.clear();
    proof {
        lemma_parent_reach_refl(g@, v);
        assert(ws.up_context@[0] == v);
    }
    let ghost universe = keys(g@).insert(v);
    let ghost mut seen: Set<Vertex<ChangeId>> = Set::empty();
    let ghost fresh = old(ws).rooted@.len() == 0;
    let ghost exact = rooted_cache_exact(g@, old(ws).rooted@);
    proof {
        if fresh {
            assert(flag_map(old(ws).rooted@) == Map::<Vertex<ChangeId>, bool>::empty());
        }
    }
    proof {
        lemma_keys(g@, v);
        assert(ws.up_context@ =~= seq![v]);
    }
    let f = parent_folder();
    let fmax = parent_folder_any();
    while ws.up_context.len() > 0
        invariant
            universe == keys(g@).insert(v),
            file_alive(g@, v),
            universe.finite(),
            seen.subset_of(universe),
            seen.finite(),
            forall|x: Vertex<ChangeId>| seen.contains(x) <==> ws.parents@.contains(x),
            forall|k: int| 0 <= k < ws.up_context@.len() ==> universe.contains(#[trigger] ws.up_context@[k]),
            forall|k: int| 0 <= k < ws.up_context@.len() ==> parent_reach(g@, v, #[trigger] ws.up_context@[k]),
            ws.rooted == old(ws).rooted,
            fresh == (old(ws).rooted@.len() == 0),
            exact == rooted_cache_exact(g@, old(ws).rooted@),
            fresh ==> exact,
            exact ==> forall|x: Vertex<ChangeId>, y: Vertex<ChangeId>|
                #[trigger] ws.parents@.contains(x) && #[trigger] folder_parent(g@, x, y) && !known_unrooted(old(ws).rooted@, x)
                    ==> ws.parents@.contains(y) || ws.up_context@.contains(y),
            forall|x: Vertex<ChangeId>| ws.parents@.contains(x) ==> !x.spec_is_root(),
            ws.parents@.contains(v) || ws.up_context@ == seq![v],
            f == (EdgeFlags { block: false, pseudo: false, folder: true, parent: true, deleted: false }),
            fmax == (EdgeFlags { block: true, pseudo: true, folder: true, parent: true, deleted: false }),
            ws.missing_context == old(ws).missing_context,
            ws.pseudo == old(ws).pseudo,
            ws.alive_folder == old(ws).alive_folder,
            ws.folder_stack == old(ws).folder_stack,
            ws.children == old(ws).children,
            ws.down_context == old(ws).down_context,
            ws.deleted_by == old(ws).deleted_by,
            ws.adjbuf == old(ws).adjbuf,
        decreases universe.len() - seen.len(), ws.up_context@.len(),
    {
        proof { vstd::set_lib::lemma_len_subset(seen, universe); }
        let ghost up0 = ws.up_context@;
        let to = ws.up_context.pop().unwrap();
        proof {
            assert(up0[up0.len() - 1] == to);
            assert(parent_reach(g@, v, to));
            assert forall|k: int| 0 <= k < ws.up_context@.len() implies parent_reach(g@, v, #[trigger] ws.up_context@[k]) by {
                assert(up0[k] == ws.up_context@[k]);
            }
            assert forall|y: Vertex<ChangeId>| up0.contains(y) && y != to implies ws.up_context@.contains(y) by {
                let k = choose|k: int| 0 <= k < up0.len() && up0[k] == y;
                assert(k < up0.len() - 1);
                assert(ws.up_context@[k] == y);
            }
            assert(up0 == seq![v] ==> to == v);
        }
        if to.is_root() {
            proof {
                assert(rooted(g@, v));
            }
            ws.up_context.clear();
            mark_all(&mut ws.rooted, &mut ws.parents, true);
            return Ok(true);
        }
        if vertex_in(&ws.parents, &to) {
            proof {
                if ws.parents@.contains(v) {
                } else {
                    assert(to == v);
                }
            }
            continue;
        }
        let ghost old_parents = ws.parents@;
        ws.parents.push(to);
        proof {
            assert(ws.parents@ == old_parents.push(to));
            assert forall|x: Vertex<ChangeId>| #[trigger] ws.parents@.contains(x) <==> (old_parents.contains(x) || x == to) by {
                vstd::seq_lib::lemma_seq_contains_after_push(old_parents, to, x);
            }
            seen = seen.insert(to);
            vstd::set_lib::lemma_len_subset(seen, universe);
            assert(ws.parents@.contains(to));
            assert(ws.parents@.contains(v));
            assert forall|x: Vertex<ChangeId>| ws.parents@.contains(x) implies !x.spec_is_root() by {
                if x != to {
                    assert(old_parents.contains(x));
                }
            }
        }
        match flag_get(&ws.rooted, &to) {
            Some(true) => {
                proof {
                    if rooted_cache_sound(g@, old(ws).rooted@) || exact {
                        assert(flag_map(old(ws).rooted@).contains_key(to));
                        assert(rooted(g@, to));
                        lemma_rooted_down(g@, v, to);
                    }
                }
                mark_all(&mut ws.rooted, &mut ws.parents, true);
                return Ok(true);
            },
            Some(false) => {
                proof {
                    if exact {
                        assert(known_unrooted(old(ws).rooted@, to));
                        assert forall|x: Vertex<ChangeId>, y: Vertex<ChangeId>|
                            #[trigger] ws.parents@.contains(x) && #[trigger] folder_parent(g@, x, y) && !known_unrooted(old(ws).rooted@, x)
                                implies ws.parents@.contains(y) || ws.up_context@.contains(y) by {
                            assert(x != to);
                            assert(old_parents.contains(x));
                            if old_parents.contains(y) {
                                let k = choose|k: int| 0 <= k < old_parents.len() && old_parents[k] == y;
                                assert(ws.parents@[k] == y);
                            }
                        }
                    }
                }
                continue;
            },
            None => {},
        }
        let ps = g.iter_adjacent(to, f, fmax);
        let mut i: usize = 0;
        let ghost parents_now = ws.parents@;
        proof {
            if exact {
                assert forall|x: Vertex<ChangeId>, y: Vertex<ChangeId>|
                    #[trigger] ws.parents@.contains(x) && #[trigger] folder_parent(g@, x, y) && x != to && !known_unrooted(old(ws).rooted@, x)
                        implies ws.parents@.contains(y) || ws.up_context@.contains(y) by {
                    assert(old_parents.contains(x));
                    assert(old_parents.contains(y) ==> ws.parents@.contains(y)) by {
                        if old_parents.contains(y) {
                            let k = choose|k: int| 0 <= k < old_parents.len() && old_parents[k] == y;
                            assert(ws.parents@[k] == y);
                        }
                    }
                }
            }
        }
        while i < ps.len()
            invariant
                0 <= i <= ps@.len(),
                ps@ == adjacent(g@, to, 48, 53),
                parent_reach(g@, v, to),
                forall|k: int| 0 <= k < ws.up_context@.len() ==> parent_reach(g@, v, #[trigger] ws.up_context@[k]),
                ws.rooted == old(ws).rooted,
                ws.parents@ == parents_now,
                exact ==> forall|x: Vertex<ChangeId>, y: Vertex<ChangeId>|
                    #[trigger] ws.parents@.contains(x) && #[trigger] folder_parent(g@, x, y) && x != to && !known_unrooted(old(ws).rooted@, x)
                        ==> ws.parents@.contains(y) || ws.up_context@.contains(y),
                exact == rooted_cache_exact(g@, old(ws).rooted@),
                fresh ==> exact,
                forall|k: int| 0 <= k < i ==> ws.up_context@.contains(#[trigger] first_block(g@, ps@[k].dest, true).unwrap()),
                fresh == (old(ws).rooted@.len() == 0),
                forall|x: Vertex<ChangeId>| ws.parents@.contains(x) ==> !x.spec_is_root(),
                ws.parents@.contains(v),
                ws.parents@.contains(to),
                file_alive(g@, v),
                universe == keys(g@).insert(v),
                forall|k: int| 0 <= k < ws.up_context@.len() ==> universe.contains(#[trigger] ws.up_context@[k]),
                ws.missing_context == old(ws).missing_context,
                ws.pseudo == old(ws).pseudo,
                ws.alive_folder == old(ws).alive_folder,
                ws.folder_stack == old(ws).folder_stack,
                ws.children == old(ws).children,
                ws.down_context == old(ws).down_context,
                ws.deleted_by == old(ws).deleted_by,
                ws.adjbuf == old(ws).adjbuf,
            decreases ps.len() - i,
        {
            let anc = match g.find_block_end(ps[i].dest) {
                Ok(a) => a,
                Err(b) => {
                    proof {
                        lemma_adjacent_bits(g@, to, 48, 53, i as int);
                        assert(g@.contains((to, ps@[i as int])));
                        assert(ps@[i as int].flag.parent);
                    }
                    return Err(LocalApplyError::from_block(b));
                },
            };
            proof {
                lemma_first_block_key(g@, ps@[i as int].dest, true);
                lemma_adjacent_bits(g@, to, 48, 53, i as int);
                assert(folder_parent(g@, to, anc));
                lemma_parent_reach_step(g@, v, to, anc);
            }
            let ghost up1 = ws.up_context@;
            ws.up_context.push(anc);
            proof {
                assert forall|k: int| 0 <= k < ws.up_context@.len() implies parent_reach(g@, v, #[trigger] ws.up_context@[k]) by {
                    if k < up1.len() {
                        assert(up1[k] == ws.up_context@[k]);
                    }
                }
                assert forall|y: Vertex<ChangeId>| up1.contains(y) implies ws.up_context@.contains(y) by {
                    let k = choose|k: int| 0 <= k < up1.len() && up1[k] == y;
                    assert(ws.up_context@[k] == y);
                }
                assert(ws.up_context@[up1.len() as int] == anc);
                assert(first_block(g@, ps@[i as int].dest, true).unwrap() == anc);
            }
            i = i + 1;
        }
        proof {
            if exact {
                assert forall|x: Vertex<ChangeId>, y: Vertex<ChangeId>|
                    #[trigger] ws.parents@.contains(x) && #[trigger] folder_parent(g@, x, y) && !known_unrooted(old(ws).rooted@, x)
                        implies ws.parents@.contains(y) || ws.up_context@.contains(y) by {
                    if x == to {
                        let e = choose|e: Edge| #[trigger] g@.contains((to, e)) && 48 <= e.flag.spec_bits() <= 53 && first_block(g@, e.dest, true) == Some(y);
                        lemma_adjacent_complete(g@, to, 48, 53, e);
                        let k = choose|k: int| 0 <= k < ps@.len() && ps@[k] == e;
                        assert(ws.up_context@.contains(first_block(g@, ps@[k].dest, true).unwrap()));
                    }
                }
            }
        }
    }
    proof {
        if exact {
            assert(ws.parents@.contains(v)) by {
                if !ws.parents@.contains(v) {
                    assert(ws.up_context@.len() == 0);
                }
            }
            assert forall|x: Vertex<ChangeId>, y: Vertex<ChangeId>|
                #[trigger] ws.parents@.contains(x) && #[trigger] folder_parent(g@, x, y) && !known_unrooted(old(ws).rooted@, x)
                    implies ws.parents@.contains(y) by {
                assert(!ws.up_context@.contains(y));
            }
            assert forall|x: Vertex<ChangeId>| ws.parents@.contains(x) && known_unrooted(old(ws).rooted@, x) implies !rooted(g@, x) by {
                assert(flag_map(old(ws).rooted@).contains_key(x));
            }
            lemma_closed_not_rooted_known(g@, ws.parents@, old(ws).rooted@, v);
        }
    }
    mark_all(&mut ws.rooted, &mut ws.parents, false);
    Ok(false)
}

} // verus!

verus! {

/// Every entry of `s` is a pseudo-edge.
pub open spec fn all_pseudo(s: Seq<(Vertex<ChangeId>, Edge, Position<Option<ChangeHash>>)>) -> bool {
    forall|k: int| 0 <= k < s.len() ==> (#[trigger] s[k]).1.flag.pseudo
}

/// The flags `FOLDER | PSEUDO` of the edges that reconnect folders.
pub open spec fn folder_pseudo() -> EdgeFlags {
    EdgeFlags { block: false, pseudo: true, folder: true, parent: false, deleted: false }
}

/// Whether the last component of a search entry is `b`.
pub open spec fn last_flag_is(b: bool) -> spec_fn((Vertex<ChangeId>, bool, bool, bool)) -> bool {
    |x: (Vertex<ChangeId>, bool, bool, bool)| x.3 == b
}

/// `s` with its entries from `len` on reordered: those whose last component
/// is `false` first, then the others, each in their order in `s`.
pub open spec fn sorted_tail(s: Seq<(Vertex<ChangeId>, bool, bool, bool)>, len: int) -> Seq<(Vertex<ChangeId>, bool, bool, bool)> {
    s.take(len) + s.skip(len).filter(last_flag_is(false)) + s.skip(len).filter(last_flag_is(true))
}

/// Puts the entries of `stack` from `len` on in the order: those whose last
/// component is `false` first, then the others.
fn sort_tail(stack: &mut Vec<(Vertex<ChangeId>, bool, bool, bool)>, len: usize, universe: Ghost<Set<Vertex<ChangeId>>>)
    requires
        len <= old(stack)@.len(),
        forall|k: int| 0 <= k < old(stack)@.len() ==> universe@.contains(#[trigger] old(stack)@[k].0),
    ensures
        final(stack)@ == sorted_tail(old(stack)@, len as int),
        final(stack)@.len() >= len,
        final(stack)@.take(len as int) == old(stack)@.take(len as int),
        forall|k: int| 0 <= k < final(stack)@.len() ==> universe@.contains(#[trigger] final(stack)@[k].0),
{
    let tail = stack.split_off(len);
    let ghost head = stack@;
    assert(forall|k: int| 0 <= k < tail@.len() ==> tail@[k] == old(stack)@[k + len]);
    assert(tail@ =~= old(stack)@.skip(len as int));
    assert(head =~= old(stack)@.take(len as int));
    let mut pass: usize = 0;
    while pass < 2
        invariant
            0 <= pass <= 2,
            tail@ == old(stack)@.skip(len as int),
            stack@.len() >= len,
            stack@.take(len as int) == head,
            head == old(stack)@.take(len as int),
            pass == 0 ==> stack@ == head,
            pass == 1 ==> stack@ == head + tail@.filter(last_flag_is(false)),
            pass == 2 ==> stack@ == head + tail@.filter(last_flag_is(false)) + tail@.filter(last_flag_is(true)),
            forall|k: int| 0 <= k < stack@.len() ==> universe@.contains(#[trigger] stack@[k].0),
            forall|k: int| 0 <= k < tail@.len() ==> universe@.contains(#[trigger] tail@[k].0),
        decreases 2 - pass,
    {
        let want = pass == 1;
        let ghost base = stack@;
        let mut i: usize = 0;
        assert(tail@.take(0).filter(last_flag_is(want)) =~= Seq::<(Vertex<ChangeId>, bool, bool, bool)>::empty()) by {
            reveal(Seq::filter);
        }
        while i < tail.len()
            invariant
                0 <= i <= tail@.len(),
                stack@.len() >= len,
                base.len() >= len,
                base.take(len as int) == head,
                stack@ == base + tail@.take(i as int).filter(last_flag_is(want)),
                forall|k: int| 0 <= k < stack@.len() ==> universe@.contains(#[trigger] stack@[k].0),
                forall|k: int| 0 <= k < tail@.len() ==> universe@.contains(#[trigger] tail@[k].0),
            decreases tail.len() - i,
        {
            let x = tail[i];
            let ghost before = stack@;
            proof {
                assert(tail@.take(i + 1) =~= tail@.take(i as int).push(x));
                tail@.take(i as int).lemma_filter_push(x, last_flag_is(want));
            }
            if x.3 == want {
                stack.push(x);
                assert(stack@.take(len as int) == before.take(len as int));
            }
            proof {
                assert(stack@ =~= base + tail@.take(i + 1).filter(last_flag_is(want)));
                assert(stack@.take(len as int) =~= base.take(len as int));
            }
            i = i + 1;
        }
        proof {
            assert(tail@.take(tail@.len() as int) =~= tail@);
        }
        pass = pass + 1;
    }
}

/// The fields of an application workspace that the graph repairs leave alone.
pub open spec fn same_caches(a: &Workspace, b: &Workspace) -> bool {
    &&& a.missing_context == b.missing_context
    &&& a.pseudo == b.pseudo
    &&& a.alive_folder == b.alive_folder
    &&& a.folder_stack == b.folder_stack
    &&& a.children == b.children
    &&& a.down_context == b.down_context
    &&& a.deleted_by == b.deleted_by
    &&& a.adjbuf == b.adjbuf
}

/// Reconnects the file vertex `to0` to its closest ancestors, walking up
/// through its (possibly deleted) folder parents, preferring dead
/// ancestors last: every deleted folder edge on the path found is doubled
/// by a `FOLDER | PSEUDO` edge.
pub fn repair_edge(g: &mut Graph, to0: Vertex<ChangeId>, ws: &mut Workspace) -> (r: Result<(), LocalApplyError>)
    ensures
        grows_by_root(old(g)@, final(g)@, folder_pseudo()),
        r matches Err(e) ==> e is Block,
        r is Ok ==> final(ws).parents@.len() == 0,
        same_caches(final(ws), old(ws)),
        final(ws).rooted == old(ws).rooted,
        lookups_found(old(g)@) && to0.start.0 <= to0.end.0 ==> r is Ok && lookups_found(final(g)@),
{
    let mut stack: Vec<(Vertex<ChangeId>, bool, bool, bool)> = Vec::new();
    stack.push((to0, true, true, true));
    ws.parents.clear();
    let ghost universe = keys(g@).insert(to0);
    let ghost mut seen: Set<Vertex<ChangeId>> = Set::empty();
    proof { lemma_keys(g@, to0); }
    let ghost consistent = lookups_found(old(g)@) && to0.start.0 <= to0.end.0;
    proof {
        if consistent {
            assert forall|x: Vertex<ChangeId>| universe.contains(x) implies x.start.0 <= x.end.0 by {
                lemma_keys(g@, x);
                if x != to0 {
                    let k = choose|k: int| 0 <= k < g@.len() && #[trigger] g@[k].0 == x;
                    assert(g@.contains(g@[k]));
                    assert(g@.contains((x, g@[k].1)));
                }
            }
        }
    }
    let f = parent_folder();
    let fmax = parent_folder_any();
    while stack.len() > 0
        invariant
            universe == keys(g@).insert(to0),
            g@ == old(g)@,
            universe.finite(),
            seen.subset_of(universe),
            seen.finite(),
            forall|x: Vertex<ChangeId>| seen.contains(x) <==> ws.parents@.contains(x),
            forall|k: int| 0 <= k < stack@.len() ==> universe.contains(#[trigger] stack@[k].0),
            same_caches(ws, old(ws)),
            ws.rooted == old(ws).rooted,
            consistent == (lookups_found(old(g)@) && to0.start.0 <= to0.end.0),
            consistent ==> forall|x: Vertex<ChangeId>| universe.contains(x) ==> x.start.0 <= x.end.0,
            f == (EdgeFlags { block: false, pseudo: false, folder: true, parent: true, deleted: false }),
        decreases universe.len() - seen.len(), stack@.len(),
    {
        proof { vstd::set_lib::lemma_len_subset(seen, universe); }
        let (current, _, al, anc_al) = stack.pop().unwrap();
        if vertex_in(&ws.parents, &current) {
            continue;
        }
        let ghost old_parents = ws.parents@;
        ws.parents.push(current);
        proof {
            assert(ws.parents@.drop_last() == old_parents);
            seen = seen.insert(current);
            vstd::set_lib::lemma_len_subset(seen, universe);
            assert forall|x: Vertex<ChangeId>| seen.contains(x) <==> ws.parents@.contains(x) by {
                if ws.parents@.contains(x) {
                    let k = choose|k: int| 0 <= k < ws.parents@.len() && #[trigger] ws.parents@[k] == x;
                    if k < ws.parents@.len() - 1 {
                        assert(old_parents[k] == x);
                    }
                }
                if seen.contains(x) && x != current {
                    let k = choose|k: int| 0 <= k < old_parents.len() && #[trigger] old_parents[k] == x;
                    assert(ws.parents@[k] == x);
                }
                if x == current {
                    assert(ws.parents@[ws.parents@.len() - 1] == x);
                }
            }
        }
        if current != to0 {
            stack.push((current, true, al, anc_al));
        }
        if current.is_root() {
            break;
        }
        if let Some(true) = flag_get(&ws.rooted, &current) {
            break;
        }
        let len = stack.len();
        let all = EdgeFlags::all();
        let ps = g.iter_adjacent(current, f, all);
        assert(all == (EdgeFlags { block: true, pseudo: true, folder: true, parent: true, deleted: true }));
        assert(f.spec_bits() == 48 && all.spec_bits() == 181);
        let mut i: usize = 0;
        let ghost parents_now = ws.parents@;
        while i < ps.len()
            invariant
                0 <= i <= ps@.len(),
                len <= stack@.len(),
                ws.parents@ == parents_now,
                g@ == old(g)@,
                universe == keys(g@).insert(to0),
                forall|k: int| 0 <= k < stack@.len() ==> universe.contains(#[trigger] stack@[k].0),
                same_caches(ws, old(ws)),
                ws.rooted == old(ws).rooted,
                ps@ == adjacent(g@, current, 48, 181),
                consistent == (lookups_found(old(g)@) && to0.start.0 <= to0.end.0),
            decreases ps.len() - i,
        {
            let parent = ps[i];
            if parent.flag.parent {
                let anc = match g.find_block_end(parent.dest) {
                    Ok(a) => a,
                    Err(b) => {
                        proof {
                            lemma_adjacent_bits(g@, current, 48, 181, i as int);
                            assert(g@.contains((current, ps@[i as int])));
                        }
                        return Err(LocalApplyError::from_block(b));
                    },
                };
                proof { lemma_first_block_key(g@, ps@[i as int].dest, true); }
                let al2 = g.has_adjacent(anc, f, fmax);
                stack.push((anc, false, parent.flag.deleted, al2));
            }
            i = i + 1;
        }
        if stack.len() == len {
            stack.pop();
        } else {
            sort_tail(&mut stack, len, Ghost(universe));
        }
    }
    let mut current = to0;
    let mut k: usize = 0;
    let pf = EdgeFlags::folder().union(EdgeFlags::pseudo());
    proof { lemma_grows_by_root_refl(g@, folder_pseudo()); }
    while k < stack.len()
        invariant
            0 <= k <= stack@.len(),
            consistent == (lookups_found(old(g)@) && to0.start.0 <= to0.end.0),
            consistent ==> lookups_found(g@),
            consistent ==> forall|x: Vertex<ChangeId>| universe.contains(x) ==> x.start.0 <= x.end.0,
            forall|j: int| 0 <= j < stack@.len() ==> universe.contains(#[trigger] stack@[j].0),
            universe.contains(current),
            pf == folder_pseudo(),
            grows_by_root(old(g)@, g@, folder_pseudo()),
            same_caches(ws, old(ws)),
            ws.rooted == old(ws).rooted,
        decreases stack.len() - k,
    {
        let (next, on_path, del, _) = stack[k];
        if on_path {
            if del {
                let ghost g0 = g@;
                put_graph_with_rev(g, pf, next, current, ChangeId::root());
                proof {
                    lemma_put_with_rev_grows(g0, pf, next, current, ChangeId(0));
                    if consistent {
                        assert(universe.contains(stack@[k as int].0));
                        lemma_put_with_rev_lookups(g0, pf, next, current, ChangeId(0));
                    }
                    lemma_grows_by_root_trans(old(g)@, g0, g@, folder_pseudo());
                }
            }
            current = next;
        }
        k = k + 1;
    }
    ws.parents.clear();
    Ok(())
}

/// Reconnects to the root the files recorded in the missing-context
/// workspace that are alive but no longer connected to it.
pub fn repair_cyclic_paths(g: &mut Graph, ws: &mut Workspace) -> (r: Result<(), LocalApplyError>)
    ensures
        grows_by_root(old(g)@, final(g)@, folder_pseudo()),
        r matches Err(e) ==> e is Block,
        final(ws).missing_context.files@.len() == 0,
        old(ws).missing_context.files@.len() == 0 ==> r is Ok,
        lookups_found(old(g)@) ==> r is Ok && lookups_found(final(g)@),
{
    let mut files: Vec<Vertex<ChangeId>> = Vec::new();
    std::mem::swap(&mut files, &mut ws.missing_context.files);
    proof { lemma_grows_by_root_refl(g@, folder_pseudo()); }
    let mut i: usize = 0;
    while i < files.len()
        invariant
            0 <= i <= files@.len(),
            grows_by_root(old(g)@, g@, folder_pseudo()),
            ws.missing_context.files@.len() == 0,
            files@ == old(ws).missing_context.files@,
            lookups_found(old(g)@) ==> lookups_found(g@),
        decreases files.len() - i,
    {
        let file = files[i];
        let target = if file.is_empty() {
            Some(file)
        } else {
            let ps = g.iter_adjacent(file, EdgeFlags::folder(), EdgeFlags::folder().union(EdgeFlags::block()).union(EdgeFlags::pseudo()));
            if ps.len() > 0 {
                Some(ps[0].dest.inode_vertex())
            } else {
                None
            }
        };
        if let Some(v) = target {
            if !is_rooted(g, v, ws)? {
                let ghost g0 = g@;
                repair_edge(g, v, ws)?;
                proof { lemma_grows_by_root_trans(old(g)@, g0, g@, folder_pseudo()); }
            }
        }
        i = i + 1;
    }
    Ok(())
}

/// `y` is the block that a non-deleted folder child edge of `x` points to.
pub open spec fn folder_child(g: Seq<(Vertex<ChangeId>, Edge)>, x: Vertex<ChangeId>, y: Vertex<ChangeId>) -> bool {
    exists|e: Edge|
        #[trigger] g.contains((x, e)) && e.flag.folder && !e.flag.deleted && !e.flag.parent && first_block(g, e.dest, false) == Some(y)
}

/// `x` has a non-deleted child edge, not a folder edge, to an alive block.
pub open spec fn alive_leaf(g: Seq<(Vertex<ChangeId>, Edge)>, x: Vertex<ChangeId>) -> bool {
    exists|e: Edge|
        #[trigger] g.contains((x, e)) && !e.flag.folder && !e.flag.deleted && !e.flag.parent && (first_block(g, e.dest, false) matches Some(
            c,
        ) && is_alive_spec(g, c))
}

/// The `i`-th step of the path `p` follows a folder child edge.
pub open spec fn folder_step(g: Seq<(Vertex<ChangeId>, Edge)>, p: Seq<Vertex<ChangeId>>, i: int) -> bool {
    folder_child(g, p[i], p[i + 1])
}

/// `p` is a non-empty path down folder child edges.
pub open spec fn folder_path(g: Seq<(Vertex<ChangeId>, Edge)>, p: Seq<Vertex<ChangeId>>) -> bool {
    &&& p.len() >= 1
    &&& forall|i: int| 0 <= i < p.len() - 1 ==> #[trigger] folder_step(g, p, i)
}

/// `y` is reached from `x` down folder child edges.
pub open spec fn folder_reach(g: Seq<(Vertex<ChangeId>, Edge)>, x: Vertex<ChangeId>, y: Vertex<ChangeId>) -> bool {
    exists|p: Seq<Vertex<ChangeId>>| #[trigger] folder_path(g, p) && p[0] == x && p.last() == y
}

/// Going down folder child edges from `x`, one reaches a vertex with an
/// alive child that is not a folder.
pub open spec fn has_alive_descendant(g: Seq<(Vertex<ChangeId>, Edge)>, x: Vertex<ChangeId>) -> bool {
    exists|y: Vertex<ChangeId>| #[trigger] folder_reach(g, x, y) && alive_leaf(g, y)
}

/// Every folder that `alive` marks alive has an alive descendant.
pub open spec fn alive_cache_sound(g: Seq<(Vertex<ChangeId>, Edge)>, alive: Seq<(Vertex<ChangeId>, bool)>) -> bool {
    forall|x: Vertex<ChangeId>| #[trigger] flag_map(alive).contains_key(x) && flag_map(alive)[x] ==> has_alive_descendant(g, x)
}

/// Every vertex reaches itself.
pub proof fn lemma_folder_reach_refl(g: Seq<(Vertex<ChangeId>, Edge)>, x: Vertex<ChangeId>)
    ensures
        folder_reach(g, x, x),
{
    let p = seq![x];
    assert(folder_path(g, p));
}

/// A path can be extended by one folder child edge.
pub proof fn lemma_folder_reach_step(g: Seq<(Vertex<ChangeId>, Edge)>, x: Vertex<ChangeId>, y: Vertex<ChangeId>, z: Vertex<ChangeId>)
    requires
        folder_reach(g, x, y),
        folder_child(g, y, z),
    ensures
        folder_reach(g, x, z),
{
    let p = choose|p: Seq<Vertex<ChangeId>>| #[trigger] folder_path(g, p) && p[0] == x && p.last() == y;
    let q = p.push(z);
    assert forall|i: int| 0 <= i < q.len() - 1 implies #[trigger] folder_step(g, q, i) by {
        if i < p.len() - 1 {
            assert(folder_step(g, p, i));
        }
    }
    assert(folder_path(g, q));
}

/// What a reached vertex has below it, the vertex above has too.
pub proof fn lemma_alive_descendant_up(g: Seq<(Vertex<ChangeId>, Edge)>, x: Vertex<ChangeId>, y: Vertex<ChangeId>)
    requires
        folder_reach(g, x, y),
        has_alive_descendant(g, y),
    ensures
        has_alive_descendant(g, x),
{
    let z = choose|z: Vertex<ChangeId>| #[trigger] folder_reach(g, y, z) && alive_leaf(g, z);
    let p = choose|p: Seq<Vertex<ChangeId>>| #[trigger] folder_path(g, p) && p[0] == x && p.last() == y;
    let q = choose|q: Seq<Vertex<ChangeId>>| #[trigger] folder_path(g, q) && q[0] == y && q.last() == z;
    let r = p + q.drop_first();
    assert forall|i: int| 0 <= i < r.len() - 1 implies #[trigger] folder_step(g, r, i) by {
        if i < p.len() - 1 {
            assert(folder_step(g, p, i));
        } else {
            assert(folder_step(g, q, i - (p.len() - 1)));
        }
    }
    assert(folder_path(g, r));
    assert(folder_reach(g, x, z));
}

/// `y` is on the current path of the search `stack`, among its first `n`
/// entries.
pub open spec fn on_path(stack: Seq<(Vertex<ChangeId>, bool)>, n: int, y: Vertex<ChangeId>) -> bool {
    exists|k: int| 0 <= k < n && k < stack.len() && (#[trigger] stack[k]).1 && stack[k].0 == y
}

/// Marks with `true`, in `alive`, the vertices of `stack` that are on the current path.
fn mark_path_alive(alive: &mut Vec<(Vertex<ChangeId>, bool)>, stack: &Vec<(Vertex<ChangeId>, bool)>)
    ensures
        forall|k: int| 0 <= k < stack@.len() && (#[trigger] stack@[k]).1 ==> flag_map(final(alive)@).contains_key(stack@[k].0) && flag_map(final(alive)@)[stack@[k].0],
        forall|y: Vertex<ChangeId>| !on_path(stack@, stack@.len() as int, y) ==> {
            &&& (#[trigger] flag_map(final(alive)@).contains_key(y) <==> flag_map(old(alive)@).contains_key(y))
            &&& (flag_map(old(alive)@).contains_key(y) ==> flag_map(final(alive)@)[y] == flag_map(old(alive)@)[y])
        },
{
    let mut i: usize = 0;
    while i < stack.len()
        invariant
            0 <= i <= stack@.len(),
            forall|k: int| 0 <= k < i && (#[trigger] stack@[k]).1 ==> flag_map(alive@).contains_key(stack@[k].0) && flag_map(alive@)[stack@[k].0],
            forall|y: Vertex<ChangeId>| !on_path(stack@, i as int, y) ==> {
                &&& (#[trigger] flag_map(alive@).contains_key(y) <==> flag_map(old(alive)@).contains_key(y))
                &&& (flag_map(old(alive)@).contains_key(y) ==> flag_map(alive@)[y] == flag_map(old(alive)@)[y])
            },
        decreases stack.len() - i,
    {
        let (x, on) = stack[i];
        let ghost m0 = flag_map(alive@);
        if on {
            flag_insert(alive, x, true);
        }
        proof {
            assert forall|y: Vertex<ChangeId>| !on_path(stack@, i + 1, y) implies {
                &&& (#[trigger] flag_map(alive@).contains_key(y) <==> flag_map(old(alive)@).contains_key(y))
                &&& (flag_map(old(alive)@).contains_key(y) ==> flag_map(alive@)[y] == flag_map(old(alive)@)[y])
            } by {
                assert(!on_path(stack@, i as int, y)) by {
                    if on_path(stack@, i as int, y) {
                        let k = choose|k: int| 0 <= k < i && k < stack@.len() && (#[trigger] stack@[k]).1 && stack@[k].0 == y;
                        assert(on_path(stack@, i + 1, y));
                    }
                }
                if on {
                    assert(stack@[i as int].1 && stack@[i as int].0 == x);
                    assert(y != x);
                }
            }
        }
        i = i + 1;
    }
}

/// Whether the folder vertex `b` has an alive non-folder descendant, going
/// down through non-deleted folder edges. The answers for `b` and for the
/// folders visited on the way are cached in `alive`.
pub fn folder_has_alive_descendants(
    g: &Graph,
    alive: &mut Vec<(Vertex<ChangeId>, bool)>,
    stack: &mut Vec<(Vertex<ChangeId>, bool)>,
    b: Vertex<ChangeId>,
) -> (r: Result<bool, LocalApplyError>)
    ensures
        flag_map(old(alive)@).contains_key(b) ==> r == Ok::<bool, LocalApplyError>(flag_map(old(alive)@)[b]) && *final(alive)
            == *old(alive) && *final(stack) == *old(stack),
        r matches Ok(x) ==> flag_map(final(alive)@).contains_key(b) && x == flag_map(final(alive)@)[b],
        alive_cache_sound(g@, old(alive)@) ==> alive_cache_sound(g@, final(alive)@),
        alive_cache_sound(g@, old(alive)@) && r == Ok::<bool, LocalApplyError>(true) ==> has_alive_descendant(g@, b),
        r matches Err(e) ==> e is Block,
        lookups_found(g@) ==> r is Ok,
{
    if let Some(r) = flag_get(alive, &b) {
        return Ok(r);
    }
    let ghost sound = alive_cache_sound(g@, old(alive)@);
    stack.clear();
    stack.push((b, false));
    let mut expanded: Vec<Vertex<ChangeId>> = Vec::new();
    let ghost universe = keys(g@).insert(b);
    let ghost mut seen: Set<Vertex<ChangeId>> = Set::empty();
    proof { lemma_keys(g@, b); }
    let mut max = EdgeFlags::all();
    max.deleted = false;
    max.parent = false;
    while stack.len() > 0
        invariant
            universe == keys(g@).insert(b),
            !flag_map(old(alive)@).contains_key(b),
            universe.finite(),
            seen.subset_of(universe),
            seen.finite(),
            forall|x: Vertex<ChangeId>| seen.contains(x) <==> expanded@.contains(x),
            forall|k: int| 0 <= k < stack@.len() ==> universe.contains(#[trigger] stack@[k].0),
            max == (EdgeFlags { block: true, pseudo: true, folder: true, parent: false, deleted: false }),
            sound == alive_cache_sound(g@, old(alive)@),
            sound ==> alive_cache_sound(g@, alive@),
            forall|j: int, k: int|
                #![trigger stack@[j], stack@[k]]
                0 <= j < k < stack@.len() && stack@[j].1 ==> folder_reach(g@, stack@[j].0, stack@[k].0),
            flag_map(alive@).contains_key(b) || (stack@.len() > 0 && stack@[0].0 == b && (stack@[0].1 || (stack@.len() == 1
                && expanded@.len() == 0))),
        decreases universe.len() - seen.len(), stack@.len(),
    {
        proof { vstd::set_lib::lemma_len_subset(seen, universe); }
        let ghost st0 = stack@;
        let (x, visited) = stack.pop().unwrap();
        proof {
            assert(stack@ == st0.drop_last());
            assert(st0[st0.len() - 1] == (x, visited));
        }
        if visited {
            if flag_get(alive, &x).is_none() {
                let ghost a0 = alive@;
                flag_insert(alive, x, false);
                proof {
                    if sound {
                        assert forall|y: Vertex<ChangeId>| #[trigger] flag_map(alive@).contains_key(y) && flag_map(alive@)[y] implies has_alive_descendant(g@, y) by {
                            assert(y != x);
                            assert(flag_map(a0).contains_key(y));
                        }
                    }
                }
            }
            proof {
                assert forall|j: int, k: int|
                    #![trigger stack@[j], stack@[k]]
                    0 <= j < k < stack@.len() && stack@[j].1 implies folder_reach(g@, stack@[j].0, stack@[k].0) by {
                    assert(st0[j] == stack@[j] && st0[k] == stack@[k]);
                }
            }
            continue;
        }
        if vertex_in(&expanded, &x) {
            if let Some(true) = flag_get(alive, &x) {
                let ghost a0 = alive@;
                mark_path_alive(alive, stack);
                proof {
                    if sound {
                        assert(has_alive_descendant(g@, x));
                        assert forall|y: Vertex<ChangeId>| #[trigger] flag_map(alive@).contains_key(y) && flag_map(alive@)[y] implies has_alive_descendant(g@, y) by {
                            if on_path(stack@, stack@.len() as int, y) {
                                let k = choose|k: int| 0 <= k < stack@.len() && k < stack@.len() && (#[trigger] stack@[k]).1 && stack@[k].0 == y;
                                assert(st0[k] == stack@[k]);
                                assert(folder_reach(g@, st0[k].0, st0[st0.len() - 1].0));
                                lemma_alive_descendant_up(g@, y, x);
                            } else {
                                assert(flag_map(a0).contains_key(y));
                            }
                        }
                    }
                }
            }
            proof {
                assert forall|j: int, k: int|
                    #![trigger stack@[j], stack@[k]]
                    0 <= j < k < stack@.len() && stack@[j].1 implies folder_reach(g@, stack@[j].0, stack@[k].0) by {
                    assert(st0[j] == stack@[j] && st0[k] == stack@[k]);
                }
            }
            continue;
        }
        let ghost old_expanded = expanded@;
        expanded.push(x);
        proof {
            assert(expanded@.drop_last() == old_expanded);
            seen = seen.insert(x);
            vstd::set_lib::lemma_len_subset(seen, universe);
            assert forall|y: Vertex<ChangeId>| seen.contains(y) <==> expanded@.contains(y) by {
                if expanded@.contains(y) {
                    let k = choose|k: int| 0 <= k < expanded@.len() && #[trigger] expanded@[k] == y;
                    if k < expanded@.len() - 1 {
                        assert(old_expanded[k] == y);
                    }
                }
                if seen.contains(y) && y != x {
                    let k = choose|k: int| 0 <= k < old_expanded.len() && #[trigger] old_expanded[k] == y;
                    assert(expanded@[k] == y);
                }
                if y == x {
                    assert(expanded@[expanded@.len() - 1] == y);
                }
            }
        }
        stack.push((x, true));
        let ghost t = stack@.len() - 1;
        proof {
            if !flag_map(alive@).contains_key(b) {
                if st0.len() == 1 {
                    assert(st0[0] == (x, visited));
                } else {
                    assert(stack@[0] == st0[0]);
                }
            }
        }
        proof {
            lemma_folder_reach_refl(g@, x);
            assert forall|j: int, k: int|
                #![trigger stack@[j], stack@[k]]
                0 <= j < k < stack@.len() && stack@[j].1 implies folder_reach(g@, stack@[j].0, stack@[k].0) by {
                assert(st0[j] == stack@[j]);
                if k < t {
                    assert(st0[k] == stack@[k]);
                } else {
                    assert(folder_reach(g@, st0[j].0, st0[st0.len() - 1].0));
                }
            }
            assert forall|j: int| 0 <= j < stack@.len() && (#[trigger] stack@[j]).1 implies folder_reach(g@, stack@[j].0, x) by {
                if j < t {
                    assert(folder_reach(g@, stack@[j].0, stack@[t].0));
                }
            }
        }
        let es = g.iter_adjacent(x, EdgeFlags::empty(), max);
        let mut i: usize = 0;
        let ghost expanded_now = expanded@;
        while i < es.len()
            invariant
                0 <= i <= es@.len(),
                es@ == adjacent(g@, x, 0, 21),
                expanded@ == expanded_now,
                !flag_map(old(alive)@).contains_key(b),
                universe == keys(g@).insert(b),
                forall|k: int| 0 <= k < stack@.len() ==> universe.contains(#[trigger] stack@[k].0),
                sound == alive_cache_sound(g@, old(alive)@),
                sound ==> alive_cache_sound(g@, alive@),
                forall|j: int, k: int|
                    #![trigger stack@[j], stack@[k]]
                    0 <= j < k < stack@.len() && stack@[j].1 ==> folder_reach(g@, stack@[j].0, stack@[k].0),
                forall|j: int| 0 <= j < stack@.len() && (#[trigger] stack@[j]).1 ==> folder_reach(g@, stack@[j].0, x),
                flag_map(alive@).contains_key(b) || (stack@.len() > 0 && stack@[0] == (b, true)),
            decreases es.len() - i,
        {
            let e = es[i];
            proof {
                lemma_adjacent_bits(g@, x, 0, 21, i as int);
                assert(g@.contains((x, e)));
                assert(!e.flag.deleted && !e.flag.parent);
            }
            let c = match g.find_block(e.dest) {
                Ok(c) => c,
                Err(bl) => {
                    proof {
                        assert(!lookups_found(g@));
                    }
                    return Err(LocalApplyError::from_block(bl));
                },
            };
            proof { lemma_first_block_key(g@, es@[i as int].dest, false); }
            if e.flag.folder {
                let ghost s0 = stack@;
                stack.push((c, false));
                proof {
                    assert(folder_child(g@, x, c));
                    assert forall|j: int, k: int|
                        #![trigger stack@[j], stack@[k]]
                        0 <= j < k < stack@.len() && stack@[j].1 implies folder_reach(g@, stack@[j].0, stack@[k].0) by {
                        assert(s0[j] == stack@[j]);
                        if k < s0.len() {
                            assert(s0[k] == stack@[k]);
                        } else {
                            assert(folder_reach(g@, s0[j].0, x));
                            lemma_folder_reach_step(g@, stack@[j].0, x, c);
                        }
                    }
                    assert forall|j: int| 0 <= j < stack@.len() && (#[trigger] stack@[j]).1 implies folder_reach(g@, stack@[j].0, x) by {
                        assert(s0[j] == stack@[j]);
                    }
                }
            } else if g.is_alive(&c) {
                // The entire path is alive.
                let ghost a0 = alive@;
                mark_path_alive(alive, stack);
                proof {
                    if sound {
                        assert(alive_leaf(g@, x));
                        lemma_folder_reach_refl(g@, x);
                        assert(has_alive_descendant(g@, x));
                        assert forall|y: Vertex<ChangeId>| #[trigger] flag_map(alive@).contains_key(y) && flag_map(alive@)[y] implies has_alive_descendant(g@, y) by {
                            if on_path(stack@, stack@.len() as int, y) {
                                let k = choose|k: int| 0 <= k < stack@.len() && k < stack@.len() && (#[trigger] stack@[k]).1 && stack@[k].0 == y;
                                lemma_alive_descendant_up(g@, y, x);
                            } else {
                                assert(flag_map(a0).contains_key(y));
                            }
                        }
                    }
                }
            }
            i = i + 1;
        }
    }
    match flag_get(alive, &b) {
        Some(r) => Ok(r),
        None => Ok(false),
    }
}

/// Whether `p` occurs in `v`.
pub fn position_in(v: &Vec<Position<ChangeId>>, p: &Position<ChangeId>) -> (r: bool)
    ensures
        r == v@.contains(*p),
{
    let mut i: usize = 0;
    while i < v.len()
        invariant
            0 <= i <= v.len(),
            forall|j: int| 0 <= j < i ==> v@[j] != *p,
        decreases v.len() - i,
    {
        if v[i] == *p {
            assert(v@[i as int] == *p);
            return true;
        }
        i = i + 1;
    }
    false
}

/// `s` with `p` added at its end, unless `p` is already there.
pub open spec fn with_position(s: Seq<Position<ChangeId>>, p: Position<ChangeId>) -> Seq<Position<ChangeId>> {
    if s.contains(p) {
        s
    } else {
        s.push(p)
    }
}

/// Adds `p` to `v` unless it is already there.
pub fn insert_position(v: &mut Vec<Position<ChangeId>>, p: Position<ChangeId>)
    ensures
        final(v)@ == with_position(old(v)@, p),
        forall|q: Position<ChangeId>| final(v)@.contains(q) <==> (old(v)@.contains(q) || q == p),
        old(v)@.no_duplicates() ==> final(v)@.no_duplicates(),
{
    if !position_in(v, &p) {
        v.push(p);
        assert forall|q: Position<ChangeId>| v@.contains(q) <==> (old(v)@.contains(q) || q == p) by {
            if v@.contains(q) {
                let k = choose|k: int| 0 <= k < v@.len() && #[trigger] v@[k] == q;
                if k < old(v)@.len() {
                    assert(old(v)@[k] == q);
                }
            }
            if old(v)@.contains(q) {
                let k = choose|k: int| 0 <= k < old(v)@.len() && #[trigger] old(v)@[k] == q;
                assert(v@[k] == q);
            }
            if q == p {
                assert(v@[v@.len() - 1] == q);
            }
        }
    }
}

/// The two ends `(a, b)` of the pseudo-edge of the entry `e` of a
/// workspace's pseudo list, in graph `g`: the vertex of the entry and the
/// block at the edge's destination, parent end first; `None` where that block
/// is not in the graph.
pub open spec fn pseudo_ends(
    g: Seq<(Vertex<ChangeId>, Edge)>,
    e: (Vertex<ChangeId>, Edge, Position<Option<ChangeHash>>),
) -> Option<(Vertex<ChangeId>, Vertex<ChangeId>)> {
    if e.1.flag.parent {
        match first_block(g, e.1.dest, true) {
            Some(d) => Some((d, e.0)),
            None => None,
        }
    } else {
        match first_block(g, e.1.dest, false) {
            Some(d) => Some((e.0, d)),
            None => None,
        }
    }
}

/// `g` without the pseudo-edge of entry `e` between `a` and `b`, in both
/// directions.
pub open spec fn without_pseudo_edge(
    g: Seq<(Vertex<ChangeId>, Edge)>,
    e: (Vertex<ChangeId>, Edge, Position<Option<ChangeHash>>),
    a: Vertex<ChangeId>,
    b: Vertex<ChangeId>,
) -> Seq<(Vertex<ChangeId>, Edge)> {
    let fl = e.1.flag.spec_minus(EdgeFlags { block: false, pseudo: false, folder: false, parent: true, deleted: false });
    remove_all(remove_all(g, (a, forward_edge(fl, b, e.1.introduced_by))), (b, reverse_edge(fl, a, e.1.introduced_by)))
}

/// Each vertex of `g` has an edge that is not a pseudo-edge, so that no
/// removal of pseudo-edges takes a vertex out of the graph.
pub open spec fn keys_anchored(g: Seq<(Vertex<ChangeId>, Edge)>) -> bool {
    forall|x: Vertex<ChangeId>, e: Edge| #[trigger] g.contains((x, e)) ==> exists|e2: Edge| #[trigger] g.contains((x, e2)) && !e2.flag.pseudo
}

/// Removing a pseudo-edge and its reverse keeps a consistent graph whose
/// vertices are anchored so.
pub proof fn lemma_without_pseudo_lookups(
    g: Seq<(Vertex<ChangeId>, Edge)>,
    e: (Vertex<ChangeId>, Edge, Position<Option<ChangeHash>>),
    a: Vertex<ChangeId>,
    b: Vertex<ChangeId>,
)
    requires
        lookups_found(g),
        keys_anchored(g),
        e.1.flag.pseudo,
    ensures
        lookups_found(without_pseudo_edge(g, e, a, b)),
        keys_anchored(without_pseudo_edge(g, e, a, b)),
{
    let fl = e.1.flag.spec_minus(EdgeFlags { block: false, pseudo: false, folder: false, parent: true, deleted: false });
    let x1 = (a, forward_edge(fl, b, e.1.introduced_by));
    let x2 = (b, reverse_edge(fl, a, e.1.introduced_by));
    let g1 = remove_all(g, x1);
    let g2 = remove_all(g1, x2);
    assert(g2 == without_pseudo_edge(g, e, a, b));
    assert forall|y: (Vertex<ChangeId>, Edge)| g2.contains(y) <==> (g.contains(y) && y != x1 && y != x2) by {
        lemma_remove_all_contains(g, x1, y);
        lemma_remove_all_contains(g1, x2, y);
    }
    assert forall|x: Vertex<ChangeId>, f: Edge| #[trigger] g2.contains((x, f)) implies exists|e2: Edge| #[trigger] g2.contains((x, e2)) && !e2.flag.pseudo by {
        assert(g.contains((x, f)));
        let e2 = choose|e2: Edge| #[trigger] g.contains((x, e2)) && !e2.flag.pseudo;
        assert(g2.contains((x, e2)));
    }
    assert forall|x: Vertex<ChangeId>, f: Edge| #[trigger] g2.contains((x, f)) implies x.start.0 <= x.end.0 && first_block(g2, f.dest, f.flag.parent) is Some by {
        assert(g.contains((x, f)));
        lemma_first_block_key(g, f.dest, f.flag.parent);
        let v = first_block(g, f.dest, f.flag.parent).unwrap();
        lemma_keys(g, v);
        let k = choose|k: int| 0 <= k < g.len() && #[trigger] g[k].0 == v;
        assert(g.contains(g[k]));
        assert(g.contains((v, g[k].1)));
        let e2 = choose|e2: Edge| #[trigger] g.contains((v, e2)) && !e2.flag.pseudo;
        assert(g2.contains((v, e2)));
        let j = choose|j: int| 0 <= j < g2.len() && g2[j] == (v, e2);
        assert(covers(g2[j].0, f.dest, f.flag.parent));
        lemma_first_block_covered(g2, j, f.dest, f.flag.parent);
    }
}

/// Removing only pseudo-edges from a graph whose vertices are anchored keeps
/// every lookup that succeeds.
pub proof fn lemma_anchored_lookup(
    g1: Seq<(Vertex<ChangeId>, Edge)>,
    g2: Seq<(Vertex<ChangeId>, Edge)>,
    pos: Position<ChangeId>,
    at_end: bool,
)
    requires
        keys_anchored(g1),
        forall|x: (Vertex<ChangeId>, Edge)| #[trigger] g1.contains(x) && !x.1.flag.pseudo ==> g2.contains(x),
        first_block(g1, pos, at_end) is Some,
    ensures
        first_block(g2, pos, at_end) is Some,
{
    lemma_first_block_key(g1, pos, at_end);
    let v = first_block(g1, pos, at_end).unwrap();
    lemma_keys(g1, v);
    let k = choose|k: int| 0 <= k < g1.len() && #[trigger] g1[k].0 == v;
    assert(g1.contains(g1[k]));
    assert(g1.contains((v, g1[k].1)));
    let e2 = choose|e2: Edge| #[trigger] g1.contains((v, e2)) && !e2.flag.pseudo;
    assert(g2.contains((v, e2)));
    let j = choose|j: int| 0 <= j < g2.len() && g2[j] == (v, e2);
    assert(covers(g2[j].0, pos, at_end));
    lemma_first_block_covered(g2, j, pos, at_end);
}

/// Removing only pseudo-edges keeps a consistent graph whose vertices are
/// anchored so.
pub proof fn lemma_remove_pseudo_consistent(g1: Seq<(Vertex<ChangeId>, Edge)>, g2: Seq<(Vertex<ChangeId>, Edge)>)
    requires
        lookups_found(g1),
        keys_anchored(g1),
        sub_graph(g2, g1),
        forall|x: (Vertex<ChangeId>, Edge)| #[trigger] g1.contains(x) && !x.1.flag.pseudo ==> g2.contains(x),
    ensures
        lookups_found(g2),
        keys_anchored(g2),
{
    assert forall|x: Vertex<ChangeId>, f: Edge| #[trigger] g2.contains((x, f)) implies exists|e2: Edge| #[trigger] g2.contains((x, e2)) && !e2.flag.pseudo by {
        assert(g1.contains((x, f)));
        let e2 = choose|e2: Edge| #[trigger] g1.contains((x, e2)) && !e2.flag.pseudo;
        assert(g2.contains((x, e2)));
    }
    assert forall|x: Vertex<ChangeId>, f: Edge| #[trigger] g2.contains((x, f)) implies x.start.0 <= x.end.0 && first_block(g2, f.dest, f.flag.parent) is Some by {
        assert(g1.contains((x, f)));
        lemma_anchored_lookup(g1, g2, f.dest, f.flag.parent);
    }
}

/// `a` has a folder edge to a parent: it is an inode vertex.
pub open spec fn has_folder_parent_edge(g: Seq<(Vertex<ChangeId>, Edge)>, a: Vertex<ChangeId>) -> bool {
    exists|e: Edge| #[trigger] g.contains((a, e)) && e.flag.folder && e.flag.parent
}

/// The entry `e` keeps its edge because `a` is an empty inode vertex that
/// keeps the alive `b` reachable.
pub open spec fn keeps_inode(
    g: Seq<(Vertex<ChangeId>, Edge)>,
    a: Vertex<ChangeId>,
    b: Vertex<ChangeId>,
) -> bool {
    a.spec_is_empty() && is_alive_spec(g, b) && has_folder_parent_edge(g, a)
}

/// One entry `e` of the pseudo list, taken on graph `g0`, gives graph `g1`,
/// deleting its edge or not (`deleted`): an edge whose ends are not found
/// or both alive stays; one whose ends are not both alive is deleted, unless
/// it is a folder edge (kept where its child has alive descendants) or the
/// edge of an inode vertex to an alive child.
pub open spec fn clean_step(
    g0: Seq<(Vertex<ChangeId>, Edge)>,
    g1: Seq<(Vertex<ChangeId>, Edge)>,
    e: (Vertex<ChangeId>, Edge, Position<Option<ChangeHash>>),
    deleted: bool,
) -> bool {
    match pseudo_ends(g0, e) {
        None => g1 == g0 && !deleted,
        Some((a, b)) => if is_alive_spec(g0, a) && is_alive_spec(g0, b) {
            g1 == g0 && !deleted
        } else if deleted {
            g1 == without_pseudo_edge(g0, e, a, b) && !keeps_inode(g0, a, b)
        } else {
            g1 == g0 && (e.1.flag.folder || keeps_inode(g0, a, b))
        },
    }
}

/// Deleting the edge of entry `e` on `g` calls for a repair of the context
/// of its inode: its parent end is alive, or its child end is alive and the
/// edge is no folder edge.
pub open spec fn pseudo_needs_repair(
    g: Seq<(Vertex<ChangeId>, Edge)>,
    e: (Vertex<ChangeId>, Edge, Position<Option<ChangeHash>>),
) -> bool {
    match pseudo_ends(g, e) {
        Some((a, b)) => is_alive_spec(g, a) || (is_alive_spec(g, b) && !e.1.flag.folder),
        None => false,
    }
}

/// The graphs `gs` and the deletions `ds` trace the first `n` entries of
/// `ps`, from `g0` to `g1`.
pub open spec fn clean_trace(
    ps: Seq<(Vertex<ChangeId>, Edge, Position<Option<ChangeHash>>)>,
    n: int,
    gs: Seq<Seq<(Vertex<ChangeId>, Edge)>>,
    ds: Seq<bool>,
    g0: Seq<(Vertex<ChangeId>, Edge)>,
    g1: Seq<(Vertex<ChangeId>, Edge)>,
) -> bool {
    &&& gs.len() == n + 1
    &&& ds.len() == n
    &&& gs[0] == g0
    &&& gs[n] == g1
    &&& forall|k: int| 0 <= k < n ==> clean_step(gs[k], gs[k + 1], #[trigger] ps[k], ds[k])
}

/// In the trace `gs`, `ds` of the entries `ps`, entry `k` was deleted, calls
/// for a repair, and its inode is `q`.
pub open spec fn clean_collects(
    internal: Seq<(ChangeHash, ChangeId)>,
    change_id: ChangeId,
    ps: Seq<(Vertex<ChangeId>, Edge, Position<Option<ChangeHash>>)>,
    gs: Seq<Seq<(Vertex<ChangeId>, Edge)>>,
    ds: Seq<bool>,
    k: int,
    q: Position<ChangeId>,
) -> bool {
    ds[k] && pseudo_needs_repair(gs[k], ps[k]) && internal_pos_spec(internal, ps[k].2, change_id) == Ok::<
        Position<ChangeId>,
        InconsistentChange,
    >(q)
}

/// Whether `a` has an edge that carries both FOLDER and PARENT.
fn folder_parent_edge(g: &Graph, a: Vertex<ChangeId>) -> (r: bool)
    ensures
        r == has_folder_parent_edge(g@, a),
{
    let mut fp = EdgeFlags::folder();
    fp.parent = true;
    let all = EdgeFlags::all();
    let es = g.iter_adjacent(a, fp, all);
    let mut k: usize = 0;
    while k < es.len()
        invariant
            0 <= k <= es@.len(),
            es@ == adjacent(g@, a, 48, 181),
            forall|j: int| 0 <= j < k ==> !(#[trigger] es@[j]).flag.spec_contains(fp),
            fp == (EdgeFlags { block: false, pseudo: false, folder: true, parent: true, deleted: false }),
        decreases es.len() - k,
    {
        if es[k].flag.contains(fp) {
            proof { lemma_adjacent_bits(g@, a, 48, 181, k as int); }
            assert(g@.contains((a, es@[k as int])));
            return true;
        }
        k = k + 1;
    }
    proof {
        assert forall|e: Edge| #[trigger] g@.contains((a, e)) && e.flag.folder && e.flag.parent implies false by {
            lemma_adjacent_complete(g@, a, 48, 181, e);
            let j = choose|j: int| 0 <= j < es@.len() && es@[j] == e;
            assert(!es@[j].flag.spec_contains(fp));
        }
    }
    false
}

/// Takes one entry `e` of the pseudo list: deletes its edge where
/// [clean_step] says so, and tells whether it did and whether the context of
/// its inode needs a repair.
fn clean_pseudo_entry(
    g: &mut Graph,
    alive: &mut Vec<(Vertex<ChangeId>, bool)>,
    stack: &mut Vec<(Vertex<ChangeId>, bool)>,
    e: (Vertex<ChangeId>, Edge, Position<Option<ChangeHash>>),
) -> (r: Result<(bool, bool), LocalApplyError>)
    ensures
        r matches Ok((d, c)) ==> clean_step(old(g)@, final(g)@, e, d) && c == (d && pseudo_needs_repair(old(g)@, e)),
        r is Err ==> final(g)@ == old(g)@ && (r matches Err(x) && x is Block),
        lookups_found(old(g)@) ==> r is Ok,
{
    let (next_vertex, p, _inode) = e;
    let (a, b) = if p.flag.parent {
        match g.find_block_end(p.dest) {
            Ok(dest) => (dest, next_vertex),
            Err(_) => return Ok((false, false)),
        }
    } else {
        match g.find_block(p.dest) {
            Ok(dest) => (next_vertex, dest),
            Err(_) => return Ok((false, false)),
        }
    };
    let a_is_alive = g.is_alive(&a);
    let b_is_alive = g.is_alive(&b);
    if a_is_alive && b_is_alive {
        return Ok((false, false));
    }
    // A deleted folder edge does not get its descendants repaired: a
    // folder with alive descendants counts as alive.
    if p.flag.folder {
        match folder_has_alive_descendants(g, alive, stack, b) {
            Ok(true) => return Ok((false, false)),
            Ok(false) => {},
            Err(x) => return Err(x),
        }
    }
    // `a` may be an inode, whose edge cannot go or `b` would become unreachable.
    if a.is_empty() && b_is_alive && folder_parent_edge(g, a) {
        return Ok((false, false));
    }
    del_graph_with_rev(g, p.flag.minus(EdgeFlags::parent()), a, b, p.introduced_by);
    Ok((true, a_is_alive || (b_is_alive && !p.flag.folder)))
}

/// Deletes the pseudo-edges collected in `ws.pseudo` that no longer connect
/// two alive vertices (keeping those that still keep a folder with alive
/// descendants, or an inode, reachable). Returns the inodes of the files
/// whose context must be repaired because of these deletions.
pub fn clean_obsolete_pseudo_edges(txn: &Txn, g: &mut Graph, ws: &mut Workspace, change_id: ChangeId) -> (r: Result<
    Vec<Position<ChangeId>>,
    LocalApplyError,
>)
    ensures
        sub_graph(final(g)@, old(g)@),
        all_pseudo(old(ws).pseudo@) ==> removed_carry(
            old(g)@,
            final(g)@,
            EdgeFlags { block: false, pseudo: true, folder: false, parent: false, deleted: false },
        ),
        final(ws).pseudo@.len() == 0,
        final(ws).missing_context == old(ws).missing_context,
        r matches Ok(v) ==> v@.no_duplicates(),
        exists|m: int, gs: Seq<Seq<(Vertex<ChangeId>, Edge)>>, ds: Seq<bool>|
            #![trigger clean_trace(old(ws).pseudo@, m, gs, ds, old(g)@, final(g)@)]
            0 <= m <= old(ws).pseudo@.len() && clean_trace(old(ws).pseudo@, m, gs, ds, old(g)@, final(g)@) && (r matches Ok(v) ==> m
                == old(ws).pseudo@.len() && forall|q: Position<ChangeId>|
                v@.contains(q) <==> exists|k: int|
                    0 <= k < old(ws).pseudo@.len() && #[trigger] clean_collects(txn.internal@, change_id, old(ws).pseudo@, gs, ds, k, q)),
        r matches Err(e) ==> e is Block || e is InvalidChange || e is Txn,
        old(ws).pseudo@.len() == 0 ==> (r matches Ok(v) && v@.len() == 0),
        lookups_found(old(g)@) && keys_anchored(old(g)@) && all_pseudo(old(ws).pseudo@) && (forall|k: int|
            0 <= k < old(ws).pseudo@.len() ==> internal_pos_spec(txn.internal@, (#[trigger] old(ws).pseudo@[k]).2, change_id) is Ok)
            ==> r is Ok,
{
    let mut alive_folder: Vec<(Vertex<ChangeId>, bool)> = Vec::new();
    std::mem::swap(&mut alive_folder, &mut ws.alive_folder);
    let mut folder_stack: Vec<(Vertex<ChangeId>, bool)> = Vec::new();
    std::mem::swap(&mut folder_stack, &mut ws.folder_stack);
    let mut pseudo: Vec<(Vertex<ChangeId>, Edge, Position<Option<ChangeHash>>)> = Vec::new();
    std::mem::swap(&mut pseudo, &mut ws.pseudo);
    let mut inodes: Vec<Position<ChangeId>> = Vec::new();
    let ghost mut gs: Seq<Seq<(Vertex<ChangeId>, Edge)>> = seq![g@];
    let ghost mut ds: Seq<bool> = Seq::empty();
    let ghost cons = lookups_found(old(g)@) && keys_anchored(old(g)@) && all_pseudo(old(ws).pseudo@) && (forall|k: int|
        0 <= k < old(ws).pseudo@.len() ==> internal_pos_spec(txn.internal@, (#[trigger] old(ws).pseudo@[k]).2, change_id) is Ok);
    let mut i: usize = 0;
    while i < pseudo.len()
        invariant
            0 <= i <= pseudo@.len(),
            sub_graph(g@, old(g)@),
            pseudo@ == old(ws).pseudo@,
            all_pseudo(old(ws).pseudo@) ==> removed_carry(
                old(g)@,
                g@,
                EdgeFlags { block: false, pseudo: true, folder: false, parent: false, deleted: false },
            ),
            ws.pseudo@.len() == 0,
            ws.missing_context == old(ws).missing_context,
            inodes@.no_duplicates(),
            clean_trace(pseudo@, i as int, gs, ds, old(g)@, g@),
            forall|q: Position<ChangeId>|
                inodes@.contains(q) <==> exists|k: int| 0 <= k < i && #[trigger] clean_collects(txn.internal@, change_id, pseudo@, gs, ds, k, q),
            cons == (lookups_found(old(g)@) && keys_anchored(old(g)@) && all_pseudo(old(ws).pseudo@) && (forall|k: int|
                0 <= k < old(ws).pseudo@.len() ==> internal_pos_spec(txn.internal@, (#[trigger] old(ws).pseudo@[k]).2, change_id) is Ok)),
            cons ==> lookups_found(g@) && keys_anchored(g@),
        decreases pseudo.len() - i,
    {
        let e = pseudo[i];
        let ghost g0 = g@;
        let (deleted, repair) = match clean_pseudo_entry(g, &mut alive_folder, &mut folder_stack, e) {
            Ok(x) => x,
            Err(x) => {
                proof {
                    assert(clean_trace(pseudo@, i as int, gs, ds, old(g)@, g@));
                }
                return Err(x);
            },
        };
        let ghost gs1 = gs.push(g@);
        let ghost ds1 = ds.push(deleted);
        proof {
            if deleted {
                let (a, b) = pseudo_ends(g0, e).unwrap();
                let fl = e.1.flag.spec_minus(EdgeFlags { block: false, pseudo: false, folder: false, parent: true, deleted: false });
                lemma_del_with_rev_sub(g0, fl, a, b, e.1.introduced_by);
                if cons {
                    assert(pseudo@[i as int].1.flag.pseudo);
                    lemma_without_pseudo_lookups(g0, e, a, b);
                }
                if all_pseudo(old(ws).pseudo@) {
                    assert(pseudo@[i as int].1.flag.pseudo);
                    let x1 = (a, forward_edge(fl, b, e.1.introduced_by));
                    let x2 = (b, reverse_edge(fl, a, e.1.introduced_by));
                    assert forall|z: (Vertex<ChangeId>, Edge)| #[trigger] old(g)@.contains(z) && !g@.contains(z) implies z.1.flag.spec_contains(EdgeFlags { block: false, pseudo: true, folder: false, parent: false, deleted: false }) by {
                        if g0.contains(z) {
                            lemma_remove_all_contains(g0, x1, z);
                            lemma_remove_all_contains(remove_all(g0, x1), x2, z);
                        }
                    }
                }
            }
            assert forall|k: int| 0 <= k < i + 1 implies clean_step(gs1[k], gs1[k + 1], #[trigger] pseudo@[k], ds1[k]) by {
                if k < i {
                    assert(gs1[k] == gs[k] && gs1[k + 1] == gs[k + 1] && ds1[k] == ds[k]);
                }
            }
            assert forall|k: int, q: Position<ChangeId>| 0 <= k < i implies #[trigger] clean_collects(txn.internal@, change_id, pseudo@, gs1, ds1, k, q)
                == clean_collects(txn.internal@, change_id, pseudo@, gs, ds, k, q) by {
                assert(gs1[k] == gs[k] && ds1[k] == ds[k]);
            }
        }
        if repair {
            // A context repair is needed.
            let pos = match internal_pos(txn, &e.2, change_id) {
                Ok(pos) => pos,
                Err(x) => {
                    proof {
                        assert(clean_trace(pseudo@, i + 1, gs1, ds1, old(g)@, g@));
                        assert(pseudo@[i as int] == e);
                        assert(!cons);
                    }
                    return Err(LocalApplyError::from_inconsistent(x));
                },
            };
            let ghost before = inodes@;
            insert_position(&mut inodes, pos);
            proof {
                assert(clean_collects(txn.internal@, change_id, pseudo@, gs1, ds1, i as int, pos));
                assert forall|q: Position<ChangeId>| inodes@.contains(q) implies exists|k: int| 0 <= k < i + 1 && #[trigger] clean_collects(txn.internal@, change_id, pseudo@, gs1, ds1, k, q) by {
                    if before.contains(q) {
                        let k = choose|k: int| 0 <= k < i && #[trigger] clean_collects(txn.internal@, change_id, pseudo@, gs, ds, k, q);
                        assert(clean_collects(txn.internal@, change_id, pseudo@, gs1, ds1, k, q));
                    }
                }
                assert forall|q: Position<ChangeId>| (exists|k: int| 0 <= k < i + 1 && #[trigger] clean_collects(txn.internal@, change_id, pseudo@, gs1, ds1, k, q)) implies inodes@.contains(q) by {
                    let k = choose|k: int| 0 <= k < i + 1 && #[trigger] clean_collects(txn.internal@, change_id, pseudo@, gs1, ds1, k, q);
                    if k < i {
                        assert(clean_collects(txn.internal@, change_id, pseudo@, gs, ds, k, q));
                    }
                }
            }
        } else {
            proof {
                assert forall|q: Position<ChangeId>| (exists|k: int| 0 <= k < i + 1 && #[trigger] clean_collects(txn.internal@, change_id, pseudo@, gs1, ds1, k, q)) implies inodes@.contains(q) by {
                    let k = choose|k: int| 0 <= k < i + 1 && #[trigger] clean_collects(txn.internal@, change_id, pseudo@, gs1, ds1, k, q);
                    if k < i {
                        assert(clean_collects(txn.internal@, change_id, pseudo@, gs, ds, k, q));
                    }
                }
                assert forall|q: Position<ChangeId>| inodes@.contains(q) implies exists|k: int| 0 <= k < i + 1 && #[trigger] clean_collects(txn.internal@, change_id, pseudo@, gs1, ds1, k, q) by {
                    let k = choose|k: int| 0 <= k < i && #[trigger] clean_collects(txn.internal@, change_id, pseudo@, gs, ds, k, q);
                    assert(clean_collects(txn.internal@, change_id, pseudo@, gs1, ds1, k, q));
                }
            }
        }
        proof {
            gs = gs1;
            ds = ds1;
        }
        i = i + 1;
    }
    ws.alive_folder = alive_folder;
    ws.folder_stack = folder_stack;
    proof {
        assert(clean_trace(pseudo@, i as int, gs, ds, old(g)@, g@));
        if pseudo@.len() == 0 && inodes@.len() > 0 {
            assert(inodes@.contains(inodes@[0]));
        }
    }
    Ok(inodes)
}

/// An entry of the depth-first search of [`repair_zombies`].
#[derive(Clone, Copy, Debug, PartialEq, Eq, Structural)]
pub struct StackElt {
    pub vertex: Vertex<ChangeId>,
    pub last_alive: Vertex<ChangeId>,
    pub is_on_path: bool,
}

impl StackElt {
    pub open spec fn spec_is_alive(&self) -> bool {
        self.vertex == self.last_alive
    }

    /// Whether the vertex of this entry is its own last alive ancestor.
    #[verifier::when_used_as_spec(spec_is_alive)]
    pub fn is_alive(&self) -> (r: bool)
        ensures
            r == self.spec_is_alive(),
    {
        self.vertex == self.last_alive
    }
}

/// Every entry of `stack` has its vertex and last alive vertex in `u`.
pub open spec fn stack_within(stack: Seq<StackElt>, u: Set<Vertex<ChangeId>>) -> bool {
    forall|k: int| 0 <= k < stack.len() ==> u.contains(#[trigger] stack[k].vertex) && u.contains(stack[k].last_alive)
}

pub proof fn lemma_stack_within_update(stack: Seq<StackElt>, u: Set<Vertex<ChangeId>>, i: int, x: StackElt)
    requires
        stack_within(stack, u),
        u.contains(x.vertex),
        u.contains(x.last_alive),
    ensures
        0 <= i < stack.len() ==> stack_within(stack.update(i, x), u),
        stack_within(stack.push(x), u),
        stack.len() > 0 ==> stack_within(stack.drop_last(), u),
{
    assert forall|k: int| 0 <= k < stack.push(x).len() implies u.contains(#[trigger] stack.push(x)[k].vertex) && u.contains(stack.push(x)[k].last_alive) by {
        if k < stack.len() {
            assert(stack.push(x)[k] == stack[k]);
        }
    }
    if stack.len() > 0 {
        assert forall|k: int| 0 <= k < stack.drop_last().len() implies u.contains(#[trigger] stack.drop_last()[k].vertex) && u.contains(stack.drop_last()[k].last_alive) by {
            assert(stack.drop_last()[k] == stack[k]);
        }
    }
    if 0 <= i < stack.len() {
        assert forall|k: int| 0 <= k < stack.update(i, x).len() implies u.contains(#[trigger] stack.update(i, x)[k].vertex) && u.contains(stack.update(i, x)[k].last_alive) by {
            if k != i {
                assert(stack.update(i, x)[k] == stack[k]);
            }
        }
    }
}

pub open spec fn pseudo_only() -> EdgeFlags {
    EdgeFlags { block: false, pseudo: true, folder: false, parent: false, deleted: false }
}

fn pair_in(v: &Vec<(Vertex<ChangeId>, Vertex<ChangeId>)>, p: &(Vertex<ChangeId>, Vertex<ChangeId>)) -> (r: bool)
    ensures
        r == v@.contains(*p),
{
    let mut i: usize = 0;
    while i < v.len()
        invariant
            0 <= i <= v.len(),
            forall|j: int| 0 <= j < i ==> v@[j] != *p,
        decreases v.len() - i,
    {
        if v[i].0 == p.0 && v[i].1 == p.1 {
            assert(v@[i as int] == *p);
            return true;
        }
        i = i + 1;
    }
    false
}

fn pair_remove(v: &mut Vec<(Vertex<ChangeId>, Vertex<ChangeId>)>, p: (Vertex<ChangeId>, Vertex<ChangeId>))
    ensures
        forall|q: (Vertex<ChangeId>, Vertex<ChangeId>)| #[trigger] final(v)@.contains(q) <==> (old(v)@.contains(q) && q != p),
{
    let mut kept: Vec<(Vertex<ChangeId>, Vertex<ChangeId>)> = Vec::new();
    let mut i: usize = 0;
    while i < v.len()
        invariant
            0 <= i <= v@.len(),
            v@ == old(v)@,
            forall|q: (Vertex<ChangeId>, Vertex<ChangeId>)| #[trigger] kept@.contains(q) <==> (v@.take(i as int).contains(q) && q != p),
        decreases v.len() - i,
    {
        let x = v[i];
        let ghost k0 = kept@;
        if !(x.0 == p.0 && x.1 == p.1) {
            kept.push(x);
        }
        assert forall|q: (Vertex<ChangeId>, Vertex<ChangeId>)| #[trigger] kept@.contains(q) <==> (v@.take(i + 1).contains(q) && q != p) by {
            if kept@.contains(q) {
                let k = choose|k: int| 0 <= k < kept@.len() && #[trigger] kept@[k] == q;
                if k < k0.len() {
                    assert(k0[k] == q);
                    assert(k0.contains(q));
                    let m = choose|m: int| 0 <= m < i && #[trigger] v@.take(i as int)[m] == q;
                    assert(v@.take(i + 1)[m] == q);
                } else {
                    assert(v@.take(i + 1)[i as int] == q);
                }
            }
            if v@.take(i + 1).contains(q) && q != p {
                let m = choose|m: int| 0 <= m < i + 1 && #[trigger] v@.take(i + 1)[m] == q;
                if m < i {
                    assert(v@.take(i as int)[m] == q);
                    assert(k0.contains(q));
                    let k = choose|k: int| 0 <= k < k0.len() && #[trigger] k0[k] == q;
                    assert(kept@[k] == q);
                } else {
                    assert(kept@[kept@.len() - 1] == q);
                }
            }
        }
        i = i + 1;
    }
    assert(v@.take(v@.len() as int) == v@);
    *v = kept;
}

/// `v` has a folder edge to a child.
pub open spec fn has_folder_child(g: Seq<(Vertex<ChangeId>, Edge)>, v: Vertex<ChangeId>) -> bool {
    exists|e: Edge| #[trigger] g.contains((v, e)) && e.flag.folder && !e.flag.parent
}

/// Reconnects the alive vertices of the file at `root` that are only
/// reachable through dead vertices (zombies), by adding a pseudo-edge from
/// their last alive ancestor on the current path.
pub fn repair_zombies(g: &mut Graph, root: Position<ChangeId>) -> (r: Result<(), LocalApplyError>)
    ensures
        grows_by_root(old(g)@, final(g)@, pseudo_only()),
        has_folder_child(old(g)@, root.spec_inode_vertex()) ==> final(g)@ == old(g)@,
        r matches Err(e) ==> e is Block,
        lookups_found(old(g)@) ==> r is Ok && lookups_found(final(g)@),
{
    let rv = root.inode_vertex();
    let mut stack: Vec<StackElt> = Vec::new();
    stack.push(StackElt { vertex: rv, last_alive: rv, is_on_path: false });
    let mut visited: Vec<(Vertex<ChangeId>, Vertex<ChangeId>)> = Vec::new();
    let ghost universe = keys(g@).insert(rv);
    let ghost pu = pairs(universe, universe);
    let ghost mut vis: Set<(Vertex<ChangeId>, Vertex<ChangeId>)> = Set::empty();
    proof {
        lemma_keys(g@, rv);
        lemma_pairs_finite(universe, universe);
        lemma_grows_by_root_refl(g@, pseudo_only());
    }
    let ghost consistent = lookups_found(old(g)@);
    proof {
        if consistent {
            assert forall|x: Vertex<ChangeId>| universe.contains(x) implies x.start.0 <= x.end.0 by {
                lemma_keys(g@, x);
                if x != rv {
                    let k = choose|k: int| 0 <= k < g@.len() && #[trigger] g@[k].0 == x;
                    assert(g@.contains(g@[k]));
                    assert(g@.contains((x, g@[k].1)));
                }
            }
        }
    }
    let ps = EdgeFlags::pseudo();
    while stack.len() > 0
        invariant
            universe.finite(),
            pu == pairs(universe, universe),
            pu.finite(),
            keys(g@).subset_of(universe),
            vis.subset_of(pu),
            vis.finite(),
            ps == pseudo_only(),
            forall|q: (Vertex<ChangeId>, Vertex<ChangeId>)| vis.contains(q) <==> visited@.contains(q),
            stack_within(stack@, universe),
            universe.contains(rv),
            grows_by_root(old(g)@, g@, pseudo_only()),
            rv == root.spec_inode_vertex(),
            has_folder_child(old(g)@, rv) ==> g@ == old(g)@ && stack@ == seq![StackElt { vertex: rv, last_alive: rv, is_on_path: false }]
                && visited@.len() == 0,
            consistent == lookups_found(old(g)@),
            consistent ==> lookups_found(g@),
            consistent ==> forall|x: Vertex<ChangeId>| universe.contains(x) ==> x.start.0 <= x.end.0,
        decreases pu.len() - vis.len(), stack@.len(),
    {
        proof { vstd::set_lib::lemma_len_subset(vis, pu); }
        let ghost vis0 = vis;
        let ghost stack0 = stack@;
        let ghost visited0 = visited@;
        let elt = stack.pop().unwrap();
        proof {
            assert(universe.contains(rv));
            lemma_stack_within_update(stack0, universe, 0, StackElt { vertex: rv, last_alive: rv, is_on_path: false });
            assert(elt == stack0[stack0.len() - 1]);
            assert(universe.contains(stack0[stack0.len() - 1].vertex));
        }
        // If `elt` is alive and already visited, pass.
        if pair_in(&visited, &(elt.vertex, elt.vertex)) {
            continue;
        }
        // Else, visit its children.
        let ghost st_popped = stack@;
        stack.push(StackElt { is_on_path: true, ..elt });
        proof { lemma_stack_within_update(st_popped, universe, 0, StackElt { is_on_path: true, ..elt }); }
        let pair = (elt.vertex, elt.last_alive);
        let is_first_visit = !pair_in(&visited, &pair);
        if is_first_visit {
            visited.push(pair);
            proof {
                assert(visited@.drop_last() == visited0);
                vis = vis.insert(pair);
                assert forall|q: (Vertex<ChangeId>, Vertex<ChangeId>)| vis.contains(q) <==> visited@.contains(q) by {
                    if visited@.contains(q) {
                        let k = choose|k: int| 0 <= k < visited@.len() && #[trigger] visited@[k] == q;
                        if k < visited@.len() - 1 {
                            assert(visited@.drop_last()[k] == q);
                            assert(visited@.drop_last().contains(q));
                        }
                    }
                    if vis0.contains(q) {
                        assert(visited@.drop_last().contains(q));
                        let k = choose|k: int| 0 <= k < visited@.drop_last().len() && #[trigger] visited@.drop_last()[k] == q;
                        assert(visited@[k] == q);
                    }
                    if q == pair {
                        assert(visited@[visited@.len() - 1] == q);
                    }
                }
            }
        }
        let len = stack.len();
        if !elt.is_on_path {
            // Find the children, in flag order (alive first).
            let es = g.iter_adjacent(elt.vertex, EdgeFlags::empty(), EdgeFlags::all());
            let ghost first = has_folder_child(old(g)@, rv);
            let mut i: usize = 0;
            while i < es.len()
                invariant
                    0 <= i <= es@.len(),
                    es@ == adjacent(g@, elt.vertex, 0, 181),
                    consistent == lookups_found(old(g)@),
                    consistent ==> lookups_found(g@),
                    first == has_folder_child(old(g)@, rv),
                    rv == root.spec_inode_vertex(),
                    first ==> g@ == old(g)@ && elt.vertex == rv,
                    forall|j: int| 0 <= j < i ==> !((#[trigger] es@[j]).flag.folder && !es@[j].flag.parent),
                    len <= stack@.len(),
                    len >= 1,
                    stack@[len - 1].vertex == elt.vertex,
                    stack@[len - 1].is_on_path,
                    !is_first_visit ==> stack@.len() == len,
                    grows_by_root(old(g)@, g@, pseudo_only()),
                    universe.contains(elt.vertex) && universe.contains(elt.last_alive),
                    keys(g@).subset_of(universe),
                    stack_within(stack@, universe),
                decreases es.len() - i,
            {
                let e = es[i];
                i = i + 1;
                if e.flag.parent {
                    if e.flag.block && !e.flag.deleted {
                        // This vertex is alive!
                        let top = stack[len - 1];
                        let ghost st0 = stack@;
                        stack.set(len - 1, StackElt { last_alive: elt.vertex, ..top });
                        proof {
                            assert(universe.contains(st0[len - 1].last_alive));
                            lemma_stack_within_update(st0, universe, len - 1, StackElt { last_alive: elt.vertex, ..top });
                        }
                    }
                    continue;
                } else if e.flag.folder {
                    // The children of a folder are all folders: nothing to repair.
                    return Ok(());
                }
                if is_first_visit {
                    let child = match g.find_block(e.dest) {
                        Ok(c) => c,
                        Err(b) => {
                            proof {
                                lemma_adjacent_bits(g@, elt.vertex, 0, 181, i - 1);
                                assert(g@.contains((elt.vertex, e)));
                            }
                            return Err(LocalApplyError::from_block(b));
                        },
                    };
                    proof {
                        lemma_first_block_key(g@, es@[i - 1].dest, false);
                    }
                    let ghost st0 = stack@;
                    stack.push(StackElt { vertex: child, last_alive: elt.last_alive, is_on_path: false });
                    proof {
                        lemma_stack_within_update(st0, universe, 0, StackElt { vertex: child, last_alive: elt.last_alive, is_on_path: false });
                    }
                }
            }
        }
        proof {
            if has_folder_child(old(g)@, rv) {
                let e = choose|e: Edge| #[trigger] old(g)@.contains((rv, e)) && e.flag.folder && !e.flag.parent;
                lemma_adjacent_complete(g@, rv, 0, 181, e);
            }
        }
        if len >= 2 && stack[len - 1].is_alive() {
            // The path now goes through an alive vertex.
            pair_remove(&mut visited, pair);
            let ghost after_remove = visited@;
            let vv = (elt.vertex, elt.vertex);
            let pushed = !pair_in(&visited, &vv);
            if pushed {
                visited.push(vv);
            }
            proof {
                let vis1 = vis.remove(pair).insert(vv);
                assert forall|q: (Vertex<ChangeId>, Vertex<ChangeId>)| visited@.contains(q) <==> (after_remove.contains(q) || q == vv) by {
                    if pushed {
                        assert(visited@.drop_last() == after_remove);
                        if visited@.contains(q) {
                            let k = choose|k: int| 0 <= k < visited@.len() && #[trigger] visited@[k] == q;
                            if k < visited@.len() - 1 {
                                assert(after_remove[k] == q);
                            }
                        }
                        if after_remove.contains(q) {
                            let k = choose|k: int| 0 <= k < after_remove.len() && #[trigger] after_remove[k] == q;
                            assert(visited@[k] == q);
                        }
                        if q == vv {
                            assert(visited@[visited@.len() - 1] == q);
                        }
                    }
                }
                assert forall|q: (Vertex<ChangeId>, Vertex<ChangeId>)| vis1.contains(q) <==> visited@.contains(q) by {
                    assert(after_remove.contains(q) <==> (vis.contains(q) && q != pair));
                }
                if is_first_visit {
                    assert(vis1.len() == vis0.len() + 1);
                } else {
                    assert(vis0.contains(pair));
                    assert(vis1.len() == vis0.len());
                }
                vis = vis1;
            }
            let mut x = len;
            let ghost slen = stack@.len();
            while x < stack.len()
                invariant
                    len <= x <= stack@.len(),
                    stack@.len() == slen,
                    len >= 2,
                    universe.contains(elt.vertex) && universe.contains(elt.last_alive),
                    stack_within(stack@, universe),
                    stack@[len - 1].vertex == elt.vertex,
                decreases stack.len() - x,
            {
                let top = stack[x];
                let ghost st0 = stack@;
                stack.set(x, StackElt { last_alive: elt.vertex, ..top });
                proof {
                    assert(universe.contains(st0[x as int].vertex));
                    lemma_stack_within_update(st0, universe, x as int, StackElt { last_alive: elt.vertex, ..top });
                }
                x = x + 1;
            }
            // The last vertex on the path to `elt`: if it is not alive, reconnect.
            let mut j = len - 1;
            let mut last_on_path: Option<usize> = None;
            while j > 0
                invariant
                    0 <= j <= len - 1,
                    len <= stack@.len(),
                    last_on_path matches Some(k) ==> k < len - 1,
                decreases j,
            {
                j = j - 1;
                if stack[j].is_on_path {
                    last_on_path = Some(j);
                    break;
                }
            }
            if let Some(lop) = last_on_path {
                if !stack[lop].is_alive() {
                    let ghost g0 = g@;
                    put_graph_with_rev(g, ps, elt.last_alive, stack[len - 1].vertex, ChangeId::root());
                    proof {
                        lemma_put_with_rev_grows(g0, pseudo_only(), elt.last_alive, stack@[len - 1].vertex, ChangeId(0));
                        if consistent {
                            assert(universe.contains(stack@[len - 1].vertex));
                            lemma_put_with_rev_lookups(g0, pseudo_only(), elt.last_alive, stack@[len - 1].vertex, ChangeId(0));
                        }
                        lemma_grows_by_root_trans(old(g)@, g0, g@, pseudo_only());
                    }
                }
            }
        } else {
            proof {
                if is_first_visit {
                    assert(vis.len() == vis0.len() + 1);
                }
            }
        }
        // If no children, pop.
        if stack.len() == len {
            let ghost st1 = stack@;
            stack.pop();
            proof { lemma_stack_within_update(st1, universe, 0, StackElt { vertex: rv, last_alive: rv, is_on_path: false }); }
        }
        proof {
            vstd::set_lib::lemma_len_subset(vis, pu);
        }
    }
    Ok(())
}

/// Whether the vertex `down` has a live parent edge introduced by another change than `c`.
pub open spec fn other_parents_spec(g: Seq<(Vertex<ChangeId>, Edge)>, down: Vertex<ChangeId>, c: ChangeId) -> bool {
    exists|i: int| 0 <= i < g.len() && #[trigger] g[i].0 == down && 32 <= g[i].1.flag.spec_bits() <= 53 && g[i].1.introduced_by != c
}

/// Whether the vertex `down` has a live parent edge introduced by another change than `c`.
fn has_other_parents(g: &Graph, down: Vertex<ChangeId>, c: ChangeId) -> (r: bool)
    ensures
        r == other_parents_spec(g@, down, c),
{
    let mut i: usize = 0;
    while i < g.edges.len()
        invariant
            0 <= i <= g@.len(),
            forall|j: int| 0 <= j < i ==> !(#[trigger] g@[j].0 == down && 32 <= g@[j].1.flag.spec_bits() <= 53 && g@[j].1.introduced_by != c),
        decreases g.edges.len() - i,
    {
        let (w, e) = g.edges[i];
        let b = e.flag.bits();
        if w == down && 32 <= b && b <= 53 && e.introduced_by != c {
            assert(g@[i as int].0 == down);
            return true;
        }
        i = i + 1;
    }
    false
}

/// Adds to `inodes` the inode of `n` if one of its edges misses a context.
pub fn has_missing_edge_context(
    txn: &Txn,
    g: &Graph,
    change_id: ChangeId,
    change: &Change,
    n: &EdgeMap,
    inodes: &mut Vec<Position<ChangeId>>,
) -> (r: Result<(), LocalApplyError>)
    requires
        intros_registered(txn.internal@, g@),
        edge_map_wf(*n),
        old(inodes)@.no_duplicates(),
    ensures
        final(inodes)@.no_duplicates(),
        forall|q: Position<ChangeId>| old(inodes)@.contains(q) ==> final(inodes)@.contains(q),
        forall|q: Position<ChangeId>| final(inodes)@.contains(q) ==> old(inodes)@.contains(q) || internal_pos_spec(txn.internal@, n.inode, change_id) == Ok::<Position<ChangeId>, InconsistentChange>(q),
        r matches Err(e) ==> graph_error(e),
        match internal_pos_spec(txn.internal@, n.inode, change_id) {
            Err(x) => r == Err::<(), LocalApplyError>(LocalApplyError::spec_from_inconsistent(x)) && final(inodes)@ == old(inodes)@,
            Ok(inode) => if old(inodes)@.contains(inode) {
                r is Ok && final(inodes)@ == old(inodes)@
            } else {
                match edges_missing(txn.internal@, g@, change_id, *change, n.edges@) {
                    Err(x) => r == Err::<(), LocalApplyError>(LocalApplyError::spec_from_missing(x)) && final(inodes)@ == old(inodes)@,
                    Ok(true) => r is Ok && final(inodes)@ == old(inodes)@.push(inode),
                    Ok(false) => r is Ok && final(inodes)@ == old(inodes)@,
                }
            },
        },
{
    let inode = match internal_pos(txn, &n.inode, change_id) {
        Ok(p) => p,
        Err(x) => return Err(LocalApplyError::from_inconsistent(x)),
    };
    if !position_in(inodes, &inode) {
        let mut k: usize = 0;
        assert(n.edges@.skip(0) == n.edges@);
        while k < n.edges.len()
            invariant
                0 <= k <= n.edges@.len(),
                intros_registered(txn.internal@, g@),
                edge_map_wf(*n),
                inodes@ == old(inodes)@,
                old(inodes)@.no_duplicates(),
                !old(inodes)@.contains(inode),
                internal_pos_spec(txn.internal@, n.inode, change_id) == Ok::<Position<ChangeId>, InconsistentChange>(inode),
                edges_missing(txn.internal@, g@, change_id, *change, n.edges@) == edges_missing(
                    txn.internal@,
                    g@,
                    change_id,
                    *change,
                    n.edges@.skip(k as int),
                ),
            decreases n.edges.len() - k,
        {
            let e = &n.edges[k];
            assert(!n.edges@[k as int].flag.parent);
            assert(n.edges@.skip(k as int)[0] == n.edges@[k as int]);
            assert(n.edges@.skip(k as int).drop_first() == n.edges@.skip(k + 1));
            let missing = if e.flag.deleted {
                has_missing_context_deleted(txn, g, change_id, change, e)
            } else {
                has_missing_context_nondeleted(txn, g, change_id, e)
            };
            match missing {
                Ok(true) => {
                    inodes.push(inode);
                    assert(inodes@.no_duplicates()) by {
                        assert forall|a: int, b: int| 0 <= a < b < inodes@.len() implies inodes@[a] != inodes@[b] by {
                            if b == inodes@.len() - 1 {
                                assert(old(inodes)@[a] == inodes@[a]);
                            }
                        }
                    }
                    assert forall|q: Position<ChangeId>| old(inodes)@.contains(q) implies inodes@.contains(q) by {
                        let j = choose|j: int| 0 <= j < old(inodes)@.len() && old(inodes)@[j] == q;
                        assert(inodes@[j] == q);
                    }
                    assert forall|q: Position<ChangeId>| inodes@.contains(q) implies old(inodes)@.contains(q) || q == inode by {
                        let j = choose|j: int| 0 <= j < inodes@.len() && inodes@[j] == q;
                        if j < old(inodes)@.len() {
                            assert(old(inodes)@[j] == q);
                        }
                    }
                    return Ok(());
                },
                Ok(false) => {},
                Err(x) => return Err(LocalApplyError::from_missing(x)),
            }
            k = k + 1;
        }
        assert(n.edges@.skip(n.edges@.len() as int) == Seq::<NewEdge>::empty());
    }
    Ok(())
}

/// What the check of one edge of an edge map gives: for a deletion, whether
/// the deleted vertices have unknown children, else whether the ends of the
/// edge miss a context.
pub open spec fn edge_missing(internal: Seq<(ChangeHash, ChangeId)>, g: Seq<(Vertex<ChangeId>, Edge)>, change_id: ChangeId, change: Change, e: NewEdge) -> Result<
    bool,
    MissingError,
> {
    if e.flag.deleted {
        deleted_result(internal, g, change_id, change, e)
    } else {
        nondeleted_result(internal, g, change_id, e)
    }
}

/// The result of checking the edges `edges` in order, until one misses a
/// context or fails.
pub open spec fn edges_missing(
    internal: Seq<(ChangeHash, ChangeId)>,
    g: Seq<(Vertex<ChangeId>, Edge)>,
    change_id: ChangeId,
    change: Change,
    edges: Seq<NewEdge>,
) -> Result<bool, MissingError>
    decreases edges.len(),
{
    if edges.len() == 0 {
        Ok(false)
    } else {
        match edge_missing(internal, g, change_id, change, edges[0]) {
            Err(x) => Err(x),
            Ok(true) => Ok(true),
            Ok(false) => edges_missing(internal, g, change_id, change, edges.drop_first()),
        }
    }
}

/// The result of looking, in order, for an up context of a new vertex whose
/// block is dead: `Ok(true)` at the first one, `Ok(false)` if there is none,
/// or the first error met on the way.
pub open spec fn dead_up_context(
    internal: Seq<(ChangeHash, ChangeId)>,
    g: Seq<(Vertex<ChangeId>, Edge)>,
    change_id: ChangeId,
    ups: Seq<Position<Option<ChangeHash>>>,
) -> Result<bool, LocalApplyError>
    decreases ups.len(),
{
    if ups.len() == 0 {
        Ok(false)
    } else {
        match internal_pos_spec(internal, ups[0], change_id) {
            Err(x) => Err(LocalApplyError::spec_from_inconsistent(x)),
            Ok(p) => match first_block(g, p, true) {
                None => Err(LocalApplyError::Block { block: p }),
                Some(v) => if !is_alive_spec(g, v) {
                    Ok(true)
                } else {
                    dead_up_context(internal, g, change_id, ups.drop_first())
                },
            },
        }
    }
}

/// The result of looking, in order, for a down context of a new vertex
/// whose block has no parent edge from another change than `change_id`.
pub open spec fn orphan_down_context(
    internal: Seq<(ChangeHash, ChangeId)>,
    g: Seq<(Vertex<ChangeId>, Edge)>,
    change_id: ChangeId,
    downs: Seq<Position<Option<ChangeHash>>>,
) -> Result<bool, LocalApplyError>
    decreases downs.len(),
{
    if downs.len() == 0 {
        Ok(false)
    } else {
        match internal_pos_spec(internal, downs[0], change_id) {
            Err(x) => Err(LocalApplyError::spec_from_inconsistent(x)),
            Ok(p) => match first_block(g, p, false) {
                None => Err(LocalApplyError::Block { block: p }),
                Some(v) => if !other_parents_spec(g, v, change_id) {
                    Ok(true)
                } else {
                    orphan_down_context(internal, g, change_id, downs.drop_first())
                },
            },
        }
    }
}

/// What checking the atom `a` of `change` makes of the collected inodes `s`.
pub open spec fn atom_contexts(
    internal: Seq<(ChangeHash, ChangeId)>,
    g: Seq<(Vertex<ChangeId>, Edge)>,
    change_id: ChangeId,
    change: Change,
    s: Seq<Position<ChangeId>>,
    a: Atom,
) -> Result<Seq<Position<ChangeId>>, LocalApplyError> {
    match a {
        Atom::NewVertex(n) => if n.flag.folder {
            Ok(s)
        } else {
            match internal_pos_spec(internal, n.inode, change_id) {
                Err(x) => Err(LocalApplyError::spec_from_inconsistent(x)),
                Ok(inode) => if s.contains(inode) {
                    Ok(s)
                } else {
                    match dead_up_context(internal, g, change_id, n.up_context@) {
                        Err(e) => Err(e),
                        Ok(up) => {
                            let s1 = if up { s.push(inode) } else { s };
                            match orphan_down_context(internal, g, change_id, n.down_context@) {
                                Err(e) => Err(e),
                                Ok(down) => Ok(if down { with_position(s1, inode) } else { s1 }),
                            }
                        },
                    }
                },
            }
        },
        Atom::EdgeMap(n) => match internal_pos_spec(internal, n.inode, change_id) {
            Err(x) => Err(LocalApplyError::spec_from_inconsistent(x)),
            Ok(inode) => if s.contains(inode) {
                Ok(s)
            } else {
                match edges_missing(internal, g, change_id, change, n.edges@) {
                    Err(x) => Err(LocalApplyError::spec_from_missing(x)),
                    Ok(b) => Ok(if b { s.push(inode) } else { s }),
                }
            },
        },
    }
}

/// Checking the atoms `atoms`, in order, from the collected inodes `s`.
pub open spec fn atoms_contexts(
    internal: Seq<(ChangeHash, ChangeId)>,
    g: Seq<(Vertex<ChangeId>, Edge)>,
    change_id: ChangeId,
    change: Change,
    s: Seq<Position<ChangeId>>,
    atoms: Seq<Atom>,
) -> Result<Seq<Position<ChangeId>>, LocalApplyError>
    decreases atoms.len(),
{
    if atoms.len() == 0 {
        Ok(s)
    } else {
        match atoms_contexts(internal, g, change_id, change, s, atoms.drop_last()) {
            Err(e) => Err(e),
            Ok(t) => atom_contexts(internal, g, change_id, change, t, atoms.last()),
        }
    }
}

/// Checking the hunks `hunks`, in order, from the collected inodes `s`.
pub open spec fn hunks_contexts(
    internal: Seq<(ChangeHash, ChangeId)>,
    g: Seq<(Vertex<ChangeId>, Edge)>,
    change_id: ChangeId,
    change: Change,
    s: Seq<Position<ChangeId>>,
    hunks: Seq<Vec<Atom>>,
) -> Result<Seq<Position<ChangeId>>, LocalApplyError>
    decreases hunks.len(),
{
    if hunks.len() == 0 {
        Ok(s)
    } else {
        match hunks_contexts(internal, g, change_id, change, s, hunks.drop_last()) {
            Err(e) => Err(e),
            Ok(t) => atoms_contexts(internal, g, change_id, change, t, hunks.last()@),
        }
    }
}

/// Adding to `s`, in order, the inodes of the files whose parents were
/// unknown (`ps`).
pub open spec fn parents_contexts(
    internal: Seq<(ChangeHash, ChangeId)>,
    change_id: ChangeId,
    s: Seq<Position<ChangeId>>,
    ps: Seq<(Vertex<ChangeId>, Vertex<ChangeId>, Position<Option<ChangeHash>>, EdgeFlags)>,
) -> Result<Seq<Position<ChangeId>>, LocalApplyError>
    decreases ps.len(),
{
    if ps.len() == 0 {
        Ok(s)
    } else {
        match parents_contexts(internal, change_id, s, ps.drop_last()) {
            Err(e) => Err(e),
            Ok(t) => match internal_pos_spec(internal, ps.last().2, change_id) {
                Err(x) => Err(LocalApplyError::spec_from_inconsistent(x)),
                Ok(q) => Ok(with_position(t, q)),
            },
        }
    }
}

/// The inodes collected from `s`: those of the files whose parents were
/// unknown (`unknown`), then those where an atom of `change` misses a
/// context; or the first error met.
pub open spec fn missing_contexts(
    internal: Seq<(ChangeHash, ChangeId)>,
    g: Seq<(Vertex<ChangeId>, Edge)>,
    change_id: ChangeId,
    change: Change,
    unknown: Seq<(Vertex<ChangeId>, Vertex<ChangeId>, Position<Option<ChangeHash>>, EdgeFlags)>,
    s: Seq<Position<ChangeId>>,
) -> Result<Seq<Position<ChangeId>>, LocalApplyError> {
    match parents_contexts(internal, change_id, s, unknown) {
        Err(e) => Err(e),
        Ok(t) => hunks_contexts(internal, g, change_id, change, t, change.changes@),
    }
}

/// Once the check of a prefix of the atoms fails, the check of all of them
/// fails in the same way.
pub proof fn lemma_atoms_contexts_err(
    internal: Seq<(ChangeHash, ChangeId)>,
    g: Seq<(Vertex<ChangeId>, Edge)>,
    change_id: ChangeId,
    change: Change,
    s: Seq<Position<ChangeId>>,
    atoms: Seq<Atom>,
    n: int,
)
    requires
        0 <= n <= atoms.len(),
        atoms_contexts(internal, g, change_id, change, s, atoms.take(n)) is Err,
    ensures
        atoms_contexts(internal, g, change_id, change, s, atoms) == atoms_contexts(internal, g, change_id, change, s, atoms.take(n)),
    decreases atoms.len() - n,
{
    if n == atoms.len() {
        assert(atoms.take(n) =~= atoms);
    } else {
        assert(atoms.drop_last().take(n) =~= atoms.take(n));
        lemma_atoms_contexts_err(internal, g, change_id, change, s, atoms.drop_last(), n);
    }
}

/// Once the check of a prefix of the hunks fails, the check of all of them
/// fails in the same way.
pub proof fn lemma_hunks_contexts_err(
    internal: Seq<(ChangeHash, ChangeId)>,
    g: Seq<(Vertex<ChangeId>, Edge)>,
    change_id: ChangeId,
    change: Change,
    s: Seq<Position<ChangeId>>,
    hunks: Seq<Vec<Atom>>,
    n: int,
)
    requires
        0 <= n <= hunks.len(),
        hunks_contexts(internal, g, change_id, change, s, hunks.take(n)) is Err,
    ensures
        hunks_contexts(internal, g, change_id, change, s, hunks) == hunks_contexts(internal, g, change_id, change, s, hunks.take(n)),
    decreases hunks.len() - n,
{
    if n == hunks.len() {
        assert(hunks.take(n) =~= hunks);
    } else {
        assert(hunks.drop_last().take(n) =~= hunks.take(n));
        lemma_hunks_contexts_err(internal, g, change_id, change, s, hunks.drop_last(), n);
    }
}

/// Once a prefix of the unknown parents fails, all of them fail in the
/// same way.
pub proof fn lemma_parents_contexts_err(
    internal: Seq<(ChangeHash, ChangeId)>,
    change_id: ChangeId,
    s: Seq<Position<ChangeId>>,
    ps: Seq<(Vertex<ChangeId>, Vertex<ChangeId>, Position<Option<ChangeHash>>, EdgeFlags)>,
    n: int,
)
    requires
        0 <= n <= ps.len(),
        parents_contexts(internal, change_id, s, ps.take(n)) is Err,
    ensures
        parents_contexts(internal, change_id, s, ps) == parents_contexts(internal, change_id, s, ps.take(n)),
    decreases ps.len() - n,
{
    if n == ps.len() {
        assert(ps.take(n) =~= ps);
    } else {
        assert(ps.drop_last().take(n) =~= ps.take(n));
        lemma_parents_contexts_err(internal, change_id, s, ps.drop_last(), n);
    }
}

/// Whether the block of one of the up contexts `ups` is dead (see
/// [dead_up_context]).
fn has_dead_up_context(txn: &Txn, g: &Graph, change_id: ChangeId, ups: &Vec<Position<Option<ChangeHash>>>) -> (r: Result<bool, LocalApplyError>)
    ensures
        r == dead_up_context(txn.internal@, g@, change_id, ups@),
        r matches Err(e) ==> graph_error(e),
{
    assert(ups@.skip(0) =~= ups@);
    let mut k: usize = 0;
    while k < ups.len()
        invariant
            0 <= k <= ups@.len(),
            dead_up_context(txn.internal@, g@, change_id, ups@) == dead_up_context(txn.internal@, g@, change_id, ups@.skip(k as int)),
        decreases ups.len() - k,
    {
        assert(ups@.skip(k as int).drop_first() =~= ups@.skip(k + 1));
        let up = match internal_pos(txn, &ups[k], change_id) {
            Ok(p) => p,
            Err(x) => return Err(LocalApplyError::from_inconsistent(x)),
        };
        let up = match g.find_block_end(up) {
            Ok(v) => v,
            Err(b) => return Err(LocalApplyError::from_block(b)),
        };
        if !g.is_alive(&up) {
            return Ok(true);
        }
        k = k + 1;
    }
    Ok(false)
}

/// Whether the block of one of the down contexts `downs` has no parent
/// edge from another change (see [orphan_down_context]).
fn has_orphan_down_context(txn: &Txn, g: &Graph, change_id: ChangeId, downs: &Vec<Position<Option<ChangeHash>>>) -> (r: Result<bool, LocalApplyError>)
    ensures
        r == orphan_down_context(txn.internal@, g@, change_id, downs@),
        r matches Err(e) ==> graph_error(e),
{
    assert(downs@.skip(0) =~= downs@);
    let mut k: usize = 0;
    while k < downs.len()
        invariant
            0 <= k <= downs@.len(),
            orphan_down_context(txn.internal@, g@, change_id, downs@) == orphan_down_context(txn.internal@, g@, change_id, downs@.skip(k as int)),
        decreases downs.len() - k,
    {
        assert(downs@.skip(k as int).drop_first() =~= downs@.skip(k + 1));
        let down = match internal_pos(txn, &downs[k], change_id) {
            Ok(p) => p,
            Err(x) => return Err(LocalApplyError::from_inconsistent(x)),
        };
        let down = match g.find_block(down) {
            Ok(v) => v,
            Err(b) => return Err(LocalApplyError::from_block(b)),
        };
        if !has_other_parents(g, down, change_id) {
            return Ok(true);
        }
        k = k + 1;
    }
    Ok(false)
}

/// Adds to `inodes` the inode of the file of the atom `a` if it misses a
/// context (see [atom_contexts]).
fn collect_atom_context(
    txn: &Txn,
    g: &Graph,
    change_id: ChangeId,
    change: &Change,
    a: &Atom,
    inodes: &mut Vec<Position<ChangeId>>,
) -> (r: Result<(), LocalApplyError>)
    requires
        intros_registered(txn.internal@, g@),
        *a matches Atom::EdgeMap(n) ==> edge_map_wf(n),
        old(inodes)@.no_duplicates(),
    ensures
        final(inodes)@.no_duplicates(),
        forall|q: Position<ChangeId>| old(inodes)@.contains(q) ==> final(inodes)@.contains(q),
        match atom_contexts(txn.internal@, g@, change_id, *change, old(inodes)@, *a) {
            Ok(s) => r is Ok && final(inodes)@ == s,
            Err(e) => r == Err::<(), LocalApplyError>(e),
        },
        r matches Err(e) ==> graph_error(e),
{
    match a {
        Atom::NewVertex(n) => {
            if !n.flag.folder {
                let inode = match internal_pos(txn, &n.inode, change_id) {
                    Ok(p) => p,
                    Err(x) => return Err(LocalApplyError::from_inconsistent(x)),
                };
                if !position_in(inodes, &inode) {
                    match has_dead_up_context(txn, g, change_id, &n.up_context) {
                        Err(e) => return Err(e),
                        Ok(true) => insert_position(inodes, inode),
                        Ok(false) => {},
                    }
                    let ghost s1 = inodes@;
                    match has_orphan_down_context(txn, g, change_id, &n.down_context) {
                        Err(e) => return Err(e),
                        Ok(true) => insert_position(inodes, inode),
                        Ok(false) => {},
                    }
                    proof {
                        assert(forall|q: Position<ChangeId>| s1.contains(q) ==> inodes@.contains(q));
                    }
                }
            }
            Ok(())
        },
        Atom::EdgeMap(n) => has_missing_edge_context(txn, g, change_id, change, n, inodes),
    }
}

/// Collects the inodes of the files where `change` misses a context: its
/// new vertices hang below dead vertices or above vertices with no other
/// parent, or its edges miss a context.
pub fn collect_missing_contexts(
    txn: &Txn,
    g: &Graph,
    ws: &mut Workspace,
    change: &Change,
    change_id: ChangeId,
    inodes: &mut Vec<Position<ChangeId>>,
) -> (r: Result<(), LocalApplyError>)
    requires
        intros_registered(txn.internal@, g@),
        change_wf(*change),
        old(inodes)@.no_duplicates(),
    ensures
        final(inodes)@.no_duplicates(),
        forall|q: Position<ChangeId>| old(inodes)@.contains(q) ==> final(inodes)@.contains(q),
        match missing_contexts(txn.internal@, g@, change_id, *change, old(ws).missing_context.unknown_parents@, old(inodes)@) {
            Ok(s) => r is Ok && final(inodes)@ == s,
            Err(e) => r == Err::<(), LocalApplyError>(e),
        },
        final(ws).missing_context.unknown_parents@.len() == 0,
        final(ws).missing_context.files == old(ws).missing_context.files,
        final(ws).missing_context.pseudo == old(ws).missing_context.pseudo,
        r matches Err(e) ==> graph_error(e),
        change.changes@.len() == 0 && old(ws).missing_context.unknown_parents@.len() == 0 ==> r is Ok && final(inodes)@ == old(inodes)@,
{
    let mut unknown: Vec<(Vertex<ChangeId>, Vertex<ChangeId>, Position<Option<ChangeHash>>, EdgeFlags)> = Vec::new();
    std::mem::swap(&mut unknown, &mut ws.missing_context.unknown_parents);
    let ghost s0 = inodes@;
    let mut u: usize = 0;
    while u < unknown.len()
        invariant
            0 <= u <= unknown@.len(),
            unknown@ == old(ws).missing_context.unknown_parents@,
            parents_contexts(txn.internal@, change_id, s0, unknown@.take(u as int)) == Ok::<Seq<Position<ChangeId>>, LocalApplyError>(inodes@),
            s0 == old(inodes)@,
            inodes@.no_duplicates(),
            forall|q: Position<ChangeId>| old(inodes)@.contains(q) ==> inodes@.contains(q),
            ws.missing_context.unknown_parents@.len() == 0,
            ws.missing_context.files == old(ws).missing_context.files,
            ws.missing_context.pseudo == old(ws).missing_context.pseudo,
        decreases unknown.len() - u,
    {
        assert(unknown@.take(u + 1).drop_last() =~= unknown@.take(u as int));
        let p = match internal_pos(txn, &unknown[u].2, change_id) {
            Ok(p) => p,
            Err(x) => {
                proof {
                    lemma_parents_contexts_err(txn.internal@, change_id, s0, unknown@, u + 1);
                }
                return Err(LocalApplyError::from_inconsistent(x));
            },
        };
        insert_position(inodes, p);
        u = u + 1;
    }
    assert(unknown@.take(unknown@.len() as int) =~= unknown@);
    let ghost s1 = inodes@;
    let mut h: usize = 0;
    while h < change.changes.len()
        invariant
            0 <= h <= change.changes@.len(),
            intros_registered(txn.internal@, g@),
            change_wf(*change),
            parents_contexts(txn.internal@, change_id, old(inodes)@, old(ws).missing_context.unknown_parents@) == Ok::<Seq<Position<ChangeId>>, LocalApplyError>(s1),
            hunks_contexts(txn.internal@, g@, change_id, *change, s1, change.changes@.take(h as int)) == Ok::<Seq<Position<ChangeId>>, LocalApplyError>(inodes@),
            inodes@.no_duplicates(),
            forall|q: Position<ChangeId>| old(inodes)@.contains(q) ==> inodes@.contains(q),
            ws.missing_context.unknown_parents@.len() == 0,
            ws.missing_context.files == old(ws).missing_context.files,
            ws.missing_context.pseudo == old(ws).missing_context.pseudo,
        decreases change.changes.len() - h,
    {
        let hunk = &change.changes[h];
        assert(change.changes@.take(h + 1).drop_last() =~= change.changes@.take(h as int));
        let ghost sh = inodes@;
        let mut a: usize = 0;
        while a < hunk.len()
            invariant
                0 <= a <= hunk@.len(),
                hunk == change.changes@[h as int],
                0 <= h < change.changes@.len(),
                intros_registered(txn.internal@, g@),
                change_wf(*change),
                parents_contexts(txn.internal@, change_id, old(inodes)@, old(ws).missing_context.unknown_parents@) == Ok::<Seq<Position<ChangeId>>, LocalApplyError>(s1),
                hunks_contexts(txn.internal@, g@, change_id, *change, s1, change.changes@.take(h as int)) == Ok::<Seq<Position<ChangeId>>, LocalApplyError>(sh),
                change.changes@.take(h + 1).drop_last() == change.changes@.take(h as int),
                atoms_contexts(txn.internal@, g@, change_id, *change, sh, hunk@.take(a as int)) == Ok::<Seq<Position<ChangeId>>, LocalApplyError>(inodes@),
                inodes@.no_duplicates(),
                forall|q: Position<ChangeId>| old(inodes)@.contains(q) ==> inodes@.contains(q),
                ws.missing_context.unknown_parents@.len() == 0,
                ws.missing_context.files == old(ws).missing_context.files,
                ws.missing_context.pseudo == old(ws).missing_context.pseudo,
            decreases hunk.len() - a,
        {
            assert(hunk@.take(a + 1).drop_last() =~= hunk@.take(a as int));
            assert(change.changes@[h as int]@[a as int] == hunk@[a as int]);
            let ghost before = inodes@;
            match collect_atom_context(txn, g, change_id, change, &hunk[a], inodes) {
                Ok(()) => {},
                Err(e) => {
                    proof {
                        lemma_atoms_contexts_err(txn.internal@, g@, change_id, *change, sh, hunk@, a + 1);
                        assert(change.changes@.take(h + 1).last() == hunk);
                        lemma_hunks_contexts_err(txn.internal@, g@, change_id, *change, s1, change.changes@, h + 1);
                    }
                    return Err(e);
                },
            }
            proof {
                assert forall|q: Position<ChangeId>| old(inodes)@.contains(q) implies inodes@.contains(q) by {
                    assert(before.contains(q));
                }
            }
            a = a + 1;
        }
        proof {
            assert(hunk@.take(a as int) =~= hunk@);
            assert(change.changes@.take(h + 1).last() == hunk);
        }
        h = h + 1;
    }
    assert(change.changes@.take(h as int) =~= change.changes@);
    Ok(())
}

} // verus!
