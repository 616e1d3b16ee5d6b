//! Applying whole changes to channels: registering them, adding their
//! atoms to the channel's graph, and repairing the graph afterwards.
use vstd::prelude::*;
use crate::apply::{
    all_pseudo, clean_obsolete_pseudo_edges, collect_missing_contexts, graph_error, repair_cyclic_paths, repair_zombies, ApplyError,
    LocalApplyError, Workspace,
};
use crate::atoms::{
    lemma_grows_introduced, lemma_introduced_trans, lemma_intros_registered, lemma_sub_introduced, put_newedge, put_newvertex,
    lemma_replaced_edge_replaces, newedge_segs, replaces, context_flag, new_vertex, intro_of, resolve,
};
use crate::change::{change_wf, edge_map_edges, edge_map_wf, Atom, Change, NewEdge, NewVertex};
use crate::changestore::ChangeStore;
use crate::graph::{forward_edge, introduced_since, removed_carry, reverse_edge, sub_graph};
use crate::missing_context::{detect_folder_conflict_resolutions, intros_registered};
use crate::pristine::{ChangeHash, ChangeId, ChangePosition, Edge, EdgeFlags, Position, Vertex};
use crate::txn::{
    external_of, internal_of, lemma_external_of_absent, lemma_external_of_push, lemma_internal_of_push, lemma_log_position,
    lemma_log_prefix,
    log_position, merkle_next_spec, revtree_of, inode_pos_of, tree_view, revtree_view, txn_wf, without, Channel, Inode, Merkle,
    OwnedPathId, Txn, TxnErr,
};

verus! {

/// What applying a change leaves of a channel that did not hold it: the
/// change is the last entry of the log, and the graph only gained edges
/// introduced by the change or by the root change.
pub open spec fn applied_to(old: Channel, new: Channel, change_id: ChangeId, hash: ChangeHash) -> bool {
    &&& new.log@ == old.log@.push((change_id, hash, merkle_next_spec(old.spec_state(), hash)))
    &&& new.name == old.name
    &&& introduced_since(old.graph@, new.graph@, change_id)
}

/// After a change is applied to a channel that did not hold it, the
/// channel finds it, as the last change of its log, and its state is the
/// state that the change leads to; so applying it again is refused.
pub proof fn lemma_applied_change_found(old: Channel, new: Channel, change_id: ChangeId, hash: ChangeHash)
    requires
        log_position(old.log@, change_id) is None,
        applied_to(old, new, change_id, hash),
    ensures
        log_position(new.log@, change_id) == Some(old.log@.len() as int),
        new.spec_state() == merkle_next_spec(old.spec_state(), hash),
        new.log@.len() == old.log@.len() + 1,
{
    assert(new.log@.drop_last() == old.log@);
}

/// `x` may leave a graph when `change` (registered as `change_id`) is
/// applied to it: it is a pseudo-edge, or an edge of one of the change's
/// edge maps replaces it.
pub open spec fn removable_by(internal: Seq<(ChangeHash, ChangeId)>, change: Change, change_id: ChangeId, x: (Vertex<ChangeId>, Edge)) -> bool {
    ||| x.1.flag.pseudo
    ||| exists|h: int, a: int, k: int|
        0 <= h < change.changes@.len() && 0 <= a < change.changes@[h]@.len() && 0 <= k < edge_map_edges(change.changes@[h]@[a]).len()
            && #[trigger] replaces(internal, change_id, edge_map_edges(change.changes@[h]@[a])[k], x)
}

/// Every entry of `old` that is missing from `new` may leave a graph when
/// `change` is applied.
pub open spec fn only_removable_left(
    internal: Seq<(ChangeHash, ChangeId)>,
    change: Change,
    change_id: ChangeId,
    old: Seq<(Vertex<ChangeId>, Edge)>,
    new: Seq<(Vertex<ChangeId>, Edge)>,
) -> bool {
    forall|x: (Vertex<ChangeId>, Edge)| #[trigger] old.contains(x) && !new.contains(x) ==> removable_by(internal, change, change_id, x)
}

/// The new edge `e` of `change`, applied to graph `gb`, shows in graph `g`:
/// its introducer and its ends are found in `gb`; each edge that it puts
/// between the blocks it spans, both ways, is in `g` unless the change may
/// remove it; and each edge that it replaces, where that one belongs to
/// another change than `change_id` and the root change, is gone from `g`.
pub open spec fn new_edge_shows(
    internal: Seq<(ChangeHash, ChangeId)>,
    change: Change,
    change_id: ChangeId,
    gb: Seq<(Vertex<ChangeId>, Edge)>,
    g: Seq<(Vertex<ChangeId>, Edge)>,
    e: NewEdge,
) -> bool {
    match (intro_of(internal, e.introduced_by, change_id), newedge_segs(internal, gb, e, change_id)) {
        (Some(i), Some(segs)) => forall|k: int| 0 <= k < segs.len() ==> {
            let seg = #[trigger] segs[k];
            let fwd = (seg.0, forward_edge(e.flag, seg.1, change_id));
            let rev = (seg.1, reverse_edge(e.flag, seg.0, change_id));
            &&& (g.contains(fwd) || removable_by(internal, change, change_id, fwd))
            &&& (g.contains(rev) || removable_by(internal, change, change_id, rev))
            &&& (i != change_id && !i.spec_is_root() ==> !g.contains((seg.0, forward_edge(e.previous, seg.1, i))) && !g.contains(
                (seg.1, reverse_edge(e.previous, seg.0, i)),
            ))
        },
        _ => false,
    }
}

/// The new edge `e` of `change` was applied, to the graph of its time, and
/// shows in `g`.
pub open spec fn new_edge_applied(
    internal: Seq<(ChangeHash, ChangeId)>,
    change: Change,
    change_id: ChangeId,
    g: Seq<(Vertex<ChangeId>, Edge)>,
    e: NewEdge,
) -> bool {
    exists|gb: Seq<(Vertex<ChangeId>, Edge)>| new_edge_shows(internal, change, change_id, gb, g, e)
}

/// Every new edge of the edge maps of `change` whose deletion flag is
/// `deleted` was applied and shows in `g`.
pub open spec fn edge_maps_applied(
    internal: Seq<(ChangeHash, ChangeId)>,
    change: Change,
    change_id: ChangeId,
    g: Seq<(Vertex<ChangeId>, Edge)>,
    deleted: bool,
) -> bool {
    forall|h: int, a: int, k: int|
        0 <= h < change.changes@.len() && 0 <= a < change.changes@[h]@.len() && 0 <= k < edge_map_edges(change.changes@[h]@[a]).len()
            && edge_map_edges(change.changes@[h]@[a])[k].flag.deleted == deleted ==> new_edge_applied(
            internal,
            change,
            change_id,
            g,
            #[trigger] edge_map_edges(change.changes@[h]@[a])[k],
        )
}

/// What a new edge shows survives a step that only removes what the change
/// may remove and only adds entries of the change or the root change.
pub proof fn lemma_new_edge_kept(
    internal: Seq<(ChangeHash, ChangeId)>,
    change: Change,
    change_id: ChangeId,
    gb: Seq<(Vertex<ChangeId>, Edge)>,
    g1: Seq<(Vertex<ChangeId>, Edge)>,
    g2: Seq<(Vertex<ChangeId>, Edge)>,
    e: NewEdge,
)
    requires
        new_edge_shows(internal, change, change_id, gb, g1, e),
        only_removable_left(internal, change, change_id, g1, g2),
        introduced_since(g1, g2, change_id),
    ensures
        new_edge_shows(internal, change, change_id, gb, g2, e),
{
    let segs = newedge_segs(internal, gb, e, change_id).unwrap();
    let i = intro_of(internal, e.introduced_by, change_id).unwrap();
    assert forall|k: int| 0 <= k < segs.len() implies {
        let seg = #[trigger] segs[k];
        let fwd = (seg.0, forward_edge(e.flag, seg.1, change_id));
        let rev = (seg.1, reverse_edge(e.flag, seg.0, change_id));
        &&& (g2.contains(fwd) || removable_by(internal, change, change_id, fwd))
        &&& (g2.contains(rev) || removable_by(internal, change, change_id, rev))
        &&& (i != change_id && !i.spec_is_root() ==> !g2.contains((seg.0, forward_edge(e.previous, seg.1, i))) && !g2.contains(
            (seg.1, reverse_edge(e.previous, seg.0, i)),
        ))
    } by {
        let seg = segs[k];
        let fwd = (seg.0, forward_edge(e.flag, seg.1, change_id));
        let rev = (seg.1, reverse_edge(e.flag, seg.0, change_id));
        if g1.contains(fwd) && !g2.contains(fwd) {
            assert(removable_by(internal, change, change_id, fwd));
        }
        if g1.contains(rev) && !g2.contains(rev) {
            assert(removable_by(internal, change, change_id, rev));
        }
        if i != change_id && !i.spec_is_root() {
            let p1 = (seg.0, forward_edge(e.previous, seg.1, i));
            let p2 = (seg.1, reverse_edge(e.previous, seg.0, i));
            if g2.contains(p1) {
                assert(g1.contains(p1));
            }
            if g2.contains(p2) {
                assert(g1.contains(p2));
            }
        }
    }
}

/// What the edge maps of a pass show survives such a step.
pub proof fn lemma_edge_maps_kept(
    internal: Seq<(ChangeHash, ChangeId)>,
    change: Change,
    change_id: ChangeId,
    g1: Seq<(Vertex<ChangeId>, Edge)>,
    g2: Seq<(Vertex<ChangeId>, Edge)>,
    deleted: bool,
)
    requires
        edge_maps_applied(internal, change, change_id, g1, deleted),
        only_removable_left(internal, change, change_id, g1, g2),
        introduced_since(g1, g2, change_id),
    ensures
        edge_maps_applied(internal, change, change_id, g2, deleted),
{
    assert forall|h: int, a: int, k: int|
        0 <= h < change.changes@.len() && 0 <= a < change.changes@[h]@.len() && 0 <= k < edge_map_edges(change.changes@[h]@[a]).len()
            && edge_map_edges(change.changes@[h]@[a])[k].flag.deleted == deleted implies new_edge_applied(
            internal,
            change,
            change_id,
            g2,
            #[trigger] edge_map_edges(change.changes@[h]@[a])[k],
        ) by {
        let e = edge_map_edges(change.changes@[h]@[a])[k];
        assert(new_edge_applied(internal, change, change_id, g1, e));
        let gb = choose|gb: Seq<(Vertex<ChangeId>, Edge)>| new_edge_shows(internal, change, change_id, gb, g1, e);
        lemma_new_edge_kept(internal, change, change_id, gb, g1, g2, e);
    }
}

/// The new edges of `change` whose deletion flag is `deleted`, among those
/// of the hunks before `h`, of the atoms of hunk `h` before `a`, and of
/// atom `a` before `k`, were applied and show in `g`.
pub open spec fn edges_done_before(
    internal: Seq<(ChangeHash, ChangeId)>,
    change: Change,
    change_id: ChangeId,
    g: Seq<(Vertex<ChangeId>, Edge)>,
    deleted: bool,
    h: int,
    a: int,
    k: int,
) -> bool {
    forall|hh: int, aa: int, kk: int|
        0 <= hh < change.changes@.len() && 0 <= aa < change.changes@[hh]@.len() && 0 <= kk < edge_map_edges(change.changes@[hh]@[aa]).len()
            && edge_map_edges(change.changes@[hh]@[aa])[kk].flag.deleted == deleted && (hh < h || (hh == h && (aa < a || (aa == a
            && kk < k)))) ==> new_edge_applied(internal, change, change_id, g, #[trigger] edge_map_edges(change.changes@[hh]@[aa])[kk])
}

/// What the applied edges show survives a step of the application.
pub proof fn lemma_edges_done_kept(
    internal: Seq<(ChangeHash, ChangeId)>,
    change: Change,
    change_id: ChangeId,
    g1: Seq<(Vertex<ChangeId>, Edge)>,
    g2: Seq<(Vertex<ChangeId>, Edge)>,
    deleted: bool,
    h: int,
    a: int,
    k: int,
)
    requires
        edges_done_before(internal, change, change_id, g1, deleted, h, a, k),
        only_removable_left(internal, change, change_id, g1, g2),
        introduced_since(g1, g2, change_id),
    ensures
        edges_done_before(internal, change, change_id, g2, deleted, h, a, k),
{
    assert forall|hh: int, aa: int, kk: int|
        0 <= hh < change.changes@.len() && 0 <= aa < change.changes@[hh]@.len() && 0 <= kk < edge_map_edges(change.changes@[hh]@[aa]).len()
            && edge_map_edges(change.changes@[hh]@[aa])[kk].flag.deleted == deleted && (hh < h || (hh == h && (aa < a || (aa == a
            && kk < k)))) implies new_edge_applied(internal, change, change_id, g2, #[trigger] edge_map_edges(change.changes@[hh]@[aa])[kk]) by {
        let e = edge_map_edges(change.changes@[hh]@[aa])[kk];
        assert(new_edge_applied(internal, change, change_id, g1, e));
        let gb = choose|gb: Seq<(Vertex<ChangeId>, Edge)>| new_edge_shows(internal, change, change_id, gb, g1, e);
        lemma_new_edge_kept(internal, change, change_id, gb, g1, g2, e);
    }
}

/// What may leave a graph in two steps of an application may leave it in one.
pub proof fn lemma_removable_trans(
    internal: Seq<(ChangeHash, ChangeId)>,
    change: Change,
    change_id: ChangeId,
    a: Seq<(Vertex<ChangeId>, Edge)>,
    b: Seq<(Vertex<ChangeId>, Edge)>,
    c: Seq<(Vertex<ChangeId>, Edge)>,
)
    requires
        only_removable_left(internal, change, change_id, a, b),
        only_removable_left(internal, change, change_id, b, c) || sub_graph(b, c),
    ensures
        only_removable_left(internal, change, change_id, a, c),
{
    assert forall|x: (Vertex<ChangeId>, Edge)| #[trigger] a.contains(x) && !c.contains(x) implies removable_by(internal, change, change_id, x) by {
        if b.contains(x) {
            assert(!sub_graph(b, c) || c.contains(x));
        }
    }
}

/// Only pseudo-edges left: they may leave a graph when any change is applied.
pub proof fn lemma_carry_removable(
    internal: Seq<(ChangeHash, ChangeId)>,
    change: Change,
    change_id: ChangeId,
    a: Seq<(Vertex<ChangeId>, Edge)>,
    b: Seq<(Vertex<ChangeId>, Edge)>,
    flag: EdgeFlags,
)
    requires
        removed_carry(a, b, flag),
        flag.pseudo,
    ensures
        only_removable_left(internal, change, change_id, a, b),
{
}

/// The new vertex `n` of the change `change_id` has, in `g`, an edge from
/// one of its up contexts.
pub open spec fn has_new_vertex(g: Seq<(Vertex<ChangeId>, Edge)>, n: NewVertex, change_id: ChangeId) -> bool {
    exists|x: Vertex<ChangeId>| #[trigger] g.contains((x, forward_edge(context_flag(n), new_vertex(n, change_id), change_id)))
}

/// A new vertex of the change `change_id` that has an up context and is
/// not a pseudo-vertex is in `g` (an edge map asks nothing).
pub open spec fn atom_present(g: Seq<(Vertex<ChangeId>, Edge)>, change_id: ChangeId, a: Atom) -> bool {
    match a {
        Atom::NewVertex(n) => n.up_context@.len() == 0 || n.flag.pseudo || has_new_vertex(g, n, change_id),
        Atom::EdgeMap(_) => true,
    }
}

/// Every new vertex of `change` (with an up context, not a pseudo-vertex)
/// is in `g`.
pub open spec fn vertices_present(g: Seq<(Vertex<ChangeId>, Edge)>, change: Change, change_id: ChangeId) -> bool {
    forall|h: int, a: int|
        0 <= h < change.changes@.len() && 0 <= a < change.changes@[h]@.len() ==> atom_present(g, change_id, #[trigger] change.changes@[h]@[a])
}

/// No edge of the edge maps of `change` modifies an edge that the change
/// itself introduces.
pub open spec fn no_self_edges(internal: Seq<(ChangeHash, ChangeId)>, change: Change, change_id: ChangeId) -> bool {
    forall|h: int, a: int, k: int|
        0 <= h < change.changes@.len() && 0 <= a < change.changes@[h]@.len() && 0 <= k < edge_map_edges(change.changes@[h]@[a]).len()
            ==> intro_of(internal, (#[trigger] edge_map_edges(change.changes@[h]@[a])[k]).introduced_by, change_id) != Some(change_id)
}

/// Every entry of `g1` that the change `change_id` introduced, other than a
/// pseudo-edge, is in `g2`.
pub open spec fn keeps_own(g1: Seq<(Vertex<ChangeId>, Edge)>, g2: Seq<(Vertex<ChangeId>, Edge)>, change_id: ChangeId) -> bool {
    forall|y: (Vertex<ChangeId>, Edge)| #[trigger] g1.contains(y) && y.1.introduced_by == change_id && !y.1.flag.pseudo ==> g2.contains(y)
}

/// A step that keeps the change's own entries keeps its new vertices.
pub proof fn lemma_atom_present_kept(g1: Seq<(Vertex<ChangeId>, Edge)>, g2: Seq<(Vertex<ChangeId>, Edge)>, change_id: ChangeId, a: Atom)
    requires
        atom_present(g1, change_id, a),
        keeps_own(g1, g2, change_id),
    ensures
        atom_present(g2, change_id, a),
{
    if let Atom::NewVertex(n) = a {
        if !(n.up_context@.len() == 0 || n.flag.pseudo) {
            let e = forward_edge(context_flag(n), new_vertex(n, change_id), change_id);
            let x = choose|x: Vertex<ChangeId>| #[trigger] g1.contains((x, e));
            assert(g2.contains((x, e)));
        }
    }
}

/// A step that keeps the change's own entries keeps all its new vertices.
pub proof fn lemma_vertices_present_kept(g1: Seq<(Vertex<ChangeId>, Edge)>, g2: Seq<(Vertex<ChangeId>, Edge)>, change: Change, change_id: ChangeId)
    requires
        vertices_present(g1, change, change_id),
        keeps_own(g1, g2, change_id),
    ensures
        vertices_present(g2, change, change_id),
{
    assert forall|h: int, a: int| 0 <= h < change.changes@.len() && 0 <= a < change.changes@[h]@.len() implies atom_present(
        g2,
        change_id,
        #[trigger] change.changes@[h]@[a],
    ) by {
        lemma_atom_present_kept(g1, g2, change_id, change.changes@[h]@[a]);
    }
}

/// A step of an application that removes nothing but what may leave keeps
/// the change's own entries, when no edge of the change modifies them.
pub proof fn lemma_removable_keeps_own(
    internal: Seq<(ChangeHash, ChangeId)>,
    change: Change,
    change_id: ChangeId,
    g1: Seq<(Vertex<ChangeId>, Edge)>,
    g2: Seq<(Vertex<ChangeId>, Edge)>,
)
    requires
        only_removable_left(internal, change, change_id, g1, g2),
        no_self_edges(internal, change, change_id),
    ensures
        keeps_own(g1, g2, change_id),
{
    assert forall|y: (Vertex<ChangeId>, Edge)| #[trigger] g1.contains(y) && y.1.introduced_by == change_id && !y.1.flag.pseudo implies g2.contains(y) by {
        if !g2.contains(y) {
            assert(removable_by(internal, change, change_id, y));
            let (h, a, k) = choose|h: int, a: int, k: int|
                0 <= h < change.changes@.len() && 0 <= a < change.changes@[h]@.len() && 0 <= k < edge_map_edges(change.changes@[h]@[a]).len()
                    && #[trigger] replaces(internal, change_id, edge_map_edges(change.changes@[h]@[a])[k], y);
            assert(intro_of(internal, edge_map_edges(change.changes@[h]@[a])[k].introduced_by, change_id) != Some(change_id));
        }
    }
}

/// A step that removes only entries carrying `flag`, a pseudo flag, keeps
/// the change's own entries.
pub proof fn lemma_carry_keeps_own(g1: Seq<(Vertex<ChangeId>, Edge)>, g2: Seq<(Vertex<ChangeId>, Edge)>, flag: EdgeFlags, change_id: ChangeId)
    requires
        removed_carry(g1, g2, flag) || sub_graph(g1, g2),
        flag.pseudo,
    ensures
        keeps_own(g1, g2, change_id),
{
}

/// Adds atoms of `change` to `channel`'s graph, in order: the new vertices
/// and the edges that are not deletions if `deletions` is false, the
/// deletions otherwise.
fn put_atoms(
    txn: &Txn,
    channel: &mut Channel,
    ws: &mut Workspace,
    change_id: ChangeId,
    change: &Change,
    deletions: bool,
) -> (r: Result<(), LocalApplyError>)
    requires
        all_pseudo(old(ws).pseudo@),
    ensures
        introduced_since(old(channel).graph@, final(channel).graph@, change_id),
        only_removable_left(txn.internal@, *change, change_id, old(channel).graph@, final(channel).graph@),
        r is Ok && !deletions && no_self_edges(txn.internal@, *change, change_id) ==> vertices_present(final(channel).graph@, *change, change_id),
        all_pseudo(final(ws).pseudo@),
        final(channel).log == old(channel).log,
        final(channel).name == old(channel).name,
        final(ws).missing_context.pseudo == old(ws).missing_context.pseudo,
        r matches Err(e) ==> graph_error(e),
        r is Ok ==> edge_maps_applied(txn.internal@, *change, change_id, final(channel).graph@, deletions),
        change.changes@.len() == 0 ==> r is Ok && *final(ws) == *old(ws) && *final(channel) == *old(channel),
{
    let ghost g0 = channel.graph@;
    let mut h: usize = 0;
    while h < change.changes.len()
        invariant
            0 <= h <= change.changes@.len(),
            g0 == old(channel).graph@,
            introduced_since(g0, channel.graph@, change_id),
            only_removable_left(txn.internal@, *change, change_id, g0, channel.graph@),
            !deletions && no_self_edges(txn.internal@, *change, change_id) ==> forall|hh: int, aa: int|
                0 <= hh < h && 0 <= aa < change.changes@[hh]@.len() ==> atom_present(channel.graph@, change_id, #[trigger] change.changes@[hh]@[aa]),
            all_pseudo(ws.pseudo@),
            channel.log == old(channel).log,
            channel.name == old(channel).name,
            ws.missing_context.pseudo == old(ws).missing_context.pseudo,
            edges_done_before(txn.internal@, *change, change_id, channel.graph@, deletions, h as int, 0, 0),
            change.changes@.len() == 0 ==> *ws == *old(ws) && *channel == *old(channel),
        decreases change.changes.len() - h,
    {
        let hunk = &change.changes[h];
        let mut a: usize = 0;
        while a < hunk.len()
            invariant
                0 <= a <= hunk@.len(),
                0 <= h < change.changes@.len(),
                hunk == change.changes@[h as int],
                g0 == old(channel).graph@,
                introduced_since(g0, channel.graph@, change_id),
                only_removable_left(txn.internal@, *change, change_id, g0, channel.graph@),
                !deletions && no_self_edges(txn.internal@, *change, change_id) ==> forall|hh: int, aa: int|
                    0 <= hh < change.changes@.len() && 0 <= aa < change.changes@[hh]@.len() && (hh < h || (hh == h && aa < a)) ==> atom_present(channel.graph@, change_id, #[trigger] change.changes@[hh]@[aa]),
                all_pseudo(ws.pseudo@),
                channel.log == old(channel).log,
                channel.name == old(channel).name,
                ws.missing_context.pseudo == old(ws).missing_context.pseudo,
                edges_done_before(txn.internal@, *change, change_id, channel.graph@, deletions, h as int, a as int, 0),
            decreases hunk.len() - a,
        {
            if let Atom::NewVertex(n) = &hunk[a] {
                if !deletions {
                    let ghost g1 = channel.graph@;
                    let r = put_newvertex(txn, &mut channel.graph, ws, change_id, n);
                    proof {
                        lemma_introduced_trans(g0, g1, channel.graph@, change_id);
                        assert forall|x: (Vertex<ChangeId>, Edge)| #[trigger] g0.contains(x) && !channel.graph@.contains(x) implies removable_by(txn.internal@, *change, change_id, x) by {
                            assert(g1.contains(x) ==> channel.graph@.contains(x));
                        }
                    }
                    r?;
                    proof {
                        lemma_edges_done_kept(txn.internal@, *change, change_id, g1, channel.graph@, deletions, h as int, a as int, 0);
                        if no_self_edges(txn.internal@, *change, change_id) {
                            lemma_carry_keeps_own(g1, channel.graph@, EdgeFlags { block: false, pseudo: true, folder: false, parent: false, deleted: false }, change_id);
                            assert(hunk@[a as int] == Atom::NewVertex(*n));
                            if !(n.up_context@.len() == 0 || n.flag.pseudo) {
                                let x = resolve(txn.internal@, g1, n.up_context@[0], change_id, true).unwrap();
                                assert(channel.graph@.contains((x, forward_edge(context_flag(*n), new_vertex(*n, change_id), change_id))));
                            }
                            assert forall|hh: int, aa: int|
                                0 <= hh < change.changes@.len() && 0 <= aa < change.changes@[hh]@.len() && (hh < h || (hh == h && aa < a + 1)) implies atom_present(channel.graph@, change_id, #[trigger] change.changes@[hh]@[aa]) by {
                                if hh < h || aa < a {
                                    lemma_atom_present_kept(g1, channel.graph@, change_id, change.changes@[hh]@[aa]);
                                }
                            }
                        }
                    }
                }
            } else if let Atom::EdgeMap(n) = &hunk[a] {
                let mut k: usize = 0;
                while k < n.edges.len()
                    invariant
                        0 <= k <= n.edges@.len(),
                        0 <= h < change.changes@.len(),
                        0 <= a < hunk@.len(),
                        hunk == change.changes@[h as int],
                        change.changes@[h as int]@[a as int] == Atom::EdgeMap(*n),
                        g0 == old(channel).graph@,
                        introduced_since(g0, channel.graph@, change_id),
                        only_removable_left(txn.internal@, *change, change_id, g0, channel.graph@),
                        !deletions && no_self_edges(txn.internal@, *change, change_id) ==> forall|hh: int, aa: int|
                            0 <= hh < change.changes@.len() && 0 <= aa < change.changes@[hh]@.len() && (hh < h || (hh == h && aa < a)) ==> atom_present(channel.graph@, change_id, #[trigger] change.changes@[hh]@[aa]),
                        all_pseudo(ws.pseudo@),
                        channel.log == old(channel).log,
                        channel.name == old(channel).name,
                        ws.missing_context.pseudo == old(ws).missing_context.pseudo,
                        edges_done_before(txn.internal@, *change, change_id, channel.graph@, deletions, h as int, a as int, k as int),
                    decreases n.edges.len() - k,
                {
                    let edge = &n.edges[k];
                    if edge.flag.deleted == deletions {
                        let ghost g1 = channel.graph@;
                        let r = put_newedge(txn, &mut channel.graph, ws, change_id, n.inode, edge);
                        proof {
                            lemma_introduced_trans(g0, g1, channel.graph@, change_id);
                            assert forall|x: (Vertex<ChangeId>, Edge)| #[trigger] g1.contains(x) && !channel.graph@.contains(x) implies removable_by(txn.internal@, *change, change_id, x) by {
                                {
                                    assert(r is Ok);
                                    assert(edge_map_edges(change.changes@[h as int]@[a as int]) == n.edges@);
                                    assert(n.edges@[k as int] == *edge);
                                    lemma_replaced_edge_replaces(txn.internal@, change_id, *edge, newedge_segs(txn.internal@, g1, *edge, change_id).unwrap(), x);
                                    assert(edge_map_edges(change.changes@[h as int]@[a as int])[k as int] == *edge);
                                    assert(replaces(txn.internal@, change_id, edge_map_edges(change.changes@[h as int]@[a as int])[k as int], x));
                                }
                            }
                            lemma_removable_trans(txn.internal@, *change, change_id, g0, g1, channel.graph@);
                            if !deletions && no_self_edges(txn.internal@, *change, change_id) {
                                lemma_removable_keeps_own(txn.internal@, *change, change_id, g1, channel.graph@);
                                assert forall|hh: int, aa: int|
                                    0 <= hh < change.changes@.len() && 0 <= aa < change.changes@[hh]@.len() && (hh < h || (hh == h && aa < a)) implies atom_present(channel.graph@, change_id, #[trigger] change.changes@[hh]@[aa]) by {
                                    lemma_atom_present_kept(g1, channel.graph@, change_id, change.changes@[hh]@[aa]);
                                }
                            }
                        }
                        r?;
                        proof {
                            lemma_edges_done_kept(txn.internal@, *change, change_id, g1, channel.graph@, deletions, h as int, a as int, k as int);
                            assert(new_edge_shows(txn.internal@, *change, change_id, g1, channel.graph@, *edge));
                            assert(edge_map_edges(change.changes@[h as int]@[a as int])[k as int] == *edge);
                        }
                    }
                    k = k + 1;
                }
            }
            a = a + 1;
        }
        h = h + 1;
    }
    Ok(())
}

/// Applies the change `change` (of hash `hash`, registered as `change_id`)
/// to `channel`: appends it to the channel's log, adds its new vertices,
/// then its new edges, then its deletions, and repairs the graph (obsolete
/// pseudo-edges, zombies, missing contexts, folder conflicts, cyclic
/// paths). Returns the change's number in the log and the new state of the
/// channel. A change already on the channel is refused, and leaves it untouched.
pub fn apply_change_to_channel(
    txn: &Txn,
    channel: &mut Channel,
    change_id: ChangeId,
    hash: &ChangeHash,
    change: &Change,
    ws: &mut Workspace,
) -> (r: Result<(u64, Merkle), LocalApplyError>)
    requires
        old(ws).is_clear(),
        intros_registered(txn.internal@, old(channel).graph@),
        external_of(txn.internal@, change_id) is Some,
        change_wf(*change),
    ensures
        log_position(old(channel).log@, change_id) is Some <==> r == Err::<(u64, Merkle), LocalApplyError>(
            LocalApplyError::ChangeAlreadyOnChannel { hash: *hash },
        ),
        log_position(old(channel).log@, change_id) is Some ==> final(channel).log@ == old(channel).log@
            && final(channel).graph == old(channel).graph && final(channel).name == old(channel).name,
        log_position(old(channel).log@, change_id) is None ==> applied_to(*old(channel), *final(channel), change_id, *hash),
        r matches Ok((n, m)) ==> n == old(channel).log@.len() && m == merkle_next_spec(old(channel).spec_state(), *hash),
        intros_registered(txn.internal@, final(channel).graph@),
        only_removable_left(txn.internal@, *change, change_id, old(channel).graph@, final(channel).graph@),
        r is Ok && no_self_edges(txn.internal@, *change, change_id) ==> vertices_present(final(channel).graph@, *change, change_id),
        r matches Err(e) ==> graph_error(e) || e == (LocalApplyError::ChangeAlreadyOnChannel { hash: *hash }),
        log_position(old(channel).log@, change_id) is None && change.changes@.len() == 0 && old(ws).missing_context.files@.len()
            == 0 ==> r is Ok,
        r is Ok ==> edge_maps_applied(txn.internal@, *change, change_id, final(channel).graph@, false) && edge_maps_applied(
            txn.internal@,
            *change,
            change_id,
            final(channel).graph@,
            true,
        ),
{
    ws.assert_empty();
    let n = channel.apply_counter();
    let merkle = match channel.put_changes(change_id, hash) {
        Some(m) => m,
        None => return Err(LocalApplyError::ChangeAlreadyOnChannel { hash: *hash }),
    };
    let ghost c1 = *channel;
    let ghost g0 = channel.graph@;
    let r = apply_atoms(txn, channel, change_id, change, ws);
    proof {
        lemma_intros_registered(txn.internal@, g0, channel.graph@, change_id);
    }
    r?;
    Ok((n, merkle))
}

/// Adds the atoms of `change` to the graph of `channel`, and repairs it.
fn apply_atoms(txn: &Txn, channel: &mut Channel, change_id: ChangeId, change: &Change, ws: &mut Workspace) -> (r: Result<
    (),
    LocalApplyError,
>)
    requires
        intros_registered(txn.internal@, old(channel).graph@),
        external_of(txn.internal@, change_id) is Some,
        change_wf(*change),
        all_pseudo(old(ws).pseudo@),
    ensures
        introduced_since(old(channel).graph@, final(channel).graph@, change_id),
        only_removable_left(txn.internal@, *change, change_id, old(channel).graph@, final(channel).graph@),
        r is Ok && no_self_edges(txn.internal@, *change, change_id) ==> vertices_present(final(channel).graph@, *change, change_id),
        final(channel).log == old(channel).log,
        final(channel).name == old(channel).name,
        r matches Err(e) ==> graph_error(e),
        r is Ok ==> edge_maps_applied(txn.internal@, *change, change_id, final(channel).graph@, false) && edge_maps_applied(
            txn.internal@,
            *change,
            change_id,
            final(channel).graph@,
            true,
        ),
        change.changes@.len() == 0 && old(ws).is_clear() && old(ws).missing_context.files@.len() == 0 ==> r is Ok,
{
    let ghost g0 = channel.graph@;
    let ghost own = no_self_edges(txn.internal@, *change, change_id);
    put_atoms(txn, channel, ws, change_id, change, false)?;
    let ghost g2 = channel.graph@;
    let r = put_atoms(txn, channel, ws, change_id, change, true);
    proof {
        if r is Ok {
            lemma_edge_maps_kept(txn.internal@, *change, change_id, g2, channel.graph@, false);
        }
        lemma_introduced_trans(g0, g2, channel.graph@, change_id);
        lemma_removable_trans(txn.internal@, *change, change_id, g0, g2, channel.graph@);
        if own {
            lemma_removable_keeps_own(txn.internal@, *change, change_id, g2, channel.graph@);
            lemma_vertices_present_kept(g2, channel.graph@, *change, change_id);
        }
    }
    r?;
    let ghost g3 = channel.graph@;
    let r = clean_obsolete_pseudo_edges(txn, &mut channel.graph, ws, change_id);
    proof {
        lemma_sub_introduced(g3, channel.graph@, change_id);
        lemma_carry_removable(txn.internal@, *change, change_id, g3, channel.graph@, EdgeFlags { block: false, pseudo: true, folder: false, parent: false, deleted: false });
        lemma_edge_maps_kept(txn.internal@, *change, change_id, g3, channel.graph@, false);
        lemma_edge_maps_kept(txn.internal@, *change, change_id, g3, channel.graph@, true);
        lemma_introduced_trans(g0, g3, channel.graph@, change_id);
        lemma_intros_registered(txn.internal@, g0, channel.graph@, change_id);
        lemma_carry_removable(txn.internal@, *change, change_id, g3, channel.graph@, EdgeFlags { block: false, pseudo: true, folder: false, parent: false, deleted: false });
        lemma_removable_trans(txn.internal@, *change, change_id, g0, g3, channel.graph@);
        if own {
            lemma_carry_keeps_own(g3, channel.graph@, EdgeFlags { block: false, pseudo: true, folder: false, parent: false, deleted: false }, change_id);
            lemma_vertices_present_kept(g3, channel.graph@, *change, change_id);
        }
    }
    let ghost trivial = change.changes@.len() == 0 && old(ws).is_clear() && old(ws).missing_context.files@.len() == 0;
    let mut inodes = r?;
    collect_missing_contexts(txn, &channel.graph, ws, change, change_id, &mut inodes)?;
    let mut i: usize = 0;
    while i < inodes.len()
        invariant
            0 <= i <= inodes@.len(),
            g0 == old(channel).graph@,
            introduced_since(g0, channel.graph@, change_id),
            only_removable_left(txn.internal@, *change, change_id, g0, channel.graph@),
            own == no_self_edges(txn.internal@, *change, change_id),
            own ==> vertices_present(channel.graph@, *change, change_id),
            channel.log == old(channel).log,
            channel.name == old(channel).name,
            edge_maps_applied(txn.internal@, *change, change_id, channel.graph@, false),
            edge_maps_applied(txn.internal@, *change, change_id, channel.graph@, true),
            trivial ==> inodes@.len() == 0,
            trivial == (change.changes@.len() == 0 && old(ws).is_clear() && old(ws).missing_context.files@.len() == 0),
        decreases inodes.len() - i,
    {
        let ghost g4 = channel.graph@;
        let r = repair_zombies(&mut channel.graph, inodes[i]);
        proof {
            lemma_grows_introduced(g4, channel.graph@, crate::apply::pseudo_only(), change_id);
            lemma_edge_maps_kept(txn.internal@, *change, change_id, g4, channel.graph@, false);
            lemma_edge_maps_kept(txn.internal@, *change, change_id, g4, channel.graph@, true);
            lemma_introduced_trans(g0, g4, channel.graph@, change_id);
            lemma_removable_trans(txn.internal@, *change, change_id, g0, g4, channel.graph@);
            if own {
                lemma_carry_keeps_own(g4, channel.graph@, EdgeFlags { block: false, pseudo: true, folder: false, parent: false, deleted: false }, change_id);
                lemma_vertices_present_kept(g4, channel.graph@, *change, change_id);
            }
        }
        r?;
        i = i + 1;
    }
    let ghost g5 = channel.graph@;
    let r = detect_folder_conflict_resolutions(txn, &mut channel.graph, &mut ws.missing_context, change_id, change);
    proof {
        lemma_sub_introduced(g5, channel.graph@, change_id);
        lemma_carry_removable(txn.internal@, *change, change_id, g5, channel.graph@, crate::apply::folder_pseudo());
        lemma_edge_maps_kept(txn.internal@, *change, change_id, g5, channel.graph@, false);
        lemma_edge_maps_kept(txn.internal@, *change, change_id, g5, channel.graph@, true);
        lemma_introduced_trans(g0, g5, channel.graph@, change_id);
        lemma_carry_removable(txn.internal@, *change, change_id, g5, channel.graph@, crate::apply::folder_pseudo());
        lemma_removable_trans(txn.internal@, *change, change_id, g0, g5, channel.graph@);
        if own {
            lemma_carry_keeps_own(g5, channel.graph@, crate::apply::folder_pseudo(), change_id);
            lemma_vertices_present_kept(g5, channel.graph@, *change, change_id);
        }
    }
    match r {
        Ok(()) => {},
        Err(x) => return Err(LocalApplyError::from_missing(x)),
    }
    let ghost g6 = channel.graph@;
    let r = repair_cyclic_paths(&mut channel.graph, ws);
    proof {
        lemma_grows_introduced(g6, channel.graph@, crate::apply::folder_pseudo(), change_id);
        lemma_edge_maps_kept(txn.internal@, *change, change_id, g6, channel.graph@, false);
        lemma_edge_maps_kept(txn.internal@, *change, change_id, g6, channel.graph@, true);
        lemma_introduced_trans(g0, g6, channel.graph@, change_id);
        lemma_removable_trans(txn.internal@, *change, change_id, g0, g6, channel.graph@);
        if own {
            lemma_carry_keeps_own(g6, channel.graph@, EdgeFlags { block: false, pseudo: true, folder: false, parent: false, deleted: false }, change_id);
            lemma_vertices_present_kept(g6, channel.graph@, *change, change_id);
        }
    }
    r?;
    Ok(())
}

/// The tables of a pristine and a channel agree: the transaction is
/// consistent, and every change that the channel's graph or log mentions
/// is registered.
pub open spec fn pristine_wf(txn: Txn, channel: Channel) -> bool {
    &&& txn_wf(txn)
    &&& intros_registered(txn.internal@, channel.graph@)
    &&& forall|i: int| 0 <= i < channel.log@.len() ==> external_of(txn.internal@, (#[trigger] channel.log@[i]).0) is Some
    &&& ids_unique(txn.internal@)
    &&& log_named(txn.internal@, channel.log@)
}

/// Registering a change keeps what was registered.
pub proof fn lemma_register_keeps(internal: Seq<(ChangeHash, ChangeId)>, x: (ChangeHash, ChangeId), channel: Channel)
    requires
        intros_registered(internal, channel.graph@),
        forall|i: int| 0 <= i < channel.log@.len() ==> external_of(internal, (#[trigger] channel.log@[i]).0) is Some,
    ensures
        intros_registered(internal.push(x), channel.graph@),
        forall|i: int| 0 <= i < channel.log@.len() ==> external_of(internal.push(x), (#[trigger] channel.log@[i]).0) is Some,
        external_of(internal.push(x), x.1) is Some,
{
    assert forall|i: int| 0 <= i < channel.graph@.len() implies (#[trigger] channel.graph@[i].1).introduced_by.spec_is_root()
        || external_of(internal.push(x), channel.graph@[i].1.introduced_by) is Some by {
        lemma_external_of_push(internal, x, channel.graph@[i].1.introduced_by);
    }
    assert forall|i: int| 0 <= i < channel.log@.len() implies external_of(internal.push(x), (#[trigger] channel.log@[i]).0) is Some by {
        lemma_external_of_push(internal, x, channel.log@[i].0);
    }
    lemma_external_of_push(internal, x, x.1);
}

/// A fresh identifier is in no log of a consistent pristine.
pub proof fn lemma_fresh_not_applied(txn: Txn, channel: Channel)
    requires
        pristine_wf(txn, channel),
    ensures
        external_of(txn.internal@, ChangeId(txn.next_id)) is None,
        log_position(channel.log@, ChangeId(txn.next_id)) is None,
{
    lemma_external_of_absent(txn.internal@, ChangeId(txn.next_id));
    lemma_log_position(channel.log@, ChangeId(txn.next_id));
    if log_position(channel.log@, ChangeId(txn.next_id)) is Some {
        let i = choose|i: int| 0 <= i < channel.log@.len() && #[trigger] channel.log@[i].0 == ChangeId(txn.next_id);
        assert(external_of(txn.internal@, channel.log@[i].0) is Some);
    }
}

/// Whether the dependency `h` is applied on the channel of log `log`
/// (the root change always is).
pub open spec fn dep_applied(internal: Seq<(ChangeHash, ChangeId)>, log: Seq<(ChangeId, ChangeHash, Merkle)>, h: ChangeHash) -> bool {
    h is Root || (internal_of(internal, h) matches Some(c) && log_position(log, c) is Some)
}

/// The first of `deps` that is not applied, if any.
pub open spec fn first_missing(internal: Seq<(ChangeHash, ChangeId)>, log: Seq<(ChangeId, ChangeHash, Merkle)>, deps: Seq<ChangeHash>) -> Option<ChangeHash>
    decreases deps.len(),
{
    if deps.len() == 0 {
        None
    } else if !dep_applied(internal, log, deps[0]) {
        Some(deps[0])
    } else {
        first_missing(internal, log, deps.drop_first())
    }
}

/// The first dependency of `change` that is not applied on `channel`.
pub fn first_missing_dependency(txn: &Txn, channel: &Channel, change: &Change) -> (r: Option<ChangeHash>)
    ensures
        r == first_missing(txn.internal@, channel.log@, change.dependencies@),
{
    let deps = &change.dependencies;
    let mut i: usize = 0;
    assert(deps@.skip(0) == deps@);
    while i < deps.len()
        invariant
            0 <= i <= deps@.len(),
            deps@ == change.dependencies@,
            first_missing(txn.internal@, channel.log@, deps@) == first_missing(txn.internal@, channel.log@, deps@.skip(i as int)),
        decreases deps.len() - i,
    {
        let h = deps[i];
        assert(deps@.skip(i as int)[0] == h);
        let applied = match h {
            ChangeHash::Root => true,
            _ => match txn.get_internal(&h) {
                Some(c) => channel.get_changeset(c).is_some(),
                None => false,
            },
        };
        assert(applied == dep_applied(txn.internal@, channel.log@, h));
        if !applied {
            assert(deps@.skip(i as int).len() > 0);
            assert(first_missing(txn.internal@, channel.log@, deps@.skip(i as int)) == Some(h));
            return Some(h);
        }
        assert(deps@.skip(i as int).drop_first() == deps@.skip(i + 1));
        assert(first_missing(txn.internal@, channel.log@, deps@.skip(i as int)) == first_missing(txn.internal@, channel.log@, deps@.skip(i + 1)));
        i = i + 1;
    }
    None
}

/// Whether the edge maps of `change` are well-formed.
pub fn check_change(change: &Change) -> (r: bool)
    ensures
        r == change_wf(*change),
{
    let mut h: usize = 0;
    while h < change.changes.len()
        invariant
            0 <= h <= change.changes@.len(),
            forall|i: int, a: int|
                0 <= i < h && 0 <= a < change.changes@[i]@.len() ==> match #[trigger] change.changes@[i]@[a] {
                    Atom::EdgeMap(m) => edge_map_wf(m),
                    _ => true,
                },
        decreases change.changes.len() - h,
    {
        let hunk = &change.changes[h];
        let mut a: usize = 0;
        while a < hunk.len()
            invariant
                0 <= a <= hunk@.len(),
                hunk == change.changes@[h as int],
                0 <= h < change.changes@.len(),
                forall|i: int, b: int|
                    0 <= i < h && 0 <= b < change.changes@[i]@.len() ==> match #[trigger] change.changes@[i]@[b] {
                        Atom::EdgeMap(m) => edge_map_wf(m),
                        _ => true,
                    },
                forall|b: int| 0 <= b < a ==> match #[trigger] change.changes@[h as int]@[b] {
                    Atom::EdgeMap(m) => edge_map_wf(m),
                    _ => true,
                },
            decreases hunk.len() - a,
        {
            if let Atom::EdgeMap(m) = &hunk[a] {
                assert(hunk@[a as int] == Atom::EdgeMap(*m));
                let mut k: usize = 0;
                while k < m.edges.len()
                    invariant
                        0 <= k <= m.edges@.len(),
                        hunk == change.changes@[h as int],
                        0 <= h < change.changes@.len(),
                        0 <= a < hunk@.len(),
                        hunk@[a as int] == Atom::EdgeMap(*m),
                        forall|j: int| 0 <= j < k ==> !(#[trigger] m.edges@[j]).flag.parent,
                    decreases m.edges.len() - k,
                {
                    if m.edges[k].flag.parent {
                        assert(!edge_map_wf(*m));
                        assert(change.changes@[h as int]@[a as int] == Atom::EdgeMap(*m));
                        return false;
                    }
                    k = k + 1;
                }
                assert(edge_map_wf(*m));
            }
            a = a + 1;
        }
        h = h + 1;
    }
    true
}

/// Registers the change `change` of hash `hash` under the identifier
/// `internal`: its hash, its dependencies, and the files it touches.
pub fn register_change(txn: &mut Txn, internal: ChangeId, hash: &ChangeHash, change: &Change)
    ensures
        final(txn).internal@ == old(txn).internal@.push((*hash, internal)),
        final(txn).next_id == old(txn).next_id,
        final(txn).tree == old(txn).tree,
        final(txn).revtree == old(txn).revtree,
        final(txn).inodes == old(txn).inodes,
        final(txn).revinodes == old(txn).revinodes,
        old(txn).dep@.is_prefix_of(final(txn).dep@),
        forall|i: int| old(txn).dep@.len() <= i < final(txn).dep@.len() ==> (#[trigger] final(txn).dep@[i]).0 == internal,
        old(txn).rev_touched@.is_prefix_of(final(txn).rev_touched@),
        forall|i: int| old(txn).rev_touched@.len() <= i < final(txn).rev_touched@.len() ==> (#[trigger] final(txn).rev_touched@[i]).0 == internal,
{
    txn.internal.push((*hash, internal));
    let ghost t1 = *txn;
    let mut i: usize = 0;
    while i < change.dependencies.len()
        invariant
            0 <= i <= change.dependencies@.len(),
            txn.internal == t1.internal,
            txn.next_id == old(txn).next_id,
            txn.tree == old(txn).tree,
            txn.revtree == old(txn).revtree,
            txn.inodes == old(txn).inodes,
            txn.revinodes == old(txn).revinodes,
            txn.rev_touched == old(txn).rev_touched,
            old(txn).dep@.is_prefix_of(txn.dep@),
            forall|j: int| old(txn).dep@.len() <= j < txn.dep@.len() ==> (#[trigger] txn.dep@[j]).0 == internal,
        decreases change.dependencies.len() - i,
    {
        if let Some(d) = txn.get_internal(&change.dependencies[i]) {
            txn.dep.push((internal, d));
        }
        i = i + 1;
    }
    let mut h: usize = 0;
    while h < change.changes.len()
        invariant
            0 <= h <= change.changes@.len(),
            txn.internal == t1.internal,
            txn.next_id == old(txn).next_id,
            txn.tree == old(txn).tree,
            txn.revtree == old(txn).revtree,
            txn.inodes == old(txn).inodes,
            txn.revinodes == old(txn).revinodes,
            old(txn).dep@.is_prefix_of(txn.dep@),
            forall|j: int| old(txn).dep@.len() <= j < txn.dep@.len() ==> (#[trigger] txn.dep@[j]).0 == internal,
            old(txn).rev_touched@.is_prefix_of(txn.rev_touched@),
            forall|j: int| old(txn).rev_touched@.len() <= j < txn.rev_touched@.len() ==> (#[trigger] txn.rev_touched@[j]).0 == internal,
        decreases change.changes.len() - h,
    {
        let hunk = &change.changes[h];
        let mut a: usize = 0;
        while a < hunk.len()
            invariant
                0 <= a <= hunk@.len(),
                txn.internal == t1.internal,
                txn.next_id == old(txn).next_id,
                txn.tree == old(txn).tree,
                txn.revtree == old(txn).revtree,
                txn.inodes == old(txn).inodes,
                txn.revinodes == old(txn).revinodes,
                old(txn).dep@.is_prefix_of(txn.dep@),
                forall|j: int| old(txn).dep@.len() <= j < txn.dep@.len() ==> (#[trigger] txn.dep@[j]).0 == internal,
                old(txn).rev_touched@.is_prefix_of(txn.rev_touched@),
                forall|j: int| old(txn).rev_touched@.len() <= j < txn.rev_touched@.len() ==> (#[trigger] txn.rev_touched@[j]).0 == internal,
            decreases hunk.len() - a,
        {
            let (inode, folder_pos) = match &hunk[a] {
                Atom::NewVertex(n) => {
                    if n.flag.folder && n.start.0 == n.end.0 {
                        (n.inode, Some(n.start))
                    } else {
                        (n.inode, None)
                    }
                },
                Atom::EdgeMap(m) => (m.inode, None),
            };
            let inode_change = match inode.change {
                None => Some(internal),
                Some(ChangeHash::Root) => Some(ChangeId(0)),
                Some(ih) => txn.get_internal(&ih),
            };
            if let Some(c) = inode_change {
                txn.rev_touched.push((internal, Position { change: c, pos: inode.pos }));
            }
            if let Some(p) = folder_pos {
                txn.rev_touched.push((internal, Position { change: internal, pos: p }));
            }
            a = a + 1;
        }
        h = h + 1;
    }
}

/// The identifier of a change of hash `hash` once registered: the one it
/// already has, or the next fresh one.
pub open spec fn id_for(txn: Txn, hash: ChangeHash) -> ChangeId {
    match internal_of(txn.internal@, hash) {
        Some(c) => c,
        None => ChangeId(txn.next_id),
    }
}

/// Applies the change `change`, of hash `hash`, to `channel`: checks that
/// its dependencies are applied and that it is well-formed, registers it if
/// it is new, and applies it (see [apply_change_to_channel]).
pub fn apply_loaded_change(txn: &mut Txn, channel: &mut Channel, hash: &ChangeHash, change: &Change, ws: &mut Workspace) -> (r:
    Result<(u64, Merkle), LocalApplyError>)
    requires
        pristine_wf(*old(txn), *old(channel)),
    ensures
        pristine_wf(*final(txn), *final(channel)),
        old(txn).internal@.is_prefix_of(final(txn).internal@),
        same_tables(*old(txn), *final(txn)),
        first_missing(old(txn).internal@, old(channel).log@, change.dependencies@) matches Some(h) ==> r == Err::<(u64, Merkle), LocalApplyError>(
            LocalApplyError::DependencyMissing { hash: h },
        ),
        first_missing(old(txn).internal@, old(channel).log@, change.dependencies@) is Some || !change_wf(*change) ==> *final(txn)
            == *old(txn) && *final(channel) == *old(channel),
        first_missing(old(txn).internal@, old(channel).log@, change.dependencies@) is None && !change_wf(*change) ==> r
            == Err::<(u64, Merkle), LocalApplyError>(LocalApplyError::InvalidChange),
        first_missing(old(txn).internal@, old(channel).log@, change.dependencies@) is None && change_wf(*change)
            && internal_of(old(txn).internal@, *hash) is None && old(txn).next_id == u64::MAX ==> r
            == Err::<(u64, Merkle), LocalApplyError>(LocalApplyError::Txn(TxnErr)),
        r is Err && !(r matches Err(e) && graph_error(e)) ==> final(channel).log@ == old(channel).log@ && final(channel).graph
            == old(channel).graph && final(channel).name == old(channel).name,
        only_removable_left(final(txn).internal@, *change, id_for(*old(txn), *hash), old(channel).graph@, final(channel).graph@),
        (internal_of(old(txn).internal@, *hash) matches Some(c) && log_position(old(channel).log@, c) is Some) ==> r is Err
            && final(channel).log@ == old(channel).log@,
        final(channel).log@ == old(channel).log@ || final(channel).log@ == old(channel).log@.push(
            (id_for(*old(txn), *hash), *hash, merkle_next_spec(old(channel).spec_state(), *hash)),
        ),
        first_missing(old(txn).internal@, old(channel).log@, change.dependencies@) is None && change_wf(*change) && (
        internal_of(old(txn).internal@, *hash) is Some || old(txn).next_id < u64::MAX) ==> {
            let c = id_for(*old(txn), *hash);
            &&& internal_of(final(txn).internal@, *hash) == Some(c)
            &&& (log_position(old(channel).log@, c) is Some <==> r == Err::<(u64, Merkle), LocalApplyError>(
                LocalApplyError::ChangeAlreadyOnChannel { hash: *hash },
            ))
            &&& (log_position(old(channel).log@, c) is None ==> applied_to(*old(channel), *final(channel), c, *hash))
            &&& (r matches Ok((n, m)) ==> n == old(channel).log@.len() && m == merkle_next_spec(old(channel).spec_state(), *hash))
            &&& (r is Ok ==> edge_maps_applied(final(txn).internal@, *change, c, final(channel).graph@, false) && edge_maps_applied(
                final(txn).internal@,
                *change,
                c,
                final(channel).graph@,
                true,
            ))
        },
        ids_unique(old(txn).internal@) ==> ids_unique(final(txn).internal@),
        ids_unique(old(txn).internal@) && log_named(old(txn).internal@, old(channel).log@) ==> log_named(
            final(txn).internal@,
            final(channel).log@,
        ),
{
    ws.clear();
    if let Some(h) = first_missing_dependency(txn, channel, change) {
        return Err(LocalApplyError::DependencyMissing { hash: h });
    }
    if !check_change(change) {
        return Err(LocalApplyError::InvalidChange);
    }
    let internal = match txn.get_internal(hash) {
        Some(p) => p,
        None => {
            proof { lemma_fresh_not_applied(*txn, *channel); }
            let internal = match txn.make_changeid() {
                Some(c) => c,
                None => return Err(LocalApplyError::Txn(TxnErr)),
            };
            let ghost t0 = *txn;
            register_change(txn, internal, hash, change);
            proof {
                lemma_register_keeps(t0.internal@, (*hash, internal), *channel);
                lemma_internal_of_push(t0.internal@, (*hash, internal), *hash);
                assert forall|i: int| 0 <= i < txn.internal@.len() implies 0 < (#[trigger] txn.internal@[i]).1.0 < txn.next_id by {
                    if i < t0.internal@.len() {
                        assert(txn.internal@[i] == t0.internal@[i]);
                    }
                }
            }
            internal
        },
    };
    proof {
        if internal_of(old(txn).internal@, *hash) is Some {
            lemma_internal_of_registered(txn.internal@, *hash);
        }
    }
    let ghost t2 = *txn;
    proof {
        if ids_unique(old(txn).internal@) {
            if internal_of(old(txn).internal@, *hash) is Some {
                assert(txn.internal@ == old(txn).internal@);
                lemma_unique_names_back(old(txn).internal@, *hash);
            } else {
                assert(txn.internal@ == old(txn).internal@.push((*hash, internal)));
                assert(internal == ChangeId(old(txn).next_id));
                assert forall|i: int, j: int| 0 <= i < j < txn.internal@.len() implies (#[trigger] txn.internal@[i]).1 != (
                #[trigger] txn.internal@[j]).1 by {
                    assert(txn.internal@[i] == old(txn).internal@[i]);
                    if j < old(txn).internal@.len() {
                        assert(txn.internal@[j] == old(txn).internal@[j]);
                    } else {
                        assert(old(txn).internal@[i].1.0 < old(txn).next_id);
                    }
                }
                assert forall|i: int| 0 <= i < old(txn).internal@.len() implies (#[trigger] old(txn).internal@[i]).1 != internal by {
                    assert(old(txn).internal@[i].1.0 < old(txn).next_id);
                }
                lemma_external_of_absent(old(txn).internal@, internal);
                lemma_external_of_push(old(txn).internal@, (*hash, internal), internal);
            }
            assert(external_of(txn.internal@, internal) == Some(*hash)) by {
                if internal_of(old(txn).internal@, *hash) is Some {
                    assert(txn.internal@ == old(txn).internal@);
                }
            }
            if log_named(old(txn).internal@, old(channel).log@) {
                assert forall|i: int| 0 <= i < old(channel).log@.len() implies external_of(txn.internal@, (#[trigger] old(channel).log@[i]).0)
                    == Some(old(channel).log@[i].1) by {
                    assert(old(txn).internal@.is_prefix_of(txn.internal@)) by {
                        assert(old(txn).internal@ =~= txn.internal@.subrange(0, old(txn).internal@.len() as int));
                    }
                    lemma_external_of_prefix(old(txn).internal@, txn.internal@, old(channel).log@[i].0);
                }
            }
        }
    }
    let r = apply_change_to_channel(txn, channel, internal, hash, change, ws);
    proof {
        assert forall|i: int| 0 <= i < channel.log@.len() implies external_of(txn.internal@, (#[trigger] channel.log@[i]).0) is Some by {
            if i >= old(channel).log@.len() {
                assert(channel.log@[i].0 == internal);
            }
        }
        if ids_unique(old(txn).internal@) && log_named(old(txn).internal@, old(channel).log@) {
            assert forall|i: int| 0 <= i < channel.log@.len() implies external_of(txn.internal@, (#[trigger] channel.log@[i]).0)
                == Some(channel.log@[i].1) by {
                if i < old(channel).log@.len() {
                    assert(channel.log@[i] == old(channel).log@[i]);
                } else {
                    assert(channel.log@[i].0 == internal && channel.log@[i].1 == *hash);
                }
            }
        }
    }
    r
}

/// No identifier is registered twice.
pub open spec fn ids_unique(t: Seq<(ChangeHash, ChangeId)>) -> bool {
    forall|i: int, j: int| 0 <= i < j < t.len() ==> (#[trigger] t[i]).1 != (#[trigger] t[j]).1
}

/// The registry `t` gives each change of the log `log` the hash that the log
/// gives it.
pub open spec fn log_named(t: Seq<(ChangeHash, ChangeId)>, log: Seq<(ChangeId, ChangeHash, Merkle)>) -> bool {
    forall|i: int| 0 <= i < log.len() ==> external_of(t, (#[trigger] log[i]).0) == Some(log[i].1)
}

/// The hash `h` is that of a change of the log `log`.
pub open spec fn hash_in_log(log: Seq<(ChangeId, ChangeHash, Merkle)>, h: ChangeHash) -> bool {
    exists|j: int| 0 <= j < log.len() && (#[trigger] log[j]).1 == h
}

/// Every dependency of every change of the log `log`, as the store
/// `changes` records it, is in the log too.
pub open spec fn deps_closed<P: ChangeStore>(changes: &P, log: Seq<(ChangeId, ChangeHash, Merkle)>) -> bool {
    forall|i: int, d: ChangeHash| 0 <= i < log.len() && #[trigger] dep_step(changes, log[i].1, d) ==> hash_in_log(log, d)
}

/// An identifier with no registration appears in no entry.
pub proof fn lemma_external_of_none(t: Seq<(ChangeHash, ChangeId)>, c: ChangeId)
    requires
        external_of(t, c) is None,
    ensures
        forall|i: int| 0 <= i < t.len() ==> (#[trigger] t[i]).1 != c,
    decreases t.len(),
{
    if t.len() > 0 {
        lemma_external_of_none(t.drop_first(), c);
        assert forall|i: int| 0 <= i < t.len() implies (#[trigger] t[i]).1 != c by {
            if i > 0 {
                assert(t[i] == t.drop_first()[i - 1]);
            }
        }
    }
}

/// Registering more keeps the hash of each registered identifier.
pub proof fn lemma_external_of_prefix(a: Seq<(ChangeHash, ChangeId)>, b: Seq<(ChangeHash, ChangeId)>, c: ChangeId)
    requires
        a.is_prefix_of(b),
        external_of(a, c) is Some,
    ensures
        external_of(b, c) == external_of(a, c),
    decreases a.len(),
{
    assert(b[0] == a[0]);
    if a[0].1 != c {
        assert(a.drop_first().is_prefix_of(b.drop_first())) by {
            assert forall|k: int| 0 <= k < a.drop_first().len() implies a.drop_first()[k] == b.drop_first()[k] by {
                assert(a[k + 1] == b[k + 1]);
            }
        }
        lemma_external_of_prefix(a.drop_first(), b.drop_first(), c);
    }
}

/// Where identifiers are unique, the identifier of a hash names it back.
pub proof fn lemma_unique_names_back(t: Seq<(ChangeHash, ChangeId)>, h: ChangeHash)
    requires
        ids_unique(t),
        internal_of(t, h) is Some,
    ensures
        external_of(t, internal_of(t, h).unwrap()) == Some(h),
    decreases t.len(),
{
    if t[0].0 != h {
        let r = t.drop_first();
        assert(ids_unique(r)) by {
            assert forall|i: int, j: int| 0 <= i < j < r.len() implies (#[trigger] r[i]).1 != (#[trigger] r[j]).1 by {
                assert(r[i] == t[i + 1] && r[j] == t[j + 1]);
            }
        }
        lemma_unique_names_back(r, h);
        let c = internal_of(t, h).unwrap();
        if t[0].1 == c {
            lemma_entry_of_internal(r, h);
            let k = choose|k: int| 0 <= k < r.len() && r[k].0 == h && r[k].1 == c;
            assert(t[k + 1] == r[k]);
            assert(t[0].1 != t[k + 1].1);
        }
    }
}

/// The identifier of a registered hash comes from an entry of the registry.
pub proof fn lemma_entry_of_internal(t: Seq<(ChangeHash, ChangeId)>, h: ChangeHash)
    requires
        internal_of(t, h) is Some,
    ensures
        exists|k: int| 0 <= k < t.len() && t[k].0 == h && t[k].1 == internal_of(t, h).unwrap(),
    decreases t.len(),
{
    if t[0].0 == h {
        assert(t[0].0 == h && t[0].1 == internal_of(t, h).unwrap());
    } else {
        lemma_entry_of_internal(t.drop_first(), h);
        let k = choose|k: int| 0 <= k < t.drop_first().len() && t.drop_first()[k].0 == h && t.drop_first()[k].1 == internal_of(t.drop_first(), h).unwrap();
        assert(t[k + 1] == t.drop_first()[k]);
    }
}

/// In a log closed under dependencies, every change that a change of the
/// log reaches by dependencies is in the log.
pub proof fn lemma_reachable_in_log<P: ChangeStore>(changes: &P, log: Seq<(ChangeId, ChangeHash, Merkle)>, from: ChangeHash, h: ChangeHash)
    requires
        deps_closed(changes, log),
        hash_in_log(log, from),
        dep_reachable(changes, from, h),
    ensures
        hash_in_log(log, h),
{
    let path = choose|path: Seq<ChangeHash>| #[trigger] dep_path(changes, path) && path[0] == from && path.last() == h;
    lemma_path_in_log(changes, log, path, path.len() - 1);
}

proof fn lemma_path_in_log<P: ChangeStore>(changes: &P, log: Seq<(ChangeId, ChangeHash, Merkle)>, path: Seq<ChangeHash>, n: int)
    requires
        deps_closed(changes, log),
        dep_path(changes, path),
        hash_in_log(log, path[0]),
        0 <= n < path.len(),
    ensures
        hash_in_log(log, path[n]),
    decreases n,
{
    if n > 0 {
        lemma_path_in_log(changes, log, path, n - 1);
        let j = choose|j: int| 0 <= j < log.len() && (#[trigger] log[j]).1 == path[n - 1];
        let m = n - 1;
        assert(dep_step(changes, path[m], path[m + 1]));
        assert(dep_step(changes, log[j].1, path[n]));
    }
}

/// A log that grows by changes whose dependencies were applied before them
/// stays closed under dependencies.
pub proof fn lemma_deps_closed_grows<P: ChangeStore>(
    changes: &P,
    t: Seq<(ChangeHash, ChangeId)>,
    l0: Seq<(ChangeId, ChangeHash, Merkle)>,
    l1: Seq<(ChangeId, ChangeHash, Merkle)>,
)
    requires
        l0.is_prefix_of(l1),
        deps_closed(changes, l0),
        ids_unique(t),
        log_named(t, l1),
        forall|i: int| l0.len() <= i < l1.len() ==> deps_before(changes.dependencies_of((#[trigger] l1[i]).1), t, l1, i),
    ensures
        deps_closed(changes, l1),
{
    assert forall|i: int, d: ChangeHash| 0 <= i < l1.len() && #[trigger] dep_step(changes, l1[i].1, d) implies hash_in_log(l1, d) by {
        if i < l0.len() {
            assert(l1[i] == l0[i]);
            assert(dep_step(changes, l0[i].1, d));
            let j = choose|j: int| 0 <= j < l0.len() && (#[trigger] l0[j]).1 == d;
            assert(l1[j] == l0[j]);
        } else {
            let deps = changes.dependencies_of(l1[i].1);
            assert(deps_before(deps, t, l1, i));
            let k = choose|k: int| 0 <= k < deps.len() && deps[k] == d;
            assert(dep_applied(t, l1.take(i), deps[k]));
            let c = internal_of(t, d).unwrap();
            lemma_log_position(l1.take(i), c);
            let j = log_position(l1.take(i), c).unwrap();
            assert(l1.take(i)[j] == l1[j]);
            assert(external_of(t, l1[j].0) == Some(l1[j].1));
            lemma_unique_names_back(t, d);
        }
    }
}

/// With unique identifiers and a named log, an applied hash is in the log.
pub proof fn lemma_applied_in_log(t: Seq<(ChangeHash, ChangeId)>, log: Seq<(ChangeId, ChangeHash, Merkle)>, h: ChangeHash)
    requires
        ids_unique(t),
        log_named(t, log),
        hash_applied(t, log, h),
    ensures
        hash_in_log(log, h),
{
    let c = internal_of(t, h).unwrap();
    lemma_log_position(log, c);
    let j = log_position(log, c).unwrap();
    assert(external_of(t, log[j].0) == Some(log[j].1));
    lemma_unique_names_back(t, h);
}

/// The change `x` is applied, or waits in `stack` to be applied.
pub open spec fn visit_pending(
    internal: Seq<(ChangeHash, ChangeId)>,
    log: Seq<(ChangeId, ChangeHash, Merkle)>,
    stack: Seq<(ChangeHash, bool, bool)>,
    x: ChangeHash,
) -> bool {
    hash_applied(internal, log, x) || exists|k: int| 0 <= k < stack.len() && #[trigger] stack[k] == (x, false, true)
}

/// A change that was pending stays pending through one step of the
/// recursive application.
pub proof fn lemma_visit_pending_step(
    i0: Seq<(ChangeHash, ChangeId)>,
    l0: Seq<(ChangeId, ChangeHash, Merkle)>,
    s0: Seq<(ChangeHash, bool, bool)>,
    i1: Seq<(ChangeHash, ChangeId)>,
    l1: Seq<(ChangeId, ChangeHash, Merkle)>,
    s1: Seq<(ChangeHash, bool, bool)>,
    x: ChangeHash,
)
    requires
        visit_pending(i0, l0, s0, x),
        s0.len() > 0,
        s0.drop_last().is_prefix_of(s1),
        i0.is_prefix_of(i1),
        l0.is_prefix_of(l1),
        s0.last() == (x, false, true) ==> hash_applied(i1, l1, x),
    ensures
        visit_pending(i1, l1, s1, x),
{
    if hash_applied(i0, l0, x) {
        lemma_hash_applied_grows(i0, l0, i1, l1, x);
    } else {
        let k = choose|k: int| 0 <= k < s0.len() && #[trigger] s0[k] == (x, false, true);
        if k == s0.len() - 1 {
            assert(s0.last() == s0[k]);
        } else {
            assert(s0.drop_last()[k] == s0[k]);
            assert(s1[k] == s0[k]);
        }
    }
}

/// A dependency that was visited or waiting to be visited stays so through
/// one step of the recursive application.
pub proof fn lemma_dep_tracked_step(
    s0: Seq<(ChangeHash, bool, bool)>,
    v0: Seq<ChangeHash>,
    s1: Seq<(ChangeHash, bool, bool)>,
    v1: Seq<ChangeHash>,
    d: ChangeHash,
)
    requires
        v0.contains(d) || exists|k: int| 0 <= k < s0.len() && s0[k] == (d, true, true),
        s0.len() > 0,
        s0.drop_last().is_prefix_of(s1),
        forall|y: ChangeHash| v0.contains(y) ==> v1.contains(y),
        s0.last() == (d, true, true) ==> v1.contains(d),
    ensures
        v1.contains(d) || exists|k: int| 0 <= k < s1.len() && s1[k] == (d, true, true),
{
    if !v0.contains(d) {
        let k = choose|k: int| 0 <= k < s0.len() && s0[k] == (d, true, true);
        if k == s0.len() - 1 {
            assert(s0.last() == s0[k]);
        } else {
            assert(s0.drop_last()[k] == s0[k]);
            assert(s1[k] == s0[k]);
        }
    }
}

/// One step of the recursive application keeps every visited change other
/// than `hash` pending, and, once the dependencies of `hash` were pushed,
/// each of them visited or waiting to be.
pub proof fn lemma_tracking_step<P: ChangeStore>(
    changes: &P,
    hash: ChangeHash,
    i0: Seq<(ChangeHash, ChangeId)>,
    l0: Seq<(ChangeId, ChangeHash, Merkle)>,
    s0: Seq<(ChangeHash, bool, bool)>,
    v0: Seq<ChangeHash>,
    i1: Seq<(ChangeHash, ChangeId)>,
    l1: Seq<(ChangeId, ChangeHash, Merkle)>,
    s1: Seq<(ChangeHash, bool, bool)>,
    v1: Seq<ChangeHash>,
    expanded: bool,
)
    requires
        s0.len() > 0,
        s0.drop_last().is_prefix_of(s1),
        i0.is_prefix_of(i1),
        l0.is_prefix_of(l1),
        forall|y: ChangeHash| v0.contains(y) ==> v1.contains(y),
        forall|x: ChangeHash| #[trigger] v0.contains(x) && x != hash ==> visit_pending(i0, l0, s0, x),
        forall|x: ChangeHash| #[trigger] v1.contains(x) && !v0.contains(x) && x != hash ==> visit_pending(i1, l1, s1, x),
        !s0.last().1 && s0.last().2 ==> hash_applied(i1, l1, s0.last().0),
        s0.last().1 ==> v1.contains(s0.last().0),
        expanded ==> forall|d: ChangeHash| #[trigger] dep_step(changes, hash, d) && d != hash ==> v0.contains(d) || exists|k: int|
            0 <= k < s0.len() && s0[k] == (d, true, true),
    ensures
        forall|x: ChangeHash| #[trigger] v1.contains(x) && x != hash ==> visit_pending(i1, l1, s1, x),
        expanded ==> forall|d: ChangeHash| #[trigger] dep_step(changes, hash, d) && d != hash ==> v1.contains(d) || exists|k: int|
            0 <= k < s1.len() && s1[k] == (d, true, true),
{
    assert forall|x: ChangeHash| #[trigger] v1.contains(x) && x != hash implies visit_pending(i1, l1, s1, x) by {
        if v0.contains(x) {
            lemma_visit_pending_step(i0, l0, s0, i1, l1, s1, x);
        }
    }
    if expanded {
        assert forall|d: ChangeHash| #[trigger] dep_step(changes, hash, d) && d != hash implies v1.contains(d) || exists|k: int|
            0 <= k < s1.len() && s1[k] == (d, true, true) by {
            lemma_dep_tracked_step(s0, v0, s1, v1, d);
        }
    }
}

/// Every change of the log `log` comes after all its dependencies.
pub open spec fn deps_ordered<P: ChangeStore>(changes: &P, internal: Seq<(ChangeHash, ChangeId)>, log: Seq<(ChangeId, ChangeHash, Merkle)>) -> bool {
    forall|i: int| 0 <= i < log.len() ==> deps_before(changes.dependencies_of((#[trigger] log[i]).1), internal, log, i)
}

/// A log whose changes come after their dependencies stays so when it grows
/// by changes that come after theirs.
pub proof fn lemma_deps_ordered_grows<P: ChangeStore>(
    changes: &P,
    i0: Seq<(ChangeHash, ChangeId)>,
    l0: Seq<(ChangeId, ChangeHash, Merkle)>,
    i1: Seq<(ChangeHash, ChangeId)>,
    l1: Seq<(ChangeId, ChangeHash, Merkle)>,
)
    requires
        deps_ordered(changes, i0, l0),
        i0.is_prefix_of(i1),
        l0.is_prefix_of(l1),
        forall|i: int| l0.len() <= i < l1.len() ==> deps_before(changes.dependencies_of((#[trigger] l1[i]).1), i1, l1, i),
    ensures
        deps_ordered(changes, i1, l1),
{
    lemma_deps_before_grows(changes, 0, i0, l0, i1, l1);
    assert forall|i: int| 0 <= i < l1.len() implies deps_before(changes.dependencies_of((#[trigger] l1[i]).1), i1, l1, i) by {
        if i < l0.len() {
            assert(deps_before(changes.dependencies_of(l1[i].1), i1, l1, i));
        }
    }
}

/// A registered hash has a registered identifier.
pub proof fn lemma_internal_of_registered(t: Seq<(ChangeHash, ChangeId)>, h: ChangeHash)
    requires
        internal_of(t, h) is Some,
    ensures
        external_of(t, internal_of(t, h).unwrap()) is Some,
    decreases t.len(),
{
    if t[0].0 != h {
        lemma_internal_of_registered(t.drop_first(), h);
        if t[0].1 != internal_of(t, h).unwrap() {
        }
    }
}

/// Applies the change of hash `hash`, taken from `changes`, to `channel`
/// (see [apply_loaded_change]). This does not update the correspondence
/// between the graph and the working copy: it is for changes that come
/// from elsewhere.
pub fn apply_change_ws<P: ChangeStore>(
    changes: &P,
    txn: &mut Txn,
    channel: &mut Channel,
    hash: &ChangeHash,
    workspace: &mut Workspace,
) -> (r: Result<(u64, Merkle), ApplyError<P::Error>>)
    requires
        pristine_wf(*old(txn), *old(channel)),
    ensures
        pristine_wf(*final(txn), *final(channel)),
        r is Ok ==> changes.stored().contains(*hash),
        r matches Ok((n, m)) ==> internal_of(final(txn).internal@, *hash) is Some && final(channel).log@ == old(channel).log@.push(
            (internal_of(final(txn).internal@, *hash).unwrap(), *hash, m),
        ) && n == old(channel).log@.len() && m == merkle_next_spec(old(channel).spec_state(), *hash),
        (internal_of(old(txn).internal@, *hash) matches Some(c) && log_position(old(channel).log@, c) is Some) ==> r is Err
            && final(channel).log@ == old(channel).log@,
        r matches Err(e) ==> e is Changestore || e is LocalChange,
        r matches Err(ApplyError::LocalChange(_)) ==> changes.stored().contains(*hash),
        same_tables(*old(txn), *final(txn)),
        (r matches Err(ApplyError::Changestore(_)) || r matches Err(ApplyError::LocalChange(LocalApplyError::DependencyMissing { .. })))
            ==> *final(txn) == *old(txn) && *final(channel) == *old(channel),
        first_missing(old(txn).internal@, old(channel).log@, changes.dependencies_of(*hash)) matches Some(h) ==> (r matches Err(ApplyError::Changestore(_)))
            || r == Err::<(u64, Merkle), ApplyError<P::Error>>(ApplyError::LocalChange(LocalApplyError::DependencyMissing { hash: h })),
        r matches Err(ApplyError::LocalChange(LocalApplyError::DependencyMissing { hash: h })) ==> first_missing(
            old(txn).internal@,
            old(channel).log@,
            changes.dependencies_of(*hash),
        ) == Some(h),
{
    workspace.clear();
    let change = match changes.get_change(hash) {
        Ok(c) => c,
        Err(e) => return Err(ApplyError::Changestore(e)),
    };
    match apply_loaded_change(txn, channel, hash, &change, workspace) {
        Ok(x) => Ok(x),
        Err(e) => Err(ApplyError::LocalChange(e)),
    }
}

/// Same as [apply_change_ws], with a workspace of its own.
pub fn apply_change<P: ChangeStore>(changes: &P, txn: &mut Txn, channel: &mut Channel, hash: &ChangeHash) -> (r: Result<
    (u64, Merkle),
    ApplyError<P::Error>,
>)
    requires
        pristine_wf(*old(txn), *old(channel)),
    ensures
        pristine_wf(*final(txn), *final(channel)),
        r is Ok ==> changes.stored().contains(*hash),
        r matches Ok((n, m)) ==> internal_of(final(txn).internal@, *hash) is Some && final(channel).log@ == old(channel).log@.push(
            (internal_of(final(txn).internal@, *hash).unwrap(), *hash, m),
        ) && n == old(channel).log@.len() && m == merkle_next_spec(old(channel).spec_state(), *hash),
        (internal_of(old(txn).internal@, *hash) matches Some(c) && log_position(old(channel).log@, c) is Some) ==> r is Err
            && final(channel).log@ == old(channel).log@,
        r matches Err(e) ==> e is Changestore || e is LocalChange,
        r matches Err(ApplyError::LocalChange(_)) ==> changes.stored().contains(*hash),
        same_tables(*old(txn), *final(txn)),
        (r matches Err(ApplyError::Changestore(_)) || r matches Err(ApplyError::LocalChange(LocalApplyError::DependencyMissing { .. })))
            ==> *final(txn) == *old(txn) && *final(channel) == *old(channel),
        first_missing(old(txn).internal@, old(channel).log@, changes.dependencies_of(*hash)) matches Some(h) ==> (r matches Err(ApplyError::Changestore(_)))
            || r == Err::<(u64, Merkle), ApplyError<P::Error>>(ApplyError::LocalChange(LocalApplyError::DependencyMissing { hash: h })),
        r matches Err(ApplyError::LocalChange(LocalApplyError::DependencyMissing { hash: h })) ==> first_missing(
            old(txn).internal@,
            old(channel).log@,
            changes.dependencies_of(*hash),
        ) == Some(h),
{
    let mut ws = Workspace::new();
    apply_change_ws(changes, txn, channel, hash, &mut ws)
}

/// A transaction, shared with exclusive access.
pub struct ArcTxn {
    pub txn: Txn,
}

/// A channel, shared with exclusive access.
pub struct ChannelRef {
    pub channel: Channel,
}

/// Same as [apply_change], on a shared transaction and channel.
pub fn apply_change_arc<P: ChangeStore>(changes: &P, txn: &mut ArcTxn, channel: &mut ChannelRef, hash: &ChangeHash) -> (r:
    Result<(u64, Merkle), ApplyError<P::Error>>)
    requires
        pristine_wf(old(txn).txn, old(channel).channel),
    ensures
        pristine_wf(final(txn).txn, final(channel).channel),
        r is Ok ==> changes.stored().contains(*hash),
        r matches Ok((n, m)) ==> internal_of(final(txn).txn.internal@, *hash) is Some && final(channel).channel.log@
            == old(channel).channel.log@.push((internal_of(final(txn).txn.internal@, *hash).unwrap(), *hash, m)) && n
            == old(channel).channel.log@.len() && m == merkle_next_spec(old(channel).channel.spec_state(), *hash),
        (internal_of(old(txn).txn.internal@, *hash) matches Some(c) && log_position(old(channel).channel.log@, c) is Some)
            ==> r is Err && final(channel).channel.log@ == old(channel).channel.log@,
        r matches Err(e) ==> e is Changestore || e is LocalChange,
        r matches Err(ApplyError::LocalChange(_)) ==> changes.stored().contains(*hash),
        same_tables(old(txn).txn, final(txn).txn),
        (r matches Err(ApplyError::Changestore(_)) || r matches Err(ApplyError::LocalChange(LocalApplyError::DependencyMissing { .. })))
            ==> final(txn).txn == old(txn).txn && final(channel).channel == old(channel).channel,
        first_missing(old(txn).txn.internal@, old(channel).channel.log@, changes.dependencies_of(*hash)) matches Some(h) ==> (r matches Err(ApplyError::Changestore(_)))
            || r == Err::<(u64, Merkle), ApplyError<P::Error>>(ApplyError::LocalChange(LocalApplyError::DependencyMissing { hash: h })),
        r matches Err(ApplyError::LocalChange(LocalApplyError::DependencyMissing { hash: h })) ==> first_missing(
            old(txn).txn.internal@,
            old(channel).channel.log@,
            changes.dependencies_of(*hash),
        ) == Some(h),
{
    let mut ws = Workspace::new();
    apply_change_ws(changes, &mut txn.txn, &mut channel.channel, hash, &mut ws)
}

/// Whether `h` occurs in `v`.
fn hash_listed(v: &Vec<ChangeHash>, h: &ChangeHash) -> (r: bool)
    ensures
        r == v@.contains(*h),
{
    crate::change::hash_in(v, h)
}

/// `b` is a dependency, other than the root, of the change `a` of the store `changes`.
pub open spec fn dep_step<P: ChangeStore>(changes: &P, a: ChangeHash, b: ChangeHash) -> bool {
    b != ChangeHash::Root && changes.dependencies_of(a).contains(b)
}

/// `path` follows dependencies in the store `changes`: each hash after the
/// first is a dependency of the one before it.
pub open spec fn dep_path<P: ChangeStore>(changes: &P, path: Seq<ChangeHash>) -> bool {
    &&& path.len() > 0
    &&& forall|j: int| 0 <= j < path.len() - 1 ==> #[trigger] dep_step(changes, path[j], path[j + 1])
}

/// `h` is `from`, or a dependency of a dependency (and so on) of `from`.
pub open spec fn dep_reachable<P: ChangeStore>(changes: &P, from: ChangeHash, h: ChangeHash) -> bool {
    exists|path: Seq<ChangeHash>| #[trigger] dep_path(changes, path) && path[0] == from && path.last() == h
}

/// A dependency of a reachable change is reachable.
pub proof fn lemma_dep_reachable_step<P: ChangeStore>(changes: &P, from: ChangeHash, h: ChangeHash, d: ChangeHash)
    requires
        dep_reachable(changes, from, h),
        dep_step(changes, h, d),
    ensures
        dep_reachable(changes, from, d),
{
    let path = choose|path: Seq<ChangeHash>| #[trigger] dep_path(changes, path) && path[0] == from && path.last() == h;
    let p2 = path.push(d);
    assert forall|j: int| 0 <= j < p2.len() - 1 implies #[trigger] dep_step(changes, p2[j], p2[j + 1]) by {
        if j < path.len() - 1 {
            assert(p2[j] == path[j] && p2[j + 1] == path[j + 1]);
            assert(dep_step(changes, path[j], path[j + 1]));
        } else {
            assert(p2[j] == h && p2[j + 1] == d);
        }
    }
    assert(dep_path(changes, p2));
    assert(p2[0] == from && p2.last() == d);
}

/// Every change reaches itself.
pub proof fn lemma_dep_reachable_refl<P: ChangeStore>(changes: &P, h: ChangeHash)
    ensures
        dep_reachable(changes, h, h),
{
    let path = seq![h];
    assert(dep_path(changes, path));
    assert(path[0] == h && path.last() == h);
}

/// Whether the change of hash `h` is registered and on the channel of log `log`.
pub open spec fn hash_applied(internal: Seq<(ChangeHash, ChangeId)>, log: Seq<(ChangeId, ChangeHash, Merkle)>, h: ChangeHash) -> bool {
    internal_of(internal, h) matches Some(c) && log_position(log, c) is Some
}

/// Registering changes keeps the identifier of each registered hash.
pub proof fn lemma_internal_of_prefix(a: Seq<(ChangeHash, ChangeId)>, b: Seq<(ChangeHash, ChangeId)>, h: ChangeHash)
    requires
        a.is_prefix_of(b),
        internal_of(a, h) is Some,
    ensures
        internal_of(b, h) == internal_of(a, h),
    decreases a.len(),
{
    if a[0].0 != h {
        assert(a.drop_first().is_prefix_of(b.drop_first())) by {
            assert forall|i: int| 0 <= i < a.drop_first().len() implies a.drop_first()[i] == b.drop_first()[i] by {
                assert(a[i + 1] == b[i + 1]);
            }
        }
        lemma_internal_of_prefix(a.drop_first(), b.drop_first(), h);
    } else {
        assert(b[0] == a[0]);
    }
}

/// A change applied on a channel stays applied while changes are
/// registered and the log grows.
pub proof fn lemma_hash_applied_grows(
    i1: Seq<(ChangeHash, ChangeId)>,
    l1: Seq<(ChangeId, ChangeHash, Merkle)>,
    i2: Seq<(ChangeHash, ChangeId)>,
    l2: Seq<(ChangeId, ChangeHash, Merkle)>,
    h: ChangeHash,
)
    requires
        i1.is_prefix_of(i2),
        l1.is_prefix_of(l2),
        hash_applied(i1, l1, h),
    ensures
        hash_applied(i2, l2, h),
{
    lemma_internal_of_prefix(i1, i2, h);
    let c = internal_of(i1, h).unwrap();
    assert(l2.take(l1.len() as int) == l1);
    lemma_log_prefix(l2, c, l1.len() as int);
}

/// Once `t` is on the stack of a recursive application (as its first entry
/// while not expanded yet, or as an entry to apply), or is applied, it is
/// applied when the stack is empty.
pub open spec fn target_pending(
    internal: Seq<(ChangeHash, ChangeId)>,
    log: Seq<(ChangeId, ChangeHash, Merkle)>,
    stack: Seq<(ChangeHash, bool, bool)>,
    visited: Seq<ChangeHash>,
    t: ChangeHash,
) -> bool {
    ||| hash_applied(internal, log, t)
    ||| exists|k: int| 0 <= k < stack.len() && #[trigger] stack[k] == (t, false, true)
    ||| (stack.len() > 0 && stack[0] == (t, true, true) && !visited.contains(t))
}

/// Every entry of `stack` to be expanded is an entry to apply.
pub open spec fn expansions_apply(stack: Seq<(ChangeHash, bool, bool)>) -> bool {
    forall|k: int| 0 <= k < stack.len() && (#[trigger] stack[k]).1 ==> stack[k].2
}

/// One step of a recursive application keeps its target pending: the top
/// of the stack `s0` was taken, the rest stays at the bottom of `s1`, the
/// registered changes and the log only grew, and the target was applied
/// or scheduled for application if it was the entry taken.
pub proof fn lemma_target_pending_step(
    i0: Seq<(ChangeHash, ChangeId)>,
    l0: Seq<(ChangeId, ChangeHash, Merkle)>,
    s0: Seq<(ChangeHash, bool, bool)>,
    v0: Seq<ChangeHash>,
    i1: Seq<(ChangeHash, ChangeId)>,
    l1: Seq<(ChangeId, ChangeHash, Merkle)>,
    s1: Seq<(ChangeHash, bool, bool)>,
    v1: Seq<ChangeHash>,
    t: ChangeHash,
)
    requires
        target_pending(i0, l0, s0, v0, t),
        s0.len() > 0,
        s0.drop_last().is_prefix_of(s1),
        i0.is_prefix_of(i1),
        l0.is_prefix_of(l1),
        s0.last().1 ==> s0.last().2,
        v1 == v0 || (v1 == v0.push(s0.last().0) && s0.last().1 && !v0.contains(s0.last().0)),
        s0.last() == (t, false, true) ==> hash_applied(i1, l1, t),
        s0.last() == (t, true, true) && !v0.contains(t) ==> hash_applied(i1, l1, t) || exists|k: int|
            0 <= k < s1.len() && #[trigger] s1[k] == (t, false, true),
    ensures
        target_pending(i1, l1, s1, v1, t),
{
    let base = s0.drop_last();
    if hash_applied(i0, l0, t) {
        lemma_hash_applied_grows(i0, l0, i1, l1, t);
    } else if exists|k: int| 0 <= k < s0.len() && #[trigger] s0[k] == (t, false, true) {
        let k = choose|k: int| 0 <= k < s0.len() && #[trigger] s0[k] == (t, false, true);
        if k < s0.len() - 1 {
            assert(base[k] == s0[k]);
            assert(s1[k] == base[k]);
        }
    } else {
        assert(s0[0] == (t, true, true) && !v0.contains(t));
        if s0.len() > 1 {
            assert(base[0] == s0[0]);
            assert(s1[0] == base[0]);
            if v1 != v0 && s0.last().0 != t {
                assert(!v1.contains(t)) by {
                    if v1.contains(t) {
                        let j = choose|j: int| 0 <= j < v1.len() && v1[j] == t;
                        if j < v0.len() {
                            assert(v0[j] == t);
                        }
                    }
                }
            }
        }
    }
}

/// Applies the change of hash `hash` after all its dependencies that are
/// not on `channel` yet, recursively, taking the changes from `changes`.
/// With `deps_only`, only the dependencies are applied. Each change is
/// expanded once.
pub fn apply_change_rec_ws<P: ChangeStore>(
    changes: &P,
    txn: &mut Txn,
    channel: &mut Channel,
    hash: &ChangeHash,
    workspace: &mut Workspace,
    deps_only: bool,
) -> (r: Result<(), ApplyError<P::Error>>)
    requires
        pristine_wf(*old(txn), *old(channel)),
    ensures
        pristine_wf(*final(txn), *final(channel)),
        old(channel).log@.is_prefix_of(final(channel).log@),
        forall|i: int| old(channel).log@.len() <= i < final(channel).log@.len() ==> changes.stored().contains(
            (#[trigger] final(channel).log@[i]).1,
        ),
        r is Ok && !deps_only ==> hash_applied(final(txn).internal@, final(channel).log@, *hash),
        deps_only ==> forall|i: int| old(channel).log@.len() <= i < final(channel).log@.len() ==> (#[trigger] final(channel).log@[i]).1 != *hash,
        r matches Err(e) ==> e is Changestore || e is LocalChange,
        (r is Ok || r matches Err(ApplyError::LocalChange(_))) ==> changes.stored().contains(*hash),
        forall|i: int| old(channel).log@.len() <= i < final(channel).log@.len() ==> deps_before(changes.dependencies_of((#[trigger] final(channel).log@[i]).1), final(txn).internal@, final(channel).log@, i),
        old(txn).internal@.is_prefix_of(final(txn).internal@),
        hash_applied(old(txn).internal@, old(channel).log@, *hash) ==> *final(txn) == *old(txn) && *final(channel)
            == *old(channel) && (r is Ok || r matches Err(ApplyError::Changestore(_))),
        forall|i: int| old(channel).log@.len() <= i < final(channel).log@.len() ==> dep_reachable(changes, *hash, (#[trigger] final(channel).log@[i]).1),
        deps_closed(changes, old(channel).log@) ==> deps_closed(changes, final(channel).log@),
        deps_ordered(changes, old(txn).internal@, old(channel).log@) ==> deps_ordered(changes, final(txn).internal@, final(channel).log@),
        r is Ok && !deps_only && deps_closed(
            changes,
            old(channel).log@,
        ) ==> forall|h: ChangeHash| #[trigger] dep_reachable(changes, *hash, h) ==> hash_in_log(final(channel).log@, h),
        r is Ok && deps_only ==> hash_applied(final(txn).internal@, final(channel).log@, *hash) || forall|d: ChangeHash|
            #[trigger] dep_step(changes, *hash, d) && d != *hash ==> hash_applied(final(txn).internal@, final(channel).log@, d),
        r is Ok && deps_only && deps_closed(
            changes,
            old(channel).log@,
        ) ==> hash_applied(final(txn).internal@, final(channel).log@, *hash) || forall|d: ChangeHash, h: ChangeHash|
            #![trigger dep_step(changes, *hash, d), dep_reachable(changes, d, h)]
            dep_step(changes, *hash, d) && d != *hash && dep_reachable(changes, d, h) ==> hash_in_log(final(channel).log@, h),
{
    let ghost named = ids_unique(old(txn).internal@) && log_named(old(txn).internal@, old(channel).log@);
    assert(named);
    let ghost mut expanded = false;
    let ghost closed = named && deps_closed(changes, old(channel).log@);
    let ghost noop = hash_applied(old(txn).internal@, old(channel).log@, *hash);
    workspace.clear();
    let mut dep_stack: Vec<(ChangeHash, bool, bool)> = Vec::new();
    dep_stack.push((*hash, true, !deps_only));
    let mut visited: Vec<ChangeHash> = Vec::new();
    proof {
        changes.lemma_stored_finite();
        assert(dep_stack@[0] == (*hash, true, !deps_only));
        lemma_dep_reachable_refl(changes, *hash);
    }
    while dep_stack.len() > 0
        invariant
            pristine_wf(*txn, *channel),
            old(channel).log@.is_prefix_of(channel.log@),
            forall|i: int| old(channel).log@.len() <= i < channel.log@.len() ==> changes.stored().contains(
                (#[trigger] channel.log@[i]).1,
            ),
            changes.stored().finite(),
            visited@.no_duplicates(),
            forall|i: int| 0 <= i < visited@.len() ==> changes.stored().contains(#[trigger] visited@[i]),
            visited@.len() <= changes.stored().len(),
            !deps_only ==> expansions_apply(dep_stack@),
            !deps_only ==> target_pending(txn.internal@, channel.log@, dep_stack@, visited@, *hash),
            changes.stored().contains(*hash) || dep_stack@ == seq![(*hash, true, !deps_only)],
            forall|i: int| old(channel).log@.len() <= i < channel.log@.len() ==> deps_before(changes.dependencies_of((#[trigger] channel.log@[i]).1), txn.internal@, channel.log@, i),
            deps_only ==> forall|i: int| old(channel).log@.len() <= i < channel.log@.len() ==> (#[trigger] channel.log@[i]).1 != *hash,
            deps_only ==> forall|k: int| 0 <= k < dep_stack@.len() ==> !((#[trigger] dep_stack@[k]).0 == *hash && !dep_stack@[k].1 && dep_stack@[k].2),
            deps_only ==> (visited@.contains(*hash) || (dep_stack@ == seq![(*hash, true, false)] && visited@.len() == 0)),
            old(txn).internal@.is_prefix_of(txn.internal@),
            noop == hash_applied(old(txn).internal@, old(channel).log@, *hash),
            noop ==> *txn == *old(txn) && *channel == *old(channel) && ((dep_stack@ == seq![(*hash, true, !deps_only)]
                && visited@.len() == 0) || dep_stack@.len() == 0),
            forall|k: int| 0 <= k < dep_stack@.len() ==> dep_reachable(changes, *hash, (#[trigger] dep_stack@[k]).0),
            forall|i: int| old(channel).log@.len() <= i < channel.log@.len() ==> dep_reachable(changes, *hash, (#[trigger] channel.log@[i]).1),
            named == (ids_unique(old(txn).internal@) && log_named(old(txn).internal@, old(channel).log@)),
            named,
            deps_ordered(changes, old(txn).internal@, old(channel).log@) ==> deps_ordered(changes, txn.internal@, channel.log@),
            closed == (named && deps_closed(changes, old(channel).log@)),
            named ==> ids_unique(txn.internal@) && log_named(txn.internal@, channel.log@),
            closed ==> deps_closed(changes, channel.log@),
            deps_only ==> forall|x: ChangeHash| #[trigger] visited@.contains(x) && x != *hash ==> visit_pending(txn.internal@, channel.log@, dep_stack@, x),
            deps_only && visited@.contains(*hash) ==> expanded || hash_applied(txn.internal@, channel.log@, *hash),
            deps_only && expanded ==> forall|d: ChangeHash| #[trigger] dep_step(changes, *hash, d) && d != *hash ==> visited@.contains(d)
                || exists|k: int| 0 <= k < dep_stack@.len() && dep_stack@[k] == (d, true, true),
            forall|k: int| 0 <= k < dep_stack@.len() && (#[trigger] dep_stack@[k]).1 && dep_stack@[k].0 != *hash ==> dep_stack@[k].2,
        decreases changes.stored().len() - visited@.len(), dep_stack.len(),
    {
        let ghost s0 = dep_stack@;
        let ghost vis0 = visited@;
        let ghost i0 = txn.internal@;
        let ghost l0 = channel.log@;
        proof {
            assert(i0.is_prefix_of(i0)) by { assert(i0 =~= i0.subrange(0, i0.len() as int)); }
            assert(l0.is_prefix_of(l0)) by { assert(l0 =~= l0.subrange(0, l0.len() as int)); }
        }
        let (h, first, actually_apply) = match dep_stack.pop() {
            Some(x) => x,
            None => return Ok(()),
        };
        let ghost base = dep_stack@;
        proof {
            assert(base == s0.drop_last());
            assert(s0[s0.len() - 1] == (h, first, actually_apply));
            assert forall|k: int| 0 <= k < dep_stack@.len() implies #[trigger] dep_stack@[k] == s0[k] by {}
            assert(base.is_prefix_of(dep_stack@)) by { assert(base =~= dep_stack@.subrange(0, base.len() as int)); }
            if !deps_only {
                assert(s0.last() == s0[s0.len() - 1]);
            }
        }
        let change = match changes.get_change(&h) {
            Ok(c) => c,
            Err(e) => return Err(ApplyError::Changestore(e)),
        };
        if first {
            if hash_listed(&visited, &h) {
                proof {
                    if !deps_only {
                        lemma_target_pending_step(i0, l0, s0, vis0, i0, l0, dep_stack@, visited@, *hash);
                    }
                    if deps_only {
                        assert forall|y: ChangeHash| vis0.contains(y) implies visited@.contains(y) by {
                            let q = choose|q: int| 0 <= q < vis0.len() && vis0[q] == y;
                            assert(visited@[q] == y);
                        }
                        lemma_tracking_step(changes, *hash, i0, l0, s0, vis0, i0, l0, dep_stack@, visited@, expanded);
                    }
                }
                continue;
            }
            let ghost v0 = visited@;
            visited.push(h);
            proof {
                if deps_only {
                    assert(visited@[visited@.len() - 1] == h);
                    if v0.contains(*hash) {
                        let k = choose|k: int| 0 <= k < v0.len() && v0[k] == *hash;
                        assert(visited@[k] == *hash);
                    }
                    assert(visited@.contains(*hash));
                }
                assert(visited@.no_duplicates()) by {
                    assert forall|a: int, b: int| 0 <= a < b < visited@.len() implies visited@[a] != visited@[b] by {
                        if b == visited@.len() - 1 {
                            assert(v0[a] == visited@[a]);
                            assert(!v0.contains(h));
                        }
                    }
                }
                visited@.unique_seq_to_set();
                assert(visited@.to_set().subset_of(changes.stored())) by {
                    assert forall|x: ChangeHash| visited@.to_set().contains(x) implies changes.stored().contains(x) by {
                        let k = choose|k: int| 0 <= k < visited@.len() && visited@[k] == x;
                        assert(changes.stored().contains(visited@[k]));
                    }
                }
                vstd::set_lib::lemma_len_subset(visited@.to_set(), changes.stored());
            }
            if let Some(c) = txn.get_internal(&h) {
                if channel.get_changeset(c).is_some() {
                    proof {
                        if !deps_only {
                            lemma_target_pending_step(i0, l0, s0, vis0, i0, l0, dep_stack@, visited@, *hash);
                        }
                        assert(hash_applied(i0, l0, h));
                        assert forall|x: ChangeHash| #[trigger] visited@.contains(x) && !vis0.contains(x) && x != *hash implies visit_pending(
                            i0,
                            l0,
                            dep_stack@,
                            x,
                        ) by {
                            assert(x == h);
                        }
                        if deps_only {
                        assert forall|y: ChangeHash| vis0.contains(y) implies visited@.contains(y) by {
                            let q = choose|q: int| 0 <= q < vis0.len() && vis0[q] == y;
                            assert(visited@[q] == y);
                        }
                        lemma_tracking_step(changes, *hash, i0, l0, s0, vis0, i0, l0, dep_stack@, visited@, expanded);
                    }
                    }
                    continue;
                }
            }
            proof {
                if deps_only && h == *hash {
                    assert(!vis0.contains(*hash));
                    assert(s0 == seq![(*hash, true, false)]);
                    assert(!actually_apply);
                }
            }
            dep_stack.push((h, false, actually_apply));
            let ghost pushed = dep_stack@;
            proof {
                assert(pushed[base.len() as int] == (h, false, actually_apply));
            }
            let mut k: usize = 0;
            while k < change.dependencies.len()
                invariant
                    0 <= k <= change.dependencies@.len(),
                    pushed.len() <= dep_stack@.len(),
                    forall|j: int| 0 <= j < pushed.len() ==> #[trigger] dep_stack@[j] == pushed[j],
                    !deps_only ==> expansions_apply(dep_stack@),
                    deps_only ==> forall|k: int| 0 <= k < dep_stack@.len() ==> !((#[trigger] dep_stack@[k]).0 == *hash && !dep_stack@[k].1 && dep_stack@[k].2),
                    forall|j: int| 0 <= j < dep_stack@.len() ==> dep_reachable(changes, *hash, (#[trigger] dep_stack@[j]).0),
                    change.dependencies@ == changes.dependencies_of(h),
                    dep_reachable(changes, *hash, h),
                    forall|j: int| 0 <= j < k && change.dependencies@[j] != ChangeHash::Root ==> exists|m: int|
                        0 <= m < dep_stack@.len() && dep_stack@[m] == (#[trigger] change.dependencies@[j], true, true),
                    forall|m: int| 0 <= m < dep_stack@.len() && (#[trigger] dep_stack@[m]).1 && dep_stack@[m].0 != *hash ==> dep_stack@[m].2,
                decreases change.dependencies.len() - k,
            {
                let d = change.dependencies[k];
                match d {
                    ChangeHash::Root => {},
                    _ => {
                        proof {
                            assert(changes.dependencies_of(h)[k as int] == d);
                            assert(dep_step(changes, h, d));
                            lemma_dep_reachable_step(changes, *hash, h, d);
                        }
                        let ghost prev = dep_stack@;
                        dep_stack.push((d, true, true));
                        proof {
                            assert forall|j: int| 0 <= j < k + 1 && change.dependencies@[j] != ChangeHash::Root implies exists|m: int|
                                0 <= m < dep_stack@.len() && dep_stack@[m] == (#[trigger] change.dependencies@[j], true, true) by {
                                if j < k {
                                    let m = choose|m: int| 0 <= m < prev.len() && prev[m] == (change.dependencies@[j], true, true);
                                    assert(dep_stack@[m] == prev[m]);
                                } else {
                                    assert(dep_stack@[prev.len() as int] == (d, true, true));
                                }
                            }
                        }
                    },
                }
                k = k + 1;
            }
            proof {
                assert(base.is_prefix_of(dep_stack@)) by {
                    assert forall|j: int| 0 <= j < base.len() implies base[j] == dep_stack@[j] by {
                        assert(dep_stack@[j] == pushed[j]);
                    }
                    assert(base =~= dep_stack@.subrange(0, base.len() as int));
                }
                if !deps_only {
                    assert(dep_stack@[base.len() as int] == pushed[base.len() as int]);
                    lemma_target_pending_step(i0, l0, s0, vis0, i0, l0, dep_stack@, visited@, *hash);
                }
                assert(dep_stack@[base.len() as int] == pushed[base.len() as int]);
                assert(s0.last() == (h, true, actually_apply));
                assert forall|x: ChangeHash| #[trigger] visited@.contains(x) && !vis0.contains(x) && x != *hash implies visit_pending(
                    i0,
                    l0,
                    dep_stack@,
                    x,
                ) by {
                    assert(x == h);
                    assert(s0[s0.len() - 1] == (h, true, actually_apply));
                    assert(actually_apply);
                    assert(dep_stack@[base.len() as int] == (x, false, true));
                }
                if deps_only {
                        assert forall|y: ChangeHash| vis0.contains(y) implies visited@.contains(y) by {
                            let q = choose|q: int| 0 <= q < vis0.len() && vis0[q] == y;
                            assert(visited@[q] == y);
                        }
                        lemma_tracking_step(changes, *hash, i0, l0, s0, vis0, i0, l0, dep_stack@, visited@, expanded);
                    }
                if deps_only && h == *hash {
                    assert forall|d: ChangeHash| #[trigger] dep_step(changes, *hash, d) && d != *hash implies visited@.contains(d) || exists|m: int|
                        0 <= m < dep_stack@.len() && dep_stack@[m] == (d, true, true) by {
                        let j = choose|j: int| 0 <= j < change.dependencies@.len() && change.dependencies@[j] == d;
                        assert(change.dependencies@[j] != ChangeHash::Root);
                    }
                }
            }
            proof {
                if deps_only && h == *hash {
                    expanded = true;
                }
            }
        } else if actually_apply {
            let applied = match txn.get_internal(&h) {
                Some(c) => channel.get_changeset(c).is_some(),
                None => false,
            };
            if !applied {
                let ghost t0 = *txn;
                let r = apply_loaded_change(txn, channel, &h, &change, workspace);
                proof {
                    lemma_deps_before_step(changes, old(channel).log@.len() as int, i0, l0, txn.internal@, channel.log@, h, change);
                    if closed {
                        assert(l0.is_prefix_of(channel.log@)) by {
                            assert(l0 =~= channel.log@.subrange(0, l0.len() as int));
                        }
                        lemma_deps_before_step(changes, l0.len() as int, i0, l0, txn.internal@, channel.log@, h, change);
                        lemma_deps_closed_grows(changes, txn.internal@, l0, channel.log@);
                    }
                    if deps_ordered(changes, old(txn).internal@, old(channel).log@) {
                        assert(l0.is_prefix_of(channel.log@)) by {
                            assert(l0 =~= channel.log@.subrange(0, l0.len() as int));
                        }
                        lemma_deps_before_step(changes, l0.len() as int, i0, l0, txn.internal@, channel.log@, h, change);
                        lemma_deps_ordered_grows(changes, i0, l0, txn.internal@, channel.log@);
                    }
                    assert forall|i: int| old(channel).log@.len() <= i < channel.log@.len() implies changes.stored().contains(
                        (#[trigger] channel.log@[i]).1,
                    ) by {
                        if i >= l0.len() {
                            assert(channel.log@[i].1 == h);
                        } else {
                            assert(channel.log@[i] == l0[i]);
                        }
                    }
                    assert(old(channel).log@.is_prefix_of(channel.log@)) by {
                        assert forall|j: int| 0 <= j < old(channel).log@.len() implies channel.log@[j] == old(channel).log@[j] by {
                            assert(l0[j] == old(channel).log@[j]);
                        }
                    }
                    assert(l0.is_prefix_of(channel.log@)) by {
                        assert(l0 =~= channel.log@.subrange(0, l0.len() as int));
                    }
                    assert(old(txn).internal@.is_prefix_of(txn.internal@)) by {
                        assert forall|j: int| 0 <= j < old(txn).internal@.len() implies txn.internal@[j] == old(txn).internal@[j] by {
                            assert(i0[j] == old(txn).internal@[j]);
                        }
                        assert(old(txn).internal@ =~= txn.internal@.subrange(0, old(txn).internal@.len() as int));
                    }
                }
                match r {
                    Ok(_) => {
                        proof {
                            let c = id_for(t0, h);
                            assert(log_position(l0, c) is None);
                            assert(channel.log@[channel.log@.len() - 1].0 == c);
                            lemma_log_position(channel.log@, c);
                            assert(hash_applied(txn.internal@, channel.log@, h));
                            if !deps_only {
                                lemma_target_pending_step(i0, l0, s0, vis0, txn.internal@, channel.log@, dep_stack@, visited@, *hash);
                            }
                            assert(base == dep_stack@);
                            assert(base.is_prefix_of(dep_stack@)) by { assert(base =~= dep_stack@.subrange(0, base.len() as int)); }
                            if deps_only {
                                lemma_tracking_step(changes, *hash, i0, l0, s0, vis0, txn.internal@, channel.log@, dep_stack@, visited@, expanded);
                            }
                            if deps_only && visited@.contains(*hash) && !expanded {
                                lemma_hash_applied_grows(i0, l0, txn.internal@, channel.log@, *hash);
                            }
                        }
                    },
                    Err(e) => return Err(ApplyError::LocalChange(e)),
                }
            } else {
                proof {
                    if !deps_only {
                        lemma_target_pending_step(i0, l0, s0, vis0, i0, l0, dep_stack@, visited@, *hash);
                    }
                    assert(hash_applied(i0, l0, h));
                    assert(base.is_prefix_of(dep_stack@)) by { assert(base =~= dep_stack@.subrange(0, base.len() as int)); }
                    if deps_only {
                        assert forall|y: ChangeHash| vis0.contains(y) implies visited@.contains(y) by {
                            let q = choose|q: int| 0 <= q < vis0.len() && vis0[q] == y;
                            assert(visited@[q] == y);
                        }
                        lemma_tracking_step(changes, *hash, i0, l0, s0, vis0, i0, l0, dep_stack@, visited@, expanded);
                    }
                }
            }
        } else {
            proof {
                if !deps_only {
                    lemma_target_pending_step(i0, l0, s0, vis0, i0, l0, dep_stack@, visited@, *hash);
                }
                assert(base.is_prefix_of(dep_stack@)) by { assert(base =~= dep_stack@.subrange(0, base.len() as int)); }
                if deps_only {
                        assert forall|y: ChangeHash| vis0.contains(y) implies visited@.contains(y) by {
                            let q = choose|q: int| 0 <= q < vis0.len() && vis0[q] == y;
                            assert(visited@[q] == y);
                        }
                        lemma_tracking_step(changes, *hash, i0, l0, s0, vis0, i0, l0, dep_stack@, visited@, expanded);
                    }
            }
        }
    }
    proof {
        if deps_only && !hash_applied(txn.internal@, channel.log@, *hash) {
            assert(visited@.contains(*hash));
            assert forall|d: ChangeHash| #[trigger] dep_step(changes, *hash, d) && d != *hash implies hash_applied(
                txn.internal@,
                channel.log@,
                d,
            ) by {
                assert(visited@.contains(d));
                assert(visit_pending(txn.internal@, channel.log@, dep_stack@, d));
            }
            if closed {
                assert forall|d: ChangeHash, h: ChangeHash|
                    #![trigger dep_step(changes, *hash, d), dep_reachable(changes, d, h)]
                    dep_step(changes, *hash, d) && d != *hash && dep_reachable(changes, d, h) implies hash_in_log(channel.log@, h) by {
                    assert(hash_applied(txn.internal@, channel.log@, d));
                    lemma_applied_in_log(txn.internal@, channel.log@, d);
                    lemma_reachable_in_log(changes, channel.log@, d, h);
                }
            }
        }
        if closed && !deps_only {
            assert(hash_applied(txn.internal@, channel.log@, *hash));
            lemma_applied_in_log(txn.internal@, channel.log@, *hash);
            assert forall|h: ChangeHash| #[trigger] dep_reachable(changes, *hash, h) implies hash_in_log(channel.log@, h) by {
                lemma_reachable_in_log(changes, channel.log@, *hash, h);
            }
        }
    }
    Ok(())
}

/// The dependencies `deps` of the change at position `i` of `log` were all
/// applied before it.
pub open spec fn deps_before(deps: Seq<ChangeHash>, internal: Seq<(ChangeHash, ChangeId)>, log: Seq<(ChangeId, ChangeHash, Merkle)>, i: int) -> bool {
    forall|k: int| 0 <= k < deps.len() ==> dep_applied(internal, log.take(i), #[trigger] deps[k])
}

/// When no dependency is missing, every dependency is applied.
pub proof fn lemma_first_missing_none(internal: Seq<(ChangeHash, ChangeId)>, log: Seq<(ChangeId, ChangeHash, Merkle)>, deps: Seq<ChangeHash>)
    requires
        first_missing(internal, log, deps) is None,
    ensures
        forall|k: int| 0 <= k < deps.len() ==> dep_applied(internal, log, #[trigger] deps[k]),
    decreases deps.len(),
{
    if deps.len() > 0 {
        lemma_first_missing_none(internal, log, deps.drop_first());
        assert forall|k: int| 0 <= k < deps.len() implies dep_applied(internal, log, #[trigger] deps[k]) by {
            if k > 0 {
                assert(deps.drop_first()[k - 1] == deps[k]);
            }
        }
    }
}

/// A change put on a log after its dependencies stays so while changes are
/// registered and applied after it; and a change that its application put
/// on the log came after its dependencies.
proof fn lemma_deps_before_step<P: ChangeStore>(
    changes: &P,
    base: int,
    i0: Seq<(ChangeHash, ChangeId)>,
    l0: Seq<(ChangeId, ChangeHash, Merkle)>,
    i1: Seq<(ChangeHash, ChangeId)>,
    l1: Seq<(ChangeId, ChangeHash, Merkle)>,
    h: ChangeHash,
    change: Change,
)
    requires
        0 <= base <= l0.len(),
        i0.is_prefix_of(i1),
        forall|i: int| base <= i < l0.len() ==> deps_before(changes.dependencies_of((#[trigger] l0[i]).1), i0, l0, i),
        l1 == l0 || (l1 == l0.push(l1.last()) && l1.last().1 == h && first_missing(i0, l0, change.dependencies@) is None),
        change.dependencies@ == changes.dependencies_of(h),
    ensures
        forall|i: int| base <= i < l1.len() ==> deps_before(changes.dependencies_of((#[trigger] l1[i]).1), i1, l1, i),
{
    assert forall|i: int| base <= i < l1.len() implies deps_before(changes.dependencies_of((#[trigger] l1[i]).1), i1, l1, i) by {
        let deps = changes.dependencies_of(l1[i].1);
        if i < l0.len() {
            assert(l1[i] == l0[i]);
            assert(l1.take(i) =~= l0.take(i));
            assert(deps_before(deps, i0, l0, i));
            assert forall|k: int| 0 <= k < deps.len() implies dep_applied(i1, l1.take(i), #[trigger] deps[k]) by {
                assert(dep_applied(i0, l0.take(i), deps[k]));
                if !(deps[k] is Root) {
                    lemma_internal_of_prefix(i0, i1, deps[k]);
                }
            }
        } else {
            assert(l1.take(i) =~= l0);
            lemma_first_missing_none(i0, l0, change.dependencies@);
            assert forall|k: int| 0 <= k < deps.len() implies dep_applied(i1, l1.take(i), #[trigger] deps[k]) by {
                assert(dep_applied(i0, l0, change.dependencies@[k]));
                if !(deps[k] is Root) {
                    lemma_internal_of_prefix(i0, i1, deps[k]);
                }
            }
        }
    }
}

/// Changes put on a log after their dependencies stay so while changes are
/// registered and applied after them.
pub proof fn lemma_deps_before_grows<P: ChangeStore>(
    changes: &P,
    base: int,
    i0: Seq<(ChangeHash, ChangeId)>,
    l0: Seq<(ChangeId, ChangeHash, Merkle)>,
    i1: Seq<(ChangeHash, ChangeId)>,
    l1: Seq<(ChangeId, ChangeHash, Merkle)>,
)
    requires
        0 <= base,
        i0.is_prefix_of(i1),
        l0.is_prefix_of(l1),
        forall|i: int| base <= i < l0.len() ==> deps_before(changes.dependencies_of((#[trigger] l0[i]).1), i0, l0, i),
    ensures
        forall|i: int| base <= i < l0.len() ==> deps_before(changes.dependencies_of((#[trigger] l1[i]).1), i1, l1, i),
{
    assert forall|i: int| base <= i < l0.len() implies deps_before(changes.dependencies_of((#[trigger] l1[i]).1), i1, l1, i) by {
        let deps = changes.dependencies_of(l1[i].1);
        assert(l1[i] == l0[i]);
        assert(l1.take(i) =~= l0.take(i));
        assert(deps_before(deps, i0, l0, i));
        assert forall|k: int| 0 <= k < deps.len() implies dep_applied(i1, l1.take(i), #[trigger] deps[k]) by {
            assert(dep_applied(i0, l0.take(i), deps[k]));
            if !(deps[k] is Root) {
                lemma_internal_of_prefix(i0, i1, deps[k]);
            }
        }
    }
}

/// Same as [apply_change_rec_ws], with a workspace of its own.
pub fn apply_change_rec<P: ChangeStore>(
    changes: &P,
    txn: &mut Txn,
    channel: &mut Channel,
    hash: &ChangeHash,
    deps_only: bool,
) -> (r: Result<(), ApplyError<P::Error>>)
    requires
        pristine_wf(*old(txn), *old(channel)),
    ensures
        pristine_wf(*final(txn), *final(channel)),
        old(channel).log@.is_prefix_of(final(channel).log@),
        forall|i: int| old(channel).log@.len() <= i < final(channel).log@.len() ==> changes.stored().contains(
            (#[trigger] final(channel).log@[i]).1,
        ),
        r is Ok && !deps_only ==> hash_applied(final(txn).internal@, final(channel).log@, *hash),
        deps_only ==> forall|i: int| old(channel).log@.len() <= i < final(channel).log@.len() ==> (#[trigger] final(channel).log@[i]).1 != *hash,
        r matches Err(e) ==> e is Changestore || e is LocalChange,
        (r is Ok || r matches Err(ApplyError::LocalChange(_))) ==> changes.stored().contains(*hash),
        forall|i: int| old(channel).log@.len() <= i < final(channel).log@.len() ==> deps_before(changes.dependencies_of((#[trigger] final(channel).log@[i]).1), final(txn).internal@, final(channel).log@, i),
        old(txn).internal@.is_prefix_of(final(txn).internal@),
        hash_applied(old(txn).internal@, old(channel).log@, *hash) ==> *final(txn) == *old(txn) && *final(channel)
            == *old(channel) && (r is Ok || r matches Err(ApplyError::Changestore(_))),
        forall|i: int| old(channel).log@.len() <= i < final(channel).log@.len() ==> dep_reachable(changes, *hash, (#[trigger] final(channel).log@[i]).1),
        deps_closed(changes, old(channel).log@) ==> deps_closed(changes, final(channel).log@),
        deps_ordered(changes, old(txn).internal@, old(channel).log@) ==> deps_ordered(changes, final(txn).internal@, final(channel).log@),
        r is Ok && !deps_only && deps_closed(
            changes,
            old(channel).log@,
        ) ==> forall|h: ChangeHash| #[trigger] dep_reachable(changes, *hash, h) ==> hash_in_log(final(channel).log@, h),
        r is Ok && deps_only ==> hash_applied(final(txn).internal@, final(channel).log@, *hash) || forall|d: ChangeHash|
            #[trigger] dep_step(changes, *hash, d) && d != *hash ==> hash_applied(final(txn).internal@, final(channel).log@, d),
        r is Ok && deps_only && deps_closed(
            changes,
            old(channel).log@,
        ) ==> hash_applied(final(txn).internal@, final(channel).log@, *hash) || forall|d: ChangeHash, h: ChangeHash|
            #![trigger dep_step(changes, *hash, d), dep_reachable(changes, d, h)]
            dep_step(changes, *hash, d) && d != *hash && dep_reachable(changes, d, h) ==> hash_in_log(final(channel).log@, h),
{
    let mut ws = Workspace::new();
    apply_change_rec_ws(changes, txn, channel, hash, &mut ws, deps_only)
}

/// A change of the working copy that a local change records: a file added
/// at the position `pos` of the change, or a file deleted.
#[derive(Clone, Copy, Debug, PartialEq, Eq, Structural)]
pub enum InodeUpdate {
    Add { inode: Inode, pos: ChangePosition },
    Deleted { inode: Inode },
}

/// The tree of `txn` once the name of `inode` is removed.
pub open spec fn tree_without_name(txn: Txn, inode: Inode) -> Seq<((Inode, Seq<char>), Inode)> {
    match revtree_of(txn.revtree@, inode) {
        Some(p) => without(tree_view(txn.tree@), (p, inode)),
        None => tree_view(txn.tree@),
    }
}

/// The tables of `t1` are those of `t0` once `update` is recorded for the
/// local change `internal` applied to `channel`.
pub open spec fn inode_updated(t0: Txn, t1: Txn, channel: Channel, internal: ChangeId, update: InodeUpdate) -> bool {
    match update {
        InodeUpdate::Add { inode, pos } => {
            let v = Position { change: internal, pos };
            &&& t1.tree == t0.tree
            &&& t1.revtree == t0.revtree
            &&& if exists|i: int| 0 <= i < channel.graph@.len() && #[trigger] channel.graph@[i].0 == v.spec_inode_vertex() {
                &&& t1.inodes@ == t0.inodes@.push((inode, v))
                &&& t1.revinodes@ == t0.revinodes@.push((v, inode))
            } else {
                &&& t1.inodes == t0.inodes
                &&& t1.revinodes == t0.revinodes
            }
        },
        InodeUpdate::Deleted { inode } => {
            &&& tree_view(t1.tree@) == without(tree_without_name(t0, inode), ((inode, Seq::<char>::empty()), inode))
            &&& revtree_view(t1.revtree@) == match revtree_of(t0.revtree@, inode) {
                Some(p) => without(revtree_view(t0.revtree@), (inode, p)),
                None => revtree_view(t0.revtree@),
            }
            &&& t1.inodes@ == match inode_pos_of(t0.inodes@, inode) {
                Some(v) => without(t0.inodes@, (inode, v)),
                None => t0.inodes@,
            }
            &&& t1.revinodes@ == match inode_pos_of(t0.inodes@, inode) {
                Some(v) => without(t0.revinodes@, (v, inode)),
                None => t0.revinodes@,
            }
        },
    }
}

/// `a` and `b` have the same working-copy tables.
pub open spec fn same_tables(a: Txn, b: Txn) -> bool {
    &&& a.tree == b.tree
    &&& a.revtree == b.revtree
    &&& a.inodes == b.inodes
    &&& a.revinodes == b.revinodes
}

/// `ts` is the run of tables through which the updates `us` lead, one by
/// one, from the tables of `t0` to `t1`.
pub open spec fn updates_recorded(ts: Seq<Txn>, t0: Txn, t1: Txn, channel: Channel, internal: ChangeId, us: Seq<InodeUpdate>) -> bool {
    &&& ts.len() == us.len() + 1
    &&& same_tables(ts[0], t0)
    &&& same_tables(ts.last(), t1)
    &&& forall|k: int| 0 <= k < us.len() ==> inode_updated(#[trigger] ts[k], ts[k + 1], channel, internal, us[k])
}

/// Updates the correspondence between the graph and the working copy after
/// the local change `internal` is applied: an added file is linked to its
/// inode vertex (if the vertex is in the graph), a deleted file loses its
/// name, its directory entry and its inode vertex.
pub fn update_inode(txn: &mut Txn, channel: &Channel, internal: ChangeId, update: &InodeUpdate) -> (r: Result<(), LocalApplyError>)
    ensures
        r is Ok,
        final(txn).internal == old(txn).internal,
        final(txn).next_id == old(txn).next_id,
        final(txn).dep == old(txn).dep,
        final(txn).rev_touched == old(txn).rev_touched,
        inode_updated(*old(txn), *final(txn), *channel, internal, *update),
{
    match *update {
        InodeUpdate::Add { inode, pos } => {
            let vertex = Position { change: internal, pos };
            if channel.graph.has_vertex(&vertex.inode_vertex()) {
                txn.put_inodes_with_rev(inode, vertex);
            }
        },
        InodeUpdate::Deleted { inode } => {
            if let Some(parent) = txn.get_revtree(inode) {
                txn.del_tree_with_rev(&parent, inode);
            }
            let dir = OwnedPathId::inode(inode);
            txn.del_tree(&dir, inode);
            if let Some(vertex) = txn.get_inodes(inode) {
                txn.del_inodes_with_rev(inode, vertex);
            }
        },
    }
    Ok(())
}

/// Applies a change made locally, of hash `hash`, to the channel: allocates
/// it a fresh identifier, checks its dependencies and its well-formedness,
/// registers it, applies it (see [apply_change_to_channel]), and records the
/// changes of the working copy that it makes (`inode_updates`, in order).
pub fn apply_local_change_ws(
    txn: &mut Txn,
    channel: &mut ChannelRef,
    change: &Change,
    hash: &ChangeHash,
    inode_updates: &Vec<InodeUpdate>,
    workspace: &mut Workspace,
) -> (r: Result<(u64, Merkle), LocalApplyError>)
    requires
        pristine_wf(*old(txn), old(channel).channel),
        old(workspace).is_clear(),
    ensures
        pristine_wf(*final(txn), final(channel).channel),
        old(txn).next_id == u64::MAX ==> r == Err::<(u64, Merkle), LocalApplyError>(LocalApplyError::Txn(TxnErr)),
        old(txn).next_id == u64::MAX || first_missing(old(txn).internal@, old(channel).channel.log@, change.dependencies@) is Some
            || !change_wf(*change) ==> {
            &&& final(txn).internal == old(txn).internal
            &&& final(txn).dep == old(txn).dep
            &&& final(txn).rev_touched == old(txn).rev_touched
            &&& same_tables(*old(txn), *final(txn))
            &&& final(channel).channel == old(channel).channel
        },
        old(txn).next_id < u64::MAX ==> {
            let c = ChangeId(old(txn).next_id);
            let missing = first_missing(old(txn).internal@, old(channel).channel.log@, change.dependencies@);
            &&& (missing matches Some(h) ==> r == Err::<(u64, Merkle), LocalApplyError>(LocalApplyError::DependencyMissing { hash: h })
                && final(channel).channel.log@ == old(channel).channel.log@)
            &&& (missing is None && !change_wf(*change) ==> r == Err::<(u64, Merkle), LocalApplyError>(LocalApplyError::InvalidChange)
                && final(channel).channel.log@ == old(channel).channel.log@)
            &&& (missing is None && change_wf(*change) ==> {
                &&& applied_to(old(channel).channel, final(channel).channel, c, *hash)
                &&& r matches Err(e) ==> graph_error(e)
                &&& r matches Ok((n, m)) ==> n == old(channel).channel.log@.len() && m == merkle_next_spec(old(channel).channel.spec_state(), *hash)
                &&& (change.changes@.len() == 0 && old(workspace).missing_context.files@.len() == 0 ==> r is Ok)
            })
        },
        r is Err ==> same_tables(*old(txn), *final(txn)),
        r is Ok ==> exists|ts: Seq<Txn>| updates_recorded(ts, *old(txn), *final(txn), final(channel).channel, ChangeId(old(txn).next_id), inode_updates@),
        r is Ok ==> edge_maps_applied(final(txn).internal@, *change, ChangeId(old(txn).next_id), final(channel).channel.graph@, false)
            && edge_maps_applied(final(txn).internal@, *change, ChangeId(old(txn).next_id), final(channel).channel.graph@, true),
{
    let internal = match txn.make_changeid() {
        Some(c) => c,
        None => return Err(LocalApplyError::Txn(TxnErr)),
    };
    proof {
        lemma_fresh_not_applied(*old(txn), old(channel).channel);
        assert forall|i: int| 0 <= i < txn.internal@.len() implies 0 < (#[trigger] txn.internal@[i]).1.0 < txn.next_id by {
            assert(txn.internal@[i] == old(txn).internal@[i]);
        }
    }
    if let Some(h) = first_missing_dependency(txn, &channel.channel, change) {
        return Err(LocalApplyError::DependencyMissing { hash: h });
    }
    if !check_change(change) {
        return Err(LocalApplyError::InvalidChange);
    }
    let ghost t0 = *txn;
    register_change(txn, internal, hash, change);
    proof {
        lemma_register_keeps(t0.internal@, (*hash, internal), channel.channel);
        assert forall|i: int| 0 <= i < txn.internal@.len() implies 0 < (#[trigger] txn.internal@[i]).1.0 < txn.next_id by {
            if i < t0.internal@.len() {
                assert(txn.internal@[i] == t0.internal@[i]);
            }
        }
        assert(txn.internal@ == t0.internal@.push((*hash, internal)));
        assert forall|i: int, j: int| 0 <= i < j < txn.internal@.len() implies (#[trigger] txn.internal@[i]).1 != (
        #[trigger] txn.internal@[j]).1 by {
            assert(txn.internal@[i] == t0.internal@[i]);
            if j < t0.internal@.len() {
                assert(txn.internal@[j] == t0.internal@[j]);
            } else {
                assert(t0.internal@[i].1.0 < old(txn).next_id);
            }
        }
        assert forall|i: int| 0 <= i < t0.internal@.len() implies (#[trigger] t0.internal@[i]).1 != internal by {
            assert(t0.internal@[i].1.0 < old(txn).next_id);
        }
        lemma_external_of_absent(t0.internal@, internal);
        lemma_external_of_push(t0.internal@, (*hash, internal), internal);
        assert(t0.internal@.is_prefix_of(txn.internal@)) by {
            assert(t0.internal@ =~= txn.internal@.subrange(0, t0.internal@.len() as int));
        }
        assert forall|i: int| 0 <= i < channel.channel.log@.len() implies external_of(txn.internal@, (#[trigger] channel.channel.log@[i]).0)
            == Some(channel.channel.log@[i].1) by {
            lemma_external_of_prefix(t0.internal@, txn.internal@, channel.channel.log@[i].0);
        }
    }
    let ghost log0 = channel.channel.log@;
    let n = apply_change_to_channel(txn, &mut channel.channel, internal, hash, change, workspace);
    proof {
        assert forall|i: int| 0 <= i < channel.channel.log@.len() implies external_of(txn.internal@, (#[trigger] channel.channel.log@[i]).0) is Some by {
            if i >= old(channel).channel.log@.len() {
                assert(channel.channel.log@[i].0 == internal);
            }
        }
        assert forall|i: int| 0 <= i < channel.channel.log@.len() implies external_of(txn.internal@, (#[trigger] channel.channel.log@[i]).0)
            == Some(channel.channel.log@[i].1) by {
            if i < log0.len() {
                assert(channel.channel.log@[i] == log0[i]);
            } else {
                assert(channel.channel.log@[i].0 == internal && channel.channel.log@[i].1 == *hash);
            }
        }
    }
    let n = n?;
    let ghost ts: Seq<Txn> = seq![*txn];
    let ghost applied_internal = txn.internal;
    let mut k: usize = 0;
    while k < inode_updates.len()
        invariant
            0 <= k <= inode_updates@.len(),
            txn.internal == applied_internal,
            edge_maps_applied(applied_internal@, *change, internal, channel.channel.graph@, false),
            edge_maps_applied(applied_internal@, *change, internal, channel.channel.graph@, true),
            pristine_wf(*txn, channel.channel),
            ts.len() == k + 1,
            same_tables(ts[0], *old(txn)),
            ts.last() == *txn,
            forall|j: int| 0 <= j < k ==> inode_updated(#[trigger] ts[j], ts[j + 1], channel.channel, internal, inode_updates@[j]),
        decreases inode_updates.len() - k,
    {
        let ghost before = *txn;
        update_inode(txn, &channel.channel, internal, &inode_updates[k])?;
        proof {
            ts = ts.push(*txn);
            assert(ts[k as int] == before);
        }
        k = k + 1;
    }
    proof {
        assert(updates_recorded(ts, *old(txn), *txn, channel.channel, internal, inode_updates@));
    }
    Ok(n)
}

/// Same as [apply_local_change_ws], with a workspace of its own.
pub fn apply_local_change(
    txn: &mut Txn,
    channel: &mut ChannelRef,
    change: &Change,
    hash: &ChangeHash,
    inode_updates: &Vec<InodeUpdate>,
) -> (r: Result<(u64, Merkle), LocalApplyError>)
    requires
        pristine_wf(*old(txn), old(channel).channel),
    ensures
        pristine_wf(*final(txn), final(channel).channel),
        old(txn).next_id == u64::MAX ==> r == Err::<(u64, Merkle), LocalApplyError>(LocalApplyError::Txn(TxnErr)),
        old(txn).next_id == u64::MAX || first_missing(old(txn).internal@, old(channel).channel.log@, change.dependencies@) is Some
            || !change_wf(*change) ==> {
            &&& final(txn).internal == old(txn).internal
            &&& final(txn).dep == old(txn).dep
            &&& final(txn).rev_touched == old(txn).rev_touched
            &&& same_tables(*old(txn), *final(txn))
            &&& final(channel).channel == old(channel).channel
        },
        old(txn).next_id < u64::MAX ==> {
            let c = ChangeId(old(txn).next_id);
            let missing = first_missing(old(txn).internal@, old(channel).channel.log@, change.dependencies@);
            &&& (missing matches Some(h) ==> r == Err::<(u64, Merkle), LocalApplyError>(LocalApplyError::DependencyMissing { hash: h })
                && final(channel).channel.log@ == old(channel).channel.log@)
            &&& (missing is None && !change_wf(*change) ==> r == Err::<(u64, Merkle), LocalApplyError>(LocalApplyError::InvalidChange)
                && final(channel).channel.log@ == old(channel).channel.log@)
            &&& (missing is None && change_wf(*change) ==> {
                &&& applied_to(old(channel).channel, final(channel).channel, c, *hash)
                &&& r matches Err(e) ==> graph_error(e)
                &&& r matches Ok((n, m)) ==> n == old(channel).channel.log@.len() && m == merkle_next_spec(old(channel).channel.spec_state(), *hash)
                &&& (change.changes@.len() == 0 ==> r is Ok)
            })
        },
        r is Err ==> same_tables(*old(txn), *final(txn)),
        r is Ok ==> exists|ts: Seq<Txn>| updates_recorded(ts, *old(txn), *final(txn), final(channel).channel, ChangeId(old(txn).next_id), inode_updates@),
        r is Ok ==> edge_maps_applied(final(txn).internal@, *change, ChangeId(old(txn).next_id), final(channel).channel.graph@, false)
            && edge_maps_applied(final(txn).internal@, *change, ChangeId(old(txn).next_id), final(channel).channel.graph@, true),
{
    let mut ws = Workspace::new();
    apply_local_change_ws(txn, channel, change, hash, inode_updates, &mut ws)
}

} // verus!
