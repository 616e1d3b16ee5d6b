//! Adding the atoms of a change to a graph: new vertices with their
//! context edges, and edge maps that change the flags of existing edges.
use vstd::prelude::*;
use crate::apply::{all_pseudo, graph_error, LocalApplyError, Workspace};
use crate::change::{NewEdge, NewVertex};
use crate::graph::{
    del_graph_with_rev, first_block, lemma_del_with_rev_sub, forward_edge, grows_by_root, insert_once, introduced_since, lemma_insert_once_contains, lemma_remove_all_contains,
    lemma_remove_all_sub, put_graph_with_rev, remove_all, reverse_edge, sub_graph, Graph,
};
use crate::missing_context::{intros_registered, vertex_in};
use crate::pristine::{ChangeHash, ChangeId, ChangePosition, Edge, EdgeFlags, Position, Vertex};
use crate::txn::{external_of, internal_of, internal_pos, internal_pos_spec, Txn};

verus! {

/// Edges added by `c` (or the root change) keep the graph's introducers registered.
pub proof fn lemma_intros_registered(
    internal: Seq<(ChangeHash, ChangeId)>,
    a: Seq<(Vertex<ChangeId>, Edge)>,
    b: Seq<(Vertex<ChangeId>, Edge)>,
    c: ChangeId,
)
    requires
        intros_registered(internal, a),
        introduced_since(a, b, c),
        c.spec_is_root() || external_of(internal, c) is Some,
    ensures
        intros_registered(internal, b),
{
    assert forall|i: int| 0 <= i < b.len() implies (#[trigger] b[i].1).introduced_by.spec_is_root() || external_of(
        internal,
        b[i].1.introduced_by,
    ) is Some by {
        assert(b.contains(b[i]));
        if a.contains(b[i]) {
            let j = choose|j: int| 0 <= j < a.len() && #[trigger] a[j] == b[i];
            assert(a[j].1 == b[i].1);
        }
    }
}

/// A graph that only lost entries was only changed by `c`, whatever `c` is.
pub proof fn lemma_sub_introduced(a: Seq<(Vertex<ChangeId>, Edge)>, b: Seq<(Vertex<ChangeId>, Edge)>, c: ChangeId)
    requires
        sub_graph(b, a),
    ensures
        introduced_since(a, b, c),
{
}

/// A graph that only gained root entries was only changed by `c`, whatever `c` is.
pub proof fn lemma_grows_introduced(a: Seq<(Vertex<ChangeId>, Edge)>, b: Seq<(Vertex<ChangeId>, Edge)>, f: EdgeFlags, c: ChangeId)
    requires
        grows_by_root(a, b, f),
    ensures
        introduced_since(a, b, c),
{
}

pub proof fn lemma_introduced_trans(
    a: Seq<(Vertex<ChangeId>, Edge)>,
    b: Seq<(Vertex<ChangeId>, Edge)>,
    d: Seq<(Vertex<ChangeId>, Edge)>,
    c: ChangeId,
)
    requires
        introduced_since(a, b, c),
        introduced_since(b, d, c),
    ensures
        introduced_since(a, d, c),
{
}

/// The vertex of the graph that a context position designates: the
/// position is made internal, then looked up (as the end of a vertex if
/// `at_end`, else as its start).
pub open spec fn resolve(
    internal: Seq<(ChangeHash, ChangeId)>,
    g: Seq<(Vertex<ChangeId>, Edge)>,
    p: Position<Option<ChangeHash>>,
    change_id: ChangeId,
    at_end: bool,
) -> Option<Vertex<ChangeId>> {
    match internal_pos_spec(internal, p, change_id) {
        Ok(q) => first_block(g, q, at_end),
        Err(_) => None,
    }
}

/// Every position of `ctx` designates a vertex of `g`.
pub open spec fn all_resolve(
    internal: Seq<(ChangeHash, ChangeId)>,
    g: Seq<(Vertex<ChangeId>, Edge)>,
    ctx: Seq<Position<Option<ChangeHash>>>,
    change_id: ChangeId,
    at_end: bool,
) -> bool {
    forall|k: int| 0 <= k < ctx.len() ==> (#[trigger] resolve(internal, g, ctx[k], change_id, at_end)) is Some
}

/// The vertex of the graph designated by a position, or the error that the
/// lookup gives.
fn resolve_one(txn: &Txn, g: &Graph, p: &Position<Option<ChangeHash>>, change_id: ChangeId, at_end: bool) -> (r: Result<
    Vertex<ChangeId>,
    LocalApplyError,
>)
    ensures
        match resolve(txn.internal@, g@, *p, change_id, at_end) {
            Some(v) => r == Ok::<Vertex<ChangeId>, LocalApplyError>(v),
            None => r is Err,
        },
        r matches Err(e) ==> graph_error(e),
{
    let q = match internal_pos(txn, p, change_id) {
        Ok(q) => q,
        Err(x) => return Err(LocalApplyError::from_inconsistent(x)),
    };
    let v = if at_end {
        g.find_block_end(q)
    } else {
        g.find_block(q)
    };
    match v {
        Ok(v) => Ok(v),
        Err(b) => Err(LocalApplyError::from_block(b)),
    }
}

/// The vertices designated by all the positions of `ctx`, in order.
fn resolve_all(txn: &Txn, g: &Graph, ctx: &Vec<Position<Option<ChangeHash>>>, change_id: ChangeId, at_end: bool) -> (r:
    Result<Vec<Vertex<ChangeId>>, LocalApplyError>)
    ensures
        r is Ok <==> all_resolve(txn.internal@, g@, ctx@, change_id, at_end),
        r matches Ok(v) ==> v@.len() == ctx@.len() && forall|k: int|
            0 <= k < ctx@.len() ==> resolve(txn.internal@, g@, ctx@[k], change_id, at_end) == Some(#[trigger] v@[k]),
        r matches Err(e) ==> graph_error(e),
{
    let mut out: Vec<Vertex<ChangeId>> = Vec::new();
    let mut k: usize = 0;
    while k < ctx.len()
        invariant
            0 <= k <= ctx@.len(),
            out@.len() == k,
            forall|j: int| 0 <= j < k ==> resolve(txn.internal@, g@, ctx@[j], change_id, at_end) == Some(#[trigger] out@[j]),
        decreases ctx.len() - k,
    {
        match resolve_one(txn, g, &ctx[k], change_id, at_end) {
            Ok(v) => out.push(v),
            Err(e) => {
                assert(resolve(txn.internal@, g@, ctx@[k as int], change_id, at_end) is None);
                return Err(e);
            },
        }
        k = k + 1;
    }
    assert forall|j: int| 0 <= j < ctx@.len() implies (#[trigger] resolve(txn.internal@, g@, ctx@[j], change_id, at_end)) is Some by {
        assert(resolve(txn.internal@, g@, ctx@[j], change_id, at_end) == Some(out@[j]));
    }
    Ok(out)
}

/// The vertex that a new vertex of the change `change_id` becomes.
pub open spec fn new_vertex(n: NewVertex, change_id: ChangeId) -> Vertex<ChangeId> {
    Vertex { change: change_id, start: n.start, end: n.end }
}

/// The flags of the edges between a new vertex and its contexts.
pub open spec fn context_flag(n: NewVertex) -> EdgeFlags {
    n.flag.spec_minus(EdgeFlags { block: false, pseudo: false, folder: false, parent: true, deleted: false })
}

/// Adds the new vertex `n` of the change `change_id`, with edges from each
/// vertex of its up context and to each vertex of its down context. Up
/// contexts that are not alive are recorded as unknown parents (for
/// files); down contexts of a folder vertex are recorded as files to check.
/// Fails, leaving the graph untouched, when a context position designates
/// no vertex.
pub fn put_newvertex(txn: &Txn, g: &mut Graph, ws: &mut Workspace, change_id: ChangeId, n: &NewVertex) -> (r: Result<
    (),
    LocalApplyError,
>)
    ensures
        introduced_since(old(g)@, final(g)@, change_id),
        sub_graph(old(g)@, final(g)@),
        r is Ok <==> all_resolve(txn.internal@, old(g)@, n.up_context@, change_id, true) && all_resolve(
            txn.internal@,
            old(g)@,
            n.down_context@,
            change_id,
            false,
        ),
        r is Err ==> final(g)@ == old(g)@,
        r matches Err(e) ==> graph_error(e),
        r is Ok ==> forall|k: int|
            0 <= k < n.up_context@.len() ==> final(g)@.contains(
                (
                    #[trigger] resolve(txn.internal@, old(g)@, n.up_context@[k], change_id, true).unwrap(),
                    forward_edge(context_flag(*n), new_vertex(*n, change_id), change_id),
                ),
            ),
        r is Ok ==> forall|k: int|
            0 <= k < n.down_context@.len() ==> final(g)@.contains(
                (
                    new_vertex(*n, change_id),
                    forward_edge(
                        context_flag(*n),
                        #[trigger] resolve(txn.internal@, old(g)@, n.down_context@[k], change_id, false).unwrap(),
                        change_id,
                    ),
                ),
            ),
        final(ws).pseudo == old(ws).pseudo,
        final(ws).missing_context.pseudo == old(ws).missing_context.pseudo,
        final(ws).missing_context.graphs == old(ws).missing_context.graphs,
        old(ws).missing_context.unknown_parents@.is_prefix_of(final(ws).missing_context.unknown_parents@),
        forall|x: Vertex<ChangeId>| #[trigger] old(ws).missing_context.files@.contains(x) ==> final(ws).missing_context.files@.contains(x),
{
    let vertex = Vertex { change: change_id, start: n.start, end: n.end };
    let ups = resolve_all(txn, g, &n.up_context, change_id, true)?;
    let downs = resolve_all(txn, g, &n.down_context, change_id, false)?;
    let flag = n.flag.minus(EdgeFlags::parent());
    let ghost g0 = g@;
    let mut k: usize = 0;
    while k < ups.len()
        invariant
            0 <= k <= ups@.len(),
            ups@.len() == n.up_context@.len(),
            forall|j: int| 0 <= j < n.up_context@.len() ==> resolve(txn.internal@, g0, n.up_context@[j], change_id, true) == Some(#[trigger] ups@[j]),
            flag == context_flag(*n),
            vertex == new_vertex(*n, change_id),
            g0 == old(g)@,
            introduced_since(g0, g@, change_id),
            sub_graph(g0, g@),
            forall|j: int| 0 <= j < k ==> g@.contains((#[trigger] ups@[j], forward_edge(flag, vertex, change_id))),
            ws.pseudo == old(ws).pseudo,
            ws.missing_context.pseudo == old(ws).missing_context.pseudo,
            ws.missing_context.graphs == old(ws).missing_context.graphs,
            ws.missing_context.files == old(ws).missing_context.files,
            old(ws).missing_context.unknown_parents@.is_prefix_of(ws.missing_context.unknown_parents@),
        decreases ups.len() - k,
    {
        let up = ups[k];
        if !n.flag.folder && !g.is_alive(&up) {
            ws.missing_context.unknown_parents.push((vertex, up, n.inode, n.flag));
        }
        let ghost g1 = g@;
        put_graph_with_rev(g, flag, up, vertex, change_id);
        proof {
            lemma_put_grows(g1, flag, up, vertex, change_id);
        }
        k = k + 1;
    }
    let mut k: usize = 0;
    while k < downs.len()
        invariant
            0 <= k <= downs@.len(),
            downs@.len() == n.down_context@.len(),
            forall|j: int| 0 <= j < n.down_context@.len() ==> resolve(txn.internal@, g0, n.down_context@[j], change_id, false) == Some(#[trigger] downs@[j]),
            flag == context_flag(*n),
            vertex == new_vertex(*n, change_id),
            g0 == old(g)@,
            introduced_since(g0, g@, change_id),
            sub_graph(g0, g@),
            forall|j: int| 0 <= j < ups@.len() ==> g@.contains((#[trigger] ups@[j], forward_edge(flag, vertex, change_id))),
            forall|j: int| 0 <= j < k ==> g@.contains((vertex, forward_edge(flag, #[trigger] downs@[j], change_id))),
            ws.pseudo == old(ws).pseudo,
            ws.missing_context.pseudo == old(ws).missing_context.pseudo,
            ws.missing_context.graphs == old(ws).missing_context.graphs,
            old(ws).missing_context.unknown_parents@.is_prefix_of(ws.missing_context.unknown_parents@),
            forall|x: Vertex<ChangeId>| #[trigger] old(ws).missing_context.files@.contains(x) ==> ws.missing_context.files@.contains(x),
        decreases downs.len() - k,
    {
        let down = downs[k];
        let ghost g1 = g@;
        put_graph_with_rev(g, flag, vertex, down, change_id);
        proof {
            lemma_put_grows(g1, flag, vertex, down, change_id);
        }
        if n.flag.folder && !vertex_in(&ws.missing_context.files, &down) {
            let ghost fb = ws.missing_context.files@;
            ws.missing_context.files.push(down);
            assert forall|x: Vertex<ChangeId>| fb.contains(x) implies #[trigger] ws.missing_context.files@.contains(x) by {
                let i = choose|i: int| 0 <= i < fb.len() && #[trigger] fb[i] == x;
                assert(ws.missing_context.files@[i] == x);
            }
        }
        k = k + 1;
    }
    assert forall|k: int| 0 <= k < n.up_context@.len() implies g@.contains(
        (#[trigger] resolve(txn.internal@, old(g)@, n.up_context@[k], change_id, true).unwrap(), forward_edge(flag, vertex, change_id)),
    ) by {
        assert(g@.contains((ups@[k], forward_edge(flag, vertex, change_id))));
    }
    assert forall|k: int| 0 <= k < n.down_context@.len() implies g@.contains(
        (vertex, forward_edge(flag, #[trigger] resolve(txn.internal@, old(g)@, n.down_context@[k], change_id, false).unwrap(), change_id)),
    ) by {
        assert(g@.contains((vertex, forward_edge(flag, downs@[k], change_id))));
    }
    Ok(())
}

/// Adding an edge and its reverse keeps every entry, and only adds entries
/// introduced by `intro`, among which the edge and its reverse.
pub proof fn lemma_put_grows(g: Seq<(Vertex<ChangeId>, Edge)>, flag: EdgeFlags, a: Vertex<ChangeId>, b: Vertex<ChangeId>, intro: ChangeId)
    ensures
        sub_graph(g, insert_once(insert_once(g, (a, forward_edge(flag, b, intro))), (b, reverse_edge(flag, a, intro)))),
        introduced_since(g, insert_once(insert_once(g, (a, forward_edge(flag, b, intro))), (b, reverse_edge(flag, a, intro))), intro),
        insert_once(insert_once(g, (a, forward_edge(flag, b, intro))), (b, reverse_edge(flag, a, intro))).contains((a, forward_edge(flag, b, intro))),
        insert_once(insert_once(g, (a, forward_edge(flag, b, intro))), (b, reverse_edge(flag, a, intro))).contains((b, reverse_edge(flag, a, intro))),
{
    let g1 = insert_once(g, (a, forward_edge(flag, b, intro)));
    assert forall|y: (Vertex<ChangeId>, Edge)| #[trigger] insert_once(g1, (b, reverse_edge(flag, a, intro))).contains(y) <==> (g.contains(y) || y == (a, forward_edge(flag, b, intro)) || y == (b, reverse_edge(flag, a, intro))) by {
        lemma_insert_once_contains(g, (a, forward_edge(flag, b, intro)), y);
        lemma_insert_once_contains(g1, (b, reverse_edge(flag, a, intro)), y);
    }
}


/// The change that introduced an edge, designated by its hash (`None`
/// designating the change being applied).
pub open spec fn intro_of(internal: Seq<(ChangeHash, ChangeId)>, h: Option<ChangeHash>, change_id: ChangeId) -> Option<ChangeId> {
    match h {
        None => Some(change_id),
        Some(ChangeHash::Root) => Some(ChangeId(0)),
        Some(h) => internal_of(internal, h),
    }
}

/// Records in `ws.pseudo` every pseudo-edge of `v`, with the file `inode`.
pub fn collect_pseudo_edges(g: &Graph, ws: &mut Workspace, inode: Position<Option<ChangeHash>>, v: Vertex<ChangeId>)
    ensures
        old(ws).pseudo@.is_prefix_of(final(ws).pseudo@),
        forall|k: int| old(ws).pseudo@.len() <= k < final(ws).pseudo@.len() ==> {
            &&& (#[trigger] final(ws).pseudo@[k]).0 == v
            &&& final(ws).pseudo@[k].1.flag.pseudo
            &&& final(ws).pseudo@[k].2 == inode
            &&& g@.contains((v, final(ws).pseudo@[k].1))
        },
        forall|i: int| 0 <= i < g@.len() && #[trigger] g@[i].0 == v && g@[i].1.flag.pseudo ==> exists|k: int|
            old(ws).pseudo@.len() <= k < final(ws).pseudo@.len() && final(ws).pseudo@[k] == (v, g@[i].1, inode),
        final(ws).missing_context == old(ws).missing_context,
{
    let ghost p0 = ws.pseudo@;
    let mut i: usize = 0;
    while i < g.edges.len()
        invariant
            0 <= i <= g@.len(),
            p0 == old(ws).pseudo@,
            p0.is_prefix_of(ws.pseudo@),
            forall|k: int| p0.len() <= k < ws.pseudo@.len() ==> {
                &&& (#[trigger] ws.pseudo@[k]).0 == v
                &&& ws.pseudo@[k].1.flag.pseudo
                &&& ws.pseudo@[k].2 == inode
                &&& g@.contains((v, ws.pseudo@[k].1))
            },
            forall|j: int| 0 <= j < i && #[trigger] g@[j].0 == v && g@[j].1.flag.pseudo ==> exists|k: int|
                p0.len() <= k < ws.pseudo@.len() && ws.pseudo@[k] == (v, g@[j].1, inode),
            ws.missing_context == old(ws).missing_context,
        decreases g.edges.len() - i,
    {
        let (w, e) = g.edges[i];
        if w == v && e.flag.pseudo {
            let ghost before = ws.pseudo@;
            ws.pseudo.push((v, e, inode));
            assert(g@.contains((v, e))) by {
                assert(g@[i as int] == (v, e));
            }
            assert(ws.pseudo@[before.len() as int] == (v, g@[i as int].1, inode));
            assert forall|j: int| 0 <= j < i + 1 && #[trigger] g@[j].0 == v && g@[j].1.flag.pseudo implies exists|k: int|
                p0.len() <= k < ws.pseudo@.len() && ws.pseudo@[k] == (v, g@[j].1, inode) by {
                if j < i {
                    let k = choose|k: int| p0.len() <= k < before.len() && before[k] == (v, g@[j].1, inode);
                    assert(ws.pseudo@[k] == before[k]);
                } else {
                    assert(ws.pseudo@[before.len() as int] == (v, g@[j].1, inode));
                }
            }
        }
        i = i + 1;
    }
}

/// The segments that follow the block `cur`, up to the position `to_end`:
/// each next block is the one that starts where the previous one ends, and
/// must end further. `None` if a next block is missing or does not end
/// further.
pub open spec fn segs_from(g: Seq<(Vertex<ChangeId>, Edge)>, cur: Vertex<ChangeId>, to_end: u64) -> Option<
    Seq<(Vertex<ChangeId>, Vertex<ChangeId>)>,
>
    decreases (if cur.end.0 < to_end { to_end - cur.end.0 } else { 0 }),
{
    if cur.end.0 >= to_end {
        Some(Seq::empty())
    } else {
        match first_block(g, Position { change: cur.change, pos: cur.end }, false) {
            None => None,
            Some(next) => if next.end.0 <= cur.end.0 {
                None
            } else {
                match segs_from(g, next, to_end) {
                    Some(rest) => Some(seq![(cur, next)] + rest),
                    None => None,
                }
            },
        }
    }
}

/// The pairs of blocks that an edge from `source` to a vertex starting in
/// `target` and spanning up to `to_end` joins: `(source, target)`, then the
/// segments that follow `target`.
pub open spec fn edge_segs(g: Seq<(Vertex<ChangeId>, Edge)>, source: Vertex<ChangeId>, target: Vertex<ChangeId>, to_end: u64) -> Option<
    Seq<(Vertex<ChangeId>, Vertex<ChangeId>)>,
> {
    match segs_from(g, target, to_end) {
        Some(rest) => Some(seq![(source, target)] + rest),
        None => None,
    }
}

/// The pairs of blocks that the new edge `e` joins in `g`, if its ends
/// designate blocks of `g` and the blocks it spans follow each other.
pub open spec fn newedge_segs(internal: Seq<(ChangeHash, ChangeId)>, g: Seq<(Vertex<ChangeId>, Edge)>, e: NewEdge, change_id: ChangeId) -> Option<
    Seq<(Vertex<ChangeId>, Vertex<ChangeId>)>,
> {
    match (resolve(internal, g, e.from, change_id, true), resolve(internal, g, e.spec_to_start(), change_id, false)) {
        (Some(source), Some(target)) => edge_segs(g, source, target, e.to.end.0),
        _ => None,
    }
}

/// The blocks that an edge to a vertex spanning up to `to_end` crosses,
/// starting with the pair `(source, target)`, each next target being the
/// block that starts where the previous one ends.
fn edge_segments(g: &Graph, source: Vertex<ChangeId>, target: Vertex<ChangeId>, to_end: ChangePosition) -> (r: Result<
    Vec<(Vertex<ChangeId>, Vertex<ChangeId>)>,
    LocalApplyError,
>)
    ensures
        match edge_segs(g@, source, target, to_end.0) {
            Some(s) => r matches Ok(v) && v@ == s,
            None => r matches Err(e) && e is Block,
        },
{
    let mut segs: Vec<(Vertex<ChangeId>, Vertex<ChangeId>)> = Vec::new();
    segs.push((source, target));
    let mut cur = target;
    assert(segs@ == seq![(source, target)]);
    while cur.end.0 < to_end.0
        invariant
            match segs_from(g@, cur, to_end.0) {
                Some(rest) => edge_segs(g@, source, target, to_end.0) == Some(segs@ + rest),
                None => edge_segs(g@, source, target, to_end.0) is None,
            },
        decreases (if cur.end.0 < to_end.0 { to_end.0 - cur.end.0 } else { 0 }),
    {
        let next = match g.find_block(cur.end_pos()) {
            Ok(v) => v,
            Err(b) => return Err(LocalApplyError::from_block(b)),
        };
        if next.end.0 <= cur.end.0 {
            return Err(LocalApplyError::Block { block: cur.end_pos() });
        }
        let ghost before = segs@;
        segs.push((cur, next));
        proof {
            match segs_from(g@, next, to_end.0) {
                Some(rest) => {
                    assert(segs@ + rest =~= before + (seq![(cur, next)] + rest));
                },
                None => {},
            }
        }
        cur = next;
    }
    assert(segs@ + Seq::<(Vertex<ChangeId>, Vertex<ChangeId>)>::empty() =~= segs@);
    Ok(segs)
}

/// `x` carries the flags that the edge `e` of a change replaces (in either
/// direction), and was introduced by the change that `e` names.
pub open spec fn replaces(internal: Seq<(ChangeHash, ChangeId)>, change_id: ChangeId, e: NewEdge, x: (Vertex<ChangeId>, Edge)) -> bool {
    &&& intro_of(internal, e.introduced_by, change_id) == Some(x.1.introduced_by)
    &&& (x.1.flag == e.previous || x.1.flag == e.previous.spec_union(EdgeFlags { block: false, pseudo: false, folder: false, parent: true, deleted: false }))
}

/// An edge that [put_newedge] took away from a segment carries the flags
/// that the new edge replaces.
pub proof fn lemma_replaced_edge_replaces(
    internal: Seq<(ChangeHash, ChangeId)>,
    change_id: ChangeId,
    e: NewEdge,
    segs: Seq<(Vertex<ChangeId>, Vertex<ChangeId>)>,
    x: (Vertex<ChangeId>, Edge),
)
    requires
        intro_of(internal, e.introduced_by, change_id) is Some,
        replaced_edge(segs, e.previous, intro_of(internal, e.introduced_by, change_id).unwrap(), x),
    ensures
        replaces(internal, change_id, e, x),
{
}

/// `x` is an edge of flags `previous` introduced by `intro` between the
/// ends of a segment of `segs`, in either direction.
pub open spec fn replaced_edge(segs: Seq<(Vertex<ChangeId>, Vertex<ChangeId>)>, previous: EdgeFlags, intro: ChangeId, x: (Vertex<ChangeId>, Edge)) -> bool {
    exists|k: int|
        0 <= k < segs.len() && (x == ((#[trigger] segs[k]).0, forward_edge(previous, segs[k].1, intro)) || x == (
            segs[k].1,
            reverse_edge(previous, segs[k].0, intro),
        ))
}

/// Applies the new edge `e` of the file `inode`: the edges with the
/// previous flags, from the block ending at `e.from` to each block that
/// `e.to` spans, are replaced by edges with the new flags, introduced by
/// `change_id`. For a deletion, the pseudo-edges of the blocks that lose
/// their edges are recorded in `ws.pseudo`, to be checked afterwards.
/// Fails, leaving the graph untouched, when the introducer or an end of
/// the edge designates nothing.
pub fn put_newedge(txn: &Txn, g: &mut Graph, ws: &mut Workspace, change_id: ChangeId, inode: Position<Option<ChangeHash>>, e: &NewEdge) -> (r: Result<
    (),
    LocalApplyError,
>)
    ensures
        introduced_since(old(g)@, final(g)@, change_id),
        r is Ok <==> intro_of(txn.internal@, e.introduced_by, change_id) is Some && newedge_segs(txn.internal@, old(g)@, *e, change_id) is Some,
        r is Err ==> final(g)@ == old(g)@,
        r is Ok ==> forall|x: (Vertex<ChangeId>, Edge)|
            old(g)@.contains(x) && !replaced_edge(
                newedge_segs(txn.internal@, old(g)@, *e, change_id).unwrap(),
                e.previous,
                intro_of(txn.internal@, e.introduced_by, change_id).unwrap(),
                x,
            ) ==> #[trigger] final(g)@.contains(x),
        r is Ok ==> forall|k: int| 0 <= k < newedge_segs(txn.internal@, old(g)@, *e, change_id).unwrap().len() ==> {
            let seg = #[trigger] newedge_segs(txn.internal@, old(g)@, *e, change_id).unwrap()[k];
            &&& final(g)@.contains((seg.0, forward_edge(e.flag, seg.1, change_id)))
            &&& final(g)@.contains((seg.1, reverse_edge(e.flag, seg.0, change_id)))
        },
        r is Ok && intro_of(txn.internal@, e.introduced_by, change_id) != Some(change_id) ==> forall|k: int|
            0 <= k < newedge_segs(txn.internal@, old(g)@, *e, change_id).unwrap().len() ==> {
            let seg = #[trigger] newedge_segs(txn.internal@, old(g)@, *e, change_id).unwrap()[k];
            let i = intro_of(txn.internal@, e.introduced_by, change_id).unwrap();
            &&& !final(g)@.contains((seg.0, forward_edge(e.previous, seg.1, i)))
            &&& !final(g)@.contains((seg.1, reverse_edge(e.previous, seg.0, i)))
        },
        r is Ok ==> final(g)@.contains(
            (
                resolve(txn.internal@, old(g)@, e.from, change_id, true).unwrap(),
                forward_edge(e.flag, resolve(txn.internal@, old(g)@, e.spec_to_start(), change_id, false).unwrap(), change_id),
            ),
        ),
        r is Ok ==> final(g)@.contains(
            (
                resolve(txn.internal@, old(g)@, e.spec_to_start(), change_id, false).unwrap(),
                reverse_edge(e.flag, resolve(txn.internal@, old(g)@, e.from, change_id, true).unwrap(), change_id),
            ),
        ),
        old(ws).pseudo@.is_prefix_of(final(ws).pseudo@),
        all_pseudo(old(ws).pseudo@) ==> all_pseudo(final(ws).pseudo@),
        !e.flag.deleted ==> final(ws).pseudo@ == old(ws).pseudo@,
        r matches Err(e) ==> graph_error(e),
        final(ws).missing_context == old(ws).missing_context,
{
    let intro = match e.introduced_by {
        None => change_id,
        Some(ChangeHash::Root) => ChangeId(0),
        Some(h) => match txn.get_internal(&h) {
            Some(c) => c,
            None => return Err(LocalApplyError::InvalidChange),
        },
    };
    let source = resolve_one(txn, g, &e.from, change_id, true)?;
    let to_start = Position { change: e.to.change, pos: e.to.start };
    let target = resolve_one(txn, g, &to_start, change_id, false)?;
    let segs = edge_segments(g, source, target, e.to.end)?;
    if e.flag.deleted {
        let mut k: usize = 0;
        while k < segs.len()
            invariant
                0 <= k <= segs@.len(),
                old(ws).pseudo@.is_prefix_of(ws.pseudo@),
                all_pseudo(old(ws).pseudo@) ==> all_pseudo(ws.pseudo@),
                ws.missing_context == old(ws).missing_context,
                g@ == old(g)@,
            decreases segs.len() - k,
        {
            let ghost p0 = ws.pseudo@;
            collect_pseudo_edges(g, ws, inode, segs[k].1);
            assert(all_pseudo(old(ws).pseudo@) ==> all_pseudo(ws.pseudo@)) by {
                if all_pseudo(old(ws).pseudo@) {
                    assert forall|j: int| 0 <= j < ws.pseudo@.len() implies (#[trigger] ws.pseudo@[j]).1.flag.pseudo by {
                        if j < p0.len() {
                            assert(p0[j] == ws.pseudo@[j]);
                        }
                    }
                }
            }
            assert(old(ws).pseudo@.is_prefix_of(ws.pseudo@)) by {
                assert forall|j: int| 0 <= j < old(ws).pseudo@.len() implies ws.pseudo@[j] == old(ws).pseudo@[j] by {
                    assert(p0[j] == old(ws).pseudo@[j]);
                }
            }
            k = k + 1;
        }
    }
    let mut k: usize = 0;
    while k < segs.len()
        invariant
            0 <= k <= segs@.len(),
            sub_graph(g@, old(g)@),
            forall|x: (Vertex<ChangeId>, Edge)| old(g)@.contains(x) && !replaced_edge(segs@, e.previous, intro, x) ==> #[trigger] g@.contains(x),
            forall|j: int| 0 <= j < k ==> !g@.contains(((#[trigger] segs@[j]).0, forward_edge(e.previous, segs@[j].1, intro)))
                && !g@.contains((segs@[j].1, reverse_edge(e.previous, segs@[j].0, intro))),
        decreases segs.len() - k,
    {
        let ghost g1 = g@;
        del_graph_with_rev(g, e.previous, segs[k].0, segs[k].1, intro);
        proof {
            lemma_del_with_rev_sub(g1, e.previous, segs@[k as int].0, segs@[k as int].1, intro);
            let x = (segs@[k as int].0, forward_edge(e.previous, segs@[k as int].1, intro));
            let y = (segs@[k as int].1, reverse_edge(e.previous, segs@[k as int].0, intro));
            lemma_remove_all_sub(g1, x);
            lemma_remove_all_sub(remove_all(g1, x), y);
            assert forall|z: (Vertex<ChangeId>, Edge)| old(g)@.contains(z) && !replaced_edge(segs@, e.previous, intro, z) implies #[trigger] g@.contains(z) by {
                assert(segs@[k as int] == segs@[k as int]);
                assert(z != x && z != y);
                lemma_remove_all_contains(g1, x, z);
                lemma_remove_all_contains(remove_all(g1, x), y, z);
            }
            assert(!g@.contains(x)) by {
                if g@.contains(x) {
                    assert(remove_all(g1, x).contains(x));
                }
            }
        }
        k = k + 1;
    }
    let ghost g2 = g@;
    let mut k: usize = 0;
    while k < segs.len()
        invariant
            0 <= k <= segs@.len(),
            segs@.len() >= 1,
            segs@[0] == (source, target),
            sub_graph(g2, old(g)@),
            forall|x: (Vertex<ChangeId>, Edge)| old(g)@.contains(x) && !replaced_edge(segs@, e.previous, intro, x) ==> #[trigger] g2.contains(x),
            sub_graph(g2, g@),
            introduced_since(g2, g@, change_id),
            k >= 1 ==> g@.contains((source, forward_edge(e.flag, target, change_id))),
            k >= 1 ==> g@.contains((target, reverse_edge(e.flag, source, change_id))),
            forall|j: int| 0 <= j < k ==> g@.contains(((#[trigger] segs@[j]).0, forward_edge(e.flag, segs@[j].1, change_id)))
                && g@.contains((segs@[j].1, reverse_edge(e.flag, segs@[j].0, change_id))),
            intro != change_id ==> forall|j: int| 0 <= j < segs@.len() ==> !g@.contains(
                ((#[trigger] segs@[j]).0, forward_edge(e.previous, segs@[j].1, intro)),
            ) && !g@.contains((segs@[j].1, reverse_edge(e.previous, segs@[j].0, intro))),
        decreases segs.len() - k,
    {
        let ghost g1 = g@;
        put_graph_with_rev(g, e.flag, segs[k].0, segs[k].1, change_id);
        proof {
            lemma_put_grows(g1, e.flag, segs@[k as int].0, segs@[k as int].1, change_id);
            if intro != change_id {
                let a = (segs@[k as int].0, forward_edge(e.flag, segs@[k as int].1, change_id));
                let b = (segs@[k as int].1, reverse_edge(e.flag, segs@[k as int].0, change_id));
                assert forall|j: int| 0 <= j < segs@.len() implies !g@.contains(
                    ((#[trigger] segs@[j]).0, forward_edge(e.previous, segs@[j].1, intro)),
                ) && !g@.contains((segs@[j].1, reverse_edge(e.previous, segs@[j].0, intro))) by {
                    let x = (segs@[j].0, forward_edge(e.previous, segs@[j].1, intro));
                    let y = (segs@[j].1, reverse_edge(e.previous, segs@[j].0, intro));
                    lemma_insert_once_contains(g1, a, x);
                    lemma_insert_once_contains(insert_once(g1, a), b, x);
                    lemma_insert_once_contains(g1, a, y);
                    lemma_insert_once_contains(insert_once(g1, a), b, y);
                }
            }
        }
        k = k + 1;
    }
    Ok(())
}

} // verus!
