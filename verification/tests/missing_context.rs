use libpijul::missing_context::detect_folder_conflict_resolution;
use libpijul::pristine::Edge;
use libpijul::change::{Change, NewEdge};
use libpijul::graph::{put_graph_with_rev, Graph};
use libpijul::missing_context::{
    has_missing_context_deleted, has_missing_context_nondeleted, has_unknown_children, vertex_in, AliveGraph,
    GraphEntry, Graphs, MissingError, VertexId, Workspace,
};
use libpijul::pristine::{BlockError, ChangeHash, ChangeId, ChangePosition, EdgeFlags, Position, Vertex};
use libpijul::txn::{InconsistentChange, Txn};

fn v(c: u64, s: u64, e: u64) -> Vertex<ChangeId> {
    Vertex { change: ChangeId(c), start: ChangePosition(s), end: ChangePosition(e) }
}

fn hash(n: u64) -> ChangeHash {
    ChangeHash::Blake3(n, n, n, n)
}

fn txn_with(changes: &[(u64, u64)]) -> Txn {
    let mut txn = Txn::new();
    for &(h, c) in changes {
        txn.internal.push((hash(h), ChangeId(c)));
    }
    txn
}

fn edge(flag: EdgeFlags, from: (u64, u64), to: (u64, u64, u64)) -> NewEdge {
    NewEdge {
        previous: EdgeFlags::block(),
        flag,
        from: Position { change: Some(hash(from.0)), pos: ChangePosition(from.1) },
        to: Vertex { change: Some(hash(to.0)), start: ChangePosition(to.1), end: ChangePosition(to.2) },
        introduced_by: None,
    }
}

fn no_change() -> Change {
    Change { dependencies: Vec::new(), extra_known: Vec::new(), changes: Vec::new() }
}

#[test]
fn split_vertices_keep_their_line() {
    let inode = Position { change: Some(hash(1)), pos: ChangePosition(0) };
    let other = Position { change: Some(hash(2)), pos: ChangePosition(0) };
    let mut graphs = Graphs::new();
    graphs.0.push(GraphEntry {
        inode,
        graph: AliveGraph { lines: vec![v(1, 0, 10)] },
        vids: vec![(v(1, 0, 10), VertexId(0))],
    });
    assert!(graphs.get(other).is_none());
    graphs.split(inode, v(1, 0, 10), ChangePosition(4));
    let entry = graphs.get(inode).unwrap();
    assert_eq!(entry.graph.lines, vec![v(1, 0, 10)]);
    assert!(entry.vids.contains(&(v(1, 0, 4), VertexId(0))));
    assert!(entry.vids.contains(&(v(1, 4, 10), VertexId(0))));
    assert!(!entry.vids.iter().any(|x| x.0 == v(1, 0, 10)));
    graphs.split(other, v(1, 0, 4), ChangePosition(2));
    assert_eq!(graphs.0.len(), 1);
}

#[test]
fn workspace_is_cleared_but_keeps_its_files() {
    let mut ws = Workspace::new();
    ws.files.push(v(1, 0, 0));
    ws.repaired.push(v(1, 0, 1));
    ws.missing_down.push(v(1, 0, 1));
    ws.clear();
    assert!(ws.repaired.is_empty() && ws.missing_down.is_empty());
    assert_eq!(ws.files, vec![v(1, 0, 0)]);
    ws.assert_empty();
}

#[test]
fn vertices_are_found_in_a_list() {
    let l = vec![v(1, 0, 1), v(2, 0, 1)];
    assert!(vertex_in(&l, &v(2, 0, 1)));
    assert!(!vertex_in(&l, &v(2, 0, 2)));
    assert!(!vertex_in(&Vec::new(), &v(2, 0, 1)));
}

#[test]
fn folder_edges_never_miss_a_context() {
    let txn = Txn::new();
    let g = Graph::new();
    let e = edge(EdgeFlags::folder(), (1, 0), (2, 0, 1));
    assert_eq!(has_missing_context_nondeleted(&txn, &g, ChangeId(5), &e), Ok(false));
    assert_eq!(has_missing_context_deleted(&txn, &g, ChangeId(5), &no_change(), &e), Ok(false));
}

#[test]
fn nondeleted_contexts() {
    let txn = txn_with(&[(1, 1), (2, 2)]);
    let mut g = Graph::new();
    put_graph_with_rev(&mut g, EdgeFlags::block(), Vertex::root(), v(1, 0, 3), ChangeId(1));
    put_graph_with_rev(&mut g, EdgeFlags::block(), v(1, 0, 3), v(2, 0, 2), ChangeId(2));
    // A live block edge whose target has no deleted child: nothing is missing.
    let e = edge(EdgeFlags::block(), (1, 3), (2, 0, 2));
    assert_eq!(has_missing_context_nondeleted(&txn, &g, ChangeId(5), &e), Ok(false));
    // Not a block edge: the context is missing.
    let e = edge(EdgeFlags::empty(), (1, 3), (2, 0, 2));
    assert_eq!(has_missing_context_nondeleted(&txn, &g, ChangeId(5), &e), Ok(true));
    // The target has a deleted child edge.
    put_graph_with_rev(&mut g, EdgeFlags::block().union(EdgeFlags::deleted()), v(2, 0, 2), v(1, 0, 3), ChangeId(2));
    let e = edge(EdgeFlags::block(), (1, 3), (2, 0, 2));
    assert_eq!(has_missing_context_nondeleted(&txn, &g, ChangeId(5), &e), Ok(true));
}

#[test]
fn nondeleted_context_errors() {
    let txn = txn_with(&[(1, 1)]);
    let mut g = Graph::new();
    put_graph_with_rev(&mut g, EdgeFlags::block(), Vertex::root(), v(1, 0, 3), ChangeId(1));
    let e = edge(EdgeFlags::block(), (9, 3), (1, 0, 3));
    assert_eq!(
        has_missing_context_nondeleted(&txn, &g, ChangeId(5), &e),
        Err(MissingError::Inconsistent(InconsistentChange::UndeclaredDep))
    );
    let e = edge(EdgeFlags::block(), (1, 7), (1, 0, 3));
    assert_eq!(
        has_missing_context_nondeleted(&txn, &g, ChangeId(5), &e),
        Err(MissingError::Block(BlockError { block: Position { change: ChangeId(1), pos: ChangePosition(7) } }))
    );
}

#[test]
fn unknown_children_are_those_of_unknown_changes() {
    let txn = txn_with(&[(1, 1), (2, 2)]);
    let mut g = Graph::new();
    put_graph_with_rev(&mut g, EdgeFlags::block(), Vertex::root(), v(1, 0, 3), ChangeId(1));
    put_graph_with_rev(&mut g, EdgeFlags::block(), v(1, 0, 3), v(2, 0, 2), ChangeId(2));
    assert_eq!(has_unknown_children(&txn, &g, v(1, 0, 3), ChangeId(5), &no_change()), Ok(true));
    let knowing = Change { dependencies: vec![hash(2)], extra_known: Vec::new(), changes: Vec::new() };
    assert_eq!(has_unknown_children(&txn, &g, v(1, 0, 3), ChangeId(5), &knowing), Ok(false));
    assert_eq!(has_unknown_children(&txn, &g, v(1, 0, 3), ChangeId(2), &no_change()), Ok(false));
    let deleting = edge(EdgeFlags::block().union(EdgeFlags::deleted()), (1, 0), (1, 0, 3));
    assert_eq!(has_missing_context_deleted(&txn, &g, ChangeId(5), &no_change(), &deleting), Ok(true));
    assert_eq!(has_missing_context_deleted(&txn, &g, ChangeId(5), &knowing, &deleting), Ok(false));
}

#[test]
fn dead_folder_loses_its_pseudo_parent_only() {
    let txn = Txn::new();
    let mut g = Graph::new();
    // A file below the root, and an empty folder vertex held by a pseudo-edge only.
    put_graph_with_rev(&mut g, EdgeFlags::block(), Vertex::root(), v(1, 0, 3), ChangeId(1));
    let folder_pseudo = EdgeFlags::folder().union(EdgeFlags::pseudo());
    put_graph_with_rev(&mut g, folder_pseudo, Vertex::root(), v(3, 5, 5), ChangeId(0));
    let mut ws = Workspace::new();
    let e = NewEdge {
        previous: EdgeFlags::block(),
        flag: EdgeFlags::block().union(EdgeFlags::deleted()),
        from: Position { change: Some(ChangeHash::Root), pos: ChangePosition(0) },
        to: Vertex { change: Some(hash(1)), start: ChangePosition(0), end: ChangePosition(3) },
        introduced_by: None,
    };
    let inode = Position { change: None, pos: ChangePosition(5) };
    let r = detect_folder_conflict_resolution(&txn, &mut g, &mut ws, ChangeId(3), &inode, &e);
    assert_eq!(r, Ok(()));
    let pseudo = Edge { flag: folder_pseudo, dest: Position { change: ChangeId(3), pos: ChangePosition(5) }, introduced_by: ChangeId(0) };
    assert!(!g.get_graph(&Vertex::root(), &pseudo));
    let file = Edge { flag: EdgeFlags::block(), dest: Position { change: ChangeId(1), pos: ChangePosition(0) }, introduced_by: ChangeId(1) };
    assert!(g.get_graph(&Vertex::root(), &file));
    assert_eq!(g.edges.len(), 2);
    assert!(ws.pseudo.is_empty());
}
