use libpijul::apply::{LocalApplyError, Workspace};
use libpijul::atoms::{collect_pseudo_edges, put_newedge, put_newvertex};
use libpijul::change::{NewEdge, NewVertex};
use libpijul::graph::{put_graph_with_rev, Graph};
use libpijul::pristine::{ChangeHash, ChangeId, ChangePosition, Edge, EdgeFlags, Position, Vertex};
use libpijul::txn::Txn;

fn v(c: u64, s: u64, e: u64) -> Vertex<ChangeId> {
    Vertex { change: ChangeId(c), start: ChangePosition(s), end: ChangePosition(e) }
}

fn pos(c: u64, p: u64) -> Position<ChangeId> {
    Position { change: ChangeId(c), pos: ChangePosition(p) }
}

fn hash(n: u64) -> ChangeHash {
    ChangeHash::Blake3(n, n, n, n)
}

fn at(h: Option<ChangeHash>, p: u64) -> Position<Option<ChangeHash>> {
    Position { change: h, pos: ChangePosition(p) }
}

fn txn_with_change_1() -> Txn {
    let mut txn = Txn::new();
    txn.internal.push((hash(1), ChangeId(1)));
    txn
}

/// The root, and the vertex `v(1, 0, 3)` below it.
fn graph_with_line() -> Graph {
    let mut g = Graph::new();
    put_graph_with_rev(&mut g, EdgeFlags::block(), Vertex::root(), v(1, 0, 3), ChangeId(1));
    g
}

#[test]
fn new_vertex_between_its_contexts() {
    let txn = txn_with_change_1();
    let mut g = graph_with_line();
    let mut ws = Workspace::new();
    let n = NewVertex {
        up_context: vec![at(Some(hash(1)), 3)],
        down_context: vec![],
        flag: EdgeFlags::block(),
        start: ChangePosition(0),
        end: ChangePosition(5),
        inode: at(Some(ChangeHash::Root), 0),
    };
    assert_eq!(put_newvertex(&txn, &mut g, &mut ws, ChangeId(2), &n), Ok(()));
    let down = Edge { flag: EdgeFlags::block(), dest: pos(2, 0), introduced_by: ChangeId(2) };
    assert!(g.get_graph(&v(1, 0, 3), &down));
    let up = Edge { flag: EdgeFlags::block().union(EdgeFlags::parent()), dest: pos(1, 3), introduced_by: ChangeId(2) };
    assert!(g.get_graph(&v(2, 0, 5), &up));
    assert_eq!(g.edges.len(), 4);
}

#[test]
fn new_vertex_with_a_down_context() {
    let txn = txn_with_change_1();
    let mut g = graph_with_line();
    let mut ws = Workspace::new();
    let n = NewVertex {
        up_context: vec![at(Some(ChangeHash::Root), 0)],
        down_context: vec![at(Some(hash(1)), 0)],
        flag: EdgeFlags::block(),
        start: ChangePosition(0),
        end: ChangePosition(2),
        inode: at(Some(ChangeHash::Root), 0),
    };
    assert_eq!(put_newvertex(&txn, &mut g, &mut ws, ChangeId(2), &n), Ok(()));
    let to_line = Edge { flag: EdgeFlags::block(), dest: pos(1, 0), introduced_by: ChangeId(2) };
    assert!(g.get_graph(&v(2, 0, 2), &to_line));
    let from_root = Edge { flag: EdgeFlags::block(), dest: pos(2, 0), introduced_by: ChangeId(2) };
    assert!(g.get_graph(&Vertex::root(), &from_root));
}

#[test]
fn new_vertex_with_an_unknown_context_leaves_the_graph() {
    let txn = txn_with_change_1();
    let mut g = graph_with_line();
    let before = g.edges.clone();
    let mut ws = Workspace::new();
    let n = NewVertex {
        up_context: vec![at(Some(hash(1)), 3), at(Some(hash(1)), 9)],
        down_context: vec![],
        flag: EdgeFlags::block(),
        start: ChangePosition(0),
        end: ChangePosition(5),
        inode: at(Some(ChangeHash::Root), 0),
    };
    assert_eq!(
        put_newvertex(&txn, &mut g, &mut ws, ChangeId(2), &n),
        Err(LocalApplyError::Block { block: pos(1, 9) })
    );
    assert_eq!(g.edges, before);
    let n = NewVertex { up_context: vec![at(Some(hash(4)), 0)], ..n };
    assert_eq!(put_newvertex(&txn, &mut g, &mut ws, ChangeId(2), &n), Err(LocalApplyError::InvalidChange));
    assert_eq!(g.edges, before);
}

#[test]
fn deleting_an_edge_replaces_it() {
    let txn = txn_with_change_1();
    let mut g = graph_with_line();
    let mut ws = Workspace::new();
    let deleted = EdgeFlags::block().union(EdgeFlags::deleted());
    let e = NewEdge {
        previous: EdgeFlags::block(),
        flag: deleted,
        from: at(Some(ChangeHash::Root), 0),
        to: Vertex { change: Some(hash(1)), start: ChangePosition(0), end: ChangePosition(3) },
        introduced_by: Some(hash(1)),
    };
    assert_eq!(put_newedge(&txn, &mut g, &mut ws, ChangeId(2), at(Some(ChangeHash::Root), 0), &e), Ok(()));
    let old = Edge { flag: EdgeFlags::block(), dest: pos(1, 0), introduced_by: ChangeId(1) };
    assert!(!g.get_graph(&Vertex::root(), &old));
    let new = Edge { flag: deleted, dest: pos(1, 0), introduced_by: ChangeId(2) };
    assert!(g.get_graph(&Vertex::root(), &new));
    let back = Edge { flag: deleted.union(EdgeFlags::parent()), dest: pos(0, 0), introduced_by: ChangeId(2) };
    assert!(g.get_graph(&v(1, 0, 3), &back));
    assert_eq!(g.edges.len(), 2);
    assert!(!g.is_alive(&v(1, 0, 3)));
}

#[test]
fn edge_of_an_unknown_change_is_invalid() {
    let txn = txn_with_change_1();
    let mut g = graph_with_line();
    let before = g.edges.clone();
    let mut ws = Workspace::new();
    let e = NewEdge {
        previous: EdgeFlags::block(),
        flag: EdgeFlags::block().union(EdgeFlags::deleted()),
        from: at(Some(ChangeHash::Root), 0),
        to: Vertex { change: Some(hash(1)), start: ChangePosition(0), end: ChangePosition(3) },
        introduced_by: Some(hash(5)),
    };
    assert_eq!(
        put_newedge(&txn, &mut g, &mut ws, ChangeId(2), at(Some(ChangeHash::Root), 0), &e),
        Err(LocalApplyError::InvalidChange)
    );
    assert_eq!(g.edges, before);
}

#[test]
fn pseudo_edges_are_collected_with_their_file() {
    let mut g = graph_with_line();
    let pseudo = Edge { flag: EdgeFlags::pseudo(), dest: pos(0, 0), introduced_by: ChangeId(0) };
    g.put_graph(v(1, 0, 3), pseudo);
    let mut ws = Workspace::new();
    let inode = at(Some(hash(1)), 0);
    collect_pseudo_edges(&g, &mut ws, inode, v(1, 0, 3));
    assert_eq!(ws.pseudo, vec![(v(1, 0, 3), pseudo, inode)]);
    collect_pseudo_edges(&g, &mut ws, inode, Vertex::root());
    assert_eq!(ws.pseudo.len(), 1);
}

#[test]
fn deleting_an_edge_keeps_the_other_edges() {
    let txn = txn_with_change_1();
    let mut g = graph_with_line();
    // An unrelated edge from the vertex of change 1 to a vertex of change 3.
    let other = Edge { flag: EdgeFlags::block(), dest: pos(3, 0), introduced_by: ChangeId(3) };
    g.put_graph(v(1, 0, 3), other);
    let mut ws = Workspace::new();
    let deleted = EdgeFlags::block().union(EdgeFlags::deleted());
    let e = NewEdge {
        previous: EdgeFlags::block(),
        flag: deleted,
        from: at(Some(ChangeHash::Root), 0),
        to: Vertex { change: Some(hash(1)), start: ChangePosition(0), end: ChangePosition(3) },
        introduced_by: Some(hash(1)),
    };
    assert_eq!(put_newedge(&txn, &mut g, &mut ws, ChangeId(2), at(Some(ChangeHash::Root), 0), &e), Ok(()));
    assert!(g.get_graph(&v(1, 0, 3), &other));
}
