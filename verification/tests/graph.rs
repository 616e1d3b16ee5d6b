use libpijul::graph::{del_graph_with_rev, put_graph_with_rev, Graph};
use libpijul::pristine::{BlockError, ChangeId, ChangePosition, Edge, EdgeFlags, Position, Vertex};

fn v(c: u64, s: u64, e: u64) -> Vertex<ChangeId> {
    Vertex { change: ChangeId(c), start: ChangePosition(s), end: ChangePosition(e) }
}

fn pos(c: u64, p: u64) -> Position<ChangeId> {
    Position { change: ChangeId(c), pos: ChangePosition(p) }
}

#[test]
fn flag_encoding() {
    assert_eq!(EdgeFlags::empty().bits(), 0);
    assert_eq!(EdgeFlags::block().bits(), 1);
    assert_eq!(EdgeFlags::pseudo().bits(), 4);
    assert_eq!(EdgeFlags::folder().bits(), 16);
    assert_eq!(EdgeFlags::parent().bits(), 32);
    assert_eq!(EdgeFlags::deleted().bits(), 128);
    assert_eq!(EdgeFlags::pseudof().bits(), 20);
    assert_eq!(EdgeFlags::all().bits(), 181);
}

#[test]
fn flag_operations() {
    let bp = EdgeFlags::block().union(EdgeFlags::parent());
    assert_eq!(bp.bits(), 33);
    assert!(bp.is_block() && bp.is_parent() && !bp.is_folder() && !bp.is_deleted());
    assert_eq!(bp.minus(EdgeFlags::parent()), EdgeFlags::block());
    assert_eq!(bp.intersection(EdgeFlags::parent()), EdgeFlags::parent());
    assert_eq!(bp.intersection(EdgeFlags::folder()), EdgeFlags::empty());
    assert!(bp.contains(EdgeFlags::block()));
    assert!(!bp.contains(EdgeFlags::all()));
    assert!(EdgeFlags::all().contains(bp));
    assert!(bp.contains(EdgeFlags::empty()));
}

#[test]
fn vertices_and_positions() {
    assert!(Vertex::root().is_root());
    assert!(!v(1, 0, 0).is_root());
    assert!(v(1, 3, 3).is_empty());
    assert!(!v(1, 3, 4).is_empty());
    assert_eq!(v(1, 3, 4).start_pos(), pos(1, 3));
    assert_eq!(v(1, 3, 4).end_pos(), pos(1, 4));
    assert_eq!(pos(2, 5).inode_vertex(), v(2, 5, 5));
    assert!(ChangeId::root().is_root());
    assert_eq!(Position::root(), pos(0, 0));
    let e = Edge { flag: EdgeFlags::folder(), dest: pos(1, 2), introduced_by: ChangeId(3) };
    assert_eq!(e.flag(), EdgeFlags::folder());
    assert_eq!(e.dest(), pos(1, 2));
    assert_eq!(e.introduced_by(), ChangeId(3));
}

#[test]
fn entries_are_added_once_and_removed() {
    let mut g = Graph::new();
    let e = Edge { flag: EdgeFlags::block(), dest: pos(2, 0), introduced_by: ChangeId(2) };
    assert!(!g.has_vertex(&v(1, 0, 3)));
    assert!(g.put_graph(v(1, 0, 3), e));
    assert!(!g.put_graph(v(1, 0, 3), e));
    assert_eq!(g.edges.len(), 1);
    assert!(g.get_graph(&v(1, 0, 3), &e));
    assert!(g.has_vertex(&v(1, 0, 3)));
    assert!(g.del_graph(v(1, 0, 3), e));
    assert!(!g.del_graph(v(1, 0, 3), e));
    assert!(g.edges.is_empty());
}

#[test]
fn edges_with_their_reverse() {
    let mut g = Graph::new();
    let a = v(1, 0, 3);
    let b = v(2, 0, 4);
    assert!(put_graph_with_rev(&mut g, EdgeFlags::block(), a, b, ChangeId(2)));
    assert!(!put_graph_with_rev(&mut g, EdgeFlags::block(), a, b, ChangeId(2)));
    assert_eq!(g.edges.len(), 2);
    let back = Edge { flag: EdgeFlags::block().union(EdgeFlags::parent()), dest: pos(1, 3), introduced_by: ChangeId(2) };
    assert!(g.get_graph(&b, &back));
    assert!(g.is_alive(&b));
    assert!(!g.is_alive(&a));
    assert!(g.is_alive(&Vertex::root()));
    assert!(del_graph_with_rev(&mut g, EdgeFlags::block(), a, b, ChangeId(2)));
    assert!(g.edges.is_empty());
    assert!(!del_graph_with_rev(&mut g, EdgeFlags::block(), a, b, ChangeId(2)));
}

#[test]
fn deleted_parents_do_not_keep_a_vertex_alive() {
    let mut g = Graph::new();
    let a = v(1, 0, 3);
    let b = v(2, 0, 4);
    put_graph_with_rev(&mut g, EdgeFlags::block().union(EdgeFlags::deleted()), a, b, ChangeId(2));
    assert!(!g.is_alive(&b));
}

#[test]
fn adjacent_edges_come_by_flag_encoding() {
    let mut g = Graph::new();
    let a = v(1, 0, 3);
    let folder = Edge { flag: EdgeFlags::folder(), dest: pos(3, 0), introduced_by: ChangeId(3) };
    let block = Edge { flag: EdgeFlags::block(), dest: pos(2, 0), introduced_by: ChangeId(2) };
    let parent = Edge { flag: EdgeFlags::parent(), dest: pos(4, 0), introduced_by: ChangeId(4) };
    g.put_graph(a, folder);
    g.put_graph(a, parent);
    g.put_graph(a, block);
    g.put_graph(v(9, 0, 1), block);
    assert_eq!(g.iter_adjacent(a, EdgeFlags::empty(), EdgeFlags::all()), vec![block, folder, parent]);
    assert_eq!(g.iter_adjacent(a, EdgeFlags::empty(), EdgeFlags::folder()), vec![block, folder]);
    assert_eq!(g.iter_adjacent(a, EdgeFlags::parent(), EdgeFlags::all()), vec![parent]);
    assert!(g.iter_adjacent(a, EdgeFlags::all(), EdgeFlags::empty()).is_empty());
    assert!(g.has_adjacent(a, EdgeFlags::parent(), EdgeFlags::parent()));
    assert!(!g.has_adjacent(a, EdgeFlags::deleted(), EdgeFlags::all()));
}

#[test]
fn blocks_are_found_by_position() {
    let mut g = Graph::new();
    let e = Edge { flag: EdgeFlags::block(), dest: pos(2, 0), introduced_by: ChangeId(2) };
    g.put_graph(v(1, 0, 3), e);
    g.put_graph(v(1, 3, 3), e);
    assert_eq!(g.find_block(pos(1, 0)), Ok(v(1, 0, 3)));
    assert_eq!(g.find_block(pos(1, 2)), Ok(v(1, 0, 3)));
    assert_eq!(g.find_block(pos(1, 3)), Ok(v(1, 3, 3)));
    assert_eq!(g.find_block(pos(1, 4)), Err(BlockError { block: pos(1, 4) }));
    assert_eq!(g.find_block_end(pos(1, 3)), Ok(v(1, 0, 3)));
    assert_eq!(g.find_block_end(pos(1, 1)), Ok(v(1, 0, 3)));
    assert_eq!(g.find_block_end(pos(1, 0)), Err(BlockError { block: pos(1, 0) }));
    assert_eq!(g.find_block(pos(5, 0)), Err(BlockError { block: pos(5, 0) }));
}
