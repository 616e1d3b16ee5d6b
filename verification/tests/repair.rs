use libpijul::apply::folder_has_alive_descendants;
use libpijul::apply::clean_obsolete_pseudo_edges;
use libpijul::pristine::{ChangeHash, Edge};
use libpijul::txn::Txn;
use libpijul::apply::{
    flag_get, flag_insert, insert_position, is_rooted, parent_folder, parent_folder_any, position_in,
    repair_cyclic_paths, repair_zombies, LocalApplyError, StackElt, Workspace,
};
use libpijul::graph::{put_graph_with_rev, Graph};
use libpijul::missing_context::MissingError;
use libpijul::pristine::{BlockError, ChangeId, ChangePosition, EdgeFlags, Position, Vertex};
use libpijul::txn::{InconsistentChange, TxnErr};

fn v(c: u64, s: u64, e: u64) -> Vertex<ChangeId> {
    Vertex { change: ChangeId(c), start: ChangePosition(s), end: ChangePosition(e) }
}

fn pos(c: u64, p: u64) -> Position<ChangeId> {
    Position { change: ChangeId(c), pos: ChangePosition(p) }
}

fn folder_block() -> EdgeFlags {
    EdgeFlags::folder().union(EdgeFlags::block())
}

/// A file: the root, the name vertex `v(1, 0, 1)` and the inode `v(1, 1, 1)`.
fn rooted_file() -> Graph {
    let mut g = Graph::new();
    put_graph_with_rev(&mut g, folder_block(), Vertex::root(), v(1, 0, 1), ChangeId(1));
    put_graph_with_rev(&mut g, EdgeFlags::folder(), v(1, 0, 1), v(1, 1, 1), ChangeId(1));
    g
}

#[test]
fn error_conversions() {
    let b = BlockError { block: pos(1, 2) };
    assert_eq!(LocalApplyError::from_block(b), LocalApplyError::Block { block: pos(1, 2) });
    assert_eq!(LocalApplyError::from_missing(MissingError::Block(b)), LocalApplyError::Block { block: pos(1, 2) });
    assert_eq!(LocalApplyError::from_missing(MissingError::Txn(TxnErr)), LocalApplyError::Txn(TxnErr));
    assert_eq!(
        LocalApplyError::from_missing(MissingError::Inconsistent(InconsistentChange::UndeclaredDep)),
        LocalApplyError::InvalidChange
    );
    assert_eq!(LocalApplyError::from_inconsistent(InconsistentChange::UndeclaredDep), LocalApplyError::InvalidChange);
    assert_eq!(LocalApplyError::from_inconsistent(InconsistentChange::Txn(TxnErr)), LocalApplyError::Txn(TxnErr));
}

#[test]
fn flag_maps_keep_the_last_value() {
    let mut m = Vec::new();
    assert_eq!(flag_get(&m, &v(1, 0, 1)), None);
    flag_insert(&mut m, v(1, 0, 1), true);
    flag_insert(&mut m, v(2, 0, 1), false);
    flag_insert(&mut m, v(1, 0, 1), false);
    assert_eq!(flag_get(&m, &v(1, 0, 1)), Some(false));
    assert_eq!(flag_get(&m, &v(2, 0, 1)), Some(false));
    assert_eq!(flag_get(&m, &v(3, 0, 1)), None);
}

#[test]
fn positions_are_inserted_once() {
    let mut l = Vec::new();
    insert_position(&mut l, pos(1, 0));
    insert_position(&mut l, pos(2, 0));
    insert_position(&mut l, pos(1, 0));
    assert_eq!(l, vec![pos(1, 0), pos(2, 0)]);
    assert!(position_in(&l, &pos(2, 0)));
    assert!(!position_in(&l, &pos(3, 0)));
}

#[test]
fn folder_flags() {
    assert_eq!(parent_folder().bits(), 48);
    assert_eq!(parent_folder_any().bits(), 53);
}

#[test]
fn stack_entries_alive_when_their_own_last_alive_vertex() {
    let e = StackElt { vertex: v(1, 0, 1), last_alive: v(1, 0, 1), is_on_path: true };
    assert!(e.is_alive());
    let e = StackElt { vertex: v(1, 0, 1), last_alive: Vertex::root(), is_on_path: false };
    assert!(!e.is_alive());
}

#[test]
fn workspace_is_cleared() {
    let mut ws = Workspace::new();
    ws.parents.push(v(1, 0, 1));
    ws.rooted.push((v(1, 0, 1), true));
    ws.missing_context.files.push(v(2, 0, 0));
    ws.clear();
    assert!(ws.parents.is_empty() && ws.rooted.is_empty());
    assert_eq!(ws.missing_context.files, vec![v(2, 0, 0)]);
    ws.assert_empty();
}

#[test]
fn files_connected_to_the_root_are_rooted() {
    let g = rooted_file();
    let mut ws = Workspace::new();
    assert_eq!(is_rooted(&g, v(1, 1, 1), &mut ws), Ok(true));
    assert_eq!(flag_get(&ws.rooted, &v(1, 1, 1)), Some(true));
}

#[test]
fn dead_files_count_as_rooted() {
    let g = Graph::new();
    let mut ws = Workspace::new();
    assert_eq!(is_rooted(&g, v(1, 1, 1), &mut ws), Ok(true));
}

#[test]
fn files_cut_from_the_root_are_not_rooted() {
    let mut g = Graph::new();
    put_graph_with_rev(&mut g, EdgeFlags::folder(), v(1, 0, 1), v(1, 1, 1), ChangeId(1));
    let mut ws = Workspace::new();
    assert_eq!(is_rooted(&g, v(1, 1, 1), &mut ws), Ok(false));
    assert_eq!(flag_get(&ws.rooted, &v(1, 1, 1)), Some(false));
}

#[test]
fn cyclic_path_repair_leaves_rooted_files_alone() {
    let mut g = rooted_file();
    let before = g.edges.clone();
    let mut ws = Workspace::new();
    ws.missing_context.files.push(v(1, 1, 1));
    assert_eq!(repair_cyclic_paths(&mut g, &mut ws), Ok(()));
    assert_eq!(g.edges, before);
    assert!(ws.missing_context.files.is_empty());
}

#[test]
fn cyclic_path_repair_reconnects_a_cut_file() {
    let mut g = Graph::new();
    put_graph_with_rev(&mut g, folder_block(), Vertex::root(), v(1, 0, 1), ChangeId(1));
    put_graph_with_rev(
        &mut g,
        folder_block().union(EdgeFlags::deleted()),
        v(1, 0, 1),
        v(2, 0, 1),
        ChangeId(2),
    );
    put_graph_with_rev(&mut g, EdgeFlags::folder(), v(2, 0, 1), v(2, 1, 1), ChangeId(2));
    let before = g.edges.len();
    let mut ws = Workspace::new();
    ws.missing_context.files.push(v(2, 1, 1));
    assert_eq!(repair_cyclic_paths(&mut g, &mut ws), Ok(()));
    assert!(g.edges.len() > before);
    for (_, e) in g.edges[before..].iter() {
        assert!(e.flag.folder && e.flag.pseudo && !e.flag.deleted);
        assert_eq!(e.introduced_by, ChangeId(0));
    }
    let mut ws = Workspace::new();
    assert_eq!(is_rooted(&g, v(2, 1, 1), &mut ws), Ok(true));
}

#[test]
fn cyclic_path_repair_reports_a_missing_block() {
    let mut g = Graph::new();
    let bad = libpijul::pristine::Edge {
        flag: EdgeFlags::folder().union(EdgeFlags::parent()),
        dest: pos(7, 3),
        introduced_by: ChangeId(7),
    };
    g.put_graph(v(1, 1, 1), bad);
    let mut ws = Workspace::new();
    ws.missing_context.files.push(v(1, 1, 1));
    assert_eq!(repair_cyclic_paths(&mut g, &mut ws), Err(LocalApplyError::Block { block: pos(7, 3) }));
}


#[test]
fn pseudo_edge_to_a_dead_vertex_is_removed() {
    let txn = Txn::new();
    let mut g = Graph::new();
    put_graph_with_rev(&mut g, EdgeFlags::block(), Vertex::root(), v(1, 0, 3), ChangeId(1));
    put_graph_with_rev(&mut g, EdgeFlags::pseudo(), v(1, 0, 3), v(2, 0, 3), ChangeId(0));
    let mut ws = Workspace::new();
    let pseudo = Edge { flag: EdgeFlags::pseudo(), dest: pos(2, 0), introduced_by: ChangeId(0) };
    let inode = Position { change: Some(ChangeHash::Root), pos: ChangePosition(0) };
    ws.pseudo.push((v(1, 0, 3), pseudo, inode));
    let r = clean_obsolete_pseudo_edges(&txn, &mut g, &mut ws, ChangeId(2));
    assert_eq!(r, Ok(vec![pos(0, 0)]));
    assert!(!g.get_graph(&v(1, 0, 3), &pseudo));
    let file = Edge { flag: EdgeFlags::block(), dest: pos(1, 0), introduced_by: ChangeId(1) };
    assert!(g.get_graph(&Vertex::root(), &file));
    assert_eq!(g.edges.len(), 2);
    assert!(ws.pseudo.is_empty());
}

#[test]
fn folder_with_an_alive_file_has_alive_descendants() {
    let mut g = Graph::new();
    put_graph_with_rev(&mut g, EdgeFlags::folder(), v(1, 0, 1), v(1, 1, 1), ChangeId(1));
    put_graph_with_rev(&mut g, EdgeFlags::block(), v(1, 1, 1), v(2, 0, 3), ChangeId(2));
    let mut alive = Vec::new();
    let mut stack = Vec::new();
    assert_eq!(folder_has_alive_descendants(&g, &mut alive, &mut stack, v(1, 0, 1)), Ok(true));
    assert_eq!(flag_get(&alive, &v(1, 0, 1)), Some(true));
    assert_eq!(flag_get(&alive, &v(1, 1, 1)), Some(true));
    // The answer is cached.
    assert_eq!(folder_has_alive_descendants(&g, &mut alive, &mut stack, v(1, 0, 1)), Ok(true));
}

#[test]
fn folder_with_only_deleted_files_has_no_alive_descendants() {
    let mut g = Graph::new();
    put_graph_with_rev(&mut g, EdgeFlags::folder(), v(1, 0, 1), v(1, 1, 1), ChangeId(1));
    put_graph_with_rev(&mut g, EdgeFlags::block().union(EdgeFlags::deleted()), v(1, 1, 1), v(2, 0, 3), ChangeId(2));
    let mut alive = Vec::new();
    let mut stack = Vec::new();
    assert_eq!(folder_has_alive_descendants(&g, &mut alive, &mut stack, v(1, 0, 1)), Ok(false));
    assert_eq!(flag_get(&alive, &v(1, 0, 1)), Some(false));
}

#[test]
fn pseudo_edge_between_alive_vertices_stays() {
    let txn = Txn::new();
    let mut g = Graph::new();
    put_graph_with_rev(&mut g, EdgeFlags::block(), Vertex::root(), v(1, 0, 3), ChangeId(1));
    put_graph_with_rev(&mut g, EdgeFlags::block(), v(1, 0, 3), v(2, 0, 3), ChangeId(2));
    put_graph_with_rev(&mut g, EdgeFlags::pseudo(), v(1, 0, 3), v(2, 0, 3), ChangeId(0));
    let mut ws = Workspace::new();
    let pseudo = Edge { flag: EdgeFlags::pseudo(), dest: pos(2, 0), introduced_by: ChangeId(0) };
    let inode = Position { change: Some(ChangeHash::Root), pos: ChangePosition(0) };
    ws.pseudo.push((v(1, 0, 3), pseudo, inode));
    let r = clean_obsolete_pseudo_edges(&txn, &mut g, &mut ws, ChangeId(2));
    assert_eq!(r, Ok(vec![]));
    assert!(g.get_graph(&v(1, 0, 3), &pseudo));
    assert_eq!(g.edges.len(), 6);
    assert!(ws.pseudo.is_empty());
}

#[test]
fn zombie_gets_a_pseudo_edge_from_its_last_alive_ancestor() {
    let mut g = Graph::new();
    let a = v(2, 0, 3);
    let d = v(3, 0, 3);
    let z = v(4, 0, 3);
    put_graph_with_rev(&mut g, EdgeFlags::block(), v(1, 1, 1), a, ChangeId(2));
    put_graph_with_rev(&mut g, EdgeFlags::block().union(EdgeFlags::deleted()), a, d, ChangeId(3));
    put_graph_with_rev(&mut g, EdgeFlags::block(), d, z, ChangeId(4));
    assert_eq!(repair_zombies(&mut g, pos(1, 1)), Ok(()));
    let fwd = Edge { flag: EdgeFlags::pseudo(), dest: pos(4, 0), introduced_by: ChangeId(0) };
    let back = Edge { flag: EdgeFlags::pseudo().union(EdgeFlags::parent()), dest: pos(2, 3), introduced_by: ChangeId(0) };
    assert!(g.get_graph(&a, &fwd));
    assert!(g.get_graph(&z, &back));
    assert_eq!(g.edges.len(), 8);
}

#[test]
fn zombie_repair_leaves_a_folder_alone() {
    let mut g = rooted_file();
    put_graph_with_rev(&mut g, EdgeFlags::folder(), v(1, 1, 1), v(2, 0, 1), ChangeId(2));
    put_graph_with_rev(&mut g, EdgeFlags::block().union(EdgeFlags::deleted()), v(2, 0, 1), v(3, 0, 3), ChangeId(3));
    put_graph_with_rev(&mut g, EdgeFlags::block(), v(3, 0, 3), v(4, 0, 3), ChangeId(4));
    let before = g.edges.clone();
    assert_eq!(repair_zombies(&mut g, pos(1, 1)), Ok(()));
    assert_eq!(g.edges, before);
}

#[test]
fn known_answers_of_the_cache_are_used() {
    let mut g = Graph::new();
    put_graph_with_rev(&mut g, EdgeFlags::folder(), v(1, 0, 1), v(1, 1, 1), ChangeId(1));
    let mut ws = Workspace::new();
    flag_insert(&mut ws.rooted, v(1, 0, 1), false);
    assert_eq!(is_rooted(&g, v(1, 1, 1), &mut ws), Ok(false));
    let g = rooted_file();
    let mut ws = Workspace::new();
    flag_insert(&mut ws.rooted, v(1, 0, 1), true);
    assert_eq!(is_rooted(&g, v(1, 1, 1), &mut ws), Ok(true));
}
