use libpijul::application::{
    apply_change, apply_change_arc, apply_change_rec, apply_change_rec_ws, apply_change_to_channel, apply_change_ws,
    apply_loaded_change, apply_local_change, apply_local_change_ws, check_change, first_missing_dependency,
    register_change, update_inode, ArcTxn, ChannelRef, InodeUpdate,
};
use libpijul::apply::{collect_missing_contexts, ApplyError, LocalApplyError, Workspace};
use libpijul::graph::Graph;
use libpijul::change::{Atom, Change, EdgeMap, NewEdge, NewVertex};
use libpijul::changestore::{ChangeNotFound, ChangeStore, MemoryChangeStore};
use libpijul::pristine::{ChangeHash, ChangeId, ChangePosition, Edge, EdgeFlags, Position, Vertex};
use libpijul::txn::{Channel, Inode, Merkle, OwnedPathId, Txn};

/// A channel whose graph holds the root vertex.
fn channel_with_root() -> Channel {
    let mut channel = Channel::new(String::from("main"));
    let root = Vertex { change: ChangeId(0), start: ChangePosition(0), end: ChangePosition(0) };
    channel.graph.edges.push((
        root,
        Edge {
            flag: EdgeFlags { block: true, pseudo: false, folder: true, parent: false, deleted: false },
            dest: Position { change: ChangeId(0), pos: ChangePosition(0) },
            introduced_by: ChangeId(0),
        },
    ));
    channel
}

fn root_pos() -> Position<Option<ChangeHash>> {
    Position { change: Some(ChangeHash::Root), pos: ChangePosition(0) }
}

fn hash(n: u64) -> ChangeHash {
    ChangeHash::Blake3(n, n + 1, n + 2, n + 3)
}

fn block() -> EdgeFlags {
    EdgeFlags { block: true, pseudo: false, folder: false, parent: false, deleted: false }
}

/// A change adding the vertex [start, end) of itself, below `up` (a position of another change).
fn add_vertex(deps: Vec<ChangeHash>, up: Vec<Position<Option<ChangeHash>>>, start: u64, end: u64) -> Change {
    Change {
        dependencies: deps,
        extra_known: Vec::new(),
        changes: vec![vec![Atom::NewVertex(NewVertex {
            up_context: up,
            down_context: Vec::new(),
            flag: block(),
            start: ChangePosition(start),
            end: ChangePosition(end),
            inode: Position { change: None, pos: ChangePosition(0) },
        })]],
    }
}

#[test]
fn first_change_is_logged_with_its_state() {
    let mut txn = Txn::new();
    let mut channel = Channel::new(String::from("main"));
    let mut ws = Workspace::new();
    let c = add_vertex(Vec::new(), Vec::new(), 0, 5);
    let (n, m) = apply_loaded_change(&mut txn, &mut channel, &hash(1), &c, &mut ws).unwrap();
    assert_eq!(n, 0);
    assert_eq!(channel.log.len(), 1);
    assert_eq!(channel.log[0].0, ChangeId(1));
    assert_eq!(channel.log[0].1, hash(1));
    assert_eq!(channel.log[0].2, m);
    // The state after one change on the empty state (0): 0 * 31 + 1 + 1.
    assert_eq!(m, Merkle(2));
    assert_eq!(channel.state(), Merkle(2));
    assert_eq!(txn.get_internal(&hash(1)), Some(ChangeId(1)));
    assert_eq!(txn.get_external(ChangeId(1)), Some(hash(1)));
    assert_eq!(channel.get_changeset(ChangeId(1)), Some(0));
}

#[test]
fn change_already_on_channel_is_refused() {
    let mut txn = Txn::new();
    let mut channel = Channel::new(String::from("main"));
    let mut ws = Workspace::new();
    let c = add_vertex(Vec::new(), Vec::new(), 0, 5);
    apply_loaded_change(&mut txn, &mut channel, &hash(1), &c, &mut ws).unwrap();
    let before = channel.log.clone();
    let r = apply_loaded_change(&mut txn, &mut channel, &hash(1), &c, &mut ws);
    assert_eq!(r, Err(LocalApplyError::ChangeAlreadyOnChannel { hash: hash(1) }));
    assert_eq!(channel.log, before);
}

#[test]
fn missing_dependency_is_refused() {
    let mut txn = Txn::new();
    let mut channel = Channel::new(String::from("main"));
    let mut ws = Workspace::new();
    let c = add_vertex(vec![hash(7)], Vec::new(), 0, 5);
    let r = apply_loaded_change(&mut txn, &mut channel, &hash(1), &c, &mut ws);
    assert_eq!(r, Err(LocalApplyError::DependencyMissing { hash: hash(7) }));
    assert!(channel.log.is_empty());
    // The root change is always applied.
    let c = add_vertex(vec![ChangeHash::Root], Vec::new(), 0, 5);
    assert!(apply_loaded_change(&mut txn, &mut channel, &hash(1), &c, &mut ws).is_ok());
}

#[test]
fn edge_map_with_parent_edges_is_invalid() {
    let mut txn = Txn::new();
    let mut channel = Channel::new(String::from("main"));
    let mut ws = Workspace::new();
    let parent = EdgeFlags { block: true, pseudo: false, folder: false, parent: true, deleted: false };
    let c = Change {
        dependencies: Vec::new(),
        extra_known: Vec::new(),
        changes: vec![vec![Atom::EdgeMap(EdgeMap {
            edges: vec![NewEdge {
                previous: block(),
                flag: parent,
                from: Position { change: None, pos: ChangePosition(0) },
                to: Vertex { change: None, start: ChangePosition(0), end: ChangePosition(1) },
                introduced_by: None,
            }],
            inode: Position { change: None, pos: ChangePosition(0) },
        })]],
    };
    let r = apply_loaded_change(&mut txn, &mut channel, &hash(1), &c, &mut ws);
    assert_eq!(r, Err(LocalApplyError::InvalidChange));
    assert!(channel.log.is_empty());
}

#[test]
fn second_change_attaches_below_the_first() {
    let mut txn = Txn::new();
    let mut channel = channel_with_root();
    let mut ws = Workspace::new();
    let c1 = add_vertex(Vec::new(), vec![root_pos()], 0, 5);
    apply_loaded_change(&mut txn, &mut channel, &hash(1), &c1, &mut ws).unwrap();
    let up = Position { change: Some(hash(1)), pos: ChangePosition(5) };
    let c2 = add_vertex(vec![hash(1)], vec![up], 0, 3);
    let (n, _) = apply_loaded_change(&mut txn, &mut channel, &hash(2), &c2, &mut ws).unwrap();
    assert_eq!(n, 1);
    let a = Vertex { change: ChangeId(1), start: ChangePosition(0), end: ChangePosition(5) };
    let b = Vertex { change: ChangeId(2), start: ChangePosition(0), end: ChangePosition(3) };
    // The edge from the first vertex to the new one, and its reverse.
    assert!(channel.graph.edges.iter().any(|(v, e)| *v == a && e.dest == b.start_pos() && e.introduced_by == ChangeId(2)));
    assert!(channel.graph.edges.iter().any(|(v, e)| *v == b && e.dest == a.end_pos() && e.flag.parent));
}

#[test]
fn unresolvable_context_is_an_error() {
    let mut txn = Txn::new();
    let mut channel = Channel::new(String::from("main"));
    let mut ws = Workspace::new();
    // The up context designates a change that is not registered.
    let up = Position { change: Some(hash(9)), pos: ChangePosition(5) };
    let c = add_vertex(Vec::new(), vec![up], 0, 3);
    let r = apply_loaded_change(&mut txn, &mut channel, &hash(2), &c, &mut ws);
    assert_eq!(r, Err(LocalApplyError::InvalidChange));
    // The change was registered and logged before its atoms failed.
    assert_eq!(channel.log.len(), 1);
}

#[test]
fn apply_change_takes_changes_from_the_store() {
    let mut store = MemoryChangeStore::new();
    let mut txn = Txn::new();
    let mut channel = Channel::new(String::from("main"));
    let r = apply_change(&store, &mut txn, &mut channel, &hash(1));
    assert_eq!(r, Err(ApplyError::Changestore(ChangeNotFound { hash: hash(1) })));
    store.insert(hash(1), add_vertex(Vec::new(), Vec::new(), 0, 5));
    assert!(store.get_change(&hash(1)).is_ok());
    let (n, _) = apply_change(&store, &mut txn, &mut channel, &hash(1)).unwrap();
    assert_eq!(n, 0);
    let r = apply_change(&store, &mut txn, &mut channel, &hash(1));
    assert_eq!(r, Err(ApplyError::LocalChange(LocalApplyError::ChangeAlreadyOnChannel { hash: hash(1) })));
}

#[test]
fn apply_change_rec_applies_dependencies_first() {
    let mut store = MemoryChangeStore::new();
    store.insert(hash(1), add_vertex(Vec::new(), vec![root_pos()], 0, 5));
    let up = Position { change: Some(hash(1)), pos: ChangePosition(5) };
    store.insert(hash(2), add_vertex(vec![hash(1)], vec![up], 0, 3));
    let mut txn = Txn::new();
    let mut channel = Channel::new(String::from("main"));
    let mut channel = channel_with_root();
    apply_change_rec(&store, &mut txn, &mut channel, &hash(2), false).unwrap();
    assert_eq!(channel.log.len(), 2);
    assert_eq!(channel.log[0].1, hash(1));
    assert_eq!(channel.log[1].1, hash(2));
}

#[test]
fn apply_change_rec_deps_only_leaves_the_change() {
    let mut store = MemoryChangeStore::new();
    store.insert(hash(1), add_vertex(Vec::new(), Vec::new(), 0, 5));
    let up = Position { change: Some(hash(1)), pos: ChangePosition(5) };
    store.insert(hash(2), add_vertex(vec![hash(1)], vec![up], 0, 3));
    let mut txn = Txn::new();
    let mut channel = Channel::new(String::from("main"));
    apply_change_rec(&store, &mut txn, &mut channel, &hash(2), true).unwrap();
    assert_eq!(channel.log.len(), 1);
    assert_eq!(channel.log[0].1, hash(1));
}

#[test]
fn apply_change_rec_reports_a_missing_dependency_of_the_store() {
    let mut store = MemoryChangeStore::new();
    store.insert(hash(2), add_vertex(vec![hash(1)], Vec::new(), 0, 3));
    let mut txn = Txn::new();
    let mut channel = Channel::new(String::from("main"));
    let r = apply_change_rec(&store, &mut txn, &mut channel, &hash(2), false);
    assert_eq!(r, Err(ApplyError::Changestore(ChangeNotFound { hash: hash(1) })));
    assert!(channel.log.is_empty());
}

#[test]
fn local_change_gets_a_fresh_identifier_and_updates_inodes() {
    let mut txn = Txn::new();
    let mut channel = ChannelRef { channel: Channel::new(String::from("main")) };
    let c = add_vertex(Vec::new(), Vec::new(), 0, 5);
    let updates = vec![InodeUpdate::Add { inode: Inode(42), pos: ChangePosition(0) }];
    let (n, _) = apply_local_change(&mut txn, &mut channel, &c, &hash(3), &updates).unwrap();
    assert_eq!(n, 0);
    assert_eq!(channel.channel.log[0].0, ChangeId(1));
    assert_eq!(txn.next_id, 2);
    // The inode vertex (1, 0) is not a vertex of the graph: nothing is linked.
    assert_eq!(txn.get_inodes(Inode(42)), None);
}

#[test]
fn register_change_records_hash_and_dependencies() {
    let mut txn = Txn::new();
    let c1 = add_vertex(Vec::new(), Vec::new(), 0, 5);
    register_change(&mut txn, ChangeId(1), &hash(1), &c1);
    let c2 = add_vertex(vec![hash(1)], Vec::new(), 0, 5);
    register_change(&mut txn, ChangeId(2), &hash(2), &c2);
    assert_eq!(txn.get_internal(&hash(2)), Some(ChangeId(2)));
    assert!(txn.dep.contains(&(ChangeId(2), ChangeId(1))));
    assert!(txn.rev_touched.contains(&(ChangeId(2), Position { change: ChangeId(2), pos: ChangePosition(0) })));
}

#[test]
fn apply_change_to_channel_refuses_a_logged_change() {
    let mut txn = Txn::new();
    let mut channel = Channel::new(String::from("main"));
    let c = add_vertex(Vec::new(), Vec::new(), 0, 5);
    register_change(&mut txn, ChangeId(1), &hash(1), &c);
    txn.next_id = 2;
    let mut ws = Workspace::new();
    apply_change_to_channel(&txn, &mut channel, ChangeId(1), &hash(1), &c, &mut ws).unwrap();
    let mut ws = Workspace::new();
    let r = apply_change_to_channel(&txn, &mut channel, ChangeId(1), &hash(1), &c, &mut ws);
    assert_eq!(r, Err(LocalApplyError::ChangeAlreadyOnChannel { hash: hash(1) }));
}

#[test]
fn first_missing_dependency_in_order() {
    let mut txn = Txn::new();
    let mut channel = Channel::new(String::from("main"));
    let mut ws = Workspace::new();
    apply_loaded_change(&mut txn, &mut channel, &hash(1), &add_vertex(Vec::new(), Vec::new(), 0, 5), &mut ws).unwrap();
    let c = add_vertex(vec![hash(1), hash(7), hash(8)], Vec::new(), 0, 5);
    assert_eq!(first_missing_dependency(&txn, &channel, &c), Some(hash(7)));
    let c = add_vertex(vec![hash(1)], Vec::new(), 0, 5);
    assert_eq!(first_missing_dependency(&txn, &channel, &c), None);
    // The root change is always applied.
    let c = add_vertex(vec![ChangeHash::Root, hash(9)], Vec::new(), 0, 5);
    assert_eq!(first_missing_dependency(&txn, &channel, &c), Some(hash(9)));
}

#[test]
fn changes_with_parent_edges_are_not_well_formed() {
    assert!(check_change(&add_vertex(Vec::new(), Vec::new(), 0, 5)));
    let mut parent = block();
    parent.parent = true;
    let edge = NewEdge {
        previous: block(),
        flag: parent,
        from: root_pos(),
        to: Vertex { change: Some(hash(1)), start: ChangePosition(0), end: ChangePosition(5) },
        introduced_by: None,
    };
    let c = Change {
        dependencies: Vec::new(),
        extra_known: Vec::new(),
        changes: vec![vec![Atom::EdgeMap(EdgeMap { edges: vec![edge], inode: root_pos() })]],
    };
    assert!(!check_change(&c));
}

#[test]
fn apply_change_on_shared_transaction_and_channel() {
    let mut store = MemoryChangeStore::new();
    store.insert(hash(1), add_vertex(Vec::new(), Vec::new(), 0, 5));
    let mut txn = ArcTxn { txn: Txn::new() };
    let mut channel = ChannelRef { channel: Channel::new(String::from("main")) };
    let (n, m) = apply_change_arc(&store, &mut txn, &mut channel, &hash(1)).unwrap();
    assert_eq!(n, 0);
    assert_eq!(channel.channel.state(), m);
    assert_eq!(txn.txn.get_internal(&hash(1)), Some(ChangeId(1)));
    let r = apply_change_arc(&store, &mut txn, &mut channel, &hash(2));
    assert_eq!(r, Err(ApplyError::Changestore(ChangeNotFound { hash: hash(2) })));
}

#[test]
fn apply_change_with_a_workspace() {
    let mut store = MemoryChangeStore::new();
    store.insert(hash(1), add_vertex(Vec::new(), Vec::new(), 0, 5));
    store.insert(hash(2), add_vertex(vec![hash(1)], Vec::new(), 0, 5));
    let mut txn = Txn::new();
    let mut channel = Channel::new(String::from("main"));
    let mut ws = Workspace::new();
    let r = apply_change_ws(&store, &mut txn, &mut channel, &hash(2), &mut ws);
    assert_eq!(r, Err(ApplyError::LocalChange(LocalApplyError::DependencyMissing { hash: hash(1) })));
    assert!(channel.log.is_empty());
    apply_change_rec_ws(&store, &mut txn, &mut channel, &hash(2), &mut ws, false).unwrap();
    assert_eq!(channel.log.len(), 2);
    assert_eq!(channel.log[1].1, hash(2));
    // Applying again finds everything applied.
    apply_change_rec_ws(&store, &mut txn, &mut channel, &hash(2), &mut ws, false).unwrap();
    assert_eq!(channel.log.len(), 2);
}

#[test]
fn added_files_are_linked_to_their_inode_vertex() {
    let mut txn = Txn::new();
    let mut channel = Channel::new(String::from("main"));
    let inode_vertex = Vertex { change: ChangeId(3), start: ChangePosition(2), end: ChangePosition(2) };
    channel.graph.edges.push((
        inode_vertex,
        Edge { flag: block(), dest: Position { change: ChangeId(3), pos: ChangePosition(2) }, introduced_by: ChangeId(3) },
    ));
    let add = InodeUpdate::Add { inode: Inode(7), pos: ChangePosition(2) };
    assert_eq!(update_inode(&mut txn, &channel, ChangeId(3), &add), Ok(()));
    assert_eq!(txn.get_inodes(Inode(7)), Some(Position { change: ChangeId(3), pos: ChangePosition(2) }));
    assert_eq!(txn.get_revinodes(Position { change: ChangeId(3), pos: ChangePosition(2) }), Some(Inode(7)));
}

#[test]
fn deleted_files_lose_their_name_and_inode_vertex() {
    let mut txn = Txn::new();
    let channel = Channel::new(String::from("main"));
    let name = OwnedPathId { parent_inode: Inode(0), basename: String::from("f") };
    txn.tree.push((OwnedPathId { parent_inode: Inode(0), basename: String::from("f") }, Inode(7)));
    txn.tree.push((OwnedPathId::inode(Inode(7)), Inode(7)));
    txn.revtree.push((Inode(7), name));
    txn.put_inodes_with_rev(Inode(7), Position { change: ChangeId(3), pos: ChangePosition(2) });
    let del = InodeUpdate::Deleted { inode: Inode(7) };
    assert_eq!(update_inode(&mut txn, &channel, ChangeId(4), &del), Ok(()));
    assert!(txn.tree.is_empty());
    assert!(txn.revtree.is_empty());
    assert!(txn.inodes.is_empty() && txn.revinodes.is_empty());
}

#[test]
fn local_change_with_a_missing_dependency_is_refused() {
    let mut txn = Txn::new();
    let mut channel = ChannelRef { channel: Channel::new(String::from("main")) };
    let mut ws = Workspace::new();
    let c = add_vertex(vec![hash(1)], Vec::new(), 0, 5);
    let r = apply_local_change_ws(&mut txn, &mut channel, &c, &hash(2), &Vec::new(), &mut ws);
    assert_eq!(r, Err(LocalApplyError::DependencyMissing { hash: hash(1) }));
    assert!(channel.channel.log.is_empty());
    txn.next_id = u64::MAX;
    let c = add_vertex(Vec::new(), Vec::new(), 0, 5);
    let r = apply_local_change_ws(&mut txn, &mut channel, &c, &hash(2), &Vec::new(), &mut ws);
    assert_eq!(r, Err(LocalApplyError::Txn(libpijul::txn::TxnErr)));
}

/// A transaction where `hash(1)` is registered as change 1, and a graph
/// holding the vertex [0, 5) of change 1 with one parent edge of flags
/// `flag`.
fn graph_with_vertex_of_change_1(flag: EdgeFlags) -> (Txn, Graph) {
    let mut txn = Txn::new();
    let empty = Change { dependencies: Vec::new(), extra_known: Vec::new(), changes: Vec::new() };
    register_change(&mut txn, ChangeId(1), &hash(1), &empty);
    let mut g = Graph::new();
    let a = Vertex { change: ChangeId(1), start: ChangePosition(0), end: ChangePosition(5) };
    g.edges.push((
        a,
        Edge { flag, dest: Position { change: ChangeId(0), pos: ChangePosition(0) }, introduced_by: ChangeId(1) },
    ));
    (txn, g)
}

/// A change of one file vertex below the end of the vertex of change 1.
fn file_below_change_1() -> Change {
    add_vertex(vec![hash(1)], vec![Position { change: Some(hash(1)), pos: ChangePosition(5) }], 0, 3)
}

#[test]
fn new_vertex_below_a_dead_vertex_misses_its_context() {
    let deleted_parent = EdgeFlags { block: true, pseudo: false, folder: false, parent: true, deleted: true };
    let (txn, g) = graph_with_vertex_of_change_1(deleted_parent);
    let mut ws = Workspace::new();
    let mut inodes = Vec::new();
    let r = collect_missing_contexts(&txn, &g, &mut ws, &file_below_change_1(), ChangeId(2), &mut inodes);
    assert_eq!(r, Ok(()));
    assert_eq!(inodes, vec![Position { change: ChangeId(2), pos: ChangePosition(0) }]);
}

#[test]
fn new_vertex_below_an_alive_vertex_misses_nothing() {
    let live_parent = EdgeFlags { block: true, pseudo: false, folder: false, parent: true, deleted: false };
    let (txn, g) = graph_with_vertex_of_change_1(live_parent);
    let mut ws = Workspace::new();
    let mut inodes = Vec::new();
    let r = collect_missing_contexts(&txn, &g, &mut ws, &file_below_change_1(), ChangeId(2), &mut inodes);
    assert_eq!(r, Ok(()));
    assert!(inodes.is_empty());
}

#[test]
fn unknown_parents_are_collected_once_each() {
    let live_parent = EdgeFlags { block: true, pseudo: false, folder: false, parent: true, deleted: false };
    let (txn, g) = graph_with_vertex_of_change_1(live_parent);
    let mut ws = Workspace::new();
    let v = Vertex { change: ChangeId(1), start: ChangePosition(0), end: ChangePosition(5) };
    let inode = Position { change: Some(hash(1)), pos: ChangePosition(7) };
    ws.missing_context.unknown_parents.push((v, v, inode, live_parent));
    ws.missing_context.unknown_parents.push((v, v, inode, live_parent));
    let mut inodes = Vec::new();
    let empty = Change { dependencies: Vec::new(), extra_known: Vec::new(), changes: Vec::new() };
    let r = collect_missing_contexts(&txn, &g, &mut ws, &empty, ChangeId(2), &mut inodes);
    assert_eq!(r, Ok(()));
    assert_eq!(inodes, vec![Position { change: ChangeId(1), pos: ChangePosition(7) }]);
    assert!(ws.missing_context.unknown_parents.is_empty());
}

#[test]
fn unknown_parent_of_an_unregistered_change_is_an_error() {
    let live_parent = EdgeFlags { block: true, pseudo: false, folder: false, parent: true, deleted: false };
    let (txn, g) = graph_with_vertex_of_change_1(live_parent);
    let mut ws = Workspace::new();
    let v = Vertex { change: ChangeId(1), start: ChangePosition(0), end: ChangePosition(5) };
    let inode = Position { change: Some(hash(9)), pos: ChangePosition(7) };
    ws.missing_context.unknown_parents.push((v, v, inode, live_parent));
    let mut inodes = Vec::new();
    let empty = Change { dependencies: Vec::new(), extra_known: Vec::new(), changes: Vec::new() };
    let r = collect_missing_contexts(&txn, &g, &mut ws, &empty, ChangeId(2), &mut inodes);
    assert_eq!(r, Err(LocalApplyError::InvalidChange));
}

#[test]
fn deleting_a_vertex_keeps_the_rest_of_the_graph() {
    let mut txn = Txn::new();
    let mut channel = channel_with_root();
    let mut ws = Workspace::new();
    let c1 = add_vertex(Vec::new(), vec![root_pos()], 0, 5);
    apply_loaded_change(&mut txn, &mut channel, &hash(1), &c1, &mut ws).unwrap();
    let up = Position { change: Some(hash(1)), pos: ChangePosition(5) };
    let c2 = add_vertex(vec![hash(1)], vec![up], 0, 3);
    apply_loaded_change(&mut txn, &mut channel, &hash(2), &c2, &mut ws).unwrap();
    let deletion = NewEdge {
        previous: block(),
        flag: block().union(EdgeFlags::deleted()),
        from: up,
        to: Vertex { change: Some(hash(2)), start: ChangePosition(0), end: ChangePosition(3) },
        introduced_by: Some(hash(2)),
    };
    let c3 = Change {
        dependencies: vec![hash(2)],
        extra_known: Vec::new(),
        changes: vec![vec![Atom::EdgeMap(EdgeMap { edges: vec![deletion], inode: root_pos() })]],
    };
    apply_loaded_change(&mut txn, &mut channel, &hash(3), &c3, &mut ws).unwrap();
    let root = Vertex { change: ChangeId(0), start: ChangePosition(0), end: ChangePosition(0) };
    let a = Vertex { change: ChangeId(1), start: ChangePosition(0), end: ChangePosition(5) };
    let to_a = Edge { flag: block(), dest: a.start_pos(), introduced_by: ChangeId(1) };
    assert!(channel.graph.edges.contains(&(root, to_a)));
    let b_start = Position { change: ChangeId(2), pos: ChangePosition(0) };
    assert!(!channel.graph.edges.iter().any(|(v, e)| *v == a && e.dest == b_start && e.introduced_by == ChangeId(2)));
    assert!(channel
        .graph
        .edges
        .iter()
        .any(|(v, e)| *v == a && e.dest == b_start && e.flag.deleted && e.introduced_by == ChangeId(3)));
}

#[test]
fn change_store_gives_the_first_change_of_a_hash() {
    let mut store = MemoryChangeStore::new();
    store.insert(hash(2), add_vertex(vec![hash(1)], Vec::new(), 0, 3));
    store.insert(hash(2), add_vertex(Vec::new(), Vec::new(), 0, 3));
    let c = store.get_change(&hash(2)).unwrap();
    assert_eq!(c.dependencies, vec![hash(1)]);
    assert_eq!(store.get_change(&hash(3)).unwrap_err(), ChangeNotFound { hash: hash(3) });
}

#[test]
fn recursive_apply_of_an_applied_change_changes_nothing() {
    let mut store = MemoryChangeStore::new();
    store.insert(hash(1), add_vertex(Vec::new(), vec![root_pos()], 0, 5));
    let up = Position { change: Some(hash(1)), pos: ChangePosition(5) };
    store.insert(hash(2), add_vertex(vec![hash(1)], vec![up], 0, 3));
    let mut txn = Txn::new();
    let mut channel = channel_with_root();
    apply_change_rec(&store, &mut txn, &mut channel, &hash(2), false).unwrap();
    let edges = channel.graph.edges.clone();
    let log = channel.log.clone();
    let internal = txn.internal.clone();
    apply_change_rec(&store, &mut txn, &mut channel, &hash(2), false).unwrap();
    assert_eq!(channel.graph.edges, edges);
    assert_eq!(channel.log, log);
    assert_eq!(txn.internal, internal);
}

#[test]
fn change_without_atoms_is_applied() {
    let mut txn = Txn::new();
    let mut channel = Channel::new(String::from("main"));
    let c = Change { dependencies: Vec::new(), extra_known: Vec::new(), changes: Vec::new() };
    register_change(&mut txn, ChangeId(1), &hash(1), &c);
    txn.next_id = 2;
    let mut ws = Workspace::new();
    let (n, _) = apply_change_to_channel(&txn, &mut channel, ChangeId(1), &hash(1), &c, &mut ws).unwrap();
    assert_eq!(n, 0);
    assert_eq!(channel.log.len(), 1);
    assert!(channel.graph.edges.is_empty());
}

#[test]
fn edge_map_deletes_the_edge_it_replaces() {
    let mut store = MemoryChangeStore::new();
    store.insert(hash(1), add_vertex(Vec::new(), vec![root_pos()], 0, 5));
    let deleted = EdgeFlags { block: true, pseudo: false, folder: false, parent: false, deleted: true };
    let e = NewEdge {
        previous: block(),
        flag: deleted,
        from: root_pos(),
        to: Vertex { change: Some(hash(1)), start: ChangePosition(0), end: ChangePosition(5) },
        introduced_by: Some(hash(1)),
    };
    let inode = Position { change: Some(hash(1)), pos: ChangePosition(0) };
    let c = Change {
        dependencies: vec![hash(1)],
        extra_known: Vec::new(),
        changes: vec![vec![Atom::EdgeMap(EdgeMap { edges: vec![e], inode })]],
    };
    store.insert(hash(2), c);
    let mut txn = Txn::new();
    let mut channel = channel_with_root();
    apply_change_rec(&store, &mut txn, &mut channel, &hash(2), false).unwrap();
    let root = Vertex { change: ChangeId(0), start: ChangePosition(0), end: ChangePosition(0) };
    let dest = Position { change: ChangeId(1), pos: ChangePosition(0) };
    let new = Edge { flag: deleted, dest, introduced_by: ChangeId(2) };
    let old = Edge { flag: block(), dest, introduced_by: ChangeId(1) };
    assert!(channel.graph.get_graph(&root, &new));
    assert!(!channel.graph.get_graph(&root, &old));
}

#[test]
fn recursive_apply_brings_every_reachable_dependency() {
    let mut store = MemoryChangeStore::new();
    store.insert(hash(1), add_vertex(Vec::new(), vec![root_pos()], 0, 5));
    let up1 = Position { change: Some(hash(1)), pos: ChangePosition(5) };
    store.insert(hash(2), add_vertex(vec![hash(1)], vec![up1], 0, 3));
    let up2 = Position { change: Some(hash(2)), pos: ChangePosition(3) };
    store.insert(hash(3), add_vertex(vec![hash(2)], vec![up2], 0, 2));
    let mut txn = Txn::new();
    let mut channel = channel_with_root();
    apply_change_rec(&store, &mut txn, &mut channel, &hash(3), false).unwrap();
    let logged: Vec<ChangeHash> = channel.log.iter().map(|e| e.1).collect();
    assert_eq!(logged, vec![hash(1), hash(2), hash(3)]);
}

#[test]
fn deps_only_brings_the_dependencies_and_theirs() {
    let mut store = MemoryChangeStore::new();
    store.insert(hash(1), add_vertex(Vec::new(), vec![root_pos()], 0, 5));
    let up1 = Position { change: Some(hash(1)), pos: ChangePosition(5) };
    store.insert(hash(2), add_vertex(vec![hash(1)], vec![up1], 0, 3));
    let up2 = Position { change: Some(hash(2)), pos: ChangePosition(3) };
    store.insert(hash(3), add_vertex(vec![hash(2)], vec![up2], 0, 2));
    let mut txn = Txn::new();
    let mut channel = channel_with_root();
    apply_change_rec(&store, &mut txn, &mut channel, &hash(3), true).unwrap();
    let logged: Vec<ChangeHash> = channel.log.iter().map(|e| e.1).collect();
    assert_eq!(logged, vec![hash(1), hash(2)]);
}
