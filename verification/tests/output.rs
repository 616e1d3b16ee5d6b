use libpijul::graph::Graph;
use libpijul::output::{
    collect_dead_files, del_redundant, inode_filename, is_alive_or_zombie, kill_dead_files, make_conflicting_name,
    output_repository_no_pending, sort_conflicting_names, Conflict, Redundant,
};
use libpijul::path::{file_name, parent, push};
use libpijul::pristine::{ChangeHash, ChangeId, ChangePosition, Edge, EdgeFlags, Position, Vertex};
use libpijul::txn::{Channel, Inode, Merkle, OwnedPathId, Txn};
use libpijul::working_copy::{sink, WorkingCopy};

fn flags(block: bool, pseudo: bool, folder: bool, parent: bool, deleted: bool) -> EdgeFlags {
    EdgeFlags { block, pseudo, folder, parent, deleted }
}

fn v(c: u64, s: u64, e: u64) -> Vertex<ChangeId> {
    Vertex { change: ChangeId(c), start: ChangePosition(s), end: ChangePosition(e) }
}

#[test]
fn paths() {
    assert_eq!(parent("a/b/c"), "a/b");
    assert_eq!(parent("c"), "");
    assert_eq!(file_name("a/b/c"), "c");
    assert_eq!(file_name("c"), "c");
    let mut p = String::new();
    push(&mut p, "a");
    push(&mut p, "b");
    assert_eq!(p, "a/b");
}

#[test]
fn conflicting_names_carry_the_change() {
    let key = v(1, 0, 3);
    assert_eq!(make_conflicting_name("a/b/c", key), "a/b/c.AEAAAAAAAAAAA");
    assert_eq!(make_conflicting_name("c", key), "c.AEAAAAAAAAAAA");
}

#[test]
fn conflict_accessors() {
    let h = ChangeHash::Blake3(1, 2, 3, 4);
    let p = Position { change: ChangeId(1), pos: ChangePosition(0) };
    let c = Conflict::ZombieFile { path: String::from("a"), inode: [p], changes: vec![h] };
    assert_eq!(c.changes(), &[h]);
    assert_eq!(c.inodes(), &[p]);
    let c = Conflict::Name { path: String::from("a"), inodes: vec![p, p], changes: vec![] };
    assert_eq!(c.inodes().len(), 2);
    assert!(c.changes().is_empty());
}

#[test]
fn alive_or_zombie_vertices() {
    let mut g = Graph::new();
    let a = v(1, 0, 3);
    assert!(!is_alive_or_zombie(&g, &a));
    assert!(is_alive_or_zombie(&g, &v(0, 0, 0)));
    g.edges.push((a, Edge { flag: flags(true, false, false, true, true), dest: Position { change: ChangeId(0), pos: ChangePosition(0) }, introduced_by: ChangeId(1) }));
    assert!(!is_alive_or_zombie(&g, &a));
    // A pseudo-edge of a file does not count...
    g.edges.push((a, Edge { flag: flags(true, true, false, true, false), dest: Position { change: ChangeId(0), pos: ChangePosition(0) }, introduced_by: ChangeId(1) }));
    assert!(!is_alive_or_zombie(&g, &a));
    // ...one of a folder does.
    g.edges.push((a, Edge { flag: flags(true, true, true, true, false), dest: Position { change: ChangeId(0), pos: ChangePosition(0) }, introduced_by: ChangeId(1) }));
    assert!(is_alive_or_zombie(&g, &a));
}

#[test]
fn filenames_follow_the_reverse_tree() {
    let mut txn = Txn::new();
    txn.revtree.push((Inode(2), OwnedPathId { parent_inode: Inode(1), basename: String::from("b") }));
    txn.revtree.push((Inode(1), OwnedPathId { parent_inode: Inode(0), basename: String::from("a") }));
    assert_eq!(inode_filename(&txn, Inode(2), &Vec::new()), Some(String::from("a/b")));
    assert_eq!(inode_filename(&txn, Inode(3), &Vec::new()), None);
    let tmp = vec![(Inode(1), String::from("tmp/x"))];
    assert_eq!(inode_filename(&txn, Inode(2), &tmp), Some(String::from("tmp/x/b")));
    // A cycle of names has no path.
    txn.revtree.push((Inode(5), OwnedPathId { parent_inode: Inode(6), basename: String::from("p") }));
    txn.revtree.push((Inode(6), OwnedPathId { parent_inode: Inode(5), basename: String::from("q") }));
    assert_eq!(inode_filename(&txn, Inode(5), &Vec::new()), None);
}

#[test]
fn names_sorted_by_application_order() {
    let mut channel = Channel::new(String::from("main"));
    for (i, c) in [3u64, 1, 2].iter().enumerate() {
        channel.log.push((ChangeId(*c), ChangeHash::Blake3(i as u64, 0, 0, 0), Merkle(0)));
    }
    let mut b = vec![(v(2, 0, 1), "x"), (v(1, 0, 1), "y"), (v(3, 0, 1), "z")];
    sort_conflicting_names(&channel, &mut b);
    assert_eq!(b.iter().map(|x| x.1).collect::<Vec<_>>(), vec!["z", "y", "x"]);
}

#[test]
fn redundant_edges_are_deleted_both_ways() {
    let mut channel = Channel::new(String::from("main"));
    let a = v(1, 0, 3);
    let b = v(2, 0, 4);
    let f = flags(true, false, false, false, false);
    libpijul::graph::put_graph_with_rev(&mut channel.graph, f, a, b, ChangeId(2));
    assert_eq!(channel.graph.edges.len(), 2);
    let e = Edge { flag: f, dest: b.start_pos(), introduced_by: ChangeId(2) };
    del_redundant(&mut channel, &vec![Redundant { v: a, e }]);
    assert!(channel.graph.edges.is_empty());
}

#[test]
fn dead_files_are_collected_and_killed() {
    let mut txn = Txn::new();
    let g = Graph::new();
    // The file "a" (inode 1) in the root, with an inode vertex that is not alive.
    txn.tree.push((OwnedPathId { parent_inode: Inode(0), basename: String::from("a") }, Inode(1)));
    txn.revtree.push((Inode(1), OwnedPathId { parent_inode: Inode(0), basename: String::from("a") }));
    // The file "a/b" (inode 2), with no inode vertex.
    txn.tree.push((OwnedPathId { parent_inode: Inode(1), basename: String::from("b") }, Inode(2)));
    txn.revtree.push((Inode(2), OwnedPathId { parent_inode: Inode(1), basename: String::from("b") }));
    txn.inodes.push((Inode(1), Position { change: ChangeId(4), pos: ChangePosition(0) }));
    txn.revinodes.push((Position { change: ChangeId(4), pos: ChangePosition(0) }, Inode(1)));
    let dead = collect_dead_files(&txn, &g, &Vec::new(), ChangeId(9), Inode(0));
    assert_eq!(dead.len(), 2);
    assert!(dead.iter().any(|d| d.1 == Inode(2) && d.2 == Some(String::from("a/b"))));
    // A file of the pending change is not dead; the file with no inode vertex is.
    let pending = collect_dead_files(&txn, &g, &Vec::new(), ChangeId(4), Inode(0));
    assert_eq!(pending.len(), 1);
    assert_eq!(pending[0].1, Inode(2));
    let mut channel = Channel::new(String::from("main"));
    let iv = Vertex { change: ChangeId(4), start: ChangePosition(0), end: ChangePosition(0) };
    channel.graph.edges.push((iv, Edge { flag: flags(true, false, true, true, true), dest: Position { change: ChangeId(0), pos: ChangePosition(0) }, introduced_by: ChangeId(4) }));
    let removed = kill_dead_files(&mut txn, &channel, &dead);
    assert!(txn.tree.is_empty());
    assert!(txn.inodes.is_empty());
    // Only "a" had an inode vertex in the graph.
    assert_eq!(removed, vec![String::from("a")]);
}

#[test]
fn sink_is_not_writable() {
    let s = sink();
    assert!(!s.is_writable("x").unwrap());
    assert!(s.create_dir_all("d").is_ok());
    assert!(s.remove_path("d", true).is_ok());
    assert!(s.rename("a", "b").is_ok());
    assert!(s.set_permissions("a", 0o644).is_ok());
}

#[test]
fn output_without_pending_change_deletes_redundant_edges() {
    let mut channel = Channel::new(String::from("main"));
    let a = v(1, 0, 3);
    let b = v(2, 0, 4);
    let f = flags(true, false, false, false, false);
    libpijul::graph::put_graph_with_rev(&mut channel.graph, f, a, b, ChangeId(2));
    let p = Position { change: ChangeId(1), pos: ChangePosition(0) };
    let conflicts = vec![Conflict::ZombieFile { path: String::from("a"), inode: [p], changes: vec![] }];
    let e = Edge { flag: f, dest: b.start_pos(), introduced_by: ChangeId(2) };
    let r = output_repository_no_pending(&mut channel, conflicts, &vec![Redundant { v: a, e }]);
    assert_eq!(r.len(), 1);
    assert_eq!(r[0].inodes(), &[p]);
    assert!(channel.graph.edges.is_empty());
    assert_eq!(channel.name, "main");
}

#[test]
fn files_below_a_dead_directory_are_dead() {
    let mut txn = Txn::new();
    let mut g = Graph::new();
    // "d" (inode 1) is a directory whose inode vertex is dead; "d/f" (inode 2) is alive.
    let dir_vertex = Position { change: ChangeId(4), pos: ChangePosition(0) };
    let file_vertex = Position { change: ChangeId(4), pos: ChangePosition(5) };
    txn.tree.push((OwnedPathId { parent_inode: Inode(0), basename: String::from("d") }, Inode(1)));
    txn.tree.push((OwnedPathId::inode(Inode(1)), Inode(1)));
    txn.tree.push((OwnedPathId { parent_inode: Inode(1), basename: String::from("f") }, Inode(2)));
    txn.inodes.push((Inode(1), dir_vertex));
    txn.inodes.push((Inode(2), file_vertex));
    let fv = file_vertex.inode_vertex();
    g.edges.push((fv, Edge { flag: flags(false, false, true, true, false), dest: Position { change: ChangeId(0), pos: ChangePosition(0) }, introduced_by: ChangeId(4) }));
    let dead = collect_dead_files(&txn, &g, &Vec::new(), ChangeId(9), Inode(0));
    // "d", its directory marker, and "d/f".
    assert_eq!(dead.len(), 3);
    assert!(dead.iter().any(|d| d.1 == Inode(1) && d.0.basename == "d"));
    assert!(dead.iter().any(|d| d.1 == Inode(1) && d.0.basename.is_empty()));
    assert!(dead.iter().any(|d| d.1 == Inode(2)));
    // With the directory alive, nothing is dead.
    g.edges.push((dir_vertex.inode_vertex(), Edge { flag: flags(false, false, true, true, false), dest: Position { change: ChangeId(0), pos: ChangePosition(0) }, introduced_by: ChangeId(4) }));
    assert!(collect_dead_files(&txn, &g, &Vec::new(), ChangeId(9), Inode(0)).is_empty());
}

#[test]
fn names_of_changes_off_the_channel_come_first() {
    let mut channel = Channel::new(String::from("main"));
    channel.log.push((ChangeId(1), ChangeHash::Blake3(0, 0, 0, 0), Merkle(0)));
    let mut b = vec![(v(1, 0, 1), "on"), (v(9, 0, 1), "off")];
    sort_conflicting_names(&channel, &mut b);
    assert_eq!(b.iter().map(|x| x.1).collect::<Vec<_>>(), vec!["off", "on"]);
}
