use libpijul::output::Conflict;
use libpijul::output_names::{output_names, DoneVertex, OutputItem};
use libpijul::pristine::{ChangeHash, ChangeId, ChangePosition, Position, Vertex};
use libpijul::txn::{Inode, Txn};

fn v(c: u64, s: u64, e: u64) -> Vertex<ChangeId> {
    Vertex { change: ChangeId(c), start: ChangePosition(s), end: ChangePosition(e) }
}

fn pos(c: u64, p: u64) -> Position<ChangeId> {
    Position { change: ChangeId(c), pos: ChangePosition(p) }
}

fn item(p: Position<ChangeId>, path: &str) -> OutputItem {
    OutputItem { parent: Inode(0), path: path.to_string(), is_dir: false, pos: p, is_zombie: None, tmp: None }
}

fn txn() -> Txn {
    let mut t = Txn::new();
    t.internal.push((ChangeHash::Blake3(1, 1, 1, 1), ChangeId(1)));
    t.internal.push((ChangeHash::Blake3(2, 2, 2, 2), ChangeId(2)));
    t
}

#[test]
fn a_single_name_is_output_under_its_name() {
    let t = txn();
    let mut done = Vec::new();
    let mut inodes = Vec::new();
    let (out, conflict) = output_names(&t, "file", vec![(v(1, 0, 4), item(pos(1, 5), "dir"))], &mut done, &mut inodes, true);
    assert_eq!(out.len(), 1);
    assert_eq!(out[0].name, "file");
    assert_eq!(out[0].item.path, "dir/file");
    assert!(out[0].existing.is_none());
    assert!(conflict.is_none());
    assert_eq!(done.len(), 1);
    assert_eq!(done[0].path, "dir/file");
}

#[test]
fn a_shared_name_is_a_conflict_and_numbered() {
    let t = txn();
    let mut done = Vec::new();
    let mut inodes = Vec::new();
    let b = vec![(v(1, 0, 4), item(pos(1, 5), "")), (v(2, 0, 4), item(pos(2, 5), ""))];
    let (out, conflict) = output_names(&t, "file", b, &mut done, &mut inodes, true);
    assert_eq!(out.len(), 2);
    assert_eq!(out[0].name, "file");
    assert_eq!(out[1].name, "file.AIAAAAAAAAAAA");
    match conflict {
        Some(Conflict::Name { path, inodes, changes }) => {
            assert_eq!(path, "file");
            assert_eq!(inodes, vec![pos(1, 5), pos(2, 5)]);
            assert_eq!(changes, vec![ChangeHash::Blake3(1, 1, 1, 1), ChangeHash::Blake3(2, 2, 2, 2)]);
        }
        _ => panic!("expected a name conflict"),
    }
}

#[test]
fn without_numbering_the_naming_stops_at_the_conflict() {
    let t = txn();
    let mut done = Vec::new();
    let mut inodes = Vec::new();
    let b = vec![(v(1, 0, 4), item(pos(1, 5), "")), (v(2, 0, 4), item(pos(2, 5), ""))];
    let (out, conflict) = output_names(&t, "file", b, &mut done, &mut inodes, false);
    assert_eq!(out.len(), 1);
    assert!(matches!(conflict, Some(Conflict::Name { .. })));
    assert_eq!(done.len(), 1);
}

#[test]
fn an_inode_with_two_names_is_output_once() {
    let mut t = txn();
    t.revinodes.push((pos(1, 5), Inode(7)));
    t.inodes.push((Inode(7), pos(1, 5)));
    let mut done = vec![DoneVertex { pos: pos(1, 5), name_key: v(2, 0, 3), path: "old".to_string(), names: Vec::new() }];
    let mut inodes = Vec::new();
    let (out, conflict) = output_names(&t, "file", vec![(v(1, 0, 4), item(pos(1, 5), ""))], &mut done, &mut inodes, true);
    assert!(out.is_empty());
    assert!(conflict.is_none());
    assert_eq!(done[0].names, vec![v(2, 0, 3), v(1, 0, 4)]);
}

#[test]
fn a_known_inode_is_reused() {
    let mut t = txn();
    t.revinodes.push((pos(1, 5), Inode(7)));
    t.inodes.push((Inode(7), pos(1, 5)));
    let mut done = Vec::new();
    let mut inodes = Vec::new();
    let (out, _) = output_names(&t, "file", vec![(v(1, 0, 4), item(pos(1, 5), ""))], &mut done, &mut inodes, true);
    assert_eq!(out[0].existing, Some((Inode(7), pos(1, 5))));
    assert_eq!(inodes, vec![Inode(7)]);
}

use libpijul::output_names::{move_or_create, place_inode, temp_basename};
use libpijul::txn::OwnedPathId;

fn file(parent: u64, p: Position<ChangeId>, is_dir: bool) -> OutputItem {
    OutputItem { parent: Inode(parent), path: String::new(), is_dir, pos: p, is_zombie: None, tmp: None }
}

fn name(parent: u64, base: &str) -> OwnedPathId {
    OwnedPathId { parent_inode: Inode(parent), basename: base.to_string() }
}

#[test]
fn temporary_names_hash_the_position() {
    let p = pos(3, 17);
    let mut bytes = Vec::new();
    bytes.extend_from_slice(&3u64.to_le_bytes());
    bytes.extend_from_slice(&17u64.to_le_bytes());
    let expected = data_encoding::BASE32.encode(blake3::hash(&bytes).as_bytes());
    assert_eq!(temp_basename(p), expected);
    assert_eq!(expected.len(), 56);
    assert!(expected.ends_with("===="));
}

#[test]
fn a_new_directory_gets_the_fresh_inode_and_its_marker() {
    let mut t = Txn::new();
    let mut tmp = None;
    let mut moves = Vec::new();
    let mut map = Vec::new();
    let r = move_or_create(&mut t, &file(0, pos(1, 5), true), None, "d", &mut tmp, "d", &mut moves, &mut map, Inode(9));
    assert_eq!(r.inode, Inode(9));
    assert!(r.rename.is_none() && r.occupant.is_none());
    assert_eq!(t.get_tree(&name(0, "d")), Some(Inode(9)));
    assert_eq!(t.get_tree(&name(9, "")), Some(Inode(9)));
    assert_eq!(t.get_inodes(Inode(9)), Some(pos(1, 5)));
    assert_eq!(t.get_revinodes(pos(1, 5)), Some(Inode(9)));
}

#[test]
fn a_taken_name_is_left_to_the_caller() {
    let mut t = Txn::new();
    t.tree.push((name(0, "f"), Inode(5)));
    let mut tmp = None;
    let mut moves = Vec::new();
    let mut map = Vec::new();
    let r = move_or_create(&mut t, &file(0, pos(1, 5), false), None, "f", &mut tmp, "f", &mut moves, &mut map, Inode(9));
    assert_eq!(r.occupant, Some(Inode(5)));
    assert!(t.inodes.is_empty());
    t.tree.clear();
    place_inode(&mut t, &name(0, "f"), r.inode, pos(1, 5), r.marker);
    assert_eq!(t.get_tree(&name(0, "f")), Some(Inode(9)));
}

#[test]
fn a_moved_file_goes_through_a_temporary_name() {
    let mut t = Txn::new();
    t.tree.push((name(0, "old"), Inode(7)));
    t.revtree.push((Inode(7), name(0, "old")));
    let mut tmp = None;
    let mut moves = Vec::new();
    let mut map = Vec::new();
    let existing = Some((Inode(7), pos(1, 5)));
    let r = move_or_create(&mut t, &file(0, pos(1, 5), false), existing, "new", &mut tmp, "new", &mut moves, &mut map, Inode(9));
    let temp = temp_basename(pos(1, 5));
    assert_eq!(r.inode, Inode(7));
    assert_eq!(r.rename, Some(("old".to_string(), temp.clone())));
    assert_eq!(tmp, Some(temp.clone()));
    assert_eq!(moves, vec![(temp.clone(), "new".to_string())]);
    assert_eq!(map, vec![(Inode(7), temp)]);
    assert_eq!(t.get_tree(&name(0, "old")), None);
    assert_eq!(t.get_tree(&name(0, "new")), Some(Inode(7)));
    assert_eq!(t.get_revtree(Inode(7)).map(|p| p.basename), Some("new".to_string()));
}

#[test]
fn a_file_in_place_is_left_alone() {
    let mut t = Txn::new();
    t.tree.push((name(0, "f"), Inode(7)));
    t.revtree.push((Inode(7), name(0, "f")));
    let mut tmp = None;
    let mut moves = Vec::new();
    let mut map = Vec::new();
    let r = move_or_create(&mut t, &file(0, pos(1, 5), false), Some((Inode(7), pos(1, 5))), "f", &mut tmp, "f", &mut moves, &mut map, Inode(9));
    assert!(r.rename.is_none() && r.occupant.is_none());
    assert_eq!(t.tree.len(), 1);
    assert!(t.inodes.is_empty() && moves.is_empty() && map.is_empty() && tmp.is_none());
}

use libpijul::output_names::finish_output;

#[test]
fn inodes_with_several_names_are_conflicts_and_moves_are_undone_last_first() {
    let t = txn();
    let done = vec![
        DoneVertex { pos: pos(1, 5), name_key: v(1, 0, 3), path: "a".to_string(), names: Vec::new() },
        DoneVertex { pos: pos(2, 5), name_key: v(1, 0, 3), path: "b".to_string(), names: vec![v(1, 0, 3), v(2, 0, 3)] },
    ];
    let moves = vec![("t1".to_string(), "x".to_string()), ("t2".to_string(), "y".to_string())];
    let (conflicts, undo) = finish_output(&t, &done, &moves);
    assert_eq!(
        conflicts,
        vec![Conflict::MultipleNames {
            path: "b".to_string(),
            pos: [pos(2, 5)],
            names: vec![v(1, 0, 3), v(2, 0, 3)],
            changes: vec![ChangeHash::Blake3(1, 1, 1, 1), ChangeHash::Blake3(2, 2, 2, 2)],
        }]
    );
    assert_eq!(undo, vec![("t2".to_string(), "y".to_string()), ("t1".to_string(), "x".to_string())]);
}

use libpijul::output_names::zombie_file_conflict;

#[test]
fn a_zombie_file_is_a_conflict_once() {
    let mut it = item(pos(1, 5), "d");
    it.is_zombie = Some(vec![ChangeHash::Blake3(1, 1, 1, 1)]);
    let c = zombie_file_conflict(&mut it, "d/f");
    assert_eq!(
        c,
        Some(Conflict::ZombieFile { path: "d/f".to_string(), inode: [pos(1, 5)], changes: vec![ChangeHash::Blake3(1, 1, 1, 1)] })
    );
    assert!(it.is_zombie.is_none());
    assert_eq!(zombie_file_conflict(&mut it, "d/f"), None);
}
