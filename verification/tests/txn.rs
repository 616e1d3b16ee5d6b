use libpijul::pristine::{ChangeHash, ChangeId, ChangePosition, Position};
use libpijul::txn::{
    internal_pos, merkle_next, path_id_clone, path_id_eq, Channel, InconsistentChange, Inode, Merkle, OwnedPathId,
    Txn,
};

fn pos(c: u64, p: u64) -> Position<ChangeId> {
    Position { change: ChangeId(c), pos: ChangePosition(p) }
}

fn name(parent: u64, basename: &str) -> OwnedPathId {
    OwnedPathId { parent_inode: Inode(parent), basename: basename.to_string() }
}

#[test]
fn merkle_states_follow_the_log() {
    assert_eq!(merkle_next(Merkle(0), &ChangeHash::Blake3(5, 0, 0, 0)), Merkle(6));
    assert_eq!(merkle_next(Merkle(2), &ChangeHash::Root), Merkle(63));
    assert_eq!(merkle_next(Merkle(u64::MAX), &ChangeHash::Root), Merkle(u64::MAX - 29));
}

#[test]
fn changes_are_logged_once() {
    let mut channel = Channel::new(String::from("main"));
    assert_eq!(channel.apply_counter(), 0);
    assert_eq!(channel.state(), Merkle(0));
    let h = ChangeHash::Blake3(5, 0, 0, 0);
    assert_eq!(channel.put_changes(ChangeId(3), &h), Some(Merkle(6)));
    assert_eq!(channel.put_changes(ChangeId(3), &h), None);
    assert_eq!(channel.apply_counter(), 1);
    assert_eq!(channel.state(), Merkle(6));
    let g = ChangeHash::Blake3(1, 1, 1, 1);
    assert_eq!(channel.put_changes(ChangeId(4), &g), Some(Merkle(6 * 31 + 2)));
    assert_eq!(channel.get_changeset(ChangeId(3)), Some(0));
    assert_eq!(channel.get_changeset(ChangeId(4)), Some(1));
    assert_eq!(channel.get_changeset(ChangeId(5)), None);
}

#[test]
fn change_identifiers_and_positions() {
    let mut txn = Txn::new();
    assert_eq!(txn.make_changeid(), Some(ChangeId(1)));
    assert_eq!(txn.make_changeid(), Some(ChangeId(2)));
    txn.next_id = u64::MAX;
    assert_eq!(txn.make_changeid(), None);
    let h = ChangeHash::Blake3(7, 7, 7, 7);
    txn.internal.push((h, ChangeId(2)));
    assert_eq!(txn.get_internal(&h), Some(ChangeId(2)));
    assert_eq!(txn.get_external(ChangeId(2)), Some(h));
    assert_eq!(txn.get_external(ChangeId(9)), None);
    let p = Position { change: Some(h), pos: ChangePosition(4) };
    assert_eq!(internal_pos(&txn, &p, ChangeId(5)), Ok(pos(2, 4)));
    let p = Position { change: None, pos: ChangePosition(4) };
    assert_eq!(internal_pos(&txn, &p, ChangeId(5)), Ok(pos(5, 4)));
    let p = Position { change: Some(ChangeHash::Root), pos: ChangePosition(1) };
    assert_eq!(internal_pos(&txn, &p, ChangeId(5)), Ok(pos(0, 1)));
    let p = Position { change: Some(ChangeHash::Blake3(0, 0, 0, 1)), pos: ChangePosition(1) };
    assert_eq!(internal_pos(&txn, &p, ChangeId(5)), Err(InconsistentChange::UndeclaredDep));
}

#[test]
fn inode_tables() {
    let mut txn = Txn::new();
    txn.put_inodes_with_rev(Inode(3), pos(2, 0));
    assert_eq!(txn.get_inodes(Inode(3)), Some(pos(2, 0)));
    assert_eq!(txn.get_revinodes(pos(2, 0)), Some(Inode(3)));
    txn.del_inodes_with_rev(Inode(3), pos(2, 0));
    assert_eq!(txn.get_inodes(Inode(3)), None);
    assert_eq!(txn.get_revinodes(pos(2, 0)), None);
}

#[test]
fn tree_tables() {
    let mut txn = Txn::new();
    txn.tree.push((name(0, "a"), Inode(3)));
    txn.tree.push((OwnedPathId::inode(Inode(3)), Inode(3)));
    txn.revtree.push((Inode(3), name(0, "a")));
    assert_eq!(txn.get_tree(&name(0, "a")), Some(Inode(3)));
    assert_eq!(txn.get_tree(&name(0, "b")), None);
    assert!(path_id_eq(&txn.get_revtree(Inode(3)).unwrap(), &name(0, "a")));
    txn.del_tree(&OwnedPathId::inode(Inode(3)), Inode(3));
    assert_eq!(txn.tree.len(), 1);
    txn.del_tree_with_rev(&name(0, "a"), Inode(3));
    assert!(txn.tree.is_empty());
    assert!(txn.get_revtree(Inode(3)).is_none());
}

#[test]
fn path_ids() {
    let a = name(1, "x");
    assert!(path_id_eq(&a, &path_id_clone(&a)));
    assert!(!path_id_eq(&a, &name(1, "y")));
    assert!(!path_id_eq(&a, &name(2, "x")));
    let d = OwnedPathId::inode(Inode(4));
    assert_eq!(d.parent_inode, Inode(4));
    assert!(d.basename.is_empty());
}
