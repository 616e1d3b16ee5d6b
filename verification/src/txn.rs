//! The tables of a pristine: registered changes, channels, and the
//! correspondence between the graph and the working copy (inodes, tree).
use vstd::prelude::*;
use crate::base32::{decode_spec, decode_u64, encode_spec, encode_u64};
use crate::graph::Graph;
use crate::pristine::{ChangeHash, ChangeId, Position};

verus! {

/// The fingerprint of the state of a channel, updated by each applied change.
#[derive(Clone, Copy, Debug, PartialEq, Eq, Structural, Hash)]
pub struct Merkle(pub u64);

impl Merkle {
    /// The text form of this state.
    pub fn to_base32(&self) -> (r: String)
        ensures
            r@ == encode_spec(self.0),
    {
        encode_u64(self.0)
    }

    /// The state of text form `s`, if `s` is one.
    pub fn from_base32(s: &str) -> (r: Option<Merkle>)
        ensures
            r == (match decode_spec(s@) {
                Some(x) => Some(Merkle(x)),
                None => None,
            }),
    {
        match decode_u64(s) {
            Some(x) => Some(Merkle(x)),
            None => None,
        }
    }
}

/// A file of the working copy.
#[derive(Clone, Copy, Debug, PartialEq, Eq, Structural, Hash)]
pub struct Inode(pub u64);

/// The name of a file: its parent directory and its base name.
/// The empty base name designates the directory `parent_inode` itself.
#[derive(Clone, Debug, PartialEq, Eq)]
pub struct OwnedPathId {
    pub parent_inode: Inode,
    pub basename: String,
}

impl View for OwnedPathId {
    type V = (Inode, Seq<char>);

    open spec fn view(&self) -> (Inode, Seq<char>) {
        (self.parent_inode, self.basename@)
    }
}

/// The next merkle state after applying the change `h` on state `m`.
pub open spec fn merkle_next_spec(m: Merkle, h: ChangeHash) -> Merkle {
    let w: u64 = match h {
        ChangeHash::Root => 0,
        ChangeHash::Blake3(a, _, _, _) => a,
    };
    Merkle(((m.0 as int * 31 + w as int + 1) % 0x1_0000_0000_0000_0000) as u64)
}

pub fn merkle_next(m: Merkle, h: &ChangeHash) -> (r: Merkle)
    ensures
        r == merkle_next_spec(m, *h),
{
    let w: u64 = match h {
        ChangeHash::Root => 0,
        ChangeHash::Blake3(a, _, _, _) => *a,
    };
    let x: u128 = (m.0 as u128) * 31 + (w as u128) + 1;
    Merkle((x % 0x1_0000_0000_0000_0000u128) as u64)
}

/// A channel: its graph, and the log of the changes applied to it, in
/// order (the index in the log is the change's application number).
#[derive(Clone, Debug)]
pub struct Channel {
    pub name: String,
    pub graph: Graph,
    pub log: Vec<(ChangeId, ChangeHash, Merkle)>,
    pub last_modified: u64,
}

/// The position of `c` in a channel log, if it is there.
pub open spec fn log_position(log: Seq<(ChangeId, ChangeHash, Merkle)>, c: ChangeId) -> Option<int>
    decreases log.len(),
{
    if log.len() == 0 {
        None
    } else {
        match log_position(log.drop_last(), c) {
            Some(i) => Some(i),
            None => if log.last().0 == c {
                Some(log.len() - 1)
            } else {
                None
            },
        }
    }
}

pub proof fn lemma_log_position(log: Seq<(ChangeId, ChangeHash, Merkle)>, c: ChangeId)
    ensures
        log_position(log, c) is Some <==> exists|i: int| 0 <= i < log.len() && #[trigger] log[i].0 == c,
        log_position(log, c) matches Some(i) ==> 0 <= i < log.len() && log[i].0 == c,
    decreases log.len(),
{
    if log.len() > 0 {
        lemma_log_position(log.drop_last(), c);
        if exists|i: int| 0 <= i < log.len() && #[trigger] log[i].0 == c {
            let i = choose|i: int| 0 <= i < log.len() && #[trigger] log[i].0 == c;
            if i < log.len() - 1 {
                assert(log.drop_last()[i].0 == c);
            }
        }
        if exists|i: int| 0 <= i < log.len() - 1 && #[trigger] log.drop_last()[i].0 == c {
            let i = choose|i: int| 0 <= i < log.len() - 1 && #[trigger] log.drop_last()[i].0 == c;
            assert(log[i].0 == c);
        }
    }
}

impl Channel {
    pub fn new(name: String) -> (r: Channel)
        ensures
            r.name@ == name@,
            r.graph@.len() == 0,
            r.log@.len() == 0,
            r.last_modified == 0,
    {
        Channel { name, graph: Graph::new(), log: Vec::new(), last_modified: 0 }
    }

    /// The number of changes applied to this channel.
    pub fn apply_counter(&self) -> (r: u64)
        ensures
            r == self.log@.len(),
    {
        self.log.len() as u64
    }

    /// The application number of the change `c` in this channel, if `c` was applied.
    pub fn get_changeset(&self, c: ChangeId) -> (r: Option<u64>)
        ensures
            match log_position(self.log@, c) {
                Some(i) => r == Some(i as u64),
                None => r is None,
            },
    {
        let mut i: usize = 0;
        while i < self.log.len()
            invariant
                0 <= i <= self.log@.len(),
                log_position(self.log@.take(i as int), c) is None,
            decreases self.log.len() - i,
        {
            assert(self.log@.take(i + 1).drop_last() == self.log@.take(i as int));
            if self.log[i].0 == c {
                assert(log_position(self.log@.take(i + 1), c) == Some(i as int));
                proof { lemma_log_prefix(self.log@, c, i + 1); }
                return Some(i as u64);
            }
            i = i + 1;
        }
        assert(self.log@.take(self.log@.len() as int) == self.log@);
        None
    }

    /// The merkle state of this channel: that after its last change.
    pub open spec fn spec_state(&self) -> Merkle {
        if self.log@.len() == 0 {
            Merkle(0)
        } else {
            self.log@.last().2
        }
    }

    pub fn state(&self) -> (r: Merkle)
        ensures
            r == self.spec_state(),
    {
        if self.log.len() == 0 {
            Merkle(0)
        } else {
            self.log[self.log.len() - 1].2
        }
    }

    /// Registers `c` (of hash `h`) as the next change of the log, unless it
    /// is already there. Returns the new state of the channel.
    pub fn put_changes(&mut self, c: ChangeId, h: &ChangeHash) -> (r: Option<Merkle>)
        ensures
            final(self).graph == old(self).graph,
            final(self).name == old(self).name,
            final(self).last_modified == old(self).last_modified,
            log_position(old(self).log@, c) is Some ==> r is None && final(self).log@ == old(self).log@,
            log_position(old(self).log@, c) is None ==> r == Some(merkle_next_spec(old(self).spec_state(), *h))
                && final(self).log@ == old(self).log@.push((c, *h, merkle_next_spec(old(self).spec_state(), *h))),
    {
        if self.get_changeset(c).is_some() {
            None
        } else {
            let m = merkle_next(self.state(), h);
            self.log.push((c, *h, m));
            Some(m)
        }
    }
}

pub proof fn lemma_log_prefix(log: Seq<(ChangeId, ChangeHash, Merkle)>, c: ChangeId, k: int)
    requires
        0 <= k <= log.len(),
    ensures
        log_position(log.take(k), c) matches Some(i) ==> log_position(log, c) == Some(i),
    decreases log.len(),
{
    if k == log.len() {
        assert(log.take(k) == log);
    } else {
        assert(log.take(k) == log.drop_last().take(k));
        lemma_log_prefix(log.drop_last(), c, k);
    }
}

} // verus!

verus! {

/// Errors of the database underlying a pristine. The in-memory tables of
/// this crate never fail, but the variants of the error types carry them.
#[derive(Clone, Copy, Debug, PartialEq, Eq, Structural)]
pub struct TxnErr;

/// A change refers to something that the pristine cannot explain.
#[derive(Clone, Copy, Debug, PartialEq, Eq, Structural)]
pub enum InconsistentChange {
    UndeclaredDep,
    Txn(TxnErr),
}

/// The tables of a pristine that are shared by all channels.
#[derive(Clone, Debug)]
pub struct Txn {
    /// The registered changes, with their internal identifiers.
    pub internal: Vec<(ChangeHash, ChangeId)>,
    /// The identifier that the next registered change receives.
    pub next_id: u64,
    /// `(c, d)`: change `c` depends on change `d`.
    pub dep: Vec<(ChangeId, ChangeId)>,
    /// `(c, p)`: change `c` touches the file whose inode vertex is at `p`.
    pub rev_touched: Vec<(ChangeId, Position<ChangeId>)>,
    /// The working copy tree: path ids to inodes (with directory markers).
    pub tree: Vec<(OwnedPathId, Inode)>,
    /// The name of each inode.
    pub revtree: Vec<(Inode, OwnedPathId)>,
    /// The inode vertex of each inode.
    pub inodes: Vec<(Inode, Position<ChangeId>)>,
    /// The inode of each inode vertex.
    pub revinodes: Vec<(Position<ChangeId>, Inode)>,
}

/// The identifier registered for `h`, if any (the first registration).
pub open spec fn internal_of(t: Seq<(ChangeHash, ChangeId)>, h: ChangeHash) -> Option<ChangeId>
    decreases t.len(),
{
    if t.len() == 0 {
        None
    } else if t[0].0 == h {
        Some(t[0].1)
    } else {
        internal_of(t.drop_first(), h)
    }
}

/// The hash registered under `c`, if any (the first registration).
pub open spec fn external_of(t: Seq<(ChangeHash, ChangeId)>, c: ChangeId) -> Option<ChangeHash>
    decreases t.len(),
{
    if t.len() == 0 {
        None
    } else if t[0].1 == c {
        Some(t[0].0)
    } else {
        external_of(t.drop_first(), c)
    }
}

/// The inode vertex of `i` in an inode table (the first entry).
pub open spec fn inode_pos_of(t: Seq<(Inode, Position<ChangeId>)>, i: Inode) -> Option<Position<ChangeId>>
    decreases t.len(),
{
    if t.len() == 0 {
        None
    } else if t[0].0 == i {
        Some(t[0].1)
    } else {
        inode_pos_of(t.drop_first(), i)
    }
}

/// The inode of the inode vertex `p` (the first entry).
pub open spec fn pos_inode_of(t: Seq<(Position<ChangeId>, Inode)>, p: Position<ChangeId>) -> Option<Inode>
    decreases t.len(),
{
    if t.len() == 0 {
        None
    } else if t[0].0 == p {
        Some(t[0].1)
    } else {
        pos_inode_of(t.drop_first(), p)
    }
}

/// The name of `i` in a reverse tree table (the first entry).
pub open spec fn revtree_of(t: Seq<(Inode, OwnedPathId)>, i: Inode) -> Option<(Inode, Seq<char>)>
    decreases t.len(),
{
    if t.len() == 0 {
        None
    } else if t[0].0 == i {
        Some(t[0].1@)
    } else {
        revtree_of(t.drop_first(), i)
    }
}

/// The inode named `p` in a tree table (the first entry).
pub open spec fn tree_of(t: Seq<(OwnedPathId, Inode)>, p: (Inode, Seq<char>)) -> Option<Inode>
    decreases t.len(),
{
    if t.len() == 0 {
        None
    } else if t[0].0@ == p {
        Some(t[0].1)
    } else {
        tree_of(t.drop_first(), p)
    }
}

pub fn path_id_eq(a: &OwnedPathId, b: &OwnedPathId) -> (r: bool)
    ensures
        r == (a@ == b@),
{
    a.parent_inode == b.parent_inode && a.basename == b.basename
}

pub fn path_id_clone(a: &OwnedPathId) -> (r: OwnedPathId)
    ensures
        r@ == a@,
{
    OwnedPathId { parent_inode: a.parent_inode, basename: a.basename.clone() }
}

impl OwnedPathId {
    /// The path id of the directory `inode` itself.
    pub fn inode(inode: Inode) -> (r: OwnedPathId)
        ensures
            r@ == (inode, Seq::<char>::empty()),
    {
        OwnedPathId { parent_inode: inode, basename: String::new() }
    }
}

impl Txn {
    pub fn new() -> (r: Txn)
        ensures
            r.internal@.len() == 0,
            r.next_id == 1,
            r.dep@.len() == 0,
            r.rev_touched@.len() == 0,
            r.tree@.len() == 0,
            r.revtree@.len() == 0,
            r.inodes@.len() == 0,
            r.revinodes@.len() == 0,
    {
        Txn {
            internal: Vec::new(),
            next_id: 1,
            dep: Vec::new(),
            rev_touched: Vec::new(),
            tree: Vec::new(),
            revtree: Vec::new(),
            inodes: Vec::new(),
            revinodes: Vec::new(),
        }
    }

    /// The internal identifier of the change `h`, if it is registered.
    pub fn get_internal(&self, h: &ChangeHash) -> (r: Option<ChangeId>)
        ensures
            r == internal_of(self.internal@, *h),
    {
        let mut i: usize = 0;
        assert(self.internal@.skip(0) == self.internal@);
        while i < self.internal.len()
            invariant
                0 <= i <= self.internal@.len(),
                internal_of(self.internal@, *h) == internal_of(self.internal@.skip(i as int), *h),
            decreases self.internal.len() - i,
        {
            assert(self.internal@.skip(i as int)[0] == self.internal@[i as int]);
            if self.internal[i].0 == *h {
                return Some(self.internal[i].1);
            }
            assert(self.internal@.skip(i as int).drop_first() == self.internal@.skip(i + 1));
            i = i + 1;
        }
        None
    }

    /// The hash of the change registered under `c`, if any.
    pub fn get_external(&self, c: ChangeId) -> (r: Option<ChangeHash>)
        ensures
            r == external_of(self.internal@, c),
    {
        let mut i: usize = 0;
        assert(self.internal@.skip(0) == self.internal@);
        while i < self.internal.len()
            invariant
                0 <= i <= self.internal@.len(),
                external_of(self.internal@, c) == external_of(self.internal@.skip(i as int), c),
            decreases self.internal.len() - i,
        {
            assert(self.internal@.skip(i as int)[0] == self.internal@[i as int]);
            if self.internal[i].1 == c {
                return Some(self.internal[i].0);
            }
            assert(self.internal@.skip(i as int).drop_first() == self.internal@.skip(i + 1));
            i = i + 1;
        }
        None
    }

    /// Allocates a fresh internal identifier for a new change.
    pub fn make_changeid(&mut self) -> (r: Option<ChangeId>)
        ensures
            old(self).next_id < u64::MAX ==> r == Some(ChangeId(old(self).next_id)) && final(self).next_id
                == old(self).next_id + 1,
            old(self).next_id == u64::MAX ==> r is None && final(self).next_id == old(self).next_id,
            final(self).internal == old(self).internal,
            final(self).dep == old(self).dep,
            final(self).rev_touched == old(self).rev_touched,
            final(self).tree == old(self).tree,
            final(self).revtree == old(self).revtree,
            final(self).inodes == old(self).inodes,
            final(self).revinodes == old(self).revinodes,
    {
        if self.next_id < u64::MAX {
            let c = ChangeId(self.next_id);
            self.next_id = self.next_id + 1;
            Some(c)
        } else {
            None
        }
    }

    /// The inode vertex of the inode `i`.
    pub fn get_inodes(&self, i: Inode) -> (r: Option<Position<ChangeId>>)
        ensures
            r == inode_pos_of(self.inodes@, i),
    {
        let mut k: usize = 0;
        assert(self.inodes@.skip(0) == self.inodes@);
        while k < self.inodes.len()
            invariant
                0 <= k <= self.inodes@.len(),
                inode_pos_of(self.inodes@, i) == inode_pos_of(self.inodes@.skip(k as int), i),
            decreases self.inodes.len() - k,
        {
            assert(self.inodes@.skip(k as int)[0] == self.inodes@[k as int]);
            if self.inodes[k].0 == i {
                return Some(self.inodes[k].1);
            }
            assert(self.inodes@.skip(k as int).drop_first() == self.inodes@.skip(k + 1));
            k = k + 1;
        }
        None
    }

    /// The inode of the inode vertex `p`.
    pub fn get_revinodes(&self, p: Position<ChangeId>) -> (r: Option<Inode>)
        ensures
            r == pos_inode_of(self.revinodes@, p),
    {
        let mut k: usize = 0;
        assert(self.revinodes@.skip(0) == self.revinodes@);
        while k < self.revinodes.len()
            invariant
                0 <= k <= self.revinodes@.len(),
                pos_inode_of(self.revinodes@, p) == pos_inode_of(self.revinodes@.skip(k as int), p),
            decreases self.revinodes.len() - k,
        {
            assert(self.revinodes@.skip(k as int)[0] == self.revinodes@[k as int]);
            if self.revinodes[k].0 == p {
                return Some(self.revinodes[k].1);
            }
            assert(self.revinodes@.skip(k as int).drop_first() == self.revinodes@.skip(k + 1));
            k = k + 1;
        }
        None
    }

    /// The name of the inode `i`.
    pub fn get_revtree(&self, i: Inode) -> (r: Option<OwnedPathId>)
        ensures
            match revtree_of(self.revtree@, i) {
                Some(p) => r is Some && r.unwrap()@ == p,
                None => r is None,
            },
    {
        let mut k: usize = 0;
        assert(self.revtree@.skip(0) == self.revtree@);
        while k < self.revtree.len()
            invariant
                0 <= k <= self.revtree@.len(),
                revtree_of(self.revtree@, i) == revtree_of(self.revtree@.skip(k as int), i),
            decreases self.revtree.len() - k,
        {
            assert(self.revtree@.skip(k as int)[0] == self.revtree@[k as int]);
            if self.revtree[k].0 == i {
                return Some(path_id_clone(&self.revtree[k].1));
            }
            assert(self.revtree@.skip(k as int).drop_first() == self.revtree@.skip(k + 1));
            k = k + 1;
        }
        None
    }

    /// The inode named `p`.
    pub fn get_tree(&self, p: &OwnedPathId) -> (r: Option<Inode>)
        ensures
            r == tree_of(self.tree@, p@),
    {
        let mut k: usize = 0;
        assert(self.tree@.skip(0) == self.tree@);
        while k < self.tree.len()
            invariant
                0 <= k <= self.tree@.len(),
                tree_of(self.tree@, p@) == tree_of(self.tree@.skip(k as int), p@),
            decreases self.tree.len() - k,
        {
            assert(self.tree@.skip(k as int)[0] == self.tree@[k as int]);
            if path_id_eq(&self.tree[k].0, p) {
                return Some(self.tree[k].1);
            }
            assert(self.tree@.skip(k as int).drop_first() == self.tree@.skip(k + 1));
            k = k + 1;
        }
        None
    }
}

} // verus!

verus! {

/// The internal position of `pos`, whose change is designated by its hash
/// (`None` designating the change being applied, `change_id`, and the hash
/// of the root change designating the root change).
pub open spec fn internal_pos_spec(internal: Seq<(ChangeHash, ChangeId)>, pos: Position<Option<ChangeHash>>, change_id: ChangeId) -> Result<Position<ChangeId>, InconsistentChange> {
    match pos.change {
        Some(ChangeHash::Root) => Ok(Position { change: ChangeId(0), pos: pos.pos }),
        Some(h) => match internal_of(internal, h) {
            Some(c) => Ok(Position { change: c, pos: pos.pos }),
            None => Err(InconsistentChange::UndeclaredDep),
        },
        None => Ok(Position { change: change_id, pos: pos.pos }),
    }
}

pub fn internal_pos(txn: &Txn, pos: &Position<Option<ChangeHash>>, change_id: ChangeId) -> (r: Result<Position<ChangeId>, InconsistentChange>)
    ensures
        r == internal_pos_spec(txn.internal@, *pos, change_id),
{
    match pos.change {
        Some(ChangeHash::Root) => Ok(Position { change: ChangeId(0), pos: pos.pos }),
        Some(h) => match txn.get_internal(&h) {
            Some(c) => Ok(Position { change: c, pos: pos.pos }),
            None => Err(InconsistentChange::UndeclaredDep),
        },
        None => Ok(Position { change: change_id, pos: pos.pos }),
    }
}

} // verus!

verus! {

/// The tables of a transaction are consistent: identifiers are allocated
/// above every registered one (identifier 0 being the root change's).
pub open spec fn txn_wf(t: Txn) -> bool {
    &&& 0 < t.next_id
    &&& forall|i: int| 0 <= i < t.internal@.len() ==> 0 < (#[trigger] t.internal@[i]).1.0 < t.next_id
}

pub proof fn lemma_internal_of_push(t: Seq<(ChangeHash, ChangeId)>, x: (ChangeHash, ChangeId), h: ChangeHash)
    ensures
        internal_of(t.push(x), h) == (if internal_of(t, h) is Some {
            internal_of(t, h)
        } else if x.0 == h {
            Some(x.1)
        } else {
            None
        }),
    decreases t.len(),
{
    if t.len() > 0 {
        assert(t.push(x)[0] == t[0]);
        assert(t.push(x).drop_first() == t.drop_first().push(x));
        lemma_internal_of_push(t.drop_first(), x, h);
    } else {
        assert(t.push(x)[0] == x);
        assert(t.push(x).drop_first().len() == 0);
        assert(internal_of(t.push(x).drop_first(), h) is None);
    }
}

pub proof fn lemma_external_of_push(t: Seq<(ChangeHash, ChangeId)>, x: (ChangeHash, ChangeId), c: ChangeId)
    ensures
        external_of(t.push(x), c) == (if external_of(t, c) is Some {
            external_of(t, c)
        } else if x.1 == c {
            Some(x.0)
        } else {
            None
        }),
    decreases t.len(),
{
    if t.len() > 0 {
        assert(t.push(x)[0] == t[0]);
        assert(t.push(x).drop_first() == t.drop_first().push(x));
        lemma_external_of_push(t.drop_first(), x, c);
    } else {
        assert(t.push(x)[0] == x);
        assert(t.push(x).drop_first().len() == 0);
        assert(external_of(t.push(x).drop_first(), c) is None);
    }
}

/// An identifier that no entry carries has no hash.
pub proof fn lemma_external_of_absent(t: Seq<(ChangeHash, ChangeId)>, c: ChangeId)
    requires
        forall|i: int| 0 <= i < t.len() ==> (#[trigger] t[i]).1 != c,
    ensures
        external_of(t, c) is None,
    decreases t.len(),
{
    if t.len() > 0 {
        assert forall|i: int| 0 <= i < t.drop_first().len() implies (#[trigger] t.drop_first()[i]).1 != c by {
            assert(t.drop_first()[i] == t[i + 1]);
        }
        lemma_external_of_absent(t.drop_first(), c);
        assert(t[0].1 != c);
    }
}

/// The entries of `s` other than `x`.
pub open spec fn without<A>(s: Seq<A>, x: A) -> Seq<A> {
    s.filter(|y: A| y != x)
}

pub proof fn lemma_without_push<A>(s: Seq<A>, a: A, x: A)
    ensures
        without(s.push(a), x) == (if a != x {
            without(s, x).push(a)
        } else {
            without(s, x)
        }),
{
    s.lemma_filter_push(a, |y: A| y != x);
}

pub proof fn lemma_without_prepend<A>(s: Seq<A>, a: A, x: A)
    ensures
        without(seq![a] + s, x) == (if a != x {
            seq![a] + without(s, x)
        } else {
            without(s, x)
        }),
{
    s.lemma_filter_prepend(a, |y: A| y != x);
    assert(Seq::<A>::empty() + without(s, x) == without(s, x));
}

impl Txn {
    /// Records that the inode `inode` is at the inode vertex `pos`, and back.
    pub fn put_inodes_with_rev(&mut self, inode: Inode, pos: Position<ChangeId>)
        ensures
            final(self).inodes@ == old(self).inodes@.push((inode, pos)),
            final(self).revinodes@ == old(self).revinodes@.push((pos, inode)),
            final(self).internal == old(self).internal,
            final(self).next_id == old(self).next_id,
            final(self).dep == old(self).dep,
            final(self).rev_touched == old(self).rev_touched,
            final(self).tree == old(self).tree,
            final(self).revtree == old(self).revtree,
    {
        self.inodes.push((inode, pos));
        self.revinodes.push((pos, inode));
    }

    /// Removes the correspondence between `inode` and `pos`, both ways.
    pub fn del_inodes_with_rev(&mut self, inode: Inode, pos: Position<ChangeId>)
        ensures
            final(self).inodes@ == without(old(self).inodes@, (inode, pos)),
            final(self).revinodes@ == without(old(self).revinodes@, (pos, inode)),
            final(self).internal == old(self).internal,
            final(self).next_id == old(self).next_id,
            final(self).dep == old(self).dep,
            final(self).rev_touched == old(self).rev_touched,
            final(self).tree == old(self).tree,
            final(self).revtree == old(self).revtree,
    {
        let mut kept: Vec<(Inode, Position<ChangeId>)> = Vec::new();
        let mut i: usize = 0;
        while i < self.inodes.len()
            invariant
                0 <= i <= self.inodes@.len(),
                self.inodes@ == old(self).inodes@,
                kept@ == without(self.inodes@.take(i as int), (inode, pos)),
            decreases self.inodes.len() - i,
        {
            assert(self.inodes@.take(i + 1) == self.inodes@.take(i as int).push(self.inodes@[i as int]));
            proof { lemma_without_push(self.inodes@.take(i as int), self.inodes@[i as int], (inode, pos)); }
            let x = self.inodes[i];
            if !(x.0 == inode && x.1 == pos) {
                kept.push(x);
            }
            i = i + 1;
        }
        assert(self.inodes@.take(self.inodes@.len() as int) == self.inodes@);
        self.inodes = kept;
        let mut kept: Vec<(Position<ChangeId>, Inode)> = Vec::new();
        let mut i: usize = 0;
        while i < self.revinodes.len()
            invariant
                0 <= i <= self.revinodes@.len(),
                self.revinodes@ == old(self).revinodes@,
                kept@ == without(self.revinodes@.take(i as int), (pos, inode)),
            decreases self.revinodes.len() - i,
        {
            assert(self.revinodes@.take(i + 1) == self.revinodes@.take(i as int).push(self.revinodes@[i as int]));
            proof { lemma_without_push(self.revinodes@.take(i as int), self.revinodes@[i as int], (pos, inode)); }
            let x = self.revinodes[i];
            if !(x.0 == pos && x.1 == inode) {
                kept.push(x);
            }
            i = i + 1;
        }
        assert(self.revinodes@.take(self.revinodes@.len() as int) == self.revinodes@);
        self.revinodes = kept;
    }

    /// Removes the entry naming `inode` by `path` from the tree.
    pub fn del_tree(&mut self, path: &OwnedPathId, inode: Inode)
        ensures
            tree_view(final(self).tree@) == without(tree_view(old(self).tree@), (path@, inode)),
            final(self).internal == old(self).internal,
            final(self).next_id == old(self).next_id,
            final(self).dep == old(self).dep,
            final(self).rev_touched == old(self).rev_touched,
            final(self).inodes == old(self).inodes,
            final(self).revinodes == old(self).revinodes,
            final(self).revtree == old(self).revtree,
    {
        remove_tree_entry(&mut self.tree, path, inode);
    }

    /// Names `inode` by `path`, in the tree and in the reverse tree.
    pub fn put_tree_with_rev(&mut self, path: &OwnedPathId, inode: Inode)
        ensures
            tree_view(final(self).tree@) == tree_view(old(self).tree@).push((path@, inode)),
            revtree_view(final(self).revtree@) == revtree_view(old(self).revtree@).push((inode, path@)),
            final(self).internal == old(self).internal,
            final(self).next_id == old(self).next_id,
            final(self).dep == old(self).dep,
            final(self).rev_touched == old(self).rev_touched,
            final(self).inodes == old(self).inodes,
            final(self).revinodes == old(self).revinodes,
    {
        let ghost t0 = self.tree@;
        let ghost r0 = self.revtree@;
        self.tree.push((path_id_clone(path), inode));
        self.revtree.push((inode, path_id_clone(path)));
        assert(tree_view(self.tree@) =~= tree_view(t0).push((path@, inode)));
        assert(revtree_view(self.revtree@) =~= revtree_view(r0).push((inode, path@)));
    }

    /// Names `inode` by `path` in the tree only.
    pub fn put_tree(&mut self, path: &OwnedPathId, inode: Inode)
        ensures
            tree_view(final(self).tree@) == tree_view(old(self).tree@).push((path@, inode)),
            final(self).revtree == old(self).revtree,
            final(self).internal == old(self).internal,
            final(self).next_id == old(self).next_id,
            final(self).dep == old(self).dep,
            final(self).rev_touched == old(self).rev_touched,
            final(self).inodes == old(self).inodes,
            final(self).revinodes == old(self).revinodes,
    {
        let ghost t0 = self.tree@;
        self.tree.push((path_id_clone(path), inode));
        assert(tree_view(self.tree@) =~= tree_view(t0).push((path@, inode)));
    }

    /// Removes the name `parent` of `inode`, both from the tree and from the reverse tree.
    pub fn del_tree_with_rev(&mut self, parent: &OwnedPathId, inode: Inode)
        ensures
            tree_view(final(self).tree@) == without(tree_view(old(self).tree@), (parent@, inode)),
            revtree_view(final(self).revtree@) == without(revtree_view(old(self).revtree@), (inode, parent@)),
            final(self).internal == old(self).internal,
            final(self).next_id == old(self).next_id,
            final(self).dep == old(self).dep,
            final(self).rev_touched == old(self).rev_touched,
            final(self).inodes == old(self).inodes,
            final(self).revinodes == old(self).revinodes,
    {
        remove_tree_entry(&mut self.tree, parent, inode);
        remove_revtree_entry(&mut self.revtree, inode, parent);
    }
}

/// The tree table, with names taken by value.
pub open spec fn tree_view(t: Seq<(OwnedPathId, Inode)>) -> Seq<((Inode, Seq<char>), Inode)> {
    t.map_values(|x: (OwnedPathId, Inode)| (x.0@, x.1))
}

/// The reverse tree table, with names taken by value.
pub open spec fn revtree_view(t: Seq<(Inode, OwnedPathId)>) -> Seq<(Inode, (Inode, Seq<char>))> {
    t.map_values(|x: (Inode, OwnedPathId)| (x.0, x.1@))
}

fn remove_tree_entry(t: &mut Vec<(OwnedPathId, Inode)>, path: &OwnedPathId, inode: Inode)
    ensures
        tree_view(final(t)@) == without(tree_view(old(t)@), (path@, inode)),
{
    let mut kept: Vec<(OwnedPathId, Inode)> = Vec::new();
    let mut i: usize = 0;
    while i < t.len()
        invariant
            0 <= i <= t@.len(),
            t@ == old(t)@,
            tree_view(kept@) == without(tree_view(t@.take(i as int)), (path@, inode)),
        decreases t.len() - i,
    {
        let ghost s0 = tree_view(t@.take(i as int));
        assert(tree_view(t@.take(i + 1)) == s0.push((t@[i as int].0@, t@[i as int].1)));
        proof { lemma_without_push(s0, (t@[i as int].0@, t@[i as int].1), (path@, inode)); }
        let x = &t[i];
        if !(path_id_eq(&x.0, path) && x.1 == inode) {
            let ghost k0 = kept@;
            kept.push((path_id_clone(&x.0), x.1));
            assert(tree_view(kept@) == tree_view(k0).push((t@[i as int].0@, t@[i as int].1)));
        }
        i = i + 1;
    }
    assert(t@.take(t@.len() as int) == t@);
    *t = kept;
}

fn remove_revtree_entry(t: &mut Vec<(Inode, OwnedPathId)>, inode: Inode, path: &OwnedPathId)
    ensures
        revtree_view(final(t)@) == without(revtree_view(old(t)@), (inode, path@)),
{
    let mut kept: Vec<(Inode, OwnedPathId)> = Vec::new();
    let mut i: usize = 0;
    while i < t.len()
        invariant
            0 <= i <= t@.len(),
            t@ == old(t)@,
            revtree_view(kept@) == without(revtree_view(t@.take(i as int)), (inode, path@)),
        decreases t.len() - i,
    {
        let ghost s0 = revtree_view(t@.take(i as int));
        assert(revtree_view(t@.take(i + 1)) == s0.push((t@[i as int].0, t@[i as int].1@)));
        proof { lemma_without_push(s0, (t@[i as int].0, t@[i as int].1@), (inode, path@)); }
        let x = &t[i];
        if !(x.0 == inode && path_id_eq(&x.1, path)) {
            let ghost k0 = kept@;
            kept.push((x.0, path_id_clone(&x.1)));
            assert(revtree_view(kept@) == revtree_view(k0).push((t@[i as int].0, t@[i as int].1@)));
        }
        i = i + 1;
    }
    assert(t@.take(t@.len() as int) == t@);
    *t = kept;
}

} // verus!
