//! Outputting the pristine to the working copy: conflicts, the names of
//! files, and the files that are no longer alive.
use vstd::prelude::*;
use vstd::string::*;
use crate::base32::encode_spec;
use crate::graph::{del_graph_with_rev, first_block, forward_edge, remove_all, reverse_edge, Graph};
use crate::path::{file_name, file_name_spec, parent, parent_spec, push, push_spec};
use crate::pristine::{ChangeHash, ChangeId, Edge, Position, Vertex};
use crate::txn::{inode_pos_of, log_position, path_id_clone, revtree_of, tree_view, Channel, Inode, OwnedPathId, Txn};

verus! {

/// A file with conflicts.
#[derive(Debug, PartialEq, Eq, PartialOrd, Ord)]
pub enum Conflict {
    Name { path: String, inodes: Vec<Position<ChangeId>>, changes: Vec<ChangeHash> },
    ZombieFile { path: String, inode: [Position<ChangeId>; 1], changes: Vec<ChangeHash> },
    MultipleNames {
        path: String,
        pos: [Position<ChangeId>; 1],
        names: Vec<Vertex<ChangeId>>,
        changes: Vec<ChangeHash>,
    },
    Zombie { path: String, inode_vertex: [Position<ChangeId>; 1], line: usize, changes: Vec<ChangeHash>, id: usize },
    Cyclic { path: String, inode_vertex: [Position<ChangeId>; 1], line: usize, changes: Vec<ChangeHash>, id: usize },
    Order { path: String, inode_vertex: [Position<ChangeId>; 1], line: usize, changes: Vec<ChangeHash>, id: usize },
}

impl Conflict {
    /// The changes involved in this conflict.
    pub open spec fn spec_changes(&self) -> Seq<ChangeHash> {
        match self {
            Conflict::Name { changes, .. } => changes@,
            Conflict::ZombieFile { changes, .. } => changes@,
            Conflict::MultipleNames { changes, .. } => changes@,
            Conflict::Zombie { changes, .. } => changes@,
            Conflict::Cyclic { changes, .. } => changes@,
            Conflict::Order { changes, .. } => changes@,
        }
    }

    /// The inodes involved in this conflict.
    pub open spec fn spec_inodes(&self) -> Seq<Position<ChangeId>> {
        match self {
            Conflict::Name { inodes, .. } => inodes@,
            Conflict::ZombieFile { inode, .. } => inode@,
            Conflict::MultipleNames { pos, .. } => pos@,
            Conflict::Zombie { inode_vertex, .. } => inode_vertex@,
            Conflict::Cyclic { inode_vertex, .. } => inode_vertex@,
            Conflict::Order { inode_vertex, .. } => inode_vertex@,
        }
    }

    pub fn changes(&self) -> (r: &[ChangeHash])
        ensures
            r@ == self.spec_changes(),
    {
        match self {
            Conflict::Name { changes, .. } => changes.as_slice(),
            Conflict::ZombieFile { changes, .. } => changes.as_slice(),
            Conflict::MultipleNames { changes, .. } => changes.as_slice(),
            Conflict::Zombie { changes, .. } => changes.as_slice(),
            Conflict::Cyclic { changes, .. } => changes.as_slice(),
            Conflict::Order { changes, .. } => changes.as_slice(),
        }
    }

    pub fn inodes(&self) -> (r: &[Position<ChangeId>])
        ensures
            r@ == self.spec_inodes(),
    {
        match self {
            Conflict::Name { inodes, .. } => inodes.as_slice(),
            Conflict::ZombieFile { inode, .. } => inode.as_slice(),
            Conflict::MultipleNames { pos, .. } => pos.as_slice(),
            Conflict::Zombie { inode_vertex, .. } => inode_vertex.as_slice(),
            Conflict::Cyclic { inode_vertex, .. } => inode_vertex.as_slice(),
            Conflict::Order { inode_vertex, .. } => inode_vertex.as_slice(),
        }
    }
}

/// A vertex is alive or a zombie: the root, or the target of a
/// non-deleted parent edge that is not a pseudo-edge of a file, and that is
/// a block edge (or the vertex is empty).
pub open spec fn alive_or_zombie_spec(g: Seq<(Vertex<ChangeId>, Edge)>, a: Vertex<ChangeId>) -> bool {
    a.spec_is_root() || exists|i: int|
        0 <= i < g.len() && #[trigger] g[i].0 == a && g[i].1.flag.parent && !g[i].1.flag.deleted && !(g[i].1.flag.pseudo
            && !g[i].1.flag.folder) && (g[i].1.flag.block || a.spec_is_empty())
}

pub fn is_alive_or_zombie(g: &Graph, a: &Vertex<ChangeId>) -> (r: bool)
    ensures
        r == alive_or_zombie_spec(g@, *a),
{
    if a.is_root() {
        return true;
    }
    let mut i: usize = 0;
    while i < g.edges.len()
        invariant
            0 <= i <= g@.len(),
            !a.spec_is_root(),
            forall|j: int| 0 <= j < i && #[trigger] g@[j].0 == *a ==> !(g@[j].1.flag.parent && !g@[j].1.flag.deleted && !(
            g@[j].1.flag.pseudo && !g@[j].1.flag.folder) && (g@[j].1.flag.block || a.spec_is_empty())),
        decreases g.edges.len() - i,
    {
        let (v, e) = g.edges[i];
        if v == *a && e.flag.parent && !e.flag.deleted && !(e.flag.pseudo && !e.flag.folder) && (e.flag.block
            || a.is_empty()) {
            assert(g@[i as int].0 == *a);
            return true;
        }
        i = i + 1;
    }
    false
}

/// The name given to the file `name` of `name_key` when several files
/// share that name: the change of `name_key` is appended to its base name.
pub open spec fn conflicting_name_spec(name: Seq<char>, name_key: Vertex<ChangeId>) -> Seq<char> {
    push_spec(parent_spec(name), file_name_spec(name).push('.') + encode_spec(name_key.change.0))
}

pub fn make_conflicting_name(name: &str, name_key: Vertex<ChangeId>) -> (r: String)
    ensures
        r@ == conflicting_name_spec(name@, name_key),
{
    let mut p = parent(name);
    let mut base = file_name(name);
    crate::base32::push_char(&mut base, '.');
    let id = name_key.change.to_base32();
    base.append(id.as_str());
    push(&mut p, base.as_str());
    p
}

/// A forward edge that the output of a file found redundant.
#[derive(Clone, Copy, Debug, PartialEq, Eq, Structural)]
pub struct Redundant {
    pub v: Vertex<ChangeId>,
    pub e: Edge,
}

/// Every redundant edge points into a block of the graph.
pub open spec fn redundant_found(g: Seq<(Vertex<ChangeId>, Edge)>, forward: Seq<Redundant>) -> bool {
    forall|k: int| 0 <= k < forward.len() ==> (#[trigger] first_block(g, forward[k].e.dest, false)) is Some
}

/// `x` is one of the redundant edges `forward` of `g`, or its reverse.
pub open spec fn is_redundant_entry(g: Seq<(Vertex<ChangeId>, Edge)>, forward: Seq<Redundant>, x: (Vertex<ChangeId>, Edge)) -> bool {
    exists|k: int| 0 <= k < forward.len() && {
        let dest = first_block(g, (#[trigger] forward[k]).e.dest, false).unwrap();
        ||| x == (forward[k].v, forward_edge(forward[k].e.flag, dest, forward[k].e.introduced_by))
        ||| x == (dest, reverse_edge(forward[k].e.flag, forward[k].v, forward[k].e.introduced_by))
    }
}

/// Deletes the redundant forward edges (and their reverses) from the
/// graph of `channel`.
pub fn del_redundant(channel: &mut Channel, forward: &Vec<Redundant>)
    requires
        redundant_found(old(channel).graph@, forward@),
    ensures
        crate::graph::sub_graph(final(channel).graph@, old(channel).graph@),
        forall|k: int| 0 <= k < forward@.len() ==> !final(channel).graph@.contains(
            (
                (#[trigger] forward@[k]).v,
                forward_edge(forward@[k].e.flag, first_block(old(channel).graph@, forward@[k].e.dest, false).unwrap(), forward@[k].e.introduced_by),
            ),
        ),
        forall|x: (Vertex<ChangeId>, Edge)| old(channel).graph@.contains(x) && !is_redundant_entry(old(channel).graph@, forward@, x)
            ==> #[trigger] final(channel).graph@.contains(x),
        final(channel).log == old(channel).log,
        final(channel).name == old(channel).name,
{
    let mut dests: Vec<Vertex<ChangeId>> = Vec::new();
    let mut k: usize = 0;
    while k < forward.len()
        invariant
            0 <= k <= forward@.len(),
            dests@.len() == k,
            channel.graph@ == old(channel).graph@,
            forall|j: int| 0 <= j < forward@.len() ==> (#[trigger] first_block(old(channel).graph@, forward@[j].e.dest, false)) is Some,
            forall|j: int| 0 <= j < k ==> first_block(old(channel).graph@, forward@[j].e.dest, false) == Some(#[trigger] dests@[j]),
        decreases forward.len() - k,
    {
        assert(first_block(old(channel).graph@, forward@[k as int].e.dest, false) is Some);
        match channel.graph.find_block(forward[k].e.dest) {
            Ok(v) => dests.push(v),
            Err(_) => {
                assert(false);
                return;
            },
        }
        k = k + 1;
    }
    let mut i: usize = 0;
    while i < forward.len()
        invariant
            0 <= i <= forward@.len(),
            dests@.len() == forward@.len(),
            forall|j: int| 0 <= j < forward@.len() ==> first_block(old(channel).graph@, forward@[j].e.dest, false) == Some(#[trigger] dests@[j]),
            crate::graph::sub_graph(channel.graph@, old(channel).graph@),
            forall|j: int| 0 <= j < i ==> !channel.graph@.contains(
                ((#[trigger] forward@[j]).v, forward_edge(forward@[j].e.flag, dests@[j], forward@[j].e.introduced_by)),
            ),
            channel.log == old(channel).log,
            channel.name == old(channel).name,
            forall|x: (Vertex<ChangeId>, Edge)| old(channel).graph@.contains(x) && !is_redundant_entry(old(channel).graph@, forward@, x)
                ==> #[trigger] channel.graph@.contains(x),
        decreases forward.len() - i,
    {
        let ve = forward[i];
        let dest = dests[i];
        let ghost g0 = channel.graph@;
        del_graph_with_rev(&mut channel.graph, ve.e.flag, ve.v, dest, ve.e.introduced_by);
        proof {
            let x = (ve.v, forward_edge(ve.e.flag, dest, ve.e.introduced_by));
            let y = (dest, reverse_edge(ve.e.flag, ve.v, ve.e.introduced_by));
            assert forall|z: (Vertex<ChangeId>, Edge)| old(channel).graph@.contains(z) && !is_redundant_entry(old(channel).graph@, forward@, z)
                implies #[trigger] channel.graph@.contains(z) by {
                assert(forward@[i as int] == ve);
                if z == x || z == y {
                    assert(is_redundant_entry(old(channel).graph@, forward@, z));
                }
                crate::graph::lemma_remove_all_contains(g0, x, z);
                crate::graph::lemma_remove_all_contains(remove_all(g0, x), y, z);
            }
        }
        proof {
            let x = (ve.v, forward_edge(ve.e.flag, dest, ve.e.introduced_by));
            let y = (dest, reverse_edge(ve.e.flag, ve.v, ve.e.introduced_by));
            crate::graph::lemma_remove_all_sub(g0, x);
            crate::graph::lemma_remove_all_sub(remove_all(g0, x), y);
            assert forall|j: int| 0 <= j < i + 1 implies !channel.graph@.contains(
                ((#[trigger] forward@[j]).v, forward_edge(forward@[j].e.flag, dests@[j], forward@[j].e.introduced_by)),
            ) by {
                if j < i {
                    if channel.graph@.contains((forward@[j].v, forward_edge(forward@[j].e.flag, dests@[j], forward@[j].e.introduced_by))) {
                        assert(remove_all(g0, x).contains((forward@[j].v, forward_edge(forward@[j].e.flag, dests@[j], forward@[j].e.introduced_by))));
                    }
                } else {
                    assert(!remove_all(g0, x).contains(x));
                }
            }
        }
        i = i + 1;
    }
    assert forall|j: int| 0 <= j < forward@.len() implies !channel.graph@.contains(
        (
            (#[trigger] forward@[j]).v,
            forward_edge(forward@[j].e.flag, first_block(old(channel).graph@, forward@[j].e.dest, false).unwrap(), forward@[j].e.introduced_by),
        ),
    ) by {
        assert(first_block(old(channel).graph@, forward@[j].e.dest, false) == Some(dests@[j]));
    }
}

/// The end of an output of `channel` without a pending change, once the
/// working copy has been written: the output step found the `conflicts` and
/// the redundant edges `forward`. The redundant edges are deleted from the
/// graph, as `del_redundant` does, and the conflicts are returned.
pub fn output_repository_no_pending(channel: &mut Channel, conflicts: Vec<Conflict>, forward: &Vec<Redundant>) -> (r: Vec<Conflict>)
    requires
        redundant_found(old(channel).graph@, forward@),
    ensures
        r@ == conflicts@,
        crate::graph::sub_graph(final(channel).graph@, old(channel).graph@),
        forall|k: int| 0 <= k < forward@.len() ==> !final(channel).graph@.contains(
            (
                (#[trigger] forward@[k]).v,
                forward_edge(forward@[k].e.flag, first_block(old(channel).graph@, forward@[k].e.dest, false).unwrap(), forward@[k].e.introduced_by),
            ),
        ),
        forall|x: (Vertex<ChangeId>, Edge)| old(channel).graph@.contains(x) && !is_redundant_entry(old(channel).graph@, forward@, x)
            ==> #[trigger] final(channel).graph@.contains(x),
        final(channel).log == old(channel).log,
        final(channel).name == old(channel).name,
{
    del_redundant(channel, forward);
    conflicts
}

/// The names of a map from inodes to names, taken by value.
pub open spec fn names_view(t: Seq<(Inode, String)>) -> Seq<(Inode, Seq<char>)> {
    t.map_values(|x: (Inode, String)| (x.0, x.1@))
}

/// The name of `i` in a map from inodes to names (the first entry).
pub open spec fn name_of(t: Seq<(Inode, Seq<char>)>, i: Inode) -> Option<Seq<char>>
    decreases t.len(),
{
    if t.len() == 0 {
        None
    } else if t[0].0 == i {
        Some(t[0].1)
    } else {
        name_of(t.drop_first(), i)
    }
}

/// The components of the path of `cur`, innermost first: its name in
/// `tmp` if it has one there, else its base name in the reverse tree,
/// followed by the components of its parent, up to the root. `fuel` bounds
/// the number of steps.
pub open spec fn components(rt: Seq<(Inode, OwnedPathId)>, tmp: Seq<(Inode, Seq<char>)>, cur: Inode, fuel: nat) -> Option<
    Seq<Seq<char>>,
>
    decreases fuel,
{
    if fuel == 0 {
        None
    } else {
        match name_of(tmp, cur) {
            Some(t) => Some(seq![t]),
            None => match revtree_of(rt, cur) {
                Some(p) => if p.0 == Inode(0) {
                    Some(seq![p.1])
                } else {
                    match components(rt, tmp, p.0, (fuel - 1) as nat) {
                        Some(cs) => Some(seq![p.1] + cs),
                        None => None,
                    }
                },
                None => None,
            },
        }
    }
}

/// The path made of components given innermost first.
pub open spec fn join_components(cs: Seq<Seq<char>>) -> Seq<char>
    decreases cs.len(),
{
    if cs.len() == 0 {
        Seq::empty()
    } else {
        push_spec(join_components(cs.drop_first()), cs[0])
    }
}

/// The current path of `inode` in the working copy, where the inodes of
/// `tmp` are at the given temporary names. `None` if the inode has no name,
/// or if its names do not lead to the root in fewer steps than there are
/// names.
pub open spec fn inode_filename_spec(txn: Txn, inode: Inode, tmp: Seq<(Inode, String)>) -> Option<Seq<char>> {
    match components(txn.revtree@, names_view(tmp), inode, (txn.revtree@.len() + 1) as nat) {
        Some(cs) => Some(join_components(cs)),
        None => None,
    }
}

fn tmp_name(tmp: &Vec<(Inode, String)>, i: Inode) -> (r: Option<String>)
    ensures
        match name_of(names_view(tmp@), i) {
            Some(n) => r is Some && r.unwrap()@ == n,
            None => r is None,
        },
{
    let ghost t = names_view(tmp@);
    let mut k: usize = 0;
    assert(t.skip(0) == t);
    while k < tmp.len()
        invariant
            0 <= k <= tmp@.len(),
            t == names_view(tmp@),
            name_of(t, i) == name_of(t.skip(k as int), i),
        decreases tmp.len() - k,
    {
        assert(t.skip(k as int)[0] == t[k as int]);
        if tmp[k].0 == i {
            return Some(tmp[k].1.clone());
        }
        assert(t.skip(k as int).drop_first() == t.skip(k + 1));
        k = k + 1;
    }
    None
}

pub fn inode_filename(txn: &Txn, inode: Inode, tmp: &Vec<(Inode, String)>) -> (r: Option<String>)
    ensures
        match inode_filename_spec(*txn, inode, tmp@) {
            Some(p) => r is Some && r.unwrap()@ == p,
            None => r is None,
        },
{
    let ghost rt = txn.revtree@;
    let ghost tv = names_view(tmp@);
    let ghost total = components(rt, tv, inode, (rt.len() + 1) as nat);
    let mut comps: Vec<String> = Vec::new();
    let mut current = inode;
    let mut fuel: usize = txn.revtree.len();
    loop
        invariant_except_break
            fuel <= rt.len(),
            rt == txn.revtree@,
            tv == names_view(tmp@),
            total == components(rt, tv, inode, (rt.len() + 1) as nat),
            total == match components(rt, tv, current, (fuel + 1) as nat) {
                Some(cs) => Some(comps@.map_values(|c: String| c@) + cs),
                None => None::<Seq<Seq<char>>>,
            },
        ensures
            total == Some(comps@.map_values(|c: String| c@)),
        decreases fuel,
    {
        let ghost before = comps@.map_values(|c: String| c@);
        match tmp_name(tmp, current) {
            Some(t) => {
                comps.push(t);
                assert(comps@.map_values(|c: String| c@) == before + seq![t@]);
                break;
            },
            None => {},
        }
        match txn.get_revtree(current) {
            Some(v) => {
                let parent_inode = v.parent_inode;
                comps.push(v.basename);
                assert(comps@.map_values(|c: String| c@) == before + seq![v@.1]);
                current = parent_inode;
                if current.0 == 0 {
                    break;
                }
            },
            None => {
                return None;
            },
        }
        if fuel == 0 {
            return None;
        }
        proof {
            let now = comps@.map_values(|c: String| c@);
            if let Some(cs) = components(rt, tv, current, fuel as nat) {
                assert(before + (seq![now.last()] + cs) =~= now + cs);
            }
        }
        fuel = fuel - 1;
    }
    let mut path = String::new();
    let ghost cs = comps@.map_values(|c: String| c@);
    let mut i: usize = comps.len();
    assert(cs.skip(cs.len() as int) == Seq::<Seq<char>>::empty());
    while i > 0
        invariant
            0 <= i <= comps@.len(),
            cs == comps@.map_values(|c: String| c@),
            path@ == join_components(cs.skip(i as int)),
        decreases i,
    {
        assert(cs.skip(i - 1).drop_first() == cs.skip(i as int));
        assert(cs.skip(i - 1)[0] == comps@[i - 1]@);
        push(&mut path, comps[i - 1].as_str());
        i = i - 1;
    }
    assert(cs.skip(0) == cs);
    Some(path)
}

/// The application number, on the channel of log `log`, of the change of `v`,
/// counted from one; zero where that change is not on the channel, so that
/// such names come first.
pub open spec fn rank(log: Seq<(ChangeId, ChangeHash, crate::txn::Merkle)>, v: Vertex<ChangeId>) -> int {
    match log_position(log, v.change) {
        Some(k) => k + 1,
        None => 0,
    }
}

/// The names `b` are ordered by the application number of their changes.
pub open spec fn sorted_by_rank<T>(log: Seq<(ChangeId, ChangeHash, crate::txn::Merkle)>, b: Seq<(Vertex<ChangeId>, T)>) -> bool {
    forall|i: int, j: int| 0 <= i < j < b.len() ==> rank(log, #[trigger] b[i].0) <= rank(log, #[trigger] b[j].0)
}

/// The application number of the change of `v` on `channel`.
fn rank_of(channel: &Channel, v: &Vertex<ChangeId>) -> (r: u64)
    ensures
        r == rank(channel.log@, *v),
{
    proof { crate::txn::lemma_log_position(channel.log@, v.change); }
    let len = channel.log.len();
    assert(len as int == channel.log@.len());
    match channel.get_changeset(v.change) {
        Some(k) => k + 1,
        None => 0,
    }
}

/// Sorts the candidates for one name by the application number of the
/// change of their name vertex, oldest first.
pub fn sort_conflicting_names<T>(channel: &Channel, b: &mut Vec<(Vertex<ChangeId>, T)>)
    ensures
        final(b)@.to_multiset() == old(b)@.to_multiset(),
        final(b)@.len() == old(b)@.len(),
        sorted_by_rank(channel.log@, final(b)@),
{
    broadcast use vstd::seq_lib::group_to_multiset_ensures;
    let n = b.len();
    if n == 0 {
        return;
    }
    let mut i: usize = 1;
    while i < n
        invariant
            1 <= i <= n,
            b@.len() == n,
            b@.to_multiset() == old(b)@.to_multiset(),
            forall|x: int, y: int| 0 <= x < y < i ==> rank(channel.log@, #[trigger] b@[x].0) <= rank(channel.log@, #[trigger] b@[y].0),
        decreases n - i,
    {
        let ghost b0 = b@;
        let x = b.remove(i);
        proof {
            vstd::seq_lib::to_multiset_remove(b0, i as int);
        }
        assert(x == b0[i as int]);
        let kx = rank_of(channel, &x.0);
        let mut j: usize = i;
        while j > 0 && rank_of(channel, &b[j - 1].0) > kx
            invariant
                0 <= j <= i,
                i < n,
                b@.len() == n - 1,
                b@ == b0.remove(i as int),
                kx == rank(channel.log@, x.0),
                forall|p: int, q: int| 0 <= p < q < i ==> rank(channel.log@, #[trigger] b@[p].0) <= rank(channel.log@, #[trigger] b@[q].0),
                forall|k: int| j <= k < i ==> rank(channel.log@, #[trigger] b@[k].0) > kx,
            decreases j,
        {
            j = j - 1;
        }
        let ghost b1 = b@;
        b.insert(j, x);
        proof {
            vstd::seq_lib::to_multiset_insert(b1, j as int, x);
            vstd::seq_lib::to_multiset_contains(b0, x);
            assert(b0.contains(x)) by {
                assert(b0[i as int] == x);
            }
            broadcast use vstd::multiset::group_multiset_axioms;
            assert(b@.to_multiset() =~= b0.to_multiset());
            assert forall|p: int, q: int| 0 <= p < q < i + 1 implies rank(channel.log@, #[trigger] b@[p].0) <= rank(channel.log@, #[trigger] b@[q].0) by {
                if q < j {
                    assert(b@[p] == b1[p] && b@[q] == b1[q]);
                } else if q == j {
                    assert(b@[p] == b1[p] && b@[q] == x);
                    assert(rank(channel.log@, b1[j - 1].0) <= kx);
                    if p < j - 1 {
                        assert(rank(channel.log@, b1[p].0) <= rank(channel.log@, b1[j - 1].0));
                    }
                } else if p < j {
                    assert(b@[p] == b1[p] && b@[q] == b1[q - 1]);
                } else if p == j {
                    assert(b@[p] == x && b@[q] == b1[q - 1]);
                    assert(rank(channel.log@, b1[q - 1].0) > kx);
                } else {
                    assert(b@[p] == b1[p - 1] && b@[q] == b1[q - 1]);
                }
            }
        }
        i = i + 1;
    }
}

/// The inodes of the tree, and `start`.
pub open spec fn tree_inodes(txn: Txn, start: Inode) -> Set<Inode> {
    tree_view(txn.tree@).map_values(|x: ((Inode, Seq<char>), Inode)| x.1).to_set().insert(start)
}

/// The tree entry `e` names a file that is dead on its own: it is not a
/// directory marker, and its inode has no inode vertex, or one that is
/// neither in the pending change nor alive or a zombie in `g`.
pub open spec fn dead_on_its_own(txn: Txn, g: Seq<(Vertex<ChangeId>, Edge)>, pending: ChangeId, e: ((Inode, Seq<char>), Inode)) -> bool {
    e.0.1.len() > 0 && match inode_pos_of(txn.inodes@, e.1) {
        Some(v) => v.change != pending && !alive_or_zombie_spec(g, v.spec_inode_vertex()),
        None => true,
    }
}

/// `dead` lists the tree entry `e`.
pub open spec fn lists_entry(dead: Seq<(OwnedPathId, Inode, Option<String>)>, e: ((Inode, Seq<char>), Inode)) -> bool {
    exists|k: int| 0 <= k < dead.len() && (#[trigger] dead[k]).0@ == e.0 && dead[k].1 == e.1
}

/// The directories `s` (each with whether it is dead) are the ones that
/// the search of dead files below `inode` expands: `inode` (alive) is one
/// of them, each subdirectory of one of them is one of them, the dead
/// files are the entries of these directories that are dead on their own
/// or in a dead directory, and only those.
pub open spec fn dead_files_of(
    txn: Txn,
    g: Seq<(Vertex<ChangeId>, Edge)>,
    pending: ChangeId,
    inode: Inode,
    s: Set<(Inode, bool)>,
    dead: Seq<(OwnedPathId, Inode, Option<String>)>,
) -> bool {
    let tv = tree_view(txn.tree@);
    &&& s.contains((inode, false))
    &&& forall|d: Inode, pd: bool, j: int| #[trigger] s.contains((d, pd)) && 0 <= j < tv.len() && (#[trigger] tv[j]).0.0 == d && tv[j].1 != d
        ==> exists|b: bool| #[trigger] s.contains((tv[j].1, b))
    &&& forall|d: Inode, pd: bool, j: int| #[trigger] s.contains((d, pd)) && 0 <= j < tv.len() && (#[trigger] tv[j]).0.0 == d && (pd
        || dead_on_its_own(txn, g, pending, tv[j])) ==> lists_entry(dead, tv[j])
    &&& forall|k: int| 0 <= k < dead.len() ==> dead_in(txn, g, pending, s, ((#[trigger] dead[k]).0@, dead[k].1))
}

/// The entry `e` is in a directory of `s`, and dead on its own or in a
/// dead directory.
pub open spec fn dead_in(
    txn: Txn,
    g: Seq<(Vertex<ChangeId>, Edge)>,
    pending: ChangeId,
    s: Set<(Inode, bool)>,
    e: ((Inode, Seq<char>), Inode),
) -> bool {
    exists|pd: bool| #[trigger] s.contains((e.0.0, pd)) && (pd || dead_on_its_own(txn, g, pending, e))
}

/// The dead files of the tree below `inode`: the entries that are dead on
/// their own, and every entry below a dead one. Each comes with its current
/// name in the working copy (see [inode_filename]). Each directory is
/// expanded once.
pub fn collect_dead_files(
    txn: &Txn,
    g: &Graph,
    move_map: &Vec<(Inode, String)>,
    pending_change_id: ChangeId,
    inode: Inode,
) -> (r: Vec<(OwnedPathId, Inode, Option<String>)>)
    ensures
        forall|k: int| 0 <= k < r@.len() ==> tree_view(txn.tree@).contains(((#[trigger] r@[k]).0@, r@[k].1)),
        forall|k: int| 0 <= k < r@.len() ==> match (#[trigger] r@[k]).2 {
            Some(n) => inode_filename_spec(*txn, r@[k].1, move_map@) == Some(n@),
            None => inode_filename_spec(*txn, r@[k].1, move_map@) is None,
        },
        exists|s: Set<(Inode, bool)>| dead_files_of(*txn, g@, pending_change_id, inode, s, r@),
{
    let ghost u = tree_inodes(*txn, inode);
    let ghost tv = tree_view(txn.tree@);
    proof {
        vstd::seq_lib::seq_to_set_is_finite(tv.map_values(|x: ((Inode, Seq<char>), Inode)| x.1));
    }
    let mut dead: Vec<(OwnedPathId, Inode, Option<String>)> = Vec::new();
    let mut stack: Vec<(Inode, bool)> = Vec::new();
    stack.push((inode, false));
    let mut visited: Vec<Inode> = Vec::new();
    let ghost mut expanded: Set<(Inode, bool)> = Set::empty();
    while stack.len() > 0
        invariant
            u == tree_inodes(*txn, inode),
            tv == tree_view(txn.tree@),
            u.finite(),
            forall|k: int| 0 <= k < stack@.len() ==> u.contains(#[trigger] stack@[k].0),
            visited@.no_duplicates(),
            forall|k: int| 0 <= k < visited@.len() ==> u.contains(#[trigger] visited@[k]),
            visited@.len() <= u.len(),
            forall|k: int| 0 <= k < dead@.len() ==> tv.contains(((#[trigger] dead@[k]).0@, dead@[k].1)),
            forall|k: int| 0 <= k < dead@.len() ==> match (#[trigger] dead@[k]).2 {
                Some(n) => inode_filename_spec(*txn, dead@[k].1, move_map@) == Some(n@),
                None => inode_filename_spec(*txn, dead@[k].1, move_map@) is None,
            },
            forall|d: Inode, pd: bool| #[trigger] expanded.contains((d, pd)) ==> visited@.contains(d),
            forall|v: Inode| #[trigger] visited@.contains(v) ==> exists|b: bool| #[trigger] expanded.contains((v, b)),
            expanded.contains((inode, false)) || (stack@.len() == 1 && stack@[0] == (inode, false) && visited@.len() == 0),
            forall|d: Inode, pd: bool, j: int| #[trigger] expanded.contains((d, pd)) && 0 <= j < tv.len() && (#[trigger] tv[j]).0.0 == d && tv[j].1 != d
                ==> (exists|b: bool| #[trigger] expanded.contains((tv[j].1, b))) || exists|q: int| 0 <= q < stack@.len() && (#[trigger] stack@[q]).0 == tv[j].1,
            forall|d: Inode, pd: bool, j: int| #[trigger] expanded.contains((d, pd)) && 0 <= j < tv.len() && (#[trigger] tv[j]).0.0 == d && (pd
                || dead_on_its_own(*txn, g@, pending_change_id, tv[j])) ==> lists_entry(dead@, tv[j]),
            forall|k: int| 0 <= k < dead@.len() ==> dead_in(*txn, g@, pending_change_id, expanded, ((#[trigger] dead@[k]).0@, dead@[k].1)),
        decreases u.len() - visited@.len(), stack@.len(),
    {
        let ghost s0 = stack@;
        let (cur, parent_is_dead) = stack.pop().unwrap();
        proof {
            assert(stack@ == s0.drop_last());
            assert((cur, parent_is_dead) == s0[s0.len() - 1]);
        }
        if crate::output::inode_in(&visited, cur) {
            proof {
                assert forall|d: Inode, pd: bool, j: int| #[trigger] expanded.contains((d, pd)) && 0 <= j < tv.len() && (#[trigger] tv[j]).0.0 == d && tv[j].1 != d
                    implies (exists|b: bool| #[trigger] expanded.contains((tv[j].1, b))) || exists|q: int| 0 <= q < stack@.len() && (#[trigger] stack@[q]).0 == tv[j].1 by {
                    if !(exists|b: bool| #[trigger] expanded.contains((tv[j].1, b))) {
                        let q = choose|q: int| 0 <= q < s0.len() && (#[trigger] s0[q]).0 == tv[j].1;
                        if q == s0.len() - 1 {
                            assert(visited@.contains(cur));
                        } else {
                            assert(stack@[q] == s0[q]);
                        }
                    }
                }
                assert(expanded.contains((inode, false)));
            }
            continue;
        }
        let ghost v0 = visited@;
        let ghost e0 = expanded;
        let ghost d0 = dead@;
        visited.push(cur);
        proof {
            expanded = expanded.insert((cur, parent_is_dead));
            assert(visited@.no_duplicates()) by {
                assert forall|a: int, b: int| 0 <= a < b < visited@.len() implies visited@[a] != visited@[b] by {
                    if b == visited@.len() - 1 {
                        assert(v0[a] == visited@[a]);
                    }
                }
            }
            visited@.unique_seq_to_set();
            assert(visited@.to_set().subset_of(u)) by {
                assert forall|x: Inode| visited@.to_set().contains(x) implies u.contains(x) by {
                    let k = choose|k: int| 0 <= k < visited@.len() && visited@[k] == x;
                    assert(u.contains(visited@[k]));
                }
            }
            vstd::set_lib::lemma_len_subset(visited@.to_set(), u);
            assert forall|x: Inode| v0.contains(x) implies visited@.contains(x) by {
                let k = choose|k: int| 0 <= k < v0.len() && v0[k] == x;
                assert(visited@[k] == x);
            }
            assert(visited@[visited@.len() - 1] == cur);
            assert forall|d: Inode, pd: bool| #[trigger] expanded.contains((d, pd)) implies visited@.contains(d) by {
                if (d, pd) != (cur, parent_is_dead) {
                    assert(e0.contains((d, pd)));
                }
            }
            assert forall|v: Inode| #[trigger] visited@.contains(v) implies exists|b: bool| #[trigger] expanded.contains((v, b)) by {
                if v == cur {
                    assert(expanded.contains((cur, parent_is_dead)));
                } else {
                    let k = choose|k: int| 0 <= k < visited@.len() && visited@[k] == v;
                    assert(k < v0.len());
                    assert(v0[k] == v);
                    assert(v0.contains(v));
                    let b = choose|b: bool| #[trigger] e0.contains((v, b));
                    assert(expanded.contains((v, b)));
                }
            }
        }
        proof {
            assert forall|k: int| 0 <= k < dead@.len() implies dead_in(*txn, g@, pending_change_id, expanded, ((#[trigger] dead@[k]).0@, dead@[k].1)) by {
                let e = (dead@[k].0@, dead@[k].1);
                let pd = choose|pd: bool| #[trigger] e0.contains((e.0.0, pd)) && (pd || dead_on_its_own(*txn, g@, pending_change_id, e));
                assert(expanded.contains((e.0.0, pd)));
            }
        }
        let ghost base = stack@;
        let mut i: usize = 0;
        while i < txn.tree.len()
            invariant
                0 <= i <= txn.tree@.len(),
                u == tree_inodes(*txn, inode),
                tv == tree_view(txn.tree@),
                forall|k: int| 0 <= k < stack@.len() ==> u.contains(#[trigger] stack@[k].0),
                forall|k: int| 0 <= k < dead@.len() ==> tv.contains(((#[trigger] dead@[k]).0@, dead@[k].1)),
                forall|k: int| 0 <= k < dead@.len() ==> match (#[trigger] dead@[k]).2 {
                    Some(n) => inode_filename_spec(*txn, dead@[k].1, move_map@) == Some(n@),
                    None => inode_filename_spec(*txn, dead@[k].1, move_map@) is None,
                },
                base.len() <= stack@.len(),
                forall|q: int| 0 <= q < base.len() ==> #[trigger] stack@[q] == base[q],
                d0.len() <= dead@.len(),
                forall|k: int| 0 <= k < d0.len() ==> #[trigger] dead@[k] == d0[k],
                expanded.contains((cur, parent_is_dead)),
                forall|j: int| 0 <= j < i && (#[trigger] tv[j]).0.0 == cur && tv[j].1 != cur ==> exists|q: int| 0 <= q < stack@.len()
                    && (#[trigger] stack@[q]).0 == tv[j].1,
                forall|j: int| 0 <= j < i && (#[trigger] tv[j]).0.0 == cur && (parent_is_dead || dead_on_its_own(*txn, g@, pending_change_id, tv[j]))
                    ==> lists_entry(dead@, tv[j]),
                forall|k: int| 0 <= k < dead@.len() ==> dead_in(*txn, g@, pending_change_id, expanded, ((#[trigger] dead@[k]).0@, dead@[k].1)),
            decreases txn.tree.len() - i,
        {
            let (id, child) = (&txn.tree[i].0, txn.tree[i].1);
            assert(tv[i as int] == (txn.tree@[i as int].0@, txn.tree@[i as int].1));
            assert(tv.contains((id@, child)));
            let ghost st0 = stack@;
            let ghost dd0 = dead@;
            if id.parent_inode == cur {
                let is_dead = parent_is_dead || (id.basename.unicode_len() > 0 && match txn.get_inodes(child) {
                    Some(vertex) => vertex.change != pending_change_id && !is_alive_or_zombie(g, &vertex.inode_vertex()),
                    None => true,
                });
                assert(is_dead == (parent_is_dead || dead_on_its_own(*txn, g@, pending_change_id, tv[i as int])));
                if is_dead {
                    let name = inode_filename(txn, child, move_map);
                    dead.push((path_id_clone(id), child, name));
                    assert(dead@[dead@.len() - 1].0@ == tv[i as int].0 && dead@[dead@.len() - 1].1 == tv[i as int].1);
                }
                if child != cur {
                    assert(u.contains(child)) by {
                        let s = tv.map_values(|x: ((Inode, Seq<char>), Inode)| x.1);
                        assert(s[i as int] == child);
                        assert(s.contains(child));
                    }
                    stack.push((child, is_dead));
                    assert(stack@[stack@.len() - 1].0 == child);
                }
            }
            proof {
                assert forall|j: int| 0 <= j < i + 1 && (#[trigger] tv[j]).0.0 == cur && tv[j].1 != cur implies exists|q: int| 0 <= q < stack@.len()
                    && (#[trigger] stack@[q]).0 == tv[j].1 by {
                    if j < i {
                        let q = choose|q: int| 0 <= q < st0.len() && (#[trigger] st0[q]).0 == tv[j].1;
                        assert(stack@[q] == st0[q]);
                    } else {
                        assert(stack@[stack@.len() - 1].0 == child);
                    }
                }
                assert forall|j: int| 0 <= j < i + 1 && (#[trigger] tv[j]).0.0 == cur && (parent_is_dead || dead_on_its_own(*txn, g@, pending_change_id, tv[j]))
                    implies lists_entry(dead@, tv[j]) by {
                    if j < i {
                        let k = choose|k: int| 0 <= k < dd0.len() && (#[trigger] dd0[k]).0@ == tv[j].0 && dd0[k].1 == tv[j].1;
                        assert(dead@[k] == dd0[k]);
                    } else {
                        assert(dead@[dead@.len() - 1].0@ == tv[j].0 && dead@[dead@.len() - 1].1 == tv[j].1);
                    }
                }
                assert forall|k: int| 0 <= k < dead@.len() implies dead_in(*txn, g@, pending_change_id, expanded, ((#[trigger] dead@[k]).0@, dead@[k].1)) by {
                    if k < dd0.len() {
                        assert(dead@[k] == dd0[k]);
                    } else {
                        assert(tv[i as int] == (dead@[k].0@, dead@[k].1));
                        assert(expanded.contains((tv[i as int].0.0, parent_is_dead)));
                    }
                }
                assert forall|q: int| 0 <= q < base.len() implies #[trigger] stack@[q] == base[q] by {
                    assert(stack@[q] == st0[q]);
                }
                assert forall|k: int| 0 <= k < d0.len() implies #[trigger] dead@[k] == d0[k] by {
                    assert(dead@[k] == dd0[k]);
                }
            }
            i = i + 1;
        }
        proof {
            assert forall|d: Inode, pd: bool, j: int| #[trigger] expanded.contains((d, pd)) && 0 <= j < tv.len() && (#[trigger] tv[j]).0.0 == d && tv[j].1 != d
                implies (exists|b: bool| #[trigger] expanded.contains((tv[j].1, b))) || exists|q: int| 0 <= q < stack@.len() && (#[trigger] stack@[q]).0 == tv[j].1 by {
                if (d, pd) != (cur, parent_is_dead) {
                    assert(e0.contains((d, pd)));
                    if !(exists|b: bool| #[trigger] e0.contains((tv[j].1, b))) {
                        let q = choose|q: int| 0 <= q < s0.len() && (#[trigger] s0[q]).0 == tv[j].1;
                        if q == s0.len() - 1 {
                            assert(expanded.contains((cur, parent_is_dead)));
                        } else {
                            assert(stack@[q] == base[q]);
                        }
                    } else {
                        let b = choose|b: bool| #[trigger] e0.contains((tv[j].1, b));
                        assert(expanded.contains((tv[j].1, b)));
                    }
                }
            }
            assert forall|d: Inode, pd: bool, j: int| #[trigger] expanded.contains((d, pd)) && 0 <= j < tv.len() && (#[trigger] tv[j]).0.0 == d && (pd
                || dead_on_its_own(*txn, g@, pending_change_id, tv[j])) implies lists_entry(dead@, tv[j]) by {
                if (d, pd) != (cur, parent_is_dead) {
                    assert(e0.contains((d, pd)));
                    let k = choose|k: int| 0 <= k < d0.len() && (#[trigger] d0[k]).0@ == tv[j].0 && d0[k].1 == tv[j].1;
                    assert(dead@[k] == d0[k]);
                }
            }
            if !e0.contains((inode, false)) {
                assert((cur, parent_is_dead) == (inode, false));
            }
        }
    }
    assert(dead_files_of(*txn, g@, pending_change_id, inode, expanded, dead@));
    dead
}

fn inode_in(v: &Vec<Inode>, x: Inode) -> (r: bool)
    ensures
        r == v@.contains(x),
{
    let mut i: usize = 0;
    while i < v.len()
        invariant
            0 <= i <= v@.len(),
            forall|j: int| 0 <= j < i ==> v@[j] != x,
        decreases v.len() - i,
    {
        if v[i] == x {
            assert(v@[i as int] == x);
            return true;
        }
        i = i + 1;
    }
    false
}

/// Sorts paths by decreasing length, so that the files of a directory come
/// before the directory.
fn sort_longest_first(b: &mut Vec<String>)
    ensures
        final(b)@.len() == old(b)@.len(),
        final(b)@.to_multiset() == old(b)@.to_multiset(),
        forall|i: int, j: int| 0 <= i < j < final(b)@.len() ==> (#[trigger] final(b)@[i])@.len() >= (#[trigger] final(b)@[j])@.len(),
{
    broadcast use vstd::seq_lib::group_to_multiset_ensures;
    let n = b.len();
    if n == 0 {
        return;
    }
    let mut i: usize = 1;
    while i < n
        invariant
            1 <= i <= n,
            b@.len() == n,
            b@.to_multiset() == old(b)@.to_multiset(),
            forall|x: int, y: int| 0 <= x < y < i ==> (#[trigger] b@[x])@.len() >= (#[trigger] b@[y])@.len(),
        decreases n - i,
    {
        let ghost b0 = b@;
        let x = b.remove(i);
        proof {
            vstd::seq_lib::to_multiset_remove(b0, i as int);
        }
        assert(x == b0[i as int]);
        let kx = x.unicode_len();
        let mut j: usize = i;
        while j > 0 && b[j - 1].unicode_len() < kx
            invariant
                0 <= j <= i,
                i < n,
                b@.len() == n - 1,
                b@ == b0.remove(i as int),
                kx == x@.len(),
                forall|p: int, q: int| 0 <= p < q < i ==> (#[trigger] b@[p])@.len() >= (#[trigger] b@[q])@.len(),
                forall|k: int| j <= k < i ==> (#[trigger] b@[k])@.len() < kx,
            decreases j,
        {
            j = j - 1;
        }
        let ghost b1 = b@;
        b.insert(j, x);
        proof {
            vstd::seq_lib::to_multiset_insert(b1, j as int, x);
            vstd::seq_lib::to_multiset_contains(b0, x);
            assert(b0.contains(x)) by {
                assert(b0[i as int] == x);
            }
            broadcast use vstd::multiset::group_multiset_axioms;
            assert(b@.to_multiset() =~= b0.to_multiset());
            assert forall|p: int, q: int| 0 <= p < q < i + 1 implies (#[trigger] b@[p])@.len() >= (#[trigger] b@[q])@.len() by {
                if q < j {
                    assert(b@[p] == b1[p] && b@[q] == b1[q]);
                } else if q == j {
                    assert(b@[p] == b1[p] && b@[q] == x);
                    assert(b1[j - 1]@.len() >= kx);
                    if p < j - 1 {
                        assert(b1[p]@.len() >= b1[j - 1]@.len());
                    }
                } else if p < j {
                    assert(b@[p] == b1[p] && b@[q] == b1[q - 1]);
                } else if p == j {
                    assert(b@[p] == x && b@[q] == b1[q - 1]);
                    assert(b1[q - 1]@.len() < kx);
                } else {
                    assert(b@[p] == b1[p - 1] && b@[q] == b1[q - 1]);
                }
            }
        }
        i = i + 1;
    }
}

/// Removes the dead files `dead` from the tables: their names, their
/// directory markers and their inode vertices. Returns the paths of the
/// working copy to remove (those of the dead files whose inode vertex is
/// in the graph), longest first, so that the files of a directory go
/// before it.
pub fn kill_dead_files(txn: &mut Txn, channel: &Channel, dead: &Vec<(OwnedPathId, Inode, Option<String>)>) -> (r: Vec<String>)
    ensures
        forall|k: int| 0 <= k < dead@.len() ==> !tree_view(final(txn).tree@).contains(((#[trigger] dead@[k]).0@, dead@[k].1)),
        forall|k: int| 0 <= k < r@.len() ==> is_dead_name(dead@, (#[trigger] r@[k])@),
        forall|i: int, j: int| 0 <= i < j < r@.len() ==> (#[trigger] r@[i])@.len() >= (#[trigger] r@[j])@.len(),
        forall|k: int| 0 <= k < dead@.len() && first_of_inode(dead@, k) ==> killed(
            old(txn).inodes@,
            final(txn).inodes@,
            final(txn).revinodes@,
            channel.graph@,
            #[trigger] dead@[k],
            r@,
        ),
        final(txn).internal == old(txn).internal,
        final(txn).next_id == old(txn).next_id,
        final(txn).dep == old(txn).dep,
        final(txn).rev_touched == old(txn).rev_touched,
{
    let mut removed: Vec<String> = Vec::new();
    let mut k: usize = 0;
    while k < dead.len()
        invariant
            0 <= k <= dead@.len(),
            forall|j: int| 0 <= j < k ==> !tree_view(txn.tree@).contains(((#[trigger] dead@[j]).0@, dead@[j].1)),
            forall|m: int| 0 <= m < removed@.len() ==> is_dead_name(dead@, (#[trigger] removed@[m])@),
            forall|j: int| 0 <= j < k && first_of_inode(dead@, j) ==> killed(
                old(txn).inodes@,
                txn.inodes@,
                txn.revinodes@,
                channel.graph@,
                #[trigger] dead@[j],
                removed@,
            ),
            forall|i: Inode| (forall|j: int| 0 <= j < k ==> (#[trigger] dead@[j]).1 != i) ==> inode_pos_of(txn.inodes@, i)
                == inode_pos_of(old(txn).inodes@, i),
            txn.internal == old(txn).internal,
            txn.next_id == old(txn).next_id,
            txn.dep == old(txn).dep,
            txn.rev_touched == old(txn).rev_touched,
        decreases dead.len() - k,
    {
        let (fileid, inode, name) = (&dead[k].0, dead[k].1, &dead[k].2);
        let ghost t0 = tree_view(txn.tree@);
        let ghost ins0 = txn.inodes@;
        let ghost rev0 = txn.revinodes@;
        let ghost rm0 = removed@;
        txn.del_tree_with_rev(fileid, inode);
        let dir = OwnedPathId::inode(inode);
        let ghost t1 = tree_view(txn.tree@);
        txn.del_tree(&dir, inode);
        proof {
            let t2 = tree_view(txn.tree@);
            lemma_without_keeps_out(t0, (fileid@, inode));
            lemma_without_sub(t1, (dir@, inode));
            assert forall|j: int| 0 <= j < k + 1 implies !t2.contains(((#[trigger] dead@[j]).0@, dead@[j].1)) by {
                lemma_without_sub(t0, (fileid@, inode));
            }
        }
        if let Some(vertex) = txn.get_inodes(inode) {
            txn.del_inodes_with_rev(inode, vertex);
            proof {
                lemma_without_keeps_out(ins0, (inode, vertex));
                lemma_without_keeps_out(rev0, (vertex, inode));
                lemma_without_sub(ins0, (inode, vertex));
                lemma_without_sub(rev0, (vertex, inode));
                assert forall|i: Inode| i != inode implies inode_pos_of(txn.inodes@, i) == inode_pos_of(ins0, i) by {
                    lemma_inode_pos_of_without(ins0, (inode, vertex), i);
                }
            }
            if channel.graph.has_vertex(&vertex.inode_vertex()) {
                if let Some(n) = name {
                    removed.push(n.clone());
                    proof {
                        assert forall|m: int| 0 <= m < removed@.len() implies is_dead_name(dead@, (#[trigger] removed@[m])@) by {
                            if m < rm0.len() {
                                assert(removed@[m] == rm0[m]);
                            } else {
                                assert(named(dead@[k as int], removed@[m]@));
                                assert(is_dead_name(dead@, removed@[m]@));
                            }
                        }
                        assert(removed@[removed@.len() - 1]@ == n@);
                    }
                }
            }
        }
        proof {
            assert forall|m: int| 0 <= m < rm0.len() implies #[trigger] removed@[m] == rm0[m] by {}
            assert forall|j: int| 0 <= j < k + 1 && first_of_inode(dead@, j) implies killed(
                old(txn).inodes@,
                txn.inodes@,
                txn.revinodes@,
                channel.graph@,
                #[trigger] dead@[j],
                removed@,
            ) by {
                if j < k {
                    lemma_killed_stays(old(txn).inodes@, ins0, rev0, txn.inodes@, txn.revinodes@, channel.graph@, dead@[j], rm0, removed@);
                } else {
                    assert(forall|j2: int| 0 <= j2 < k ==> (#[trigger] dead@[j2]).1 != inode);
                    assert(inode_pos_of(ins0, inode) == inode_pos_of(old(txn).inodes@, inode));
                    match inode_pos_of(old(txn).inodes@, inode) {
                        Some(v) => {
                            if has_vertex_spec(channel.graph@, v.spec_inode_vertex()) && dead@[j].2 is Some {
                                assert(removed@[removed@.len() - 1]@ == dead@[j].2.unwrap()@);
                            }
                        },
                        None => {},
                    }
                }
            }
            assert forall|i: Inode| (forall|j: int| 0 <= j < k + 1 ==> (#[trigger] dead@[j]).1 != i) implies inode_pos_of(txn.inodes@, i)
                == inode_pos_of(old(txn).inodes@, i) by {
                assert(dead@[k as int].1 != i);
                assert forall|j: int| 0 <= j < k implies (#[trigger] dead@[j]).1 != i by {}
            }
        }
        k = k + 1;
    }
    let ghost before = removed@;
    sort_longest_first(&mut removed);
    proof {
        lemma_names_permuted(before, removed@, dead@);
        assert forall|k: int| 0 <= k < dead@.len() && first_of_inode(dead@, k) implies killed(
            old(txn).inodes@,
            txn.inodes@,
            txn.revinodes@,
            channel.graph@,
            #[trigger] dead@[k],
            removed@,
        ) by {
            lemma_killed_permuted(old(txn).inodes@, txn.inodes@, txn.revinodes@, channel.graph@, dead@[k], before, removed@);
        }
    }
    removed
}

/// No dead file before the `k`-th one of `dead` has its inode.
pub open spec fn first_of_inode(dead: Seq<(OwnedPathId, Inode, Option<String>)>, k: int) -> bool {
    forall|j: int| 0 <= j < k ==> (#[trigger] dead[j]).1 != dead[k].1
}

/// Whether `v` is a vertex of the graph `g`.
pub open spec fn has_vertex_spec(g: Seq<(Vertex<ChangeId>, Edge)>, v: Vertex<ChangeId>) -> bool {
    exists|i: int| 0 <= i < g.len() && #[trigger] g[i].0 == v
}

/// The dead file `d` lost its inode vertex (the one that `inodes` gave it)
/// in both inode tables, and its path is in `removed` if that vertex is in
/// the graph and the file has a name.
pub open spec fn killed(
    inodes: Seq<(Inode, Position<ChangeId>)>,
    new_inodes: Seq<(Inode, Position<ChangeId>)>,
    new_revinodes: Seq<(Position<ChangeId>, Inode)>,
    g: Seq<(Vertex<ChangeId>, Edge)>,
    d: (OwnedPathId, Inode, Option<String>),
    removed: Seq<String>,
) -> bool {
    match inode_pos_of(inodes, d.1) {
        Some(v) => {
            &&& !new_inodes.contains((d.1, v))
            &&& !new_revinodes.contains((v, d.1))
            &&& (has_vertex_spec(g, v.spec_inode_vertex()) && d.2 is Some ==> exists|m: int|
                0 <= m < removed.len() && (#[trigger] removed[m])@ == d.2.unwrap()@)
        },
        None => true,
    }
}

/// Later deletions and more paths to remove keep a file killed.
proof fn lemma_killed_stays(
    inodes: Seq<(Inode, Position<ChangeId>)>,
    ins0: Seq<(Inode, Position<ChangeId>)>,
    rev0: Seq<(Position<ChangeId>, Inode)>,
    ins1: Seq<(Inode, Position<ChangeId>)>,
    rev1: Seq<(Position<ChangeId>, Inode)>,
    g: Seq<(Vertex<ChangeId>, Edge)>,
    d: (OwnedPathId, Inode, Option<String>),
    rm0: Seq<String>,
    rm1: Seq<String>,
)
    requires
        killed(inodes, ins0, rev0, g, d, rm0),
        forall|x: (Inode, Position<ChangeId>)| ins1.contains(x) ==> ins0.contains(x),
        forall|x: (Position<ChangeId>, Inode)| rev1.contains(x) ==> rev0.contains(x),
        rm0.len() <= rm1.len(),
        forall|m: int| 0 <= m < rm0.len() ==> #[trigger] rm1[m] == rm0[m],
    ensures
        killed(inodes, ins1, rev1, g, d, rm1),
{
    match inode_pos_of(inodes, d.1) {
        Some(v) => {
            if has_vertex_spec(g, v.spec_inode_vertex()) && d.2 is Some {
                let m = choose|m: int| 0 <= m < rm0.len() && (#[trigger] rm0[m])@ == d.2.unwrap()@;
                assert(rm1[m] == rm0[m]);
            }
        },
        None => {},
    }
}

/// A permutation of the paths to remove keeps a file killed.
proof fn lemma_killed_permuted(
    inodes: Seq<(Inode, Position<ChangeId>)>,
    ins: Seq<(Inode, Position<ChangeId>)>,
    rev: Seq<(Position<ChangeId>, Inode)>,
    g: Seq<(Vertex<ChangeId>, Edge)>,
    d: (OwnedPathId, Inode, Option<String>),
    before: Seq<String>,
    after: Seq<String>,
)
    requires
        killed(inodes, ins, rev, g, d, before),
        after.to_multiset() == before.to_multiset(),
    ensures
        killed(inodes, ins, rev, g, d, after),
{
    match inode_pos_of(inodes, d.1) {
        Some(v) => {
            if has_vertex_spec(g, v.spec_inode_vertex()) && d.2 is Some {
                let m = choose|m: int| 0 <= m < before.len() && (#[trigger] before[m])@ == d.2.unwrap()@;
                let x = before[m];
                assert(before.contains(x));
                vstd::seq_lib::to_multiset_contains(before, x);
                vstd::seq_lib::to_multiset_contains(after, x);
                assert(after.contains(x));
                let p = choose|p: int| 0 <= p < after.len() && after[p] == x;
                assert(after[p]@ == d.2.unwrap()@);
            }
        },
        None => {},
    }
}

/// Removing the entries `x` of an inode table does not change the inode
/// vertex of another inode.
proof fn lemma_inode_pos_of_without(t: Seq<(Inode, Position<ChangeId>)>, x: (Inode, Position<ChangeId>), i: Inode)
    requires
        x.0 != i,
    ensures
        inode_pos_of(crate::txn::without(t, x), i) == inode_pos_of(t, i),
    decreases t.len(),
{
    if t.len() > 0 {
        let rest = t.drop_first();
        assert(t == seq![t[0]] + rest);
        crate::txn::lemma_without_prepend(rest, t[0], x);
        lemma_inode_pos_of_without(rest, x, i);
        let w = crate::txn::without(t, x);
        if t[0] != x {
            assert(w[0] == t[0]);
            assert(w.drop_first() == crate::txn::without(rest, x));
        }
    }
}

/// A permutation of names of dead files holds names of dead files.
proof fn lemma_names_permuted(before: Seq<String>, after: Seq<String>, dead: Seq<(OwnedPathId, Inode, Option<String>)>)
    requires
        after.to_multiset() == before.to_multiset(),
        forall|k: int| 0 <= k < before.len() ==> is_dead_name(dead, (#[trigger] before[k])@),
    ensures
        forall|k: int| 0 <= k < after.len() ==> is_dead_name(dead, (#[trigger] after[k])@),
{
    assert forall|k: int| 0 <= k < after.len() implies is_dead_name(dead, (#[trigger] after[k])@) by {
        let x = after[k];
        assert(after.contains(x));
        vstd::seq_lib::to_multiset_contains(after, x);
        vstd::seq_lib::to_multiset_contains(before, x);
        assert(before.contains(x));
        let p = choose|p: int| 0 <= p < before.len() && before[p] == x;
        assert(is_dead_name(dead, (#[trigger] before[p])@));
        let d = choose|d: int| 0 <= d < dead.len() && named(#[trigger] dead[d], (#[trigger] before[p])@);
        assert(named(dead[d], after[k]@));
    }
}

/// One of the dead files `dead` has the name `s`.
pub open spec fn is_dead_name(dead: Seq<(OwnedPathId, Inode, Option<String>)>, s: Seq<char>) -> bool {
    exists|d: int| 0 <= d < dead.len() && named(#[trigger] dead[d], s)
}

/// The dead file `d` has the name `s`.
pub open spec fn named(d: (OwnedPathId, Inode, Option<String>), s: Seq<char>) -> bool {
    match d.2 {
        Some(n) => n@ == s,
        None => false,
    }
}

/// Removing `x` from a sequence leaves no `x`.
pub proof fn lemma_without_keeps_out<A>(s: Seq<A>, x: A)
    ensures
        !crate::txn::without(s, x).contains(x),
{
    let p = |y: A| y != x;
    if crate::txn::without(s, x).contains(x) {
        let i = choose|i: int| 0 <= i < crate::txn::without(s, x).len() && crate::txn::without(s, x)[i] == x;
        s.lemma_filter_pred(p, i);
    }
}

/// Removing entries only removes entries.
pub proof fn lemma_without_sub<A>(s: Seq<A>, x: A)
    ensures
        forall|y: A| crate::txn::without(s, x).contains(y) ==> s.contains(y),
{
    let p = |y: A| y != x;
    assert forall|y: A| crate::txn::without(s, x).contains(y) implies s.contains(y) by {
        let i = choose|i: int| 0 <= i < crate::txn::without(s, x).len() && crate::txn::without(s, x)[i] == y;
        s.lemma_filter_contains_rev(p, y);
    }
}

} // verus!
