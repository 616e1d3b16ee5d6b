//! The naming of the files of a directory at output: among the vertices
//! that give a file the same name, which are output, under which name, and
//! which name conflicts that makes.
use vstd::prelude::*;
use vstd::string::*;
use crate::commands::str_eq;
use crate::output::{conflicting_name_spec, inode_filename, inode_filename_spec, make_conflicting_name, name_of, names_view, Conflict};
use crate::path::{file_name, file_name_spec, parent, parent_spec, push, push_spec};
use crate::pristine::{ChangeHash, ChangeId, Position, Vertex};
use crate::txn::{
    external_of, inode_pos_of, pos_inode_of, revtree_of, revtree_view, tree_of, tree_view, without, Inode, OwnedPathId, Txn,
};

verus! {

/// A file to output: the inode of its parent, its path in the working
/// copy so far, whether it is a directory, the position of its inode in
/// the graph, the changes that make it a zombie, and where it stands
/// while its parent is being moved.
pub struct OutputItem {
    pub parent: Inode,
    pub path: String,
    pub is_dir: bool,
    pub pos: Position<ChangeId>,
    pub is_zombie: Option<Vec<ChangeHash>>,
    pub tmp: Option<String>,
}

/// A vertex already output: the position of its inode, the name vertex
/// under which it was output, its path, and the name vertices it has when
/// it has several.
pub struct DoneVertex {
    pub pos: Position<ChangeId>,
    pub name_key: Vertex<ChangeId>,
    pub path: String,
    pub names: Vec<Vertex<ChangeId>>,
}

/// A file that is output under `name`, its item carrying its full path;
/// `tmp` is its temporary path while its parent moves, and `existing` its
/// inode with that inode's position, where the file is already known.
pub struct NamedItem {
    pub name_key: Vertex<ChangeId>,
    pub item: OutputItem,
    pub name: String,
    pub tmp: Option<String>,
    pub existing: Option<(Inode, Position<ChangeId>)>,
}

/// The parts of an item that the naming reads: its position, its path and
/// its temporary path.
pub open spec fn item_view(i: OutputItem) -> (Position<ChangeId>, Seq<char>, Option<Seq<char>>) {
    (i.pos, i.path@, match i.tmp { Some(t) => Some(t@), None => None })
}

/// A vertex already output, as values.
pub open spec fn done_view(d: DoneVertex) -> (Position<ChangeId>, Vertex<ChangeId>, Seq<char>, Seq<Vertex<ChangeId>>) {
    (d.pos, d.name_key, d.path@, d.names@)
}

pub open spec fn dones_view(ds: Seq<DoneVertex>) -> Seq<(Position<ChangeId>, Vertex<ChangeId>, Seq<char>, Seq<Vertex<ChangeId>>)> {
    ds.map_values(|d: DoneVertex| done_view(d))
}

/// A file to output, as values: the index of its candidate, its name, its
/// path, its temporary path and its known inode.
pub open spec fn named_view(n: NamedItem) -> (Vertex<ChangeId>, Position<ChangeId>, Seq<char>, Seq<char>, Option<Seq<char>>, Option<(Inode, Position<ChangeId>)>) {
    (n.name_key, n.item.pos, n.name@, n.item.path@, match n.tmp { Some(t) => Some(t@), None => None }, n.existing)
}

/// What the naming has found so far: the vertices output, the inodes
/// output, the first position under the name, the positions that share
/// the name, the files to output, and whether it stopped at a conflict.
pub struct NamesAcc {
    pub done: Seq<(Position<ChangeId>, Vertex<ChangeId>, Seq<char>, Seq<Vertex<ChangeId>>)>,
    pub inodes: Seq<Inode>,
    pub first: Option<Position<ChangeId>>,
    pub conflict: Seq<Position<ChangeId>>,
    pub out: Seq<(Vertex<ChangeId>, Position<ChangeId>, Seq<char>, Seq<char>, Option<Seq<char>>, Option<(Inode, Position<ChangeId>)>)>,
    pub stopped: bool,
}

/// The index of the vertex output at position `p`.
pub open spec fn done_index(done: Seq<(Position<ChangeId>, Vertex<ChangeId>, Seq<char>, Seq<Vertex<ChangeId>>)>, p: Position<ChangeId>) -> Option<int> {
    if exists|j: int| 0 <= j < done.len() && (#[trigger] done[j]).0 == p {
        Some(choose|j: int| 0 <= j < done.len() && (#[trigger] done[j]).0 == p)
    } else {
        None
    }
}

/// The positions that share a name, once `p` joins `first`.
pub open spec fn with_conflict(conflict: Seq<Position<ChangeId>>, first: Position<ChangeId>, p: Position<ChangeId>) -> Seq<Position<ChangeId>> {
    if conflict.len() == 0 {
        seq![first, p]
    } else {
        conflict.push(p)
    }
}

/// The naming of one more candidate, the vertex `key` naming the file of
/// `item` with `a`; `numbered` tells whether files that share a name are
/// output under names made distinct by their change.
pub open spec fn name_step(
    txn: Txn,
    a: Seq<char>,
    numbered: bool,
    acc: NamesAcc,
    key: Vertex<ChangeId>,
    item: (Position<ChangeId>, Seq<char>, Option<Seq<char>>),
) -> NamesAcc {
    if acc.stopped {
        acc
    } else {
        match done_index(acc.done, item.0) {
            Some(j) => {
                let e = acc.done[j];
                if e.1 != key {
                    let names = if e.3.len() == 0 { seq![e.1, key] } else { e.3.push(key) };
                    NamesAcc { done: acc.done.update(j, (e.0, e.1, e.2, names)), ..acc }
                } else {
                    acc
                }
            },
            None => {
                if acc.first is Some && !numbered {
                    NamesAcc { conflict: with_conflict(acc.conflict, acc.first.unwrap(), item.0), stopped: true, ..acc }
                } else {
                    let conflict = if acc.first is Some { with_conflict(acc.conflict, acc.first.unwrap(), item.0) } else { acc.conflict };
                    let first = if acc.first is Some { acc.first } else { Some(item.0) };
                    let name = if acc.first is Some { conflicting_name_spec(a, key) } else { a };
                    let path = push_spec(item.1, file_name_spec(name));
                    let tmp = match item.2 {
                        Some(t) => Some(push_spec(t, file_name_spec(name))),
                        None => None,
                    };
                    let done = acc.done.push((item.0, key, path, Seq::empty()));
                    match pos_inode_of(txn.revinodes@, item.0) {
                        Some(i) => if acc.inodes.contains(i) {
                            NamesAcc { done, first, conflict, ..acc }
                        } else {
                            NamesAcc {
                                done,
                                first,
                                conflict,
                                inodes: acc.inodes.push(i),
                                out: acc.out.push((key, item.0, name, path, tmp, Some((i, inode_pos_of(txn.inodes@, i).unwrap())))),
                                stopped: false,
                            }
                        },
                        None => NamesAcc { done, first, conflict, out: acc.out.push((key, item.0, name, path, tmp, None)), ..acc },
                    }
                }
            },
        }
    }
}

/// The naming of the candidates `cands` in turn.
pub open spec fn names_fold(
    txn: Txn,
    a: Seq<char>,
    numbered: bool,
    acc: NamesAcc,
    cands: Seq<(Vertex<ChangeId>, (Position<ChangeId>, Seq<char>, Option<Seq<char>>))>,
) -> NamesAcc
    decreases cands.len(),
{
    if cands.len() == 0 {
        acc
    } else {
        name_step(txn, a, numbered, names_fold(txn, a, numbered, acc, cands.drop_last()), cands.last().0, cands.last().1)
    }
}

/// The candidates, as values.
pub open spec fn cands_view(b: Seq<(Vertex<ChangeId>, OutputItem)>) -> Seq<(Vertex<ChangeId>, (Position<ChangeId>, Seq<char>, Option<Seq<char>>))> {
    b.map_values(|c: (Vertex<ChangeId>, OutputItem)| (c.0, item_view(c.1)))
}

/// No two vertices output share a position.
pub open spec fn done_unique(done: Seq<(Position<ChangeId>, Vertex<ChangeId>, Seq<char>, Seq<Vertex<ChangeId>>)>) -> bool {
    forall|i: int, j: int| 0 <= i < j < done.len() ==> (#[trigger] done[i]).0 != (#[trigger] done[j]).0
}

/// Every inode found by position has a position.
pub open spec fn inodes_paired(txn: Txn) -> bool {
    forall|p: Position<ChangeId>| #[trigger] pos_inode_of(txn.revinodes@, p) is Some
        ==> inode_pos_of(txn.inodes@, pos_inode_of(txn.revinodes@, p).unwrap()) is Some
}

/// The naming so far, from the values that hold it.
pub open spec fn acc_of(
    done: Seq<DoneVertex>,
    inodes: Seq<Inode>,
    first: Option<Position<ChangeId>>,
    conflict: Seq<Position<ChangeId>>,
    out: Seq<NamedItem>,
    stopped: bool,
) -> NamesAcc {
    NamesAcc {
        done: dones_view(done),
        inodes: inodes,
        first: first,
        conflict: conflict,
        out: out.map_values(|n: NamedItem| named_view(n)),
        stopped: stopped,
    }
}

/// The naming before any candidate, from the vertices and inodes already
/// output.
pub open spec fn initial_acc(done: Seq<DoneVertex>, inodes: Seq<Inode>) -> NamesAcc {
    acc_of(done, inodes, None, Seq::empty(), Seq::empty(), false)
}

/// Every position that shares the name has a change with a hash.
pub open spec fn hashed(txn: Txn, first: Option<Position<ChangeId>>, conflict: Seq<Position<ChangeId>>) -> bool {
    &&& (first matches Some(f) ==> external_of(txn.internal@, f.change) is Some)
    &&& forall|x: int| 0 <= x < conflict.len() ==> external_of(txn.internal@, (#[trigger] conflict[x]).change) is Some
}

fn find_done(done: &Vec<DoneVertex>, p: Position<ChangeId>) -> (r: Option<usize>)
    requires
        done_unique(dones_view(done@)),
    ensures
        match r {
            Some(j) => done_index(dones_view(done@), p) == Some(j as int),
            None => done_index(dones_view(done@), p) is None,
        },
{
    let ghost dv = dones_view(done@);
    let mut j: usize = 0;
    while j < done.len()
        invariant
            0 <= j <= done@.len(),
            dv == dones_view(done@),
            dv.len() == done@.len(),
            done_unique(dv),
            forall|x: int| 0 <= x < j ==> (#[trigger] dv[x]).0 != p,
        decreases done.len() - j,
    {
        assert(dv[j as int] == done_view(done@[j as int]));
        if done[j].pos == p {
            assert(dv[j as int].0 == p);
            assert(done_index(dv, p) == Some(j as int)) by {
                let c = choose|y: int| 0 <= y < dv.len() && (#[trigger] dv[y]).0 == p;
                if c != j as int {
                    if c < j {
                        assert(dv[c].0 != p);
                    } else {
                        assert(dv[j as int].0 != dv[c].0);
                    }
                }
            }
            return Some(j);
        }
        j = j + 1;
    }
    assert(!exists|y: int| 0 <= y < dv.len() && (#[trigger] dv[y]).0 == p);
    None
}

fn has_inode(v: &Vec<Inode>, i: Inode) -> (r: bool)
    ensures
        r == v@.contains(i),
{
    let mut j: usize = 0;
    while j < v.len()
        invariant
            0 <= j <= v@.len(),
            forall|x: int| 0 <= x < j ==> v@[x] != i,
        decreases v.len() - j,
    {
        if v[j] == i {
            assert(v@[j as int] == i);
            return true;
        }
        j = j + 1;
    }
    false
}

fn add_conflict(conflict: &mut Vec<Position<ChangeId>>, f: Position<ChangeId>, p: Position<ChangeId>)
    ensures
        final(conflict)@ == with_conflict(old(conflict)@, f, p),
{
    if conflict.len() == 0 {
        conflict.push(f);
    }
    conflict.push(p);
    proof {
        if old(conflict)@.len() == 0 {
            assert(final(conflict)@ =~= seq![f, p]);
        }
    }
}

/// Names one more candidate: the vertex `key` naming the file of `item`.
fn name_one(
    txn: &Txn,
    a: &str,
    numbered: bool,
    done: &mut Vec<DoneVertex>,
    inodes: &mut Vec<Inode>,
    first: &mut Option<Position<ChangeId>>,
    conflict: &mut Vec<Position<ChangeId>>,
    out: &mut Vec<NamedItem>,
    stopped: &mut bool,
    key: Vertex<ChangeId>,
    item: OutputItem,
)
    requires
        done_unique(dones_view(old(done)@)),
        inodes_paired(*txn),
        hashed(*txn, *old(first), old(conflict)@),
        external_of(txn.internal@, item.pos.change) is Some,
    ensures
        acc_of(final(done)@, final(inodes)@, *final(first), final(conflict)@, final(out)@, *final(stopped)) == name_step(
            *txn,
            a@,
            numbered,
            acc_of(old(done)@, old(inodes)@, *old(first), old(conflict)@, old(out)@, *old(stopped)),
            key,
            item_view(item),
        ),
        done_unique(dones_view(final(done)@)),
        hashed(*txn, *final(first), final(conflict)@),
{
    let ghost acc0 = acc_of(done@, inodes@, *first, conflict@, out@, *stopped);
    let ghost iv = item_view(item);
    if *stopped {
        return;
    }
    match find_done(done, item.pos) {
        Some(j) => {
            if done[j].name_key != key {
                let ghost d0 = dones_view(done@);
                let mut e = done.remove(j);
                assert(done_view(e) == d0[j as int]);
                let ghost names0 = e.names@;
                if e.names.len() == 0 {
                    e.names.push(e.name_key);
                }
                e.names.push(key);
                proof {
                    if names0.len() == 0 {
                        assert(e.names@ =~= seq![e.name_key, key]);
                    }
                }
                done.insert(j, e);
                proof {
                    let e0 = d0[j as int];
                    let newe = (e0.0, e0.1, e0.2, if e0.3.len() == 0 { seq![e0.1, key] } else { e0.3.push(key) });
                    assert(done_view(e) == newe);
                    assert(dones_view(done@) =~= d0.update(j as int, newe));
                    assert forall|x: int, y: int| 0 <= x < y < dones_view(done@).len() implies
                        (#[trigger] dones_view(done@)[x]).0 != (#[trigger] dones_view(done@)[y]).0 by {
                        assert(d0[x].0 != d0[y].0);
                    }
                }
            }
            return;
        },
        None => {},
    }
    let name: String;
    match *first {
        Some(f) => {
            add_conflict(conflict, f, item.pos);
            if !numbered {
                *stopped = true;
                return;
            }
            name = make_conflicting_name(a, key);
        },
        None => {
            *first = Some(item.pos);
            name = String::from_str(a);
        },
    }
    let fname = file_name(name.as_str());
    let mut item = item;
    push(&mut item.path, fname.as_str());
    let tmp = match item.tmp {
        Some(t) => {
            let mut t2 = t;
            push(&mut t2, fname.as_str());
            Some(t2)
        },
        None => None,
    };
    item.tmp = None;
    let ghost d0 = dones_view(done@);
    let path_copy = item.path.clone();
    done.push(DoneVertex { pos: item.pos, name_key: key, path: path_copy, names: Vec::new() });
    proof {
        assert(dones_view(done@) =~= d0.push((iv.0, key, item.path@, Seq::empty())));
        assert forall|x: int, y: int| 0 <= x < y < dones_view(done@).len() implies
            (#[trigger] dones_view(done@)[x]).0 != (#[trigger] dones_view(done@)[y]).0 by {
            if y == d0.len() {
                assert(d0[x].0 != iv.0);
            } else {
                assert(d0[x].0 != d0[y].0);
            }
        }
    }
    let ghost o0 = out@;
    match txn.get_revinodes(item.pos) {
        Some(i) => {
            if has_inode(inodes, i) {
                return;
            }
            inodes.push(i);
            let p = txn.get_inodes(i).unwrap();
            out.push(NamedItem { name_key: key, item, name, tmp, existing: Some((i, p)) });
            assert(out@.map_values(|n: NamedItem| named_view(n)) =~= o0.map_values(|n: NamedItem| named_view(n)).push(named_view(out@.last())));
        },
        None => {
            out.push(NamedItem { name_key: key, item, name, tmp, existing: None });
            assert(out@.map_values(|n: NamedItem| named_view(n)) =~= o0.map_values(|n: NamedItem| named_view(n)).push(named_view(out@.last())));
        },
    }
}

/// The outcome of naming the candidates `b` with `a`: the vertices and
/// inodes output (`done1`, `inodes1`, from `done0`, `inodes0`), the files to
/// output in order, and the name conflict, where the name is shared.
pub open spec fn names_result(
    txn: Txn,
    a: Seq<char>,
    numbered: bool,
    done0: Seq<DoneVertex>,
    inodes0: Seq<Inode>,
    b: Seq<(Vertex<ChangeId>, OutputItem)>,
    done1: Seq<DoneVertex>,
    inodes1: Seq<Inode>,
    out: Seq<NamedItem>,
    conflict: Option<Conflict>,
) -> bool {
    let acc = names_fold(txn, a, numbered, initial_acc(done0, inodes0), cands_view(b));
    &&& dones_view(done1) == acc.done
    &&& inodes1 == acc.inodes
    &&& out.map_values(|n: NamedItem| named_view(n)) == acc.out
    &&& (acc.conflict.len() == 0 <==> conflict is None)
    &&& (conflict is Some ==> (conflict matches Some(Conflict::Name { path, inodes, changes }) && path@ == a
        && inodes@ == acc.conflict && changes@ == acc.conflict.map_values(
        |p: Position<ChangeId>| external_of(txn.internal@, p.change).unwrap(),
    )))
}

/// Names the files that the vertices of `b` (sorted) give the name `a`, in
/// turn: a vertex whose inode was already output under another name adds
/// that name to it; the first new vertex takes the name `a`; each later
/// one shares it, and, where `numbered`, is output under `a` with its
/// change appended, else the naming stops there. A file whose inode was
/// already output is not output again. The vertices and inodes output are
/// recorded in `done` and `done_inodes`. Returns the files to output, with
/// their paths, and the conflict of the shared name, if any.
pub fn output_names(
    txn: &Txn,
    a: &str,
    b: Vec<(Vertex<ChangeId>, OutputItem)>,
    done: &mut Vec<DoneVertex>,
    done_inodes: &mut Vec<Inode>,
    numbered: bool,
) -> (r: (Vec<NamedItem>, Option<Conflict>))
    requires
        done_unique(dones_view(old(done)@)),
        inodes_paired(*txn),
        forall|k: int| 0 <= k < b@.len() ==> external_of(txn.internal@, (#[trigger] b@[k]).1.pos.change) is Some,
    ensures
        names_result(*txn, a@, numbered, old(done)@, old(done_inodes)@, b@, final(done)@, final(done_inodes)@, r.0@, r.1),
        done_unique(dones_view(final(done)@)),
{
    let ghost b0 = b@;
    let ghost c0 = cands_view(b@);
    let ghost done0 = done@;
    let ghost inodes0 = done_inodes@;
    let mut b = b;
    let mut first: Option<Position<ChangeId>> = None;
    let mut conflict: Vec<Position<ChangeId>> = Vec::new();
    let mut out: Vec<NamedItem> = Vec::new();
    let mut stopped = false;
    let mut k: usize = 0;
    let n = b.len();
    proof {
        assert(c0.take(0).len() == 0);
        assert(out@.map_values(|n: NamedItem| named_view(n)) =~= Seq::empty());
    }
    while k < n
        invariant
            k <= n,
            n == b0.len(),
            b@ == b0.skip(k as int),
            c0 == cands_view(b0),
            acc_of(done@, done_inodes@, first, conflict@, out@, stopped) == names_fold(
                *txn,
                a@,
                numbered,
                initial_acc(done0, inodes0),
                c0.take(k as int),
            ),
            done_unique(dones_view(done@)),
            inodes_paired(*txn),
            hashed(*txn, first, conflict@),
            forall|x: int| 0 <= x < b0.len() ==> external_of(txn.internal@, (#[trigger] b0[x]).1.pos.change) is Some,
        decreases n - k,
    {
        let (key, item) = b.remove(0);
        proof {
            assert(b0.skip(k as int)[0] == b0[k as int]);
            assert(b@ =~= b0.skip(k + 1));
            assert(c0.take(k + 1).drop_last() =~= c0.take(k as int));
            assert(c0.take(k + 1).last() == c0[k as int]);
        }
        name_one(txn, a, numbered, done, done_inodes, &mut first, &mut conflict, &mut out, &mut stopped, key, item);
        k = k + 1;
    }
    proof {
        assert(c0.take(k as int) =~= c0);
    }
    let ghost acc = names_fold(*txn, a@, numbered, initial_acc(done0, inodes0), c0);
    if conflict.len() == 0 {
        return (out, None);
    }
    let mut changes: Vec<ChangeHash> = Vec::new();
    let mut x: usize = 0;
    while x < conflict.len()
        invariant
            x <= conflict@.len(),
            hashed(*txn, first, conflict@),
            changes@ == conflict@.take(x as int).map_values(|p: Position<ChangeId>| external_of(txn.internal@, p.change).unwrap()),
        decreases conflict.len() - x,
    {
        let h = txn.get_external(conflict[x].change).unwrap();
        let ghost c1 = changes@;
        changes.push(h);
        proof {
            assert(conflict@.take(x + 1) =~= conflict@.take(x as int).push(conflict@[x as int]));
            assert(changes@ =~= conflict@.take(x + 1).map_values(|p: Position<ChangeId>| external_of(txn.internal@, p.change).unwrap()));
        }
        x = x + 1;
    }
    proof {
        assert(conflict@.take(x as int) =~= conflict@);
    }
    (out, Some(Conflict::Name { path: String::from_str(a), inodes: conflict, changes }))
}

/// Whether a vertex at position `p` was output.
pub open spec fn in_done(done: Seq<(Position<ChangeId>, Vertex<ChangeId>, Seq<char>, Seq<Vertex<ChangeId>>)>, p: Position<ChangeId>) -> bool {
    exists|j: int| 0 <= j < done.len() && (#[trigger] done[j]).0 == p
}

/// What every naming keeps: the vertices output have distinct positions;
/// the files to output have distinct positions, each recorded as output;
/// and the inodes they reuse are distinct and recorded.
pub open spec fn output_once(acc: NamesAcc) -> bool {
    &&& done_unique(acc.done)
    &&& forall|i: int| 0 <= i < acc.out.len() ==> in_done(acc.done, (#[trigger] acc.out[i]).1)
    &&& forall|i: int, j: int| 0 <= i < j < acc.out.len() ==> (#[trigger] acc.out[i]).1 != (#[trigger] acc.out[j]).1
    &&& forall|i: int| 0 <= i < acc.out.len() ==> ((#[trigger] acc.out[i]).5 matches Some(e) ==> acc.inodes.contains(e.0))
    &&& forall|i: int, j: int| 0 <= i < j < acc.out.len() ==> ((#[trigger] acc.out[i]).5 matches Some(e) ==> ((
        #[trigger] acc.out[j]).5 matches Some(f) ==> e.0 != f.0))
}

proof fn lemma_step_output_once(
    txn: Txn,
    a: Seq<char>,
    numbered: bool,
    acc: NamesAcc,
    key: Vertex<ChangeId>,
    item: (Position<ChangeId>, Seq<char>, Option<Seq<char>>),
)
    requires
        output_once(acc),
    ensures
        output_once(name_step(txn, a, numbered, acc, key, item)),
{
    let r = name_step(txn, a, numbered, acc, key, item);
    if acc.stopped {
        return;
    }
    match done_index(acc.done, item.0) {
        Some(j) => {
            assert(0 <= j < acc.done.len() && acc.done[j].0 == item.0);
            assert(r.out == acc.out && r.inodes == acc.inodes);
            assert(r.done.len() == acc.done.len());
            assert(forall|x: int| 0 <= x < r.done.len() ==> (#[trigger] r.done[x]).0 == acc.done[x].0);
            assert forall|x: int, y: int| 0 <= x < y < r.done.len() implies (#[trigger] r.done[x]).0 != (#[trigger] r.done[y]).0 by {
                assert(acc.done[x].0 != acc.done[y].0);
            }
            assert forall|i: int| 0 <= i < r.out.len() implies in_done(r.done, (#[trigger] r.out[i]).1) by {
                assert(in_done(acc.done, acc.out[i].1));
                let w = choose|w: int| 0 <= w < acc.done.len() && (#[trigger] acc.done[w]).0 == acc.out[i].1;
                assert(r.done[w].0 == acc.out[i].1);
            }
        },
        None => {
            assert(!in_done(acc.done, item.0));
            if r.done.len() > acc.done.len() {
                assert(r.done == acc.done.push(r.done.last()));
                assert(r.done.last().0 == item.0);
                assert forall|x: int, y: int| 0 <= x < y < r.done.len() implies (#[trigger] r.done[x]).0 != (#[trigger] r.done[y]).0 by {
                    if y == acc.done.len() {
                        assert(acc.done[x].0 != item.0);
                    } else {
                        assert(acc.done[x].0 != acc.done[y].0);
                    }
                }
                assert(r.out.len() == acc.out.len() || r.out == acc.out.push(r.out.last()));
                assert(r.out.len() > acc.out.len() ==> r.out.last().1 == item.0);
                assert forall|i: int| 0 <= i < r.out.len() implies ((#[trigger] r.out[i]).5 matches Some(e) ==> r.inodes.contains(e.0)) by {
                    if i < acc.out.len() {
                        assert(r.out[i] == acc.out[i]);
                        if let Some(e) = acc.out[i].5 {
                            assert(acc.inodes.contains(e.0));
                            assert(r.inodes == acc.inodes || r.inodes == acc.inodes.push(r.inodes.last()));
                            if r.inodes != acc.inodes {
                                let w = choose|w: int| 0 <= w < acc.inodes.len() && acc.inodes[w] == e.0;
                                assert(r.inodes[w] == e.0);
                            }
                        }
                    } else {
                        if let Some(e) = r.out[i].5 {
                            assert(r.inodes.last() == e.0);
                            assert(r.inodes[r.inodes.len() - 1] == e.0);
                        }
                    }
                }
                assert forall|i: int, j: int| 0 <= i < j < r.out.len() implies ((#[trigger] r.out[i]).5 matches Some(e) ==> ((
                    #[trigger] r.out[j]).5 matches Some(f) ==> e.0 != f.0)) by {
                    if j == acc.out.len() {
                        if let Some(e) = acc.out[i].5 {
                            assert(acc.inodes.contains(e.0));
                        }
                    }
                }
                assert forall|i: int| 0 <= i < r.out.len() implies in_done(r.done, (#[trigger] r.out[i]).1) by {
                    if i < acc.out.len() {
                        let w = choose|w: int| 0 <= w < acc.done.len() && (#[trigger] acc.done[w]).0 == acc.out[i].1;
                        assert(r.done[w].0 == acc.out[i].1);
                    } else {
                        assert(r.done[acc.done.len() as int].0 == item.0);
                    }
                }
                assert forall|i: int, j: int| 0 <= i < j < r.out.len() implies (#[trigger] r.out[i]).1 != (#[trigger] r.out[j]).1 by {
                    if j == acc.out.len() {
                        assert(in_done(acc.done, acc.out[i].1));
                    }
                }
            }
        },
    }
}

proof fn lemma_fold_output_once(
    txn: Txn,
    a: Seq<char>,
    numbered: bool,
    acc: NamesAcc,
    cands: Seq<(Vertex<ChangeId>, (Position<ChangeId>, Seq<char>, Option<Seq<char>>))>,
)
    requires
        output_once(acc),
    ensures
        output_once(names_fold(txn, a, numbered, acc, cands)),
    decreases cands.len(),
{
    if cands.len() > 0 {
        lemma_fold_output_once(txn, a, numbered, acc, cands.drop_last());
        lemma_step_output_once(txn, a, numbered, names_fold(txn, a, numbered, acc, cands.drop_last()), cands.last().0, cands.last().1);
    }
}

/// No file is output twice when the files of a directory are named: the
/// files to output have distinct positions, each recorded among the
/// vertices output, and the known inodes they reuse are distinct.
pub proof fn lemma_output_once(txn: Txn, a: Seq<char>, numbered: bool, done: Seq<DoneVertex>, inodes: Seq<Inode>, b: Seq<(Vertex<ChangeId>, OutputItem)>)
    requires
        done_unique(dones_view(done)),
    ensures
        output_once(names_fold(txn, a, numbered, initial_acc(done, inodes), cands_view(b))),
{
    let acc = initial_acc(done, inodes);
    assert(acc.out.len() == 0);
    lemma_fold_output_once(txn, a, numbered, acc, cands_view(b));
}

/// The BLAKE3 hash of `input`.
pub uninterp spec fn blake3_of(input: Seq<u8>) -> Seq<u8>;

/// The BLAKE3 hash of `input`, by `blake3::hash`: 32 bytes.
#[verifier::external_body]
fn blake3_digest(input: &[u8]) -> (r: Vec<u8>)
    ensures
        r@ == blake3_of(input@),
        r@.len() == 32,
{
    blake3::hash(input).as_bytes().to_vec()
}

/// The bit `i` of `input`, the bits of each byte taken from the most
/// significant; zero past the end.
pub open spec fn bit_at(input: Seq<u8>, i: int) -> int {
    if 0 <= i < 8 * input.len() {
        ((input[i / 8] as int) / vstd::arithmetic::power2::pow2((7 - i % 8) as nat) as int) % 2
    } else {
        0
    }
}

/// The value of the five bits of `input` from bit `5 * k`.
pub open spec fn quintet(input: Seq<u8>, k: int) -> int {
    16 * bit_at(input, 5 * k) + 8 * bit_at(input, 5 * k + 1) + 4 * bit_at(input, 5 * k + 2) + 2 * bit_at(input, 5 * k + 3)
        + bit_at(input, 5 * k + 4)
}

/// The symbol of the value `d` in the base32 alphabet of RFC 4648.
pub open spec fn base32_symbol(d: int) -> char {
    if d < 26 {
        ((65 + d) as u8) as char
    } else {
        ((50 + d - 26) as u8) as char
    }
}

/// The padded base32 encoding of `input` (RFC 4648): a symbol for each
/// five bits, the last ones completed by zeros, then `=` up to a multiple
/// of eight symbols.
pub open spec fn base32_padded_spec(input: Seq<u8>) -> Seq<char> {
    let symbols = (8 * input.len() + 4) / 5;
    let total = 8 * ((input.len() + 4) / 5);
    Seq::new(total as nat, |k: int| if k < symbols { base32_symbol(quintet(input, k)) } else { '=' })
}

/// The padded base32 encoding of `input`, by `data_encoding::BASE32`.
#[verifier::external_body]
fn base32_padded(input: &[u8]) -> (r: String)
    requires
        input@.len() <= usize::MAX / 512,
    ensures
        r@ == base32_padded_spec(input@),
{
    data_encoding::BASE32.encode(input)
}

/// The eight bytes of `x`, least significant first.
pub open spec fn le_bytes(x: u64) -> Seq<u8> {
    Seq::new(8, |k: int| ((x >> ((8 * k) as u64)) & 0xff) as u8)
}

/// The sixteen bytes of a position: its change, then its offset.
pub open spec fn position_bytes(p: Position<ChangeId>) -> Seq<u8> {
    le_bytes(p.change.0) + le_bytes(p.pos.0)
}

fn push_le_bytes(v: &mut Vec<u8>, x: u64)
    ensures
        final(v)@ == old(v)@ + le_bytes(x),
{
    let ghost v0 = v@;
    let mut k: u64 = 0;
    while k < 8
        invariant
            k <= 8,
            v@ == v0 + le_bytes(x).take(k as int),
        decreases 8 - k,
    {
        v.push(((x >> (8 * k)) & 0xff) as u8);
        assert(le_bytes(x).take(k + 1) =~= le_bytes(x).take(k as int).push(le_bytes(x)[k as int]));
        k = k + 1;
    }
    assert(le_bytes(x).take(8) =~= le_bytes(x));
}

/// The base name under which a file at position `p` waits while it moves:
/// the padded base32 encoding of the BLAKE3 hash of the position's bytes.
pub open spec fn temp_basename_spec(p: Position<ChangeId>) -> Seq<char> {
    base32_padded_spec(blake3_of(position_bytes(p)))
}

pub fn temp_basename(p: Position<ChangeId>) -> (r: String)
    ensures
        r@ == temp_basename_spec(p),
{
    let mut bytes: Vec<u8> = Vec::new();
    push_le_bytes(&mut bytes, p.change.0);
    push_le_bytes(&mut bytes, p.pos.0);
    assert(bytes@ =~= position_bytes(p));
    let digest = blake3_digest(bytes.as_slice());
    base32_padded(digest.as_slice())
}

/// `inode` is placed under the name `file_id` at position `pos` from `t0`
/// to `t1`: both ways in the tree and between inodes and positions, and,
/// where `marker`, under its own directory marker.
pub open spec fn placed(t0: Txn, t1: Txn, file_id: (Inode, Seq<char>), inode: Inode, pos: Position<ChangeId>, marker: bool) -> bool {
    &&& t1.inodes@ == t0.inodes@.push((inode, pos))
    &&& t1.revinodes@ == t0.revinodes@.push((pos, inode))
    &&& tree_view(t1.tree@) == (if marker {
        tree_view(t0.tree@).push((file_id, inode)).push(((inode, Seq::empty()), inode))
    } else {
        tree_view(t0.tree@).push((file_id, inode))
    })
    &&& revtree_view(t1.revtree@) == revtree_view(t0.revtree@).push((inode, file_id))
    &&& t1.internal == t0.internal
    &&& t1.next_id == t0.next_id
    &&& t1.dep == t0.dep
    &&& t1.rev_touched == t0.rev_touched
}

/// Places `inode` under `file_id` at `pos` (see `placed`).
pub fn place_inode(txn: &mut Txn, file_id: &OwnedPathId, inode: Inode, pos: Position<ChangeId>, marker: bool)
    ensures
        placed(*old(txn), *final(txn), file_id@, inode, pos, marker),
{
    txn.put_inodes_with_rev(inode, pos);
    txn.put_tree_with_rev(file_id, inode);
    if marker {
        txn.put_tree(&OwnedPathId::inode(inode), inode);
    }
}

/// The inode named `p` in a tree given by value (the first entry).
pub open spec fn tree_name_of(t: Seq<((Inode, Seq<char>), Inode)>, p: (Inode, Seq<char>)) -> Option<Inode>
    decreases t.len(),
{
    if t.len() == 0 {
        None
    } else if t[0].0 == p {
        Some(t[0].1)
    } else {
        tree_name_of(t.drop_first(), p)
    }
}

proof fn lemma_tree_of_view(t: Seq<(OwnedPathId, Inode)>, p: (Inode, Seq<char>))
    ensures
        tree_of(t, p) == tree_name_of(tree_view(t), p),
    decreases t.len(),
{
    if t.len() > 0 {
        assert(tree_view(t).drop_first() =~= tree_view(t.drop_first()));
        lemma_tree_of_view(t.drop_first(), p);
    }
}

proof fn lemma_components_named(rt: Seq<(Inode, OwnedPathId)>, tmp: Seq<(Inode, Seq<char>)>, cur: Inode, fuel: nat)
    requires
        crate::output::components(rt, tmp, cur, fuel) is Some,
        name_of(tmp, cur) is None,
    ensures
        revtree_of(rt, cur) is Some,
{
}

/// What `move_or_create` leaves to its caller: the inode of the file; the
/// move of the file, in the working copy, from its current path to a
/// temporary one; and the inode that holds the file's name, which must be
/// deleted with its descendants before the file is placed, with its
/// directory marker where `marker`.
pub struct MoveOutcome {
    pub inode: Inode,
    pub rename: Option<(String, String)>,
    pub occupant: Option<Inode>,
    pub marker: bool,
}

/// The path where the file must end up: its temporary path, if it has one.
pub open spec fn actual_spec(tmp: Option<String>, path: Seq<char>) -> Seq<char> {
    match tmp {
        Some(t) => t@,
        None => path,
    }
}

/// The current path of the known inode of `existing`, if any.
pub open spec fn current_spec(txn: Txn, existing: Option<(Inode, Position<ChangeId>)>, move_map: Seq<(Inode, String)>) -> Option<Seq<char>> {
    match existing {
        Some(e) => inode_filename_spec(txn, e.0, move_map),
        None => None,
    }
}

/// Gives the file of `item` its inode under the name `file_name` in its
/// parent. A file with no known inode gets `fresh`; a known one keeps its
/// inode. A known file whose current path is where it must be stays as it
/// is. One that is elsewhere loses its name, is moved to a temporary path
/// (recorded in `move_map` and `actual_moves`, and returned for the working
/// copy), and takes its new name without directory marker. A file that had
/// no name, or no inode, takes its name and, if a directory, its marker.
/// Where another inode holds the name, nothing is placed: that inode is
/// returned, to be deleted before `place_inode`.
pub fn move_or_create(
    txn: &mut Txn,
    item: &OutputItem,
    existing: Option<(Inode, Position<ChangeId>)>,
    path: &str,
    tmp: &mut Option<String>,
    file_name: &str,
    actual_moves: &mut Vec<(String, String)>,
    move_map: &mut Vec<(Inode, String)>,
    fresh: Inode,
) -> (r: MoveOutcome)
    requires
        existing matches Some(e) ==> (name_of(names_view(old(move_map)@), e.0) is Some ==> revtree_of(old(txn).revtree@, e.0) is Some),
    ensures
        r.inode == (match existing { Some(e) => e.0, None => fresh }),
        current_spec(*old(txn), existing, old(move_map)@) is None ==> {
            &&& r.rename is None
            &&& r.marker == item.is_dir
            &&& *final(tmp) == *old(tmp)
            &&& final(actual_moves)@ == old(actual_moves)@
            &&& final(move_map)@ == old(move_map)@
            &&& r.occupant == tree_of(old(txn).tree@, (item.parent, file_name@))
            &&& (r.occupant is Some ==> *final(txn) == *old(txn))
            &&& (r.occupant is None ==> placed(*old(txn), *final(txn), (item.parent, file_name@), r.inode, item.pos, item.is_dir))
        },
        current_spec(*old(txn), existing, old(move_map)@) == Some(actual_spec(*old(tmp), path@)) ==> {
            &&& r.rename is None
            &&& r.occupant is None
            &&& *final(txn) == *old(txn)
            &&& *final(tmp) == *old(tmp)
            &&& final(actual_moves)@ == old(actual_moves)@
            &&& final(move_map)@ == old(move_map)@
        },
        current_spec(*old(txn), existing, old(move_map)@) is Some && current_spec(*old(txn), existing, old(move_map)@).unwrap()
            != actual_spec(*old(tmp), path@) ==> {
            let cur = current_spec(*old(txn), existing, old(move_map)@).unwrap();
            let inode = existing.unwrap().0;
            let moved = push_spec(parent_spec(actual_spec(*old(tmp), path@)), temp_basename_spec(item.pos));
            let name = revtree_of(old(txn).revtree@, inode).unwrap();
            let tree0 = without(tree_view(old(txn).tree@), (name, inode));
            let revtree0 = without(revtree_view(old(txn).revtree@), (inode, name));
            &&& r.rename matches Some(m) && m.0@ == cur && m.1@ == moved
            &&& !r.marker
            &&& *final(tmp) matches Some(t) && t@ == moved
            &&& final(actual_moves)@.len() == old(actual_moves)@.len() + 1
            &&& final(actual_moves)@.drop_last() == old(actual_moves)@
            &&& final(actual_moves)@.last().0@ == moved && final(actual_moves)@.last().1@ == actual_spec(*old(tmp), path@)
            &&& forall|i: Inode| #[trigger] name_of(names_view(final(move_map)@), i)
                == (if i == inode { Some(moved) } else { name_of(names_view(old(move_map)@), i) })
            &&& r.occupant == tree_name_of(tree0, (item.parent, file_name@))
            &&& final(txn).inodes@ == (if r.occupant is Some { old(txn).inodes@ } else { old(txn).inodes@.push((inode, item.pos)) })
            &&& final(txn).revinodes@ == (if r.occupant is Some { old(txn).revinodes@ } else { old(txn).revinodes@.push((item.pos, inode)) })
            &&& tree_view(final(txn).tree@) == (if r.occupant is Some { tree0 } else { tree0.push(((item.parent, file_name@), inode)) })
            &&& revtree_view(final(txn).revtree@) == (if r.occupant is Some { revtree0 } else { revtree0.push((inode, (item.parent, file_name@))) })
            &&& final(txn).internal == old(txn).internal
        },
{
    let file_id = OwnedPathId { parent_inode: item.parent, basename: String::from_str(file_name) };
    assert(file_id@ == (item.parent, file_name@));
    let current = match existing {
        Some(e) => inode_filename(txn, e.0, move_map),
        None => None,
    };
    match (existing, current) {
        (Some(e), Some(cur)) => {
            let inode = e.0;
            let ghost tmp0 = *tmp;
            let actual: String = match tmp {
                Some(t) => t.clone(),
                None => String::from_str(path),
            };
            assert(actual@ == actual_spec(tmp0, path@));
            if str_eq(cur.as_str(), actual.as_str()) {
                return MoveOutcome { inode, rename: None, occupant: None, marker: false };
            }
            *tmp = None;
            proof {
                if name_of(names_view(move_map@), inode) is None {
                    lemma_components_named(txn.revtree@, names_view(move_map@), inode, (txn.revtree@.len() + 1) as nat);
                }
            }
            let name = txn.get_revtree(inode).unwrap();
            txn.del_tree_with_rev(&name, inode);
            let s = temp_basename(item.pos);
            let mut moved = parent(actual.as_str());
            push(&mut moved, s.as_str());
            let ghost map0 = names_view(move_map@);
            move_map.insert(0, (inode, moved.clone()));
            proof {
                assert forall|i: Inode| #[trigger] name_of(names_view(move_map@), i)
                    == (if i == inode { Some(moved@) } else { name_of(map0, i) }) by {
                    assert(names_view(move_map@)[0] == (inode, moved@));
                    assert(names_view(move_map@).drop_first() =~= map0);
                }
            }
            actual_moves.push((moved.clone(), actual));
            *tmp = Some(moved.clone());
            let occupant = txn.get_tree(&file_id);
            proof {
                lemma_tree_of_view(txn.tree@, file_id@);
            }
            if occupant.is_none() {
                txn.put_inodes_with_rev(inode, item.pos);
                txn.put_tree_with_rev(&file_id, inode);
            }
            MoveOutcome { inode, rename: Some((cur, moved)), occupant, marker: false }
        },
        _ => {
            let inode = match existing {
                Some(e) => e.0,
                None => fresh,
            };
            let occupant = txn.get_tree(&file_id);
            if occupant.is_none() {
                place_inode(txn, &file_id, inode, item.pos, item.is_dir);
            }
            MoveOutcome { inode, rename: None, occupant, marker: item.is_dir }
        },
    }
}

/// The multiple-name conflicts of the vertices output, in order: one for
/// each inode output under more than one name, with its path, its position,
/// its names and their changes' hashes.
pub open spec fn multiple_names_spec(txn: Txn, done: Seq<(Position<ChangeId>, Vertex<ChangeId>, Seq<char>, Seq<Vertex<ChangeId>>)>) -> Seq<
    (Seq<char>, Position<ChangeId>, Seq<Vertex<ChangeId>>, Seq<ChangeHash>),
>
    decreases done.len(),
{
    if done.len() == 0 {
        Seq::empty()
    } else {
        let rest = multiple_names_spec(txn, done.drop_last());
        let d = done.last();
        if d.3.len() == 0 {
            rest
        } else {
            rest.push((d.2, d.0, d.3, d.3.map_values(|v: Vertex<ChangeId>| external_of(txn.internal@, v.change).unwrap())))
        }
    }
}

/// A multiple-name conflict, as values.
pub open spec fn multiple_names_view(c: Conflict) -> (Seq<char>, Position<ChangeId>, Seq<Vertex<ChangeId>>, Seq<ChangeHash>) {
    match c {
        Conflict::MultipleNames { path, pos, names, changes } => (path@, pos@[0], names@, changes@),
        _ => (Seq::empty(), Position { change: ChangeId(0), pos: crate::pristine::ChangePosition(0) }, Seq::empty(), Seq::empty()),
    }
}

/// Every name recorded for a vertex output has a change with a hash.
pub open spec fn names_hashed(txn: Txn, done: Seq<DoneVertex>) -> bool {
    forall|i: int, j: int| 0 <= i < done.len() && 0 <= j < done[i].names@.len()
        ==> external_of(txn.internal@, (#[trigger] done[i].names@[j]).change) is Some
}

/// The end of an output: the conflicts of the inodes output under more
/// than one name (see `multiple_names_spec`), and the moves from temporary
/// paths to final ones, last first, since the walk went depth first.
pub fn finish_output(txn: &Txn, done: &Vec<DoneVertex>, actual_moves: &Vec<(String, String)>) -> (r: (Vec<Conflict>, Vec<(String, String)>))
    requires
        names_hashed(*txn, done@),
    ensures
        r.0@.map_values(|c: Conflict| multiple_names_view(c)) == multiple_names_spec(*txn, dones_view(done@)),
        forall|k: int| 0 <= k < r.0@.len() ==> (#[trigger] r.0@[k]) is MultipleNames,
        r.1@ == actual_moves@.reverse(),
{
    let ghost dv = dones_view(done@);
    let mut conflicts: Vec<Conflict> = Vec::new();
    let mut i: usize = 0;
    while i < done.len()
        invariant
            i <= done@.len(),
            dv == dones_view(done@),
            names_hashed(*txn, done@),
            conflicts@.map_values(|c: Conflict| multiple_names_view(c)) == multiple_names_spec(*txn, dv.take(i as int)),
            forall|k: int| 0 <= k < conflicts@.len() ==> (#[trigger] conflicts@[k]) is MultipleNames,
        decreases done.len() - i,
    {
        assert(dv.take(i + 1).drop_last() =~= dv.take(i as int));
        assert(dv.take(i + 1).last() == done_view(done@[i as int]));
        let d = &done[i];
        if d.names.len() > 0 {
            let mut changes: Vec<ChangeHash> = Vec::new();
            let mut j: usize = 0;
            while j < d.names.len()
                invariant
                    j <= d.names@.len(),
                    forall|y: int| 0 <= y < d.names@.len() ==> external_of(txn.internal@, (#[trigger] d.names@[y]).change) is Some,
                    changes@ == d.names@.take(j as int).map_values(|v: Vertex<ChangeId>| external_of(txn.internal@, v.change).unwrap()),
                decreases d.names.len() - j,
            {
                let h = txn.get_external(d.names[j].change).unwrap();
                changes.push(h);
                assert(d.names@.take(j + 1) =~= d.names@.take(j as int).push(d.names@[j as int]));
                assert(changes@ =~= d.names@.take(j + 1).map_values(|v: Vertex<ChangeId>| external_of(txn.internal@, v.change).unwrap()));
                j = j + 1;
            }
            assert(d.names@.take(j as int) =~= d.names@);
            let ghost c0 = conflicts@;
            let mut names: Vec<Vertex<ChangeId>> = Vec::new();
            let mut y: usize = 0;
            while y < d.names.len()
                invariant
                    y <= d.names@.len(),
                    names@ == d.names@.take(y as int),
                decreases d.names.len() - y,
            {
                names.push(d.names[y]);
                assert(d.names@.take(y + 1) =~= d.names@.take(y as int).push(d.names@[y as int]));
                y = y + 1;
            }
            assert(d.names@.take(y as int) =~= d.names@);
            conflicts.push(Conflict::MultipleNames { path: d.path.clone(), pos: [d.pos], names, changes });
            assert(conflicts@.map_values(|c: Conflict| multiple_names_view(c)) =~= c0.map_values(|c: Conflict| multiple_names_view(c)).push(
                multiple_names_view(conflicts@.last()),
            ));
        }
        i = i + 1;
    }
    assert(dv.take(i as int) =~= dv);
    let mut moves: Vec<(String, String)> = Vec::new();
    let mut k: usize = actual_moves.len();
    while k > 0
        invariant
            k <= actual_moves@.len(),
            moves@ == actual_moves@.skip(k as int).reverse(),
        decreases k,
    {
        let m = (actual_moves[k - 1].0.clone(), actual_moves[k - 1].1.clone());
        assert(m == actual_moves@[k - 1]);
        moves.push(m);
        assert(actual_moves@.skip(k - 1).reverse() =~= actual_moves@.skip(k as int).reverse().push(actual_moves@[k - 1]));
        k = k - 1;
    }
    assert(actual_moves@.skip(0) =~= actual_moves@);
    (conflicts, moves)
}

/// Takes from `item` the changes that make its file a zombie, and gives the
/// conflict of that file at `path`, if it is one.
pub fn zombie_file_conflict(item: &mut OutputItem, path: &str) -> (r: Option<Conflict>)
    ensures
        final(item).is_zombie is None,
        final(item).pos == old(item).pos,
        final(item).parent == old(item).parent,
        final(item).is_dir == old(item).is_dir,
        final(item).path == old(item).path,
        final(item).tmp == old(item).tmp,
        match old(item).is_zombie {
            None => r is None,
            Some(z) => r matches Some(Conflict::ZombieFile { path: p, inode, changes }) && p@ == path@ && inode@ == seq![
                old(item).pos,
            ] && changes@ == z@,
        },
{
    let z = item.is_zombie.take();
    match z {
        None => None,
        Some(changes) => {
            let inode = [item.pos];
            assert(inode@ =~= seq![item.pos]);
            Some(Conflict::ZombieFile { path: String::from_str(path), inode, changes })
        },
    }
}

} // verus!
