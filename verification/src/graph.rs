//! The graph of a channel: a multimap from vertices to edges, with the
//! queries and updates that the algorithms of this crate are built on.
use vstd::prelude::*;
use crate::pristine::{BlockError, ChangeId, Edge, EdgeFlags, Position, Vertex};

verus! {

/// The graph of a channel. Every entry `(v, e)` is an edge `e` leaving `v`.
#[derive(Clone, Debug)]
pub struct Graph {
    pub edges: Vec<(Vertex<ChangeId>, Edge)>,
}

impl View for Graph {
    type V = Seq<(Vertex<ChangeId>, Edge)>;

    open spec fn view(&self) -> Seq<(Vertex<ChangeId>, Edge)> {
        self.edges@
    }
}

/// `g` is consistent: each of its vertices starts no later than it ends,
/// and each of its edges leads to a block of `g`, an edge to a parent to a
/// block that ends at its destination, another edge to a block that starts
/// there.
pub open spec fn lookups_found(g: Seq<(Vertex<ChangeId>, Edge)>) -> bool {
    forall|x: Vertex<ChangeId>, e: Edge| #[trigger] g.contains((x, e)) ==> x.start.0 <= x.end.0 && first_block(g, e.dest, e.flag.parent) is Some
}

/// `v` covers `pos`, at its end or at its start.
pub open spec fn covers(v: Vertex<ChangeId>, pos: Position<ChangeId>, at_end: bool) -> bool {
    if at_end { covers_end(v, pos) } else { covers_start(v, pos) }
}

/// A vertex that covers `pos` makes the lookup of `pos` succeed.
pub proof fn lemma_first_block_covered(g: Seq<(Vertex<ChangeId>, Edge)>, i: int, pos: Position<ChangeId>, at_end: bool)
    requires
        0 <= i < g.len(),
        covers(g[i].0, pos, at_end),
    ensures
        first_block(g, pos, at_end) is Some,
    decreases i,
{
    if i > 0 && !covers(g[0].0, pos, at_end) {
        assert(g.drop_first()[i - 1] == g[i]);
        lemma_first_block_covered(g.drop_first(), i - 1, pos, at_end);
    }
}

/// Adding an entry at the end of `g` keeps every lookup that succeeds.
pub proof fn lemma_first_block_push(g: Seq<(Vertex<ChangeId>, Edge)>, x: (Vertex<ChangeId>, Edge), pos: Position<ChangeId>, at_end: bool)
    requires
        first_block(g, pos, at_end) is Some,
    ensures
        first_block(g.push(x), pos, at_end) == first_block(g, pos, at_end),
    decreases g.len(),
{
    assert(g.push(x)[0] == g[0]);
    if !covers(g[0].0, pos, at_end) {
        assert(g.push(x).drop_first() == g.drop_first().push(x));
        lemma_first_block_push(g.drop_first(), x, pos, at_end);
    }
}

/// Inserting an entry keeps every lookup that succeeds.
pub proof fn lemma_first_block_insert_once(g: Seq<(Vertex<ChangeId>, Edge)>, x: (Vertex<ChangeId>, Edge), pos: Position<ChangeId>, at_end: bool)
    requires
        first_block(g, pos, at_end) is Some,
    ensures
        first_block(insert_once(g, x), pos, at_end) == first_block(g, pos, at_end),
{
    if !g.contains(x) {
        lemma_first_block_push(g, x, pos, at_end);
    }
}

/// Adding an edge, not to a parent, between two well-formed vertices, with
/// its reverse, keeps a graph consistent.
pub proof fn lemma_put_with_rev_lookups(g: Seq<(Vertex<ChangeId>, Edge)>, flag: EdgeFlags, a: Vertex<ChangeId>, b: Vertex<ChangeId>, intro: ChangeId)
    requires
        lookups_found(g),
        !flag.parent,
        a.start.0 <= a.end.0,
        b.start.0 <= b.end.0,
    ensures
        lookups_found(insert_once(insert_once(g, (a, forward_edge(flag, b, intro))), (b, reverse_edge(flag, a, intro)))),
{
    let x1 = (a, forward_edge(flag, b, intro));
    let x2 = (b, reverse_edge(flag, a, intro));
    let g1 = insert_once(g, x1);
    let g2 = insert_once(g1, x2);
    lemma_insert_once_contains(g, x1, x1);
    lemma_insert_once_contains(g1, x2, x1);
    lemma_insert_once_contains(g1, x2, x2);
    let i1 = choose|i: int| 0 <= i < g2.len() && g2[i] == x1;
    let i2 = choose|i: int| 0 <= i < g2.len() && g2[i] == x2;
    assert(covers(b, b.spec_start_pos(), false));
    assert(covers(a, a.spec_end_pos(), true));
    lemma_first_block_covered(g2, i2, b.spec_start_pos(), false);
    lemma_first_block_covered(g2, i1, a.spec_end_pos(), true);
    assert forall|x: Vertex<ChangeId>, e: Edge| #[trigger] g2.contains((x, e)) implies x.start.0 <= x.end.0 && first_block(
        g2,
        e.dest,
        e.flag.parent,
    ) is Some by {
        lemma_insert_once_contains(g, x1, (x, e));
        lemma_insert_once_contains(g1, x2, (x, e));
        if g.contains((x, e)) {
            lemma_first_block_insert_once(g, x1, e.dest, e.flag.parent);
            lemma_first_block_insert_once(g1, x2, e.dest, e.flag.parent);
        }
    }
}

/// Whether `v` starts at `pos`, or contains it.
pub open spec fn covers_start(v: Vertex<ChangeId>, pos: Position<ChangeId>) -> bool {
    v.change == pos.change && ((v.start.0 <= pos.pos.0 && pos.pos.0 < v.end.0) || (v.start == pos.pos
        && v.end == pos.pos))
}

/// Whether `v` ends at `pos`, or contains the byte just before it.
pub open spec fn covers_end(v: Vertex<ChangeId>, pos: Position<ChangeId>) -> bool {
    v.change == pos.change && ((v.start.0 < pos.pos.0 && pos.pos.0 <= v.end.0) || (v.start == pos.pos
        && v.end == pos.pos))
}

/// The first source vertex of the graph (in storage order) that covers `pos`.
pub open spec fn first_block(g: Seq<(Vertex<ChangeId>, Edge)>, pos: Position<ChangeId>, at_end: bool) -> Option<
    Vertex<ChangeId>,
>
    decreases g.len(),
{
    if g.len() == 0 {
        None
    } else if (if at_end {
        covers_end(g[0].0, pos)
    } else {
        covers_start(g[0].0, pos)
    }) {
        Some(g[0].0)
    } else {
        first_block(g.drop_first(), pos, at_end)
    }
}

/// The edges of `v` whose flags encode to exactly `b`, in storage order.
pub open spec fn edges_with_bits(g: Seq<(Vertex<ChangeId>, Edge)>, v: Vertex<ChangeId>, b: int) -> Seq<Edge>
    decreases g.len(),
{
    if g.len() == 0 {
        Seq::empty()
    } else {
        let rest = edges_with_bits(g.drop_last(), v, b);
        if g.last().0 == v && g.last().1.flag.spec_bits() == b {
            rest.push(g.last().1)
        } else {
            rest
        }
    }
}

/// The edges of `v` whose flags encode to a number in `[lo, hi]`, ordered
/// by that number, and in storage order among equal flags.
pub open spec fn adjacent(g: Seq<(Vertex<ChangeId>, Edge)>, v: Vertex<ChangeId>, lo: int, hi: int) -> Seq<Edge>
    decreases hi - lo + 1,
{
    if hi < lo {
        Seq::empty()
    } else {
        adjacent(g, v, lo, hi - 1) + edges_with_bits(g, v, hi)
    }
}

/// The edges listed by [edges_with_bits] are edges of `v` of encoding `b`.
pub proof fn lemma_edges_with_bits(g: Seq<(Vertex<ChangeId>, Edge)>, v: Vertex<ChangeId>, b: int, k: int)
    requires
        0 <= k < edges_with_bits(g, v, b).len(),
    ensures
        g.contains((v, edges_with_bits(g, v, b)[k])),
        edges_with_bits(g, v, b)[k].flag.spec_bits() == b,
    decreases g.len(),
{
    let rest = edges_with_bits(g.drop_last(), v, b);
    if k < rest.len() {
        lemma_edges_with_bits(g.drop_last(), v, b, k);
        let i = choose|i: int| 0 <= i < g.drop_last().len() && g.drop_last()[i] == (v, rest[k]);
        assert(g[i] == (v, rest[k]));
    } else {
        assert(g[g.len() - 1] == g.last());
    }
}

/// The edges listed by [adjacent] are edges of `v` whose encoding is in
/// `[lo, hi]`.
pub proof fn lemma_adjacent_bits(g: Seq<(Vertex<ChangeId>, Edge)>, v: Vertex<ChangeId>, lo: int, hi: int, k: int)
    requires
        0 <= k < adjacent(g, v, lo, hi).len(),
    ensures
        g.contains((v, adjacent(g, v, lo, hi)[k])),
        lo <= adjacent(g, v, lo, hi)[k].flag.spec_bits() <= hi,
    decreases hi - lo + 1,
{
    if hi >= lo {
        let a = adjacent(g, v, lo, hi - 1);
        if k < a.len() {
            lemma_adjacent_bits(g, v, lo, hi - 1, k);
        } else {
            lemma_edges_with_bits(g, v, hi, k - a.len());
        }
    }
}

/// Every edge of `v` of encoding `b` is listed by [edges_with_bits].
pub proof fn lemma_edges_with_bits_complete(g: Seq<(Vertex<ChangeId>, Edge)>, v: Vertex<ChangeId>, e: Edge)
    requires
        g.contains((v, e)),
    ensures
        edges_with_bits(g, v, e.flag.spec_bits() as int).contains(e),
    decreases g.len(),
{
    let b = e.flag.spec_bits() as int;
    if g.last() == (v, e) {
        let rest = edges_with_bits(g.drop_last(), v, b);
        assert(rest.push(e)[rest.len() as int] == e);
    } else {
        let i = choose|i: int| 0 <= i < g.len() && g[i] == (v, e);
        assert(i < g.len() - 1);
        assert(g.drop_last()[i] == (v, e));
        lemma_edges_with_bits_complete(g.drop_last(), v, e);
        let rest = edges_with_bits(g.drop_last(), v, b);
        let k = choose|k: int| 0 <= k < rest.len() && rest[k] == e;
        if g.last().0 == v && g.last().1.flag.spec_bits() == b {
            assert(rest.push(g.last().1)[k] == e);
        }
    }
}

/// Every edge of `v` whose encoding is in `[lo, hi]` is listed by [adjacent].
pub proof fn lemma_adjacent_complete(g: Seq<(Vertex<ChangeId>, Edge)>, v: Vertex<ChangeId>, lo: int, hi: int, e: Edge)
    requires
        g.contains((v, e)),
        lo <= e.flag.spec_bits() <= hi,
    ensures
        adjacent(g, v, lo, hi).contains(e),
    decreases hi - lo + 1,
{
    if e.flag.spec_bits() == hi {
        lemma_edges_with_bits_complete(g, v, e);
        let s = edges_with_bits(g, v, hi);
        let k = choose|k: int| 0 <= k < s.len() && s[k] == e;
        assert((adjacent(g, v, lo, hi - 1) + s)[adjacent(g, v, lo, hi - 1).len() + k] == e);
    } else {
        lemma_adjacent_complete(g, v, lo, hi - 1, e);
        let a = adjacent(g, v, lo, hi - 1);
        let k = choose|k: int| 0 <= k < a.len() && a[k] == e;
        assert((a + edges_with_bits(g, v, hi))[k] == e);
    }
}

/// Two sets of flags with the same encoding are the same.
pub proof fn lemma_bits_injective(a: EdgeFlags, b: EdgeFlags)
    requires
        a.spec_bits() == b.spec_bits(),
    ensures
        a == b,
{
}

/// Every entry of `old` that is missing from `new` has the flags `flag`, or
/// `flag` and `PARENT` (a reverse edge).
pub open spec fn removed_with_flags(old: Seq<(Vertex<ChangeId>, Edge)>, new: Seq<(Vertex<ChangeId>, Edge)>, flag: EdgeFlags) -> bool {
    forall|x: (Vertex<ChangeId>, Edge)|
        #[trigger] old.contains(x) && !new.contains(x) ==> x.1.flag == flag || x.1.flag == flag.spec_union(
            EdgeFlags { block: false, pseudo: false, folder: false, parent: true, deleted: false },
        )
}

/// Every entry of `old` that is missing from `new` carries the flags `flag`.
pub open spec fn removed_carry(old: Seq<(Vertex<ChangeId>, Edge)>, new: Seq<(Vertex<ChangeId>, Edge)>, flag: EdgeFlags) -> bool {
    forall|x: (Vertex<ChangeId>, Edge)| #[trigger] old.contains(x) && !new.contains(x) ==> x.1.flag.spec_contains(flag)
}

/// Whether the graph holds the entry `(v, e)`.
pub open spec fn has_edge(g: Seq<(Vertex<ChangeId>, Edge)>, v: Vertex<ChangeId>, e: Edge) -> bool {
    g.contains((v, e))
}

/// Whether `v` has an edge whose flag encoding lies in `[lo, hi]` and satisfies `p`.
pub open spec fn has_adjacent(g: Seq<(Vertex<ChangeId>, Edge)>, v: Vertex<ChangeId>, lo: int, hi: int) -> bool {
    exists|i: int|
        0 <= i < g.len() && #[trigger] g[i].0 == v && lo <= g[i].1.flag.spec_bits() <= hi
}

/// A vertex is alive when it is the root, or when it has a non-deleted,
/// non-pseudo parent edge that is a block edge (or the vertex is empty).
pub open spec fn alive_parent_edge(v: Vertex<ChangeId>, e: Edge) -> bool {
    e.flag.parent && !e.flag.deleted && !e.flag.pseudo && (e.flag.block || v.spec_is_empty())
}

pub open spec fn is_alive_spec(g: Seq<(Vertex<ChangeId>, Edge)>, v: Vertex<ChangeId>) -> bool {
    v.spec_is_root() || exists|i: int|
        0 <= i < g.len() && #[trigger] g[i].0 == v && alive_parent_edge(v, g[i].1)
}

/// `g` with every occurrence of `x` removed.
pub open spec fn remove_all(g: Seq<(Vertex<ChangeId>, Edge)>, x: (Vertex<ChangeId>, Edge)) -> Seq<
    (Vertex<ChangeId>, Edge),
>
    decreases g.len(),
{
    if g.len() == 0 {
        g
    } else {
        let rest = remove_all(g.drop_last(), x);
        if g.last() == x {
            rest
        } else {
            rest.push(g.last())
        }
    }
}

/// `g` with `x` added, unless it is already there.
pub open spec fn insert_once(g: Seq<(Vertex<ChangeId>, Edge)>, x: (Vertex<ChangeId>, Edge)) -> Seq<
    (Vertex<ChangeId>, Edge),
> {
    if g.contains(x) {
        g
    } else {
        g.push(x)
    }
}

/// The forward edge from `a` to `b`, as stored under `a`.
pub open spec fn forward_edge(flag: EdgeFlags, b: Vertex<ChangeId>, intro: ChangeId) -> Edge {
    Edge { flag, dest: b.spec_start_pos(), introduced_by: intro }
}

/// The reverse edge from `b` back to `a`, as stored under `b`.
pub open spec fn reverse_edge(flag: EdgeFlags, a: Vertex<ChangeId>, intro: ChangeId) -> Edge {
    Edge { flag: flag.spec_union(EdgeFlags { block: false, pseudo: false, folder: false, parent: true, deleted: false }),
        dest: a.spec_end_pos(), introduced_by: intro }
}

pub proof fn lemma_remove_all_contains(g: Seq<(Vertex<ChangeId>, Edge)>, x: (Vertex<ChangeId>, Edge), y: (Vertex<ChangeId>, Edge))
    ensures
        remove_all(g, x).contains(y) <==> (g.contains(y) && y != x),
    decreases g.len(),
{
    if g.len() > 0 {
        let d = g.drop_last();
        lemma_remove_all_contains(d, x, y);
        let rest = remove_all(d, x);
        let l = g.last();
        if g.contains(y) && y != x {
            let i = choose|i: int| 0 <= i < g.len() && #[trigger] g[i] == y;
            if i < g.len() - 1 {
                assert(d[i] == y);
                assert(rest.contains(y));
                let k = choose|k: int| 0 <= k < rest.len() && #[trigger] rest[k] == y;
                if l != x {
                    assert(rest.push(l)[k] == y);
                }
            } else {
                assert(rest.push(l)[rest.len() as int] == y);
            }
        }
        if remove_all(g, x).contains(y) {
            if l == x {
                assert(rest.contains(y));
            } else {
                let i = choose|i: int| 0 <= i < rest.push(l).len() && #[trigger] rest.push(l)[i] == y;
                if i < rest.len() {
                    assert(rest[i] == y);
                    assert(rest.contains(y));
                } else {
                    assert(g[g.len() - 1] == y);
                }
            }
            if rest.contains(y) {
                let i = choose|i: int| 0 <= i < d.len() && #[trigger] d[i] == y;
                assert(g[i] == y);
            }
        }
    }
}

/// The vertices of the graph: the sources of its entries.
pub open spec fn keys(g: Seq<(Vertex<ChangeId>, Edge)>) -> Set<Vertex<ChangeId>> {
    g.map_values(|x: (Vertex<ChangeId>, Edge)| x.0).to_set()
}

pub proof fn lemma_keys(g: Seq<(Vertex<ChangeId>, Edge)>, v: Vertex<ChangeId>)
    ensures
        keys(g).finite(),
        keys(g).contains(v) <==> exists|i: int| 0 <= i < g.len() && #[trigger] g[i].0 == v,
{
    let m = g.map_values(|x: (Vertex<ChangeId>, Edge)| x.0);
    m.lemma_cardinality_of_set();
    if keys(g).contains(v) {
        let i = choose|i: int| 0 <= i < m.len() && #[trigger] m[i] == v;
        assert(g[i].0 == v);
    }
    if exists|i: int| 0 <= i < g.len() && #[trigger] g[i].0 == v {
        let i = choose|i: int| 0 <= i < g.len() && #[trigger] g[i].0 == v;
        assert(m[i] == v);
    }
}

pub proof fn lemma_first_block_key(g: Seq<(Vertex<ChangeId>, Edge)>, pos: Position<ChangeId>, at_end: bool)
    ensures
        first_block(g, pos, at_end) matches Some(v) ==> keys(g).contains(v) && (if at_end {
            covers_end(v, pos)
        } else {
            covers_start(v, pos)
        }),
    decreases g.len(),
{
    if g.len() > 0 {
        lemma_first_block_key(g.drop_first(), pos, at_end);
        if let Some(v) = first_block(g, pos, at_end) {
            if first_block(g.drop_first(), pos, at_end) == Some(v) && !(if at_end { covers_end(g[0].0, pos) } else { covers_start(g[0].0, pos) }) {
                lemma_keys(g.drop_first(), v);
                let i = choose|i: int| 0 <= i < g.drop_first().len() && #[trigger] g.drop_first()[i].0 == v;
                assert(g[i + 1].0 == v);
            } else {
                assert(g[0].0 == v);
            }
            lemma_keys(g, v);
        }
    }
}

/// Every entry of `a` is an entry of `b`.
pub open spec fn sub_graph(a: Seq<(Vertex<ChangeId>, Edge)>, b: Seq<(Vertex<ChangeId>, Edge)>) -> bool {
    forall|x: (Vertex<ChangeId>, Edge)| a.contains(x) ==> b.contains(x)
}

pub proof fn lemma_remove_all_sub(g: Seq<(Vertex<ChangeId>, Edge)>, x: (Vertex<ChangeId>, Edge))
    ensures
        sub_graph(remove_all(g, x), g),
        !remove_all(g, x).contains(x),
{
    assert forall|y: (Vertex<ChangeId>, Edge)| remove_all(g, x).contains(y) implies g.contains(y) by {
        lemma_remove_all_contains(g, x, y);
    }
    lemma_remove_all_contains(g, x, x);
}

pub proof fn lemma_insert_once_contains(g: Seq<(Vertex<ChangeId>, Edge)>, x: (Vertex<ChangeId>, Edge), y: (Vertex<ChangeId>, Edge))
    ensures
        insert_once(g, x).contains(y) <==> (g.contains(y) || y == x),
{
    if !g.contains(x) {
        if g.push(x).contains(y) {
            let i = choose|i: int| 0 <= i < g.push(x).len() && #[trigger] g.push(x)[i] == y;
            if i < g.len() {
                assert(g[i] == y);
            }
        }
        if g.contains(y) {
            let i = choose|i: int| 0 <= i < g.len() && #[trigger] g[i] == y;
            assert(g.push(x)[i] == y);
        }
        assert(g.push(x)[g.len() as int] == x);
    }
}

/// Every entry of `new` is in `old` or was introduced by the root change
/// with flags `flag` or `flag | PARENT`; every entry of `old` is in `new`.
pub open spec fn grows_by_root(old: Seq<(Vertex<ChangeId>, Edge)>, new: Seq<(Vertex<ChangeId>, Edge)>, flag: EdgeFlags) -> bool {
    &&& sub_graph(old, new)
    &&& forall|x: (Vertex<ChangeId>, Edge)| new.contains(x) ==> old.contains(x) || (x.1.introduced_by.spec_is_root() && (
        x.1.flag == flag || x.1.flag == flag.spec_union(EdgeFlags { block: false, pseudo: false, folder: false, parent: true, deleted: false })))
    &&& forall|x: (Vertex<ChangeId>, Edge)| #[trigger] new.contains(x) && !old.contains(x) ==> added_with_reverse(new, x, flag)
}

/// The entry `x` of `g` is one of a pair of edges of flag `flag` between two
/// vertices, forward and back, both in `g`.
pub open spec fn added_with_reverse(g: Seq<(Vertex<ChangeId>, Edge)>, x: (Vertex<ChangeId>, Edge), flag: EdgeFlags) -> bool {
    exists|a: Vertex<ChangeId>, b: Vertex<ChangeId>|
        #![trigger g.contains((a, forward_edge(flag, b, x.1.introduced_by))), g.contains((b, reverse_edge(flag, a, x.1.introduced_by)))]
        g.contains((a, forward_edge(flag, b, x.1.introduced_by))) && g.contains((b, reverse_edge(flag, a, x.1.introduced_by)))
            && (x == (a, forward_edge(flag, b, x.1.introduced_by)) || x == (b, reverse_edge(flag, a, x.1.introduced_by)))
}

/// Every entry of `new` is in `old` or was introduced by `c` or the root change.
pub open spec fn introduced_since(old: Seq<(Vertex<ChangeId>, Edge)>, new: Seq<(Vertex<ChangeId>, Edge)>, c: ChangeId) -> bool {
    forall|x: (Vertex<ChangeId>, Edge)| new.contains(x) ==> old.contains(x) || x.1.introduced_by == c || x.1.introduced_by.spec_is_root()
}

pub proof fn lemma_put_with_rev_grows(g: Seq<(Vertex<ChangeId>, Edge)>, flag: EdgeFlags, a: Vertex<ChangeId>, b: Vertex<ChangeId>, intro: ChangeId)
    ensures
        intro.spec_is_root() ==> grows_by_root(g, insert_once(insert_once(g, (a, forward_edge(flag, b, intro))), (b, reverse_edge(flag, a, intro))), flag),
        sub_graph(g, insert_once(insert_once(g, (a, forward_edge(flag, b, intro))), (b, reverse_edge(flag, a, intro)))),
        introduced_since(g, insert_once(insert_once(g, (a, forward_edge(flag, b, intro))), (b, reverse_edge(flag, a, intro))), intro),
        keys(insert_once(insert_once(g, (a, forward_edge(flag, b, intro))), (b, reverse_edge(flag, a, intro)))) == keys(g).insert(a).insert(b),
{
    let g1 = insert_once(g, (a, forward_edge(flag, b, intro)));
    let g2 = insert_once(g1, (b, reverse_edge(flag, a, intro)));
    assert forall|y: (Vertex<ChangeId>, Edge)| g2.contains(y) <==> (g.contains(y) || y == (a, forward_edge(flag, b, intro)) || y == (b, reverse_edge(flag, a, intro))) by {
        lemma_insert_once_contains(g, (a, forward_edge(flag, b, intro)), y);
        lemma_insert_once_contains(g1, (b, reverse_edge(flag, a, intro)), y);
    }
    assert forall|x: (Vertex<ChangeId>, Edge)| #[trigger] g2.contains(x) && !g.contains(x) implies added_with_reverse(g2, x, flag) by {
        assert(x.1.introduced_by == intro);
        assert(g2.contains((a, forward_edge(flag, b, intro))));
        assert(g2.contains((b, reverse_edge(flag, a, intro))));
    }
    assert forall|v: Vertex<ChangeId>| keys(g2).contains(v) <==> keys(g).insert(a).insert(b).contains(v) by {
        lemma_keys(g2, v);
        lemma_keys(g, v);
        if keys(g2).contains(v) {
            let i = choose|i: int| 0 <= i < g2.len() && #[trigger] g2[i].0 == v;
            assert(g2.contains(g2[i]));
            if g.contains(g2[i]) {
                let j = choose|j: int| 0 <= j < g.len() && #[trigger] g[j] == g2[i];
                assert(g[j].0 == v);
            }
        }
        if keys(g).contains(v) {
            let i = choose|i: int| 0 <= i < g.len() && #[trigger] g[i].0 == v;
            assert(g.contains(g[i]));
            assert(g2.contains(g[i]));
            let j = choose|j: int| 0 <= j < g2.len() && #[trigger] g2[j] == g[i];
            assert(g2[j].0 == v);
        }
        if v == a {
            assert(g2.contains((a, forward_edge(flag, b, intro))));
            let j = choose|j: int| 0 <= j < g2.len() && #[trigger] g2[j] == (a, forward_edge(flag, b, intro));
            assert(g2[j].0 == v);
        }
        if v == b {
            assert(g2.contains((b, reverse_edge(flag, a, intro))));
            let j = choose|j: int| 0 <= j < g2.len() && #[trigger] g2[j] == (b, reverse_edge(flag, a, intro));
            assert(g2[j].0 == v);
        }
    }
    assert(keys(g2) =~= keys(g).insert(a).insert(b));
}

pub proof fn lemma_grows_by_root_trans(a: Seq<(Vertex<ChangeId>, Edge)>, b: Seq<(Vertex<ChangeId>, Edge)>, c: Seq<(Vertex<ChangeId>, Edge)>, flag: EdgeFlags)
    requires
        grows_by_root(a, b, flag),
        grows_by_root(b, c, flag),
    ensures
        grows_by_root(a, c, flag),
{
    assert forall|x: (Vertex<ChangeId>, Edge)| #[trigger] c.contains(x) && !a.contains(x) implies added_with_reverse(c, x, flag) by {
        if b.contains(x) {
            assert(added_with_reverse(b, x, flag));
            let (u, w) = choose|u: Vertex<ChangeId>, w: Vertex<ChangeId>|
                #![trigger b.contains((u, forward_edge(flag, w, x.1.introduced_by))), b.contains((w, reverse_edge(flag, u, x.1.introduced_by)))]
                b.contains((u, forward_edge(flag, w, x.1.introduced_by))) && b.contains((w, reverse_edge(flag, u, x.1.introduced_by)))
                    && (x == (u, forward_edge(flag, w, x.1.introduced_by)) || x == (w, reverse_edge(flag, u, x.1.introduced_by)));
            assert(c.contains((u, forward_edge(flag, w, x.1.introduced_by))));
            assert(c.contains((w, reverse_edge(flag, u, x.1.introduced_by))));
        }
    }
}

pub proof fn lemma_grows_by_root_refl(a: Seq<(Vertex<ChangeId>, Edge)>, flag: EdgeFlags)
    ensures
        grows_by_root(a, a, flag),
{
}

pub proof fn lemma_del_with_rev_sub(g: Seq<(Vertex<ChangeId>, Edge)>, flag: EdgeFlags, a: Vertex<ChangeId>, b: Vertex<ChangeId>, intro: ChangeId)
    ensures
        sub_graph(remove_all(remove_all(g, (a, forward_edge(flag, b, intro))), (b, reverse_edge(flag, a, intro))), g),
{
    lemma_remove_all_sub(g, (a, forward_edge(flag, b, intro)));
    lemma_remove_all_sub(remove_all(g, (a, forward_edge(flag, b, intro))), (b, reverse_edge(flag, a, intro)));
}

/// The pairs of elements of `s` and `t`.
pub open spec fn pairs(s: Set<Vertex<ChangeId>>, t: Set<Vertex<ChangeId>>) -> Set<(Vertex<ChangeId>, Vertex<ChangeId>)> {
    Set::new(|p: (Vertex<ChangeId>, Vertex<ChangeId>)| s.contains(p.0) && t.contains(p.1))
}

pub proof fn lemma_pairs_finite(s: Set<Vertex<ChangeId>>, t: Set<Vertex<ChangeId>>)
    requires
        s.finite(),
        t.finite(),
    ensures
        pairs(s, t).finite(),
    decreases s.len(),
{
    if s.len() == 0 {
        assert(s =~= Set::empty()) by {
            if exists|x: Vertex<ChangeId>| s.contains(x) {
                let x = choose|x: Vertex<ChangeId>| s.contains(x);
                vstd::set::axiom_set_remove_len(s, x);
            }
        }
        assert(pairs(s, t) =~= Set::empty());
    } else {
        let x = s.choose();
        lemma_pairs_finite(s.remove(x), t);
        let f = |b: Vertex<ChangeId>| (x, b);
        t.lemma_map_finite(f);
        assert(pairs(s, t) =~= pairs(s.remove(x), t).union(t.map(f))) by {
            assert forall|p: (Vertex<ChangeId>, Vertex<ChangeId>)| pairs(s, t).contains(p) implies pairs(s.remove(x), t).union(t.map(f)).contains(p) by {
                if p.0 == x {
                    assert(f(p.1) == p);
                }
            }
        }
    }
}

impl Graph {
    pub fn new() -> (r: Graph)
        ensures
            r@ == Seq::<(Vertex<ChangeId>, Edge)>::empty(),
    {
        Graph { edges: Vec::new() }
    }

    /// Whether the graph holds the entry `(v, e)`.
    pub fn get_graph(&self, v: &Vertex<ChangeId>, e: &Edge) -> (r: bool)
        ensures
            r == has_edge(self@, *v, *e),
    {
        let mut i: usize = 0;
        while i < self.edges.len()
            invariant
                0 <= i <= self.edges.len(),
                forall|j: int| 0 <= j < i ==> self@[j] != (*v, *e),
            decreases self.edges.len() - i,
        {
            if self.edges[i].0 == *v && self.edges[i].1 == *e {
                assert(self@[i as int] == (*v, *e));
                return true;
            }
            i = i + 1;
        }
        false
    }

    /// Whether `v` has at least one edge, i.e. whether it is a vertex of the graph.
    pub fn has_vertex(&self, v: &Vertex<ChangeId>) -> (r: bool)
        ensures
            r == (exists|i: int| 0 <= i < self@.len() && #[trigger] self@[i].0 == *v),
    {
        let mut i: usize = 0;
        while i < self.edges.len()
            invariant
                0 <= i <= self.edges.len(),
                forall|j: int| 0 <= j < i ==> self@[j].0 != *v,
            decreases self.edges.len() - i,
        {
            if self.edges[i].0 == *v {
                assert(self@[i as int].0 == *v);
                return true;
            }
            i = i + 1;
        }
        false
    }

    /// Adds the entry `(v, e)` unless it is already there. Returns whether it was added.
    pub fn put_graph(&mut self, v: Vertex<ChangeId>, e: Edge) -> (r: bool)
        ensures
            final(self)@ == insert_once(old(self)@, (v, e)),
            r == !old(self)@.contains((v, e)),
    {
        if self.get_graph(&v, &e) {
            assert(old(self)@.contains((v, e))) by {
                let i = choose|i: int| 0 <= i < old(self)@.len() && #[trigger] old(self)@[i] == (v, e);
            }
            false
        } else {
            assert(!old(self)@.contains((v, e)));
            self.edges.push((v, e));
            true
        }
    }

    /// Removes every occurrence of the entry `(v, e)`. Returns whether one was there.
    pub fn del_graph(&mut self, v: Vertex<ChangeId>, e: Edge) -> (r: bool)
        ensures
            final(self)@ == remove_all(old(self)@, (v, e)),
            r == old(self)@.contains((v, e)),
    {
        let ghost g = self@;
        let mut kept: Vec<(Vertex<ChangeId>, Edge)> = Vec::new();
        let mut found = false;
        let mut i: usize = 0;
        while i < self.edges.len()
            invariant
                0 <= i <= self.edges.len(),
                self@ == g,
                kept@ == remove_all(g.take(i as int), (v, e)),
                found == g.take(i as int).contains((v, e)),
            decreases self.edges.len() - i,
        {
            let x = self.edges[i];
            assert(g.take(i + 1).drop_last() == g.take(i as int));
            if x.0 == v && x.1 == e {
                found = true;
                assert(g.take(i + 1)[i as int] == (v, e));
            } else {
                kept.push(x);
                assert(g.take(i + 1).contains((v, e)) ==> g.take(i as int).contains((v, e))) by {
                    if g.take(i + 1).contains((v, e)) {
                        let k = choose|k: int| 0 <= k < i + 1 && #[trigger] g.take(i + 1)[k] == (v, e);
                        assert(g.take(i as int)[k] == (v, e));
                    }
                }
            }
            assert(g.take(i as int).contains((v, e)) ==> g.take(i + 1).contains((v, e))) by {
                if g.take(i as int).contains((v, e)) {
                    let k = choose|k: int| 0 <= k < i && #[trigger] g.take(i as int)[k] == (v, e);
                    assert(g.take(i + 1)[k] == (v, e));
                }
            }
            i = i + 1;
        }
        assert(g.take(g.len() as int) == g);
        self.edges = kept;
        found
    }

    /// The edges of `v` whose flag encoding lies between those of `min` and `max`,
    /// ordered by flag encoding.
    pub fn iter_adjacent(&self, v: Vertex<ChangeId>, min: EdgeFlags, max: EdgeFlags) -> (r: Vec<Edge>)
        ensures
            r@ == adjacent(self@, v, min.spec_bits() as int, max.spec_bits() as int),
    {
        let lo = min.bits();
        let hi = max.bits();
        let mut r: Vec<Edge> = Vec::new();
        if hi < lo {
            return r;
        }
        let mut b: u16 = lo as u16;
        while b <= hi as u16
            invariant
                lo <= b <= hi as int + 1,
                lo == min.spec_bits(),
                hi == max.spec_bits(),
                r@ == adjacent(self@, v, lo as int, b - 1),
            decreases hi as int + 1 - b,
        {
            let ghost before = r@;
            let mut i: usize = 0;
            while i < self.edges.len()
                invariant
                    0 <= i <= self.edges.len(),
                    lo <= b <= hi,
                    r@ == before + edges_with_bits(self@.take(i as int), v, b as int),
                decreases self.edges.len() - i,
            {
                let x = self.edges[i];
                assert(self@.take(i + 1).drop_last() == self@.take(i as int));
                if x.0 == v && x.1.flag.bits() as u16 == b {
                    r.push(x.1);
                    assert(r@ == before + edges_with_bits(self@.take(i + 1), v, b as int));
                }
                i = i + 1;
            }
            assert(self@.take(self@.len() as int) == self@);
            b = b + 1;
        }
        r
    }

    /// The first vertex of the graph that contains `pos` (starting at or after its start).
    pub fn find_block(&self, pos: Position<ChangeId>) -> (r: Result<Vertex<ChangeId>, BlockError>)
        ensures
            match first_block(self@, pos, false) {
                Some(v) => r == Ok::<Vertex<ChangeId>, BlockError>(v),
                None => r == Err::<Vertex<ChangeId>, BlockError>(BlockError { block: pos }),
            },
    {
        self.find(pos, false)
    }

    /// The first vertex of the graph that contains the byte before `pos` (or is empty at `pos`).
    pub fn find_block_end(&self, pos: Position<ChangeId>) -> (r: Result<Vertex<ChangeId>, BlockError>)
        ensures
            match first_block(self@, pos, true) {
                Some(v) => r == Ok::<Vertex<ChangeId>, BlockError>(v),
                None => r == Err::<Vertex<ChangeId>, BlockError>(BlockError { block: pos }),
            },
    {
        self.find(pos, true)
    }

    fn find(&self, pos: Position<ChangeId>, at_end: bool) -> (r: Result<Vertex<ChangeId>, BlockError>)
        ensures
            match first_block(self@, pos, at_end) {
                Some(v) => r == Ok::<Vertex<ChangeId>, BlockError>(v),
                None => r == Err::<Vertex<ChangeId>, BlockError>(BlockError { block: pos }),
            },
    {
        let mut i: usize = 0;
        assert(self@.skip(0) == self@);
        while i < self.edges.len()
            invariant
                0 <= i <= self.edges.len(),
                first_block(self@, pos, at_end) == first_block(self@.skip(i as int), pos, at_end),
            decreases self.edges.len() - i,
        {
            let v = self.edges[i].0;
            let covers = if at_end {
                v.change == pos.change && ((v.start.0 < pos.pos.0 && pos.pos.0 <= v.end.0) || (
                v.start.0 == pos.pos.0 && v.end.0 == pos.pos.0))
            } else {
                v.change == pos.change && ((v.start.0 <= pos.pos.0 && pos.pos.0 < v.end.0) || (
                v.start.0 == pos.pos.0 && v.end.0 == pos.pos.0))
            };
            assert(self@.skip(i as int)[0] == self@[i as int]);
            if covers {
                return Ok(v);
            }
            assert(self@.skip(i as int).drop_first() == self@.skip(i + 1));
            i = i + 1;
        }
        Err(BlockError { block: pos })
    }

    /// Whether `v` is alive: the root, or the target of a live parent edge.
    pub fn is_alive(&self, v: &Vertex<ChangeId>) -> (r: bool)
        ensures
            r == is_alive_spec(self@, *v),
    {
        if v.is_root() {
            return true;
        }
        let mut i: usize = 0;
        while i < self.edges.len()
            invariant
                0 <= i <= self.edges.len(),
                !v.spec_is_root(),
                forall|j: int| 0 <= j < i ==> !(self@[j].0 == *v && alive_parent_edge(*v, #[trigger] self@[j].1)),
            decreases self.edges.len() - i,
        {
            let (w, e) = self.edges[i];
            if w == *v && e.flag.parent && !e.flag.deleted && !e.flag.pseudo && (e.flag.block
                || v.is_empty()) {
                assert(self@[i as int].0 == *v);
                return true;
            }
            i = i + 1;
        }
        assert forall|j: int| 0 <= j < self@.len() && #[trigger] self@[j].0 == *v implies !alive_parent_edge(*v, self@[j].1) by {}
        false
    }

    /// Whether `v` has an edge whose flag encoding lies between those of `min` and `max`.
    pub fn has_adjacent(&self, v: Vertex<ChangeId>, min: EdgeFlags, max: EdgeFlags) -> (r: bool)
        ensures
            r == has_adjacent(self@, v, min.spec_bits() as int, max.spec_bits() as int),
    {
        let lo = min.bits();
        let hi = max.bits();
        let mut i: usize = 0;
        while i < self.edges.len()
            invariant
                0 <= i <= self.edges.len(),
                lo == min.spec_bits(),
                hi == max.spec_bits(),
                forall|j: int| 0 <= j < i ==> !(#[trigger] self@[j].0 == v && lo <= self@[j].1.flag.spec_bits() <= hi),
            decreases self.edges.len() - i,
        {
            let (w, e) = self.edges[i];
            let b = e.flag.bits();
            if w == v && lo <= b && b <= hi {
                assert(self@[i as int].0 == v);
                return true;
            }
            i = i + 1;
        }
        false
    }
}

/// Adds the edge `a -> b` with flags `flag`, and its reverse `b -> a` with
/// flags `flag | PARENT`, both introduced by `intro`.
pub fn put_graph_with_rev(g: &mut Graph, flag: EdgeFlags, a: Vertex<ChangeId>, b: Vertex<ChangeId>, intro: ChangeId) -> (r: bool)
    ensures
        final(g)@ == insert_once(insert_once(old(g)@, (a, forward_edge(flag, b, intro))), (b, reverse_edge(flag, a, intro))),
        r == (!old(g)@.contains((a, forward_edge(flag, b, intro))) && !insert_once(old(g)@, (a, forward_edge(flag, b, intro))).contains((b, reverse_edge(flag, a, intro)))),
{
    let e1 = Edge { flag, dest: b.start_pos(), introduced_by: intro };
    let x = g.put_graph(a, e1);
    let e2 = Edge { flag: flag.union(EdgeFlags::parent()), dest: a.end_pos(), introduced_by: intro };
    let y = g.put_graph(b, e2);
    x && y
}

/// Removes the edge `a -> b` with flags `flag` and its reverse `b -> a`
/// with flags `flag | PARENT`, both introduced by `intro`.
pub fn del_graph_with_rev(g: &mut Graph, flag: EdgeFlags, a: Vertex<ChangeId>, b: Vertex<ChangeId>, intro: ChangeId) -> (r: bool)
    ensures
        final(g)@ == remove_all(remove_all(old(g)@, (a, forward_edge(flag, b, intro))), (b, reverse_edge(flag, a, intro))),
        r == (old(g)@.contains((a, forward_edge(flag, b, intro))) && remove_all(old(g)@, (a, forward_edge(flag, b, intro))).contains((b, reverse_edge(flag, a, intro)))),
{
    let e1 = Edge { flag, dest: b.start_pos(), introduced_by: intro };
    let x = g.del_graph(a, e1);
    let e2 = Edge { flag: flag.union(EdgeFlags::parent()), dest: a.end_pos(), introduced_by: intro };
    let y = g.del_graph(b, e2);
    x && y
}

} // verus!
