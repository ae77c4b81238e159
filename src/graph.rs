//! The molecular graph: placed radicals (nodes) joined by bonds.
//!
//! Bonds are not stored apart: each end lists the identifier of the other,
//! once per unit of bond order, so a double bond is listed twice on each side.

use vstd::prelude::*;
use crate::radical::{UiRadical, valence_of};

verus! {

/// The identifier of a placed radical: an opaque 128-bit token.
pub type Id = u128;

/// Where a node is drawn: the bit patterns of its two display coordinates.
/// The graph carries positions and never reads them.
#[derive(Debug, Clone, Copy, PartialEq, Eq, Structural, Hash)]
pub struct Position {
    pub x: u32,
    pub y: u32,
}

/// A placed radical: a node of the graph. Copy one with `duplicate`.
#[derive(Debug)]
pub struct UiBlock {
    pub pos: Position,
    pub radical: UiRadical,
    /// The identifiers at the far end of each bond unit of this node.
    pub links: Vec<Id>,
    pub id: Id,
}

/// What a node is, mathematically.
pub struct NodeView {
    pub id: Id,
    pub radical: UiRadical,
    pub pos: Position,
    pub links: Seq<Id>,
}

impl View for UiBlock {
    type V = NodeView;

    open spec fn view(&self) -> NodeView {
        NodeView { id: self.id, radical: self.radical, pos: self.pos, links: self.links@ }
    }
}

/// Failures of the graph operations.
#[derive(Debug, Clone, Copy, PartialEq, Eq, Structural)]
pub enum GraphError {
    /// No node of the graph has this identifier.
    NotFound(Id),
    /// A node with this identifier is already in the graph.
    DuplicateIdentifier(Id),
    /// A bond was asked between a node and itself.
    SelfBond(Id),
    /// The connected component under analysis contains a cycle.
    CycleDetected,
}

/// The graph held by a sequence of blocks.
pub open spec fn graph_of(bs: Seq<UiBlock>) -> Seq<NodeView> {
    Seq::new(bs.len(), |i: int| bs[i]@)
}

/// Whether some node of `g` has identifier `id`.
pub open spec fn has_id(g: Seq<NodeView>, id: Id) -> bool {
    exists|i: int| 0 <= i < g.len() && g[i].id == id
}

/// The first position of `g` that holds identifier `id`.
#[verifier::opaque]
pub open spec fn index_of(g: Seq<NodeView>, id: Id) -> int {
    choose|i: int| 0 <= i < g.len() && g[i].id == id && forall|j: int| 0 <= j < i ==> g[j].id != id
}

/// The node of `g` with identifier `id`.
pub open spec fn node_of(g: Seq<NodeView>, id: Id) -> NodeView {
    g[index_of(g, id)]
}

/// How many times `x` occurs in `s`.
pub open spec fn refs(s: Seq<Id>, x: Id) -> nat {
    s.to_multiset().count(x)
}

/// No two nodes share an identifier.
pub open spec fn unique_ids(g: Seq<NodeView>) -> bool {
    forall|i: int, j: int|
        0 <= i < g.len() && 0 <= j < g.len() && #[trigger] g[i].id == #[trigger] g[j].id ==> i == j
}

/// Every bond reference names another node of the graph.
pub open spec fn links_present(g: Seq<NodeView>) -> bool {
    forall|i: int, k: int|
        0 <= i < g.len() && 0 <= k < g[i].links.len() ==> has_id(g, #[trigger] g[i].links[k])
            && g[i].links[k] != g[i].id
}

/// Each node lists another exactly as many times as that one lists it.
pub open spec fn symmetric(g: Seq<NodeView>) -> bool {
    forall|i: int, j: int|
        0 <= i < g.len() && 0 <= j < g.len() ==> refs(#[trigger] g[i].links, g[j].id) == refs(
            #[trigger] g[j].links,
            g[i].id,
        )
}

/// The invariant of a graph: unique identifiers, no bond to a missing node
/// or to the node itself, and bonds listed symmetrically.
#[verifier::opaque]
pub open spec fn well_formed(g: Seq<NodeView>) -> bool {
    &&& unique_ids(g)
    &&& links_present(g)
    &&& symmetric(g)
}

/// With unique identifiers, the node with a given identifier is found at
/// any position that holds it.
pub proof fn lemma_index_of_unique(g: Seq<NodeView>, i: int)
    requires
        unique_ids(g),
        0 <= i < g.len(),
    ensures
        index_of(g, g[i].id) == i,
        has_id(g, g[i].id),
{
    reveal(index_of);
    let id = g[i].id;
    assert(forall|j: int| 0 <= j < i ==> g[j].id != id);
    let k = index_of(g, id);
    assert(g[k].id == g[i].id);
}

/// The position of the first block with identifier `id`.
pub(crate) fn position_of(blocks: &[UiBlock], id: Id) -> (r: Option<usize>)
    ensures
        match r {
            Some(i) => {
                &&& i < blocks@.len()
                &&& blocks@[i as int].id == id
                &&& forall|j: int| 0 <= j < i ==> blocks@[j].id != id
                &&& i == index_of(graph_of(blocks@), id)
            },
            None => !has_id(graph_of(blocks@), id),
        },
        r is Some <==> has_id(graph_of(blocks@), id),
{
    let ghost g = graph_of(blocks@);
    let mut i: usize = 0;
    while i < blocks.len()
        invariant
            i <= blocks@.len(),
            g == graph_of(blocks@),
            forall|j: int| 0 <= j < i ==> blocks@[j].id != id,
        decreases blocks@.len() - i,
    {
        if blocks[i].id == id {
            reveal(index_of);
            assert(g[i as int].id == id);
            assert(forall|j: int| 0 <= j < i ==> g[j].id == blocks@[j].id);
            let ghost k = index_of(g, id);
            assert(g[k].id == id);
            return Some(i);
        }
        i += 1;
    }
    assert(forall|j: int| 0 <= j < blocks@.len() ==> g[j].id == blocks@[j].id);
    None
}

/// The node with identifier `id`.
pub fn get_block_unchecked(blocks: &[UiBlock], id: Id) -> (r: Result<&UiBlock, GraphError>)
    ensures
        match r {
            Ok(b) => has_id(graph_of(blocks@), id) && b@ == node_of(graph_of(blocks@), id),
            Err(e) => !has_id(graph_of(blocks@), id) && e == GraphError::NotFound(id),
        },
{
    match position_of(blocks, id) {
        Some(i) => Ok(&blocks[i]),
        None => Err(GraphError::NotFound(id)),
    }
}

/// Mutable access to the node with identifier `id`.
pub fn get_block_unchecked_mut(blocks: &mut Vec<UiBlock>, id: Id) -> (r: Result<
    &mut UiBlock,
    GraphError,
>)
    ensures
        has_id(graph_of(old(blocks)@), id) <==> r is Ok,
        r is Err ==> r == Err::<&mut UiBlock, GraphError>(GraphError::NotFound(id)) && final(blocks)@
            == old(blocks)@,
        r is Ok ==> {
            let i = index_of(graph_of(old(blocks)@), id);
            &&& 0 <= i < old(blocks)@.len()
            &&& *r->Ok_0 == old(blocks)@[i]
            &&& final(blocks)@ == old(blocks)@.update(i, *final(r->Ok_0))
        },
{
    match position_of(blocks.as_slice(), id) {
        Some(i) => Ok(&mut blocks[i]),
        None => Err(GraphError::NotFound(id)),
    }
}

/// The test that keeps every identifier but `d`.
pub open spec fn differs(d: Id) -> spec_fn(Id) -> bool {
    |l: Id| l != d
}

/// `s` with every occurrence of `d` taken out, order kept.
pub open spec fn without(s: Seq<Id>, d: Id) -> Seq<Id> {
    s.filter(differs(d))
}

/// `n` with every bond reference to `d` taken out.
pub open spec fn strip_node(n: NodeView, d: Id) -> NodeView {
    NodeView { links: without(n.links, d), ..n }
}

/// Every node of `g` with its bond references to `d` taken out.
pub open spec fn strip_all(g: Seq<NodeView>, d: Id) -> Seq<NodeView> {
    Seq::new(g.len(), |i: int| strip_node(g[i], d))
}

/// `g` after the node `id` is removed and the bonds to it severed.
pub open spec fn node_removed(g: Seq<NodeView>, id: Id) -> Seq<NodeView> {
    strip_all(g.remove(index_of(g, id)), id)
}

/// The first position of `x` in `s`.
#[verifier::opaque]
pub open spec fn first_pos(s: Seq<Id>, x: Id) -> int {
    choose|k: int| 0 <= k < s.len() && s[k] == x && forall|j: int| 0 <= j < k ==> s[j] != x
}

/// `s` with its first occurrence of `x` taken out.
pub open spec fn remove_one(s: Seq<Id>, x: Id) -> Seq<Id> {
    s.remove(first_pos(s, x))
}

/// `g` with one more bond unit between the nodes `a` and `b`.
pub open spec fn link_added(g: Seq<NodeView>, a: Id, b: Id) -> Seq<NodeView> {
    let ia = index_of(g, a);
    let ib = index_of(g, b);
    let g1 = g.update(ia, NodeView { links: g[ia].links.push(b), ..g[ia] });
    g1.update(ib, NodeView { links: g1[ib].links.push(a), ..g1[ib] })
}

/// `g` with one bond unit between the nodes `a` and `b` taken out.
pub open spec fn link_removed(g: Seq<NodeView>, a: Id, b: Id) -> Seq<NodeView> {
    let ia = index_of(g, a);
    let ib = index_of(g, b);
    let g1 = g.update(ia, NodeView { links: remove_one(g[ia].links, b), ..g[ia] });
    g1.update(ib, NodeView { links: remove_one(g1[ib].links, a), ..g1[ib] })
}

/// Whether `a` and `b` are distinct nodes of `g` that list each other.
pub open spec fn bonded(g: Seq<NodeView>, a: Id, b: Id) -> bool {
    &&& has_id(g, a)
    &&& has_id(g, b)
    &&& a != b
    &&& node_of(g, a).links.contains(b)
    &&& node_of(g, b).links.contains(a)
}

pub proof fn lemma_refs_without(s: Seq<Id>, d: Id, x: Id)
    ensures
        refs(without(s, d), x) == if x == d {
            0
        } else {
            refs(s, x)
        },
    decreases s.len(),
{
    broadcast use vstd::seq_lib::group_to_multiset_ensures;

    if s.len() == 0 {
        reveal(Seq::filter);
        assert(without(s, d) =~= s);
    } else {
        let t = s.drop_last();
        lemma_refs_without(t, d, x);
        assert(t.push(s.last()) =~= s);
        t.lemma_filter_push(s.last(), differs(d));
    }
}

proof fn lemma_without_elements(s: Seq<Id>, d: Id)
    ensures
        forall|k: int|
            0 <= k < without(s, d).len() ==> #[trigger] without(s, d)[k] != d && s.contains(
                without(s, d)[k],
            ),
{
    broadcast use vstd::seq_lib::group_filter_ensures, vstd::seq_lib::group_to_multiset_ensures;

    assert forall|k: int| 0 <= k < without(s, d).len() implies #[trigger] without(s, d)[k] != d
        && s.contains(without(s, d)[k]) by {
        let y = without(s, d)[k];
        assert(without(s, d).contains(y));
        lemma_refs_without(s, d, y);
    }
}

proof fn lemma_first_pos(s: Seq<Id>, x: Id, p: int)
    requires
        0 <= p < s.len(),
        s[p] == x,
        forall|j: int| 0 <= j < p ==> s[j] != x,
    ensures
        first_pos(s, x) == p,
{
    reveal(first_pos);
    let k = first_pos(s, x);
    assert(0 <= k < s.len() && s[k] == x);
}

proof fn lemma_remove_one_elements(s: Seq<Id>, x: Id)
    requires
        s.contains(x),
    ensures
        0 <= first_pos(s, x) < s.len(),
        s[first_pos(s, x)] == x,
        forall|y: Id| #[trigger] refs(remove_one(s, x), y) == refs(s, y) - if y == x {
            1int
        } else {
            0int
        },
        forall|k: int| 0 <= k < remove_one(s, x).len() ==> s.contains(#[trigger] remove_one(s, x)[k]),
{
    broadcast use vstd::seq_lib::group_to_multiset_ensures;

    let k0 = choose|k: int| 0 <= k < s.len() && s[k] == x;
    let p = lemma_first_of(s, x, k0);
    lemma_first_pos(s, x, p);
    assert forall|k: int| 0 <= k < remove_one(s, x).len() implies s.contains(
        #[trigger] remove_one(s, x)[k],
    ) by {
        if k < p {
            assert(remove_one(s, x)[k] == s[k]);
        } else {
            assert(remove_one(s, x)[k] == s[k + 1]);
        }
    }
}

/// Some occurrence of `x` in `s` has none before it.
proof fn lemma_first_of(s: Seq<Id>, x: Id, k: int) -> (p: int)
    requires
        0 <= k < s.len(),
        s[k] == x,
    ensures
        0 <= p <= k,
        s[p] == x,
        forall|j: int| 0 <= j < p ==> s[j] != x,
    decreases k,
{
    if exists|j: int| 0 <= j < k && s[j] == x {
        let j = choose|j: int| 0 <= j < k && s[j] == x;
        lemma_first_of(s, x, j)
    } else {
        k
    }
}

/// Removing a node and severing its bonds keeps a graph well formed, and
/// leaves no reference to the removed identifier.
pub proof fn lemma_node_removed_wf(g: Seq<NodeView>, id: Id)
    requires
        well_formed(g),
        has_id(g, id),
    ensures
        well_formed(node_removed(g, id)),
        !has_id(node_removed(g, id), id),
        node_removed(g, id).len() == g.len() - 1,
        forall|j: int|
            0 <= j < node_removed(g, id).len() ==> !(#[trigger] node_removed(g, id)[j]).links.contains(
                id,
            ),
{
    reveal(well_formed);
    let i = index_of(g, id);
    let w = choose|w: int| 0 <= w < g.len() && g[w].id == id;
    lemma_index_of_unique(g, w);
    let h = node_removed(g, id);
    let r = g.remove(i);
    assert forall|j: int| 0 <= j < h.len() implies #[trigger] h[j].id != id
        && h[j] == strip_node(r[j], id) by {
        if j < i {
            assert(r[j] == g[j]);
        } else {
            assert(r[j] == g[j + 1]);
        }
    }
    assert forall|j: int, k: int|
        0 <= j < h.len() && 0 <= k < h[j].links.len() implies has_id(h, #[trigger] h[j].links[k])
        && h[j].links[k] != h[j].id by {
        lemma_without_elements(r[j].links, id);
        let l = h[j].links[k];
        assert(r[j].links.contains(l));
        let kk = choose|kk: int| 0 <= kk < r[j].links.len() && r[j].links[kk] == l;
        let jo = if j < i { j } else { j + 1 };
        assert(g[jo].links[kk] == l);
        let m = choose|m: int| 0 <= m < g.len() && g[m].id == l;
        let mn = if m < i { m } else { m - 1 };
        assert(h[mn].id == l);
    }
    assert forall|p: int, q: int| 0 <= p < h.len() && 0 <= q < h.len() implies refs(
        #[trigger] h[p].links,
        h[q].id,
    ) == refs(#[trigger] h[q].links, h[p].id) by {
        let po = if p < i { p } else { p + 1 };
        let qo = if q < i { q } else { q + 1 };
        lemma_refs_without(g[po].links, id, g[qo].id);
        lemma_refs_without(g[qo].links, id, g[po].id);
    }
    assert forall|p: int, q: int|
        0 <= p < h.len() && 0 <= q < h.len() && #[trigger] h[p].id == #[trigger] h[q].id implies p
        == q by {
        let po = if p < i { p } else { p + 1 };
        let qo = if q < i { q } else { q + 1 };
        assert(g[po].id == g[qo].id);
    }
    assert forall|j: int| 0 <= j < h.len() implies !(#[trigger] h[j]).links.contains(id) by {
        lemma_without_elements(r[j].links, id);
    }
}

/// `links` with every occurrence of `d` taken out.
fn links_without(links: &Vec<Id>, d: Id) -> (r: Vec<Id>)
    ensures
        r@ == without(links@, d),
{
    let mut kept: Vec<Id> = Vec::new();
    let mut k: usize = 0;
    while k < links.len()
        invariant
            k <= links@.len(),
            kept@ == without(links@.subrange(0, k as int), d),
        decreases links@.len() - k,
    {
        let l = links[k];
        proof {
            let s = links@;
            assert(s.subrange(0, k + 1) =~= s.subrange(0, k as int).push(l));
            s.subrange(0, k as int).lemma_filter_push(l, differs(d));
        }
        if l != d {
            kept.push(l);
        }
        k += 1;
    }
    assert(links@.subrange(0, k as int) =~= links@);
    kept
}

/// Severs every bond reference to `del_id` from the nodes in `blocks`.
pub fn remove_hanging_links(blocks: &mut Vec<UiBlock>, del_id: Id)
    ensures
        graph_of(final(blocks)@) == strip_all(graph_of(old(blocks)@), del_id),
{
    let ghost g0 = graph_of(old(blocks)@);
    let n = blocks.len();
    let mut i: usize = 0;
    while i < n
        invariant
            n == blocks@.len(),
            n == g0.len(),
            i <= n,
            forall|j: int| 0 <= j < i ==> #[trigger] blocks@[j]@ == strip_node(g0[j], del_id),
            forall|j: int| i <= j < n ==> #[trigger] blocks@[j]@ == g0[j],
        decreases n - i,
    {
        assert(blocks@[i as int]@ == g0[i as int]);
        let kept = links_without(&blocks[i].links, del_id);
        blocks[i].links = kept;
        assert(blocks@[i as int].links@ == without(g0[i as int].links, del_id));
        i += 1;
    }
    assert(graph_of(blocks@) =~= strip_all(g0, del_id));
}

/// Removes the node `id` and severs every bond to it; returns the removed
/// node as it stood, bonds included.
pub fn remove_node(blocks: &mut Vec<UiBlock>, id: Id) -> (r: Result<UiBlock, GraphError>)
    ensures
        r is Ok <==> has_id(graph_of(old(blocks)@), id),
        r is Ok ==> {
            &&& r->Ok_0@ == node_of(graph_of(old(blocks)@), id)
            &&& graph_of(final(blocks)@) == node_removed(graph_of(old(blocks)@), id)
        },
        r is Err ==> r->Err_0 == GraphError::NotFound(id) && final(blocks)@ == old(blocks)@,
        well_formed(graph_of(old(blocks)@)) ==> well_formed(graph_of(final(blocks)@)),
{
    let ghost g0 = graph_of(blocks@);
    match position_of(blocks.as_slice(), id) {
        Some(i) => {
            let b = blocks.remove(i);
            assert(graph_of(blocks@) =~= g0.remove(i as int));
            remove_hanging_links(blocks, id);
            proof {
                if well_formed(g0) {
                    lemma_node_removed_wf(g0, id);
                }
            }
            Ok(b)
        },
        None => Err(GraphError::NotFound(id)),
    }
}

/// The positions of the two distinct nodes `id_a` and `id_b`, for editing
/// the bond between them.
pub fn get_two_blocks_unchecked_mut(blocks: &[UiBlock], id_a: Id, id_b: Id) -> (r: Result<
    (usize, usize),
    GraphError,
>)
    ensures
        match r {
            Ok((ia, ib)) => {
                &&& has_id(graph_of(blocks@), id_a)
                &&& has_id(graph_of(blocks@), id_b)
                &&& id_a != id_b
                &&& ia == index_of(graph_of(blocks@), id_a)
                &&& ib == index_of(graph_of(blocks@), id_b)
                &&& ia < blocks@.len() && ib < blocks@.len() && ia != ib
            },
            Err(e) => {
                &&& !has_id(graph_of(blocks@), id_a) ==> e == GraphError::NotFound(id_a)
                &&& has_id(graph_of(blocks@), id_a) && !has_id(graph_of(blocks@), id_b) ==> e
                    == GraphError::NotFound(id_b)
                &&& has_id(graph_of(blocks@), id_a) && has_id(graph_of(blocks@), id_b) ==> id_a
                    == id_b && e == GraphError::SelfBond(id_a)
            },
        },
{
    let ia = match position_of(blocks, id_a) {
        Some(i) => i,
        None => return Err(GraphError::NotFound(id_a)),
    };
    let ib = match position_of(blocks, id_b) {
        Some(i) => i,
        None => return Err(GraphError::NotFound(id_b)),
    };
    if id_a == id_b {
        return Err(GraphError::SelfBond(id_a));
    }
    assert(blocks@[ia as int].id == id_a);
    Ok((ia, ib))
}

proof fn lemma_refs_push(s: Seq<Id>, x: Id)
    ensures
        forall|y: Id| #[trigger] refs(s.push(x), y) == refs(s, y) + if x == y {
            1nat
        } else {
            0nat
        },
{
    broadcast use vstd::seq_lib::group_to_multiset_ensures;

}

/// The positions that `link_added` changes, and how.
proof fn lemma_link_added_shape(g: Seq<NodeView>, a: Id, b: Id) -> (pos: (int, int))
    requires
        unique_ids(g),
        has_id(g, a),
        has_id(g, b),
        a != b,
    ensures
        0 <= pos.0 < g.len() && g[pos.0].id == a && pos.0 == index_of(g, a),
        0 <= pos.1 < g.len() && g[pos.1].id == b && pos.1 == index_of(g, b),
        link_added(g, a, b).len() == g.len(),
        forall|j: int|
            0 <= j < g.len() ==> (#[trigger] link_added(g, a, b)[j]).id == g[j].id
                && link_added(g, a, b)[j].radical == g[j].radical && link_added(g, a, b)[j].pos
                == g[j].pos,
        link_added(g, a, b)[pos.0].links == g[pos.0].links.push(b),
        link_added(g, a, b)[pos.1].links == g[pos.1].links.push(a),
        forall|j: int|
            0 <= j < g.len() && j != pos.0 && j != pos.1 ==> (#[trigger] link_added(g, a, b)[j])
                == g[j],
{
    let wa = choose|w: int| 0 <= w < g.len() && g[w].id == a;
    lemma_index_of_unique(g, wa);
    let wb = choose|w: int| 0 <= w < g.len() && g[w].id == b;
    lemma_index_of_unique(g, wb);
    let g1 = g.update(wa, NodeView { links: g[wa].links.push(b), ..g[wa] });
    let h = g1.update(wb, NodeView { links: g1[wb].links.push(a), ..g1[wb] });
    assert(h == link_added(g, a, b));
    assert(g1[wb] == g[wb]);
    (wa, wb)
}

/// Adding a bond unit between two distinct nodes keeps a graph well formed.
pub proof fn lemma_link_added_wf(g: Seq<NodeView>, a: Id, b: Id)
    requires
        well_formed(g),
        has_id(g, a),
        has_id(g, b),
        a != b,
    ensures
        well_formed(link_added(g, a, b)),
{
    reveal(well_formed);
    let (ia, ib) = lemma_link_added_shape(g, a, b);
    let h = link_added(g, a, b);
    lemma_refs_push(g[ia].links, b);
    lemma_refs_push(g[ib].links, a);
    assert forall|p: int, q: int|
        0 <= p < h.len() && 0 <= q < h.len() && #[trigger] h[p].id == #[trigger] h[q].id implies p
        == q by {
        assert(g[p].id == g[q].id);
    }
    assert forall|j: int, k: int|
        0 <= j < h.len() && 0 <= k < h[j].links.len() implies has_id(h, #[trigger] h[j].links[k])
        && h[j].links[k] != h[j].id by {
        let l = h[j].links[k];
        if j == ia && k == g[j].links.len() {
            assert(h[ib].id == b);
        } else if j == ib && k == g[j].links.len() {
            assert(h[ia].id == a);
        } else {
            assert(l == g[j].links[k]);
            assert(has_id(g, g[j].links[k]));
            let m = choose|m: int| 0 <= m < g.len() && g[m].id == l;
            assert(h[m].id == l);
        }
    }
    assert forall|p: int, q: int| 0 <= p < h.len() && 0 <= q < h.len() implies refs(
        #[trigger] h[p].links,
        h[q].id,
    ) == refs(#[trigger] h[q].links, h[p].id) by {
        assert(refs(g[p].links, g[q].id) == refs(g[q].links, g[p].id));
    }
}

/// Appends `x` to the bond references of the block at position `i`.
fn push_link(blocks: &mut Vec<UiBlock>, i: usize, x: Id)
    requires
        i < old(blocks)@.len(),
    ensures
        final(blocks)@.len() == old(blocks)@.len(),
        graph_of(final(blocks)@) == graph_of(old(blocks)@).update(
            i as int,
            NodeView { links: old(blocks)@[i as int].links@.push(x), ..old(blocks)@[i as int]@ },
        ),
{
    blocks[i].links.push(x);
    assert(graph_of(blocks@) =~= graph_of(old(blocks)@).update(
        i as int,
        NodeView { links: old(blocks)@[i as int].links@.push(x), ..old(blocks)@[i as int]@ },
    ));
}

proof fn lemma_link_added_at(g: Seq<NodeView>, a: Id, b: Id, ia: int, ib: int)
    requires
        ia == index_of(g, a),
        ib == index_of(g, b),
        0 <= ia < g.len(),
        0 <= ib < g.len(),
        ia != ib,
    ensures
        link_added(g, a, b) == g.update(
            ia,
            NodeView { links: g[ia].links.push(b), ..g[ia] },
        ).update(ib, NodeView { links: g[ib].links.push(a), ..g[ib] }),
{
}

/// Adds one bond unit between the nodes `id_a` and `id_b`; a second call
/// makes the bond double.
pub fn add_link(blocks: &mut Vec<UiBlock>, id_a: Id, id_b: Id) -> (r: Result<(), GraphError>)
    ensures
        r is Ok <==> (has_id(graph_of(old(blocks)@), id_a) && has_id(graph_of(old(blocks)@), id_b)
            && id_a != id_b),
        r is Ok ==> graph_of(final(blocks)@) == link_added(graph_of(old(blocks)@), id_a, id_b),
        r is Err ==> final(blocks)@ == old(blocks)@,
        r is Err && !has_id(graph_of(old(blocks)@), id_a) ==> r->Err_0 == GraphError::NotFound(
            id_a,
        ),
        r is Err && has_id(graph_of(old(blocks)@), id_a) && !has_id(graph_of(old(blocks)@), id_b)
            ==> r->Err_0 == GraphError::NotFound(id_b),
        r is Err && has_id(graph_of(old(blocks)@), id_a) && has_id(graph_of(old(blocks)@), id_b)
            ==> r->Err_0 == GraphError::SelfBond(id_a),
        well_formed(graph_of(old(blocks)@)) ==> well_formed(graph_of(final(blocks)@)),
{
    let ghost g0 = graph_of(blocks@);
    match get_two_blocks_unchecked_mut(blocks.as_slice(), id_a, id_b) {
        Ok((ia, ib)) => {
            push_link(blocks, ia, id_b);
            let ghost g1 = graph_of(blocks@);
            assert(g1[ib as int] == g0[ib as int]);
            push_link(blocks, ib, id_a);
            proof {
                lemma_link_added_at(g0, id_a, id_b, ia as int, ib as int);
            }
            proof {
                if well_formed(g0) {
                    lemma_link_added_wf(g0, id_a, id_b);
                }
            }
            Ok(())
        },
        Err(e) => Err(e),
    }
}

/// The first position of `x` in `links`.
fn position_in(links: &Vec<Id>, x: Id) -> (r: Option<usize>)
    ensures
        r is Some <==> links@.contains(x),
        r is Some ==> r->Some_0 < links@.len() && r->Some_0 == first_pos(links@, x) && links@[r->Some_0 as int] == x,
{
    let mut k: usize = 0;
    while k < links.len()
        invariant
            k <= links@.len(),
            forall|j: int| 0 <= j < k ==> links@[j] != x,
        decreases links@.len() - k,
    {
        if links[k] == x {
            proof {
                lemma_first_pos(links@, x, k as int);
            }
            return Some(k);
        }
        k += 1;
    }
    None
}

/// Takes out the bond reference at position `k` of the block at position `i`.
fn remove_link_at(blocks: &mut Vec<UiBlock>, i: usize, k: usize)
    requires
        i < old(blocks)@.len(),
        k < old(blocks)@[i as int].links@.len(),
    ensures
        final(blocks)@.len() == old(blocks)@.len(),
        graph_of(final(blocks)@) == graph_of(old(blocks)@).update(
            i as int,
            NodeView { links: old(blocks)@[i as int].links@.remove(k as int), ..old(blocks)@[i as int]@ },
        ),
{
    blocks[i].links.remove(k);
    assert(graph_of(blocks@) =~= graph_of(old(blocks)@).update(
        i as int,
        NodeView { links: old(blocks)@[i as int].links@.remove(k as int), ..old(blocks)@[i as int]@ },
    ));
}

proof fn lemma_link_removed_at(g: Seq<NodeView>, a: Id, b: Id, ia: int, ib: int, pa: int, pb: int)
    requires
        ia == index_of(g, a),
        ib == index_of(g, b),
        0 <= ia < g.len(),
        0 <= ib < g.len(),
        ia != ib,
        pa == first_pos(g[ia].links, b),
        pb == first_pos(g[ib].links, a),
    ensures
        link_removed(g, a, b) == g.update(
            ia,
            NodeView { links: g[ia].links.remove(pa), ..g[ia] },
        ).update(ib, NodeView { links: g[ib].links.remove(pb), ..g[ib] }),
{
}

/// Taking out one bond unit between two bonded nodes keeps a graph well formed.
pub proof fn lemma_link_removed_wf(g: Seq<NodeView>, a: Id, b: Id)
    requires
        well_formed(g),
        bonded(g, a, b),
    ensures
        well_formed(link_removed(g, a, b)),
{
    reveal(well_formed);
    let wa = choose|w: int| 0 <= w < g.len() && g[w].id == a;
    lemma_index_of_unique(g, wa);
    let wb = choose|w: int| 0 <= w < g.len() && g[w].id == b;
    lemma_index_of_unique(g, wb);
    let sa = g[wa].links;
    let sb = g[wb].links;
    lemma_remove_one_elements(sa, b);
    lemma_remove_one_elements(sb, a);
    let h = link_removed(g, a, b);
    lemma_link_removed_at(g, a, b, wa, wb, first_pos(sa, b), first_pos(sb, a));
    assert(h.len() == g.len());
    assert forall|j: int| 0 <= j < h.len() implies (#[trigger] h[j]).id == g[j].id && (j != wa
        && j != wb ==> h[j] == g[j]) by {}
    assert(h[wa].links == remove_one(sa, b));
    assert(h[wb].links == remove_one(sb, a));
    assert forall|p: int, q: int|
        0 <= p < h.len() && 0 <= q < h.len() && #[trigger] h[p].id == #[trigger] h[q].id implies p
        == q by {
        assert(g[p].id == g[q].id);
    }
    assert forall|j: int, k: int|
        0 <= j < h.len() && 0 <= k < h[j].links.len() implies has_id(h, #[trigger] h[j].links[k])
        && h[j].links[k] != h[j].id by {
        let l = h[j].links[k];
        assert(g[j].links.contains(l));
        let kk = choose|kk: int| 0 <= kk < g[j].links.len() && g[j].links[kk] == l;
        assert(has_id(g, g[j].links[kk]));
        let m = choose|m: int| 0 <= m < g.len() && g[m].id == l;
        assert(h[m].id == l);
    }
    assert forall|p: int, q: int| 0 <= p < h.len() && 0 <= q < h.len() implies refs(
        #[trigger] h[p].links,
        h[q].id,
    ) == refs(#[trigger] h[q].links, h[p].id) by {
        assert(refs(g[p].links, g[q].id) == refs(g[q].links, g[p].id));
    }
}

/// Takes out one bond unit between the nodes `id_a` and `id_b`. Returns
/// whether there was one to take out; when either side lacks the reference
/// nothing changes.
pub fn remove_link(blocks: &mut Vec<UiBlock>, id_a: Id, id_b: Id) -> (r: Result<bool, GraphError>)
    ensures
        r is Ok <==> has_id(graph_of(old(blocks)@), id_a) && has_id(graph_of(old(blocks)@), id_b),
        r == Ok::<bool, GraphError>(true) <==> bonded(graph_of(old(blocks)@), id_a, id_b),
        r == Ok::<bool, GraphError>(true) ==> graph_of(final(blocks)@) == link_removed(
            graph_of(old(blocks)@),
            id_a,
            id_b,
        ),
        r != Ok::<bool, GraphError>(true) ==> final(blocks)@ == old(blocks)@,
        !has_id(graph_of(old(blocks)@), id_a) ==> r == Err::<bool, GraphError>(
            GraphError::NotFound(id_a),
        ),
        has_id(graph_of(old(blocks)@), id_a) && !has_id(graph_of(old(blocks)@), id_b) ==> r
            == Err::<bool, GraphError>(GraphError::NotFound(id_b)),
        well_formed(graph_of(old(blocks)@)) ==> well_formed(graph_of(final(blocks)@)),
{
    let ghost g0 = graph_of(blocks@);
    let (ia, ib) = match get_two_blocks_unchecked_mut(blocks.as_slice(), id_a, id_b) {
        Ok(p) => p,
        Err(GraphError::SelfBond(_)) => return Ok(false),
        Err(e) => return Err(e),
    };
    assert(g0[ia as int] == node_of(g0, id_a));
    assert(g0[ib as int] == node_of(g0, id_b));
    let pa = position_in(&blocks[ia].links, id_b);
    let pb = position_in(&blocks[ib].links, id_a);
    match (pa, pb) {
        (Some(ka), Some(kb)) => {
            remove_link_at(blocks, ia, ka);
            let ghost g1 = graph_of(blocks@);
            assert(g1[ib as int] == g0[ib as int]);
            remove_link_at(blocks, ib, kb);
            proof {
                lemma_link_removed_at(g0, id_a, id_b, ia as int, ib as int, ka as int, kb as int);
                if well_formed(g0) {
                    lemma_link_removed_wf(g0, id_a, id_b);
                }
            }
            Ok(true)
        },
        _ => Ok(false),
    }
}

/// The bond references of a node `self_id` that are kept when it is added
/// to `g`: those that name another node of `g`.
pub open spec fn kept_ref(g: Seq<NodeView>, self_id: Id) -> spec_fn(Id) -> bool {
    |l: Id| l != self_id && has_id(g, l)
}

/// The bond references that node `n` keeps when it is added to `g`.
pub open spec fn kept_links(g: Seq<NodeView>, n: NodeView) -> Seq<Id> {
    n.links.filter(kept_ref(g, n.id))
}

/// `c` copies of `x`.
pub open spec fn repeat(x: Id, c: nat) -> Seq<Id> {
    Seq::new(c, |_i: int| x)
}

/// `n` listing `x` `c` more times.
pub open spec fn with_refs(n: NodeView, x: Id, c: nat) -> NodeView {
    NodeView { links: n.links + repeat(x, c), ..n }
}

/// `g` after node `n` is appended with the references it keeps, each of its
/// partners listing it back once per reference.
pub open spec fn node_added(g: Seq<NodeView>, n: NodeView) -> Seq<NodeView> {
    let kept = kept_links(g, n);
    Seq::new(
        g.len(),
        |i: int| with_refs(g[i], n.id, refs(kept, g[i].id)),
    ).push(NodeView { links: kept, ..n })
}

pub proof fn lemma_refs_concat_repeat(s: Seq<Id>, x: Id, c: nat)
    ensures
        forall|y: Id| #[trigger] refs(s + repeat(x, c), y) == refs(s, y) + if x == y {
            c
        } else {
            0nat
        },
    decreases c,
{
    if c == 0 {
        assert(s + repeat(x, c) =~= s);
    } else {
        lemma_refs_concat_repeat(s, x, (c - 1) as nat);
        assert(s + repeat(x, c) =~= (s + repeat(x, (c - 1) as nat)).push(x));
        lemma_refs_push(s + repeat(x, (c - 1) as nat), x);
    }
}

/// Adding a node whose identifier is new keeps a graph well formed.
pub proof fn lemma_node_added_wf(g: Seq<NodeView>, n: NodeView)
    requires
        well_formed(g),
        !has_id(g, n.id),
    ensures
        well_formed(node_added(g, n)),
        has_id(node_added(g, n), n.id),
{
    broadcast use vstd::seq_lib::group_filter_ensures, vstd::seq_lib::group_to_multiset_ensures;

    reveal(well_formed);
    let h = node_added(g, n);
    let kept = kept_links(g, n);
    let nn = g.len() as int;
    assert(h[nn].id == n.id);
    assert forall|k: int| 0 <= k < kept.len() implies #[trigger] kept[k] != n.id && has_id(
        g,
        kept[k],
    ) by {
        assert(kept_ref(g, n.id)(kept[k]));
    }
    assert(refs(kept, n.id) == 0) by {
        if kept.contains(n.id) {
            let k = choose|k: int| 0 <= k < kept.len() && kept[k] == n.id;
        }
    }
    assert forall|p: int| 0 <= p < nn implies refs(#[trigger] g[p].links, n.id) == 0 by {
        if g[p].links.contains(n.id) {
            let k = choose|k: int| 0 <= k < g[p].links.len() && g[p].links[k] == n.id;
            assert(has_id(g, g[p].links[k]));
        }
    }
    assert forall|p: int, q: int|
        0 <= p < h.len() && 0 <= q < h.len() && #[trigger] h[p].id == #[trigger] h[q].id implies p
        == q by {
        if p < nn && q < nn {
            assert(g[p].id == g[q].id);
        }
    }
    assert forall|j: int, k: int|
        0 <= j < h.len() && 0 <= k < h[j].links.len() implies has_id(h, #[trigger] h[j].links[k])
        && h[j].links[k] != h[j].id by {
        let l = h[j].links[k];
        if j == nn {
            assert(has_id(g, kept[k]));
            let m = choose|m: int| 0 <= m < g.len() && g[m].id == l;
            assert(h[m].id == l);
        } else if k < g[j].links.len() {
            assert(l == g[j].links[k]);
            assert(has_id(g, g[j].links[k]));
            let m = choose|m: int| 0 <= m < g.len() && g[m].id == l;
            assert(h[m].id == l);
        } else {
            assert(l == n.id);
        }
    }
    assert forall|p: int, q: int| 0 <= p < h.len() && 0 <= q < h.len() implies refs(
        #[trigger] h[p].links,
        h[q].id,
    ) == refs(#[trigger] h[q].links, h[p].id) by {
        if p < nn {
            lemma_refs_concat_repeat(g[p].links, n.id, refs(kept, g[p].id));
        }
        if q < nn {
            lemma_refs_concat_repeat(g[q].links, n.id, refs(kept, g[q].id));
        }
        if p < nn && q < nn {
            assert(refs(g[p].links, g[q].id) == refs(g[q].links, g[p].id));
            assert(refs(h[p].links, h[q].id) == refs(g[p].links, g[q].id));
            assert(refs(h[q].links, h[p].id) == refs(g[q].links, g[p].id));
        } else if p < nn {
            assert(refs(h[p].links, n.id) == refs(kept, g[p].id));
        } else if q < nn {
            assert(refs(h[q].links, n.id) == refs(kept, g[q].id));
        }
    }
}

/// Adds `node` to the graph. Each bond reference it carries to another node
/// that is present is kept and listed back on that node; the others are
/// dropped. Fails, changing nothing, when its identifier is taken.
pub fn add_node(blocks: &mut Vec<UiBlock>, node: UiBlock) -> (r: Result<(), GraphError>)
    requires
        well_formed(graph_of(old(blocks)@)),
    ensures
        r is Ok <==> !has_id(graph_of(old(blocks)@), node.id),
        r is Ok ==> graph_of(final(blocks)@) == node_added(graph_of(old(blocks)@), node@),
        r is Err ==> r->Err_0 == GraphError::DuplicateIdentifier(node.id) && final(blocks)@ == old(
            blocks,
        )@,
        well_formed(graph_of(final(blocks)@)),
{
    if position_of(blocks.as_slice(), node.id).is_some() {
        return Err(GraphError::DuplicateIdentifier(node.id));
    }
    let ghost g0 = graph_of(blocks@);
    let ghost pred = kept_ref(g0, node.id);
    proof {
        reveal(well_formed);
    }
    let mut kept: Vec<Id> = Vec::new();
    proof {
        broadcast use vstd::seq_lib::group_to_multiset_ensures;

        assert forall|i: int| 0 <= i < g0.len() implies #[trigger] graph_of(blocks@)[i]
            == with_refs(g0[i], node.id, refs(kept@, g0[i].id)) by {
            assert(!kept@.contains(g0[i].id));
            assert(g0[i].links + repeat(node.id, 0) =~= g0[i].links);
        }
    }
    let mut k: usize = 0;
    while k < node.links.len()
        invariant
            g0.len() == blocks@.len(),
            unique_ids(g0),
            !has_id(g0, node.id),
            pred == kept_ref(g0, node.id),
            k <= node.links@.len(),
            kept@ == node.links@.subrange(0, k as int).filter(pred),
            forall|i: int|
                0 <= i < g0.len() ==> #[trigger] graph_of(blocks@)[i] == with_refs(
                    g0[i],
                    node.id,
                    refs(kept@, g0[i].id),
                ),
        decreases node.links@.len() - k,
    {
        let l = node.links[k];
        proof {
            let s = node.links@;
            assert(s.subrange(0, k + 1) =~= s.subrange(0, k as int).push(l));
            s.subrange(0, k as int).lemma_filter_push(l, pred);
            assert forall|i: int| 0 <= i < g0.len() implies #[trigger] graph_of(blocks@)[i].id
                == g0[i].id by {}
            if has_id(g0, l) {
                let m = choose|m: int| 0 <= m < g0.len() && g0[m].id == l;
                assert(graph_of(blocks@)[m].id == l);
            }
            if has_id(graph_of(blocks@), l) {
                let m = choose|m: int| 0 <= m < g0.len() && graph_of(blocks@)[m].id == l;
                assert(g0[m].id == l);
            }
        }
        if l != node.id {
            match position_of(blocks.as_slice(), l) {
                Some(j) => {
                    let ghost before = graph_of(blocks@);
                    let ghost old_kept = kept@;
                    push_link(blocks, j, node.id);
                    kept.push(l);
                    proof {
                        lemma_refs_push(old_kept, l);
                        assert(before[j as int].id == g0[j as int].id);
                        assert(g0[j as int].id == l);
                        assert forall|i: int| 0 <= i < g0.len() implies #[trigger] graph_of(
                            blocks@,
                        )[i] == with_refs(g0[i], node.id, refs(kept@, g0[i].id)) by {
                            if i == j {
                                assert(before[i] == with_refs(
                                    g0[i],
                                    node.id,
                                    refs(old_kept, g0[i].id),
                                ));
                                assert(g0[i].links + repeat(node.id, refs(kept@, g0[i].id)) =~= (
                                g0[i].links + repeat(node.id, refs(old_kept, g0[i].id))).push(
                                    node.id,
                                ));
                            } else {
                                assert(g0[i].id != l);
                                assert(before[i] == graph_of(blocks@)[i]);
                            }
                        }
                    }
                },
                None => {},
            }
        }
        k += 1;
    }
    proof {
        assert(node.links@.subrange(0, k as int) =~= node.links@);
    }
    let b = UiBlock { pos: node.pos, radical: node.radical, links: kept, id: node.id };
    let ghost before = graph_of(blocks@);
    blocks.push(b);
    proof {
        assert(graph_of(blocks@) =~= before.push(b@));
        assert(before =~= Seq::new(
            g0.len(),
            |i: int| with_refs(g0[i], node.id, refs(kept_links(g0, node@), g0[i].id)),
        ));
        assert(graph_of(blocks@) =~= node_added(g0, node@));
        lemma_node_added_wf(g0, node@);
    }
    Ok(())
}

impl UiBlock {
    /// A copy of this node, bond references included.
    pub fn duplicate(&self) -> (r: UiBlock)
        ensures
            r@ == self@,
    {
        let mut links: Vec<Id> = Vec::new();
        let mut k: usize = 0;
        while k < self.links.len()
            invariant
                k <= self.links@.len(),
                links@ == self.links@.subrange(0, k as int),
            decreases self.links@.len() - k,
        {
            links.push(self.links[k]);
            k += 1;
        }
        assert(links@ =~= self.links@);
        UiBlock { pos: self.pos, radical: self.radical, links, id: self.id }
    }
}

/// `g` with node `id`, if present, moved to `p`.
pub open spec fn pos_set(g: Seq<NodeView>, id: Id, p: Position) -> Seq<NodeView> {
    if has_id(g, id) {
        g.update(index_of(g, id), NodeView { pos: p, ..g[index_of(g, id)] })
    } else {
        g
    }
}

/// Graphs that differ at most in positions are well formed together.
pub proof fn lemma_same_shape_wf(g: Seq<NodeView>, h: Seq<NodeView>)
    requires
        well_formed(g),
        h.len() == g.len(),
        forall|j: int| 0 <= j < g.len() ==> (#[trigger] h[j]).id == g[j].id && h[j].links == g[j].links,
    ensures
        well_formed(h),
{
    reveal(well_formed);
    assert forall|p: int, q: int|
        0 <= p < h.len() && 0 <= q < h.len() && #[trigger] h[p].id == #[trigger] h[q].id implies p
        == q by {
        assert(g[p].id == g[q].id);
    }
    assert forall|j: int, k: int|
        0 <= j < h.len() && 0 <= k < h[j].links.len() implies has_id(h, #[trigger] h[j].links[k])
        && h[j].links[k] != h[j].id by {
        assert(h[j].links[k] == g[j].links[k]);
        assert(has_id(g, g[j].links[k]));
        let m = choose|m: int| 0 <= m < g.len() && g[m].id == h[j].links[k];
        assert(h[m].id == g[m].id);
    }
    assert forall|p: int, q: int| 0 <= p < h.len() && 0 <= q < h.len() implies refs(
        #[trigger] h[p].links,
        h[q].id,
    ) == refs(#[trigger] h[q].links, h[p].id) by {
        assert(refs(g[p].links, g[q].id) == refs(g[q].links, g[p].id));
    }
}

/// Moves node `id` to `pos`.
pub fn set_position(blocks: &mut Vec<UiBlock>, id: Id, pos: Position) -> (r: Result<(), GraphError>)
    ensures
        r is Ok <==> has_id(graph_of(old(blocks)@), id),
        r is Err ==> r->Err_0 == GraphError::NotFound(id),
        graph_of(final(blocks)@) == pos_set(graph_of(old(blocks)@), id, pos),
        well_formed(graph_of(old(blocks)@)) ==> well_formed(graph_of(final(blocks)@)),
{
    let ghost g0 = graph_of(blocks@);
    match position_of(blocks.as_slice(), id) {
        Some(i) => {
            blocks[i].pos = pos;
            assert(graph_of(blocks@) =~= pos_set(g0, id, pos));
            proof {
                if well_formed(g0) {
                    lemma_same_shape_wf(g0, graph_of(blocks@));
                }
            }
            Ok(())
        },
        None => Err(GraphError::NotFound(id)),
    }
}

/// How many times node `a` of `g` lists `b`; none when `a` is absent.
pub open spec fn pair_refs(g: Seq<NodeView>, a: Id, b: Id) -> nat {
    if has_id(g, a) {
        refs(node_of(g, a).links, b)
    } else {
        0
    }
}

/// The order of the bond between `a` and `b`: the references between them,
/// counted from both ends, halved.
pub open spec fn bond_order(g: Seq<NodeView>, a: Id, b: Id) -> nat {
    (pair_refs(g, a, b) + pair_refs(g, b, a)) / 2
}

/// In a well-formed graph the order of a bond is the count from either end.
proof fn lemma_bond_order_one_side(g: Seq<NodeView>, i: int, b: Id)
    requires
        well_formed(g),
        0 <= i < g.len(),
    ensures
        bond_order(g, g[i].id, b) == refs(g[i].links, b),
{
    reveal(well_formed);
    lemma_index_of_unique(g, i);
    if has_id(g, b) {
        let j = choose|j: int| 0 <= j < g.len() && g[j].id == b;
        lemma_index_of_unique(g, j);
        assert(refs(g[i].links, g[j].id) == refs(g[j].links, g[i].id));
    } else {
        broadcast use vstd::seq_lib::group_to_multiset_ensures;

        if g[i].links.contains(b) {
            let k = choose|k: int| 0 <= k < g[i].links.len() && g[i].links[k] == b;
            assert(has_id(g, g[i].links[k]));
        }
    }
}

/// The position of the entry for `l` in `r`.
fn find_partner(r: &Vec<(Id, usize)>, l: Id) -> (res: Option<usize>)
    ensures
        match res {
            Some(q) => q < r@.len() && r@[q as int].0 == l,
            None => forall|q: int| 0 <= q < r@.len() ==> (#[trigger] r@[q]).0 != l,
        },
{
    let mut q: usize = 0;
    while q < r.len()
        invariant
            q <= r@.len(),
            forall|q2: int| 0 <= q2 < q ==> (#[trigger] r@[q2]).0 != l,
        decreases r@.len() - q,
    {
        if r[q].0 == l {
            return Some(q);
        }
        q += 1;
    }
    None
}

/// The partners above `x` in `s`, each with its count, in order of first appearance.
fn tally_partners(s: &Vec<Id>, x: Id) -> (r: Vec<(Id, usize)>)
    ensures
        forall|k: int|
            0 <= k < r@.len() ==> (#[trigger] r@[k]).0 > x && r@[k].1 == refs(s@, r@[k].0)
                && r@[k].1 >= 1,
        forall|k1: int, k2: int|
            0 <= k1 < k2 < r@.len() ==> (#[trigger] r@[k1]).0 != (#[trigger] r@[k2]).0,
        forall|l: Id| l > x && #[trigger] s@.contains(l) ==> exists|k: int| 0 <= k < r@.len() && r@[k].0 == l,
{
    broadcast use vstd::seq_lib::group_to_multiset_ensures;

    let mut r: Vec<(Id, usize)> = Vec::new();
    let mut k: usize = 0;
    while k < s.len()
        invariant
            k <= s@.len(),
            forall|q: int|
                0 <= q < r@.len() ==> (#[trigger] r@[q]).0 > x && r@[q].1 == refs(
                    s@.subrange(0, k as int),
                    r@[q].0,
                ) && r@[q].1 >= 1 && r@[q].1 <= k,
            forall|k1: int, k2: int|
                0 <= k1 < k2 < r@.len() ==> (#[trigger] r@[k1]).0 != (#[trigger] r@[k2]).0,
            forall|l: Id|
                l > x && #[trigger] s@.subrange(0, k as int).contains(l) ==> exists|q: int|
                    0 <= q < r@.len() && r@[q].0 == l,
        decreases s@.len() - k,
    {
        let l = s[k];
        let ghost pre = s@.subrange(0, k as int);
        assert(s@.subrange(0, k + 1) =~= pre.push(l));
        proof {
            lemma_refs_push(pre, l);
        }
        if l > x {
            match find_partner(&r, l) {
                Some(q) => {
                    let (p, c) = r[q];
                    let ghost r0 = r@;
                    r.set(q, (p, c + 1));
                    assert forall|q2: int| 0 <= q2 < r@.len() implies (#[trigger] r@[q2]).0 > x
                        && r@[q2].1 == refs(s@.subrange(0, k + 1), r@[q2].0) && r@[q2].1 >= 1
                        && r@[q2].1 <= k + 1 by {
                        if q2 != q {
                            assert(r@[q2] == r0[q2]);
                        }
                    }
                    assert forall|l2: Id|
                        l2 > x && #[trigger] s@.subrange(0, k + 1).contains(l2) implies exists|q3: int|
                        0 <= q3 < r@.len() && r@[q3].0 == l2 by {
                        if pre.contains(l2) {
                            let q3 = choose|q3: int| 0 <= q3 < r0.len() && r0[q3].0 == l2;
                            assert(r@[q3].0 == l2);
                        } else {
                            assert(l2 == l);
                            assert(r@[q as int].0 == l2);
                        }
                    }
                },
                None => {
                    assert(!pre.contains(l)) by {
                        if pre.contains(l) {
                            let q3 = choose|q3: int| 0 <= q3 < r@.len() && r@[q3].0 == l;
                        }
                    }
                    let ghost r0 = r@;
                    proof {
                        vstd::seq_lib::to_multiset_contains(pre, l);
                    }
                    assert(refs(pre, l) == 0);
                    assert(refs(s@.subrange(0, k + 1), l) == 1);
                    r.push((l, 1));
                    assert forall|q2: int| 0 <= q2 < r@.len() implies (#[trigger] r@[q2]).0 > x
                        && r@[q2].1 == refs(s@.subrange(0, k + 1), r@[q2].0) && r@[q2].1 >= 1
                        && r@[q2].1 <= k + 1 by {
                        if q2 < r0.len() {
                            assert(r@[q2] == r0[q2]);
                        }
                    }
                    assert forall|l2: Id|
                        l2 > x && #[trigger] s@.subrange(0, k + 1).contains(l2) implies exists|q3: int|
                        0 <= q3 < r@.len() && r@[q3].0 == l2 by {
                        if pre.contains(l2) {
                            let q3 = choose|q3: int| 0 <= q3 < r0.len() && r0[q3].0 == l2;
                            assert(r@[q3].0 == l2);
                        } else {
                            assert(r@[r0.len() as int].0 == l2);
                        }
                    }
                },
            }
        } else {
            assert forall|l2: Id|
                l2 > x && #[trigger] s@.subrange(0, k + 1).contains(l2) implies exists|q3: int|
                0 <= q3 < r@.len() && r@[q3].0 == l2 by {
                assert(pre.contains(l2));
            }
        }
        k += 1;
    }
    assert(s@.subrange(0, k as int) =~= s@);
    r
}

impl UiBlock {
    /// Every bond of the graph, once: the two identifiers, the lower first,
    /// and the bond's order.
    pub fn count_links(blocks: &[UiBlock]) -> (r: Vec<(Id, Id, usize)>)
        requires
            well_formed(graph_of(blocks@)),
        ensures
            forall|k: int|
                0 <= k < r@.len() ==> (#[trigger] r@[k]).0 < r@[k].1 && r@[k].2 == bond_order(
                    graph_of(blocks@),
                    r@[k].0,
                    r@[k].1,
                ) && r@[k].2 >= 1,
            forall|k1: int, k2: int|
                0 <= k1 < k2 < r@.len() ==> ((#[trigger] r@[k1]).0, r@[k1].1) != (
                    (#[trigger] r@[k2]).0,
                    r@[k2].1,
                ),
            forall|a: Id, b: Id|
                a < b && #[trigger] bond_order(graph_of(blocks@), a, b) >= 1 ==> exists|k: int|
                    0 <= k < r@.len() && r@[k].0 == a && r@[k].1 == b,
    {
        let ghost g = graph_of(blocks@);
        proof {
            reveal(well_formed);
        }
        let mut r: Vec<(Id, Id, usize)> = Vec::new();
        let mut i: usize = 0;
        while i < blocks.len()
            invariant
                i <= blocks@.len(),
                g == graph_of(blocks@),
                well_formed(g),
                unique_ids(g),
                forall|k: int|
                    0 <= k < r@.len() ==> (#[trigger] r@[k]).0 < r@[k].1 && r@[k].2 == bond_order(
                        g,
                        r@[k].0,
                        r@[k].1,
                    ) && r@[k].2 >= 1 && exists|j: int| 0 <= j < i && g[j].id == r@[k].0,
                forall|k1: int, k2: int|
                    0 <= k1 < k2 < r@.len() ==> ((#[trigger] r@[k1]).0, r@[k1].1) != (
                        (#[trigger] r@[k2]).0,
                        r@[k2].1,
                    ),
                forall|j: int, b: Id|
                    0 <= j < i && g[j].id < b && #[trigger] g[j].links.contains(b) ==> exists|k: int|
                        0 <= k < r@.len() && r@[k].0 == g[j].id && r@[k].1 == b,
            decreases blocks@.len() - i,
        {
            let x = blocks[i].id;
            let partners = tally_partners(&blocks[i].links, x);
            let ghost r_before = r@;
            assert forall|k: int| 0 <= k < r_before.len() implies (#[trigger] r_before[k]).0 != x by {
                assert(r@[k] == r_before[k]);
                let j = choose|j: int| 0 <= j < i && g[j].id == r@[k].0;
                assert(g[j].id != g[i as int].id);
            }
            let mut q: usize = 0;
            while q < partners.len()
                invariant
                    i < blocks@.len(),
                    x == g[i as int].id,
                    g == graph_of(blocks@),
                    well_formed(g),
                    unique_ids(g),
                    q <= partners@.len(),
                    r@.len() == r_before.len() + q,
                    forall|k: int| 0 <= k < r_before.len() ==> r@[k] == r_before[k],
                    forall|k: int| 0 <= k < r_before.len() ==> (#[trigger] r_before[k]).0 != x,
                    forall|k: int|
                        r_before.len() <= k < r@.len() ==> (#[trigger] r@[k]).0 == x && r@[k].1
                            == partners@[k - r_before.len()].0 && r@[k].2 == partners@[k
                            - r_before.len()].1,
                    forall|k: int|
                        0 <= k < partners@.len() ==> (#[trigger] partners@[k]).0 > x
                            && partners@[k].1 == refs(g[i as int].links, partners@[k].0)
                            && partners@[k].1 >= 1,
                    forall|k1: int, k2: int|
                        0 <= k1 < k2 < partners@.len() ==> (#[trigger] partners@[k1]).0 != (
                        #[trigger] partners@[k2]).0,
                    forall|k: int|
                        0 <= k < r@.len() ==> (#[trigger] r@[k]).0 < r@[k].1 && r@[k].2
                            == bond_order(g, r@[k].0, r@[k].1) && r@[k].2 >= 1,
                    forall|k1: int, k2: int|
                        0 <= k1 < k2 < r@.len() ==> ((#[trigger] r@[k1]).0, r@[k1].1) != (
                            (#[trigger] r@[k2]).0,
                            r@[k2].1,
                        ),
                decreases partners@.len() - q,
            {
                let (b, c) = partners[q];
                proof {
                    lemma_bond_order_one_side(g, i as int, b);
                    assert forall|k: int| 0 <= k < r@.len() implies (#[trigger] r@[k]).0 != x
                        || r@[k].1 != b by {
                        if k < r_before.len() {
                            assert(r_before[k].0 != x);
                        } else {
                            let kk = k - r_before.len();
                            assert(partners@[kk].0 != partners@[q as int].0);
                        }
                    }
                }
                r.push((x, b, c));
                q += 1;
            }
            proof {
                assert forall|k: int|
                    0 <= k < r@.len() implies exists|j: int| 0 <= j < i + 1 && g[j].id == (#[trigger] r@[k]).0 by {
                    if k < r_before.len() {
                        let j = choose|j: int| 0 <= j < i && g[j].id == r_before[k].0;
                        assert(g[j].id == r@[k].0);
                    } else {
                        assert(g[i as int].id == r@[k].0);
                    }
                }
                assert forall|j: int, b: Id|
                    0 <= j < i + 1 && g[j].id < b && #[trigger] g[j].links.contains(b) implies exists|k: int|
                    0 <= k < r@.len() && r@[k].0 == g[j].id && r@[k].1 == b by {
                    if j < i {
                        let k = choose|k: int| 0 <= k < r_before.len() && r_before[k].0 == g[j].id && r_before[k].1 == b;
                        assert(r@[k] == r_before[k]);
                    } else {
                        assert(blocks@[i as int].links@.contains(b));
                        let kk = choose|kk: int| 0 <= kk < partners@.len() && partners@[kk].0 == b;
                        assert(r@[r_before.len() + kk].1 == b);
                    }
                }
            }
            i += 1;
        }
        proof {
            assert forall|a: Id, b: Id|
                a < b && #[trigger] bond_order(g, a, b) >= 1 implies exists|k: int|
                0 <= k < r@.len() && r@[k].0 == a && r@[k].1 == b by {
                broadcast use vstd::seq_lib::group_to_multiset_ensures;

                if has_id(g, a) {
                    let j = choose|j: int| 0 <= j < g.len() && g[j].id == a;
                    lemma_bond_order_one_side(g, j, b);
                    assert(g[j].links.contains(b));
                } else {
                    if has_id(g, b) {
                        let j = choose|j: int| 0 <= j < g.len() && g[j].id == b;
                        lemma_index_of_unique(g, j);
                        assert(refs(g[j].links, a) == 0) by {
                            if g[j].links.contains(a) {
                                let kk = choose|kk: int| 0 <= kk < g[j].links.len() && g[j].links[kk] == a;
                                assert(has_id(g, g[j].links[kk]));
                            }
                        }
                    }
                }
            }
        }
        r
    }
}

/// The bond handles a node of valence `v` lays out, in order: 0 up,
/// 1 left, 2 down, 3 right.
pub open spec fn slot_layout(v: u32) -> Seq<usize> {
    if v == 1 {
        seq![3usize]
    } else if v == 2 {
        seq![1usize, 3]
    } else if v == 3 {
        seq![0usize, 1, 3]
    } else {
        seq![0usize, 1, 2, 3]
    }
}

/// How many more bond units a node can take.
pub open spec fn free_valence(n: NodeView) -> nat {
    if n.links.len() <= valence_of(n.radical) {
        (valence_of(n.radical) - n.links.len()) as nat
    } else {
        0
    }
}

impl UiBlock {
    /// The bond handles this node shows: the first of its layout, as many
    /// as it has free valence.
    pub fn link_slots(&self) -> (r: Vec<usize>)
        ensures
            r@ == slot_layout(valence_of(self.radical)).take(
                if free_valence(self@) <= slot_layout(valence_of(self.radical)).len() {
                    free_valence(self@) as int
                } else {
                    slot_layout(valence_of(self.radical)).len() as int
                },
            ),
    {
        let v = self.radical.valencia();
        let layout: Vec<usize> = if v == 1 {
            vec![3]
        } else if v == 2 {
            vec![1, 3]
        } else if v == 3 {
            vec![0, 1, 3]
        } else {
            vec![0, 1, 2, 3]
        };
        assert(layout@ =~= slot_layout(v));
        let used = self.links.len();
        let free: usize = if used <= v as usize {
            v as usize - used
        } else {
            0
        };
        let mut r: Vec<usize> = Vec::new();
        let mut k: usize = 0;
        while k < layout.len() && k < free
            invariant
                k <= layout@.len(),
                k <= free,
                r@ == layout@.take(k as int),
            decreases layout@.len() - k,
        {
            r.push(layout[k]);
            k += 1;
            assert(r@ =~= layout@.take(k as int));
        }
        r
    }
}

/// Once node `id` is removed, the graph holds no bond that involves it:
/// `count_links` then lists no pair with `id` in it.
pub proof fn lemma_removed_node_has_no_bonds(g: Seq<NodeView>, id: Id, other: Id)
    requires
        well_formed(g),
        has_id(g, id),
    ensures
        bond_order(node_removed(g, id), id, other) == 0,
        bond_order(node_removed(g, id), other, id) == 0,
{
    broadcast use vstd::seq_lib::group_to_multiset_ensures;

    let h = node_removed(g, id);
    lemma_node_removed_wf(g, id);
    if has_id(h, other) {
        reveal(well_formed);
        let w = choose|w: int| 0 <= w < h.len() && h[w].id == other;
        lemma_index_of_unique(h, w);
        assert(!h[w].links.contains(id));
    }
}

/// What taking out the first occurrence of `x` does to the counts of `s`.
pub proof fn lemma_remove_one_facts(s: Seq<Id>, x: Id)
    requires
        s.contains(x),
    ensures
        forall|y: Id| #[trigger] refs(remove_one(s, x), y) == refs(s, y) - if y == x {
            1int
        } else {
            0int
        },
        forall|y: Id| #[trigger] refs(s.push(x), y) == refs(s, y) + if y == x {
            1int
        } else {
            0int
        },
{
    lemma_remove_one_elements(s, x);
    lemma_refs_push(s, x);
}

/// Taking out one `x` and appending one keeps the partners counted with
/// multiplicity.
pub proof fn lemma_remove_then_push(s: Seq<Id>, x: Id)
    requires
        s.contains(x),
    ensures
        remove_one(s, x).push(x).to_multiset() == s.to_multiset(),
{
    lemma_remove_one_elements(s, x);
    lemma_refs_push(remove_one(s, x), x);
    assert(remove_one(s, x).push(x).to_multiset() =~= s.to_multiset()) by {
        assert forall|y: Id| #[trigger] remove_one(s, x).push(x).to_multiset().count(y)
            == s.to_multiset().count(y) by {
            assert(refs(remove_one(s, x).push(x), y) == refs(remove_one(s, x), y) + if x == y {
                1nat
            } else {
                0nat
            });
        }
    }
}

/// Appending one `x` and taking out one keeps the partners counted with
/// multiplicity.
pub proof fn lemma_push_then_remove(s: Seq<Id>, x: Id)
    ensures
        remove_one(s.push(x), x).to_multiset() == s.to_multiset(),
{
    let t = s.push(x);
    assert(t[t.len() - 1] == x);
    lemma_remove_one_elements(t, x);
    lemma_refs_push(s, x);
    assert(remove_one(t, x).to_multiset() =~= s.to_multiset()) by {
        assert forall|y: Id| #[trigger] remove_one(t, x).to_multiset().count(y)
            == s.to_multiset().count(y) by {
            assert(refs(remove_one(t, x), y) == refs(t, y) - if y == x {
                1int
            } else {
                0int
            });
        }
    }
}

/// How many times `x` occurs in `links`.
fn count_in(links: &Vec<Id>, x: Id) -> (r: usize)
    ensures
        r == refs(links@, x),
{
    let mut c: usize = 0;
    let mut k: usize = 0;
    proof {
        assert(links@.subrange(0, 0) =~= Seq::<Id>::empty());
        vstd::seq_lib::to_multiset_contains(Seq::<Id>::empty(), x);
    }
    while k < links.len()
        invariant
            k <= links@.len(),
            c == refs(links@.subrange(0, k as int), x),
            c <= k,
        decreases links@.len() - k,
    {
        proof {
            let s = links@;
            assert(s.subrange(0, k + 1) =~= s.subrange(0, k as int).push(s[k as int]));
            lemma_refs_push(s.subrange(0, k as int), s[k as int]);
        }
        if links[k] == x {
            c += 1;
        }
        k += 1;
    }
    assert(links@.subrange(0, k as int) =~= links@);
    c
}

/// Whether `blocks` holds a well-formed graph: unique identifiers, every
/// bond reference naming another node that is present, bonds symmetric.
pub fn is_well_formed(blocks: &[UiBlock]) -> (r: bool)
    ensures
        r == well_formed(graph_of(blocks@)),
{
    let ghost g = graph_of(blocks@);
    let n = blocks.len();
    let mut i: usize = 0;
    while i < n
        invariant
            n == blocks@.len(),
            g == graph_of(blocks@),
            i <= n,
            forall|p: int, q: int|
                0 <= p < i && 0 <= q < i && #[trigger] g[p].id == #[trigger] g[q].id ==> p == q,
            forall|p: int, k: int|
                0 <= p < i && 0 <= k < g[p].links.len() ==> has_id(g, #[trigger] g[p].links[k])
                    && g[p].links[k] != g[p].id,
            forall|p: int, q: int|
                0 <= p < i && 0 <= q < i ==> refs(#[trigger] g[p].links, g[q].id) == refs(
                    #[trigger] g[q].links,
                    g[p].id,
                ),
        decreases n - i,
    {
        let mut j: usize = 0;
        while j < i
            invariant
                n == blocks@.len(),
                g == graph_of(blocks@),
                i < n,
                j <= i,
                forall|q: int| 0 <= q < j ==> g[q].id != g[i as int].id,
                forall|q: int|
                    0 <= q < j ==> refs(#[trigger] g[i as int].links, g[q].id) == refs(
                        g[q].links,
                        g[i as int].id,
                    ),
            decreases i - j,
        {
            if blocks[j].id == blocks[i].id {
                proof {
                    reveal(well_formed);
                    assert(g[j as int].id == g[i as int].id);
                }
                return false;
            }
            let c1 = count_in(&blocks[i].links, blocks[j].id);
            let c2 = count_in(&blocks[j].links, blocks[i].id);
            if c1 != c2 {
                proof {
                    reveal(well_formed);
                    assert(refs(g[i as int].links, g[j as int].id) != refs(
                        g[j as int].links,
                        g[i as int].id,
                    ));
                }
                return false;
            }
            j += 1;
        }
        let m = blocks[i].links.len();
        let mut k: usize = 0;
        while k < m
            invariant
                n == blocks@.len(),
                g == graph_of(blocks@),
                i < n,
                m == g[i as int].links.len(),
                k <= m,
                forall|k2: int|
                    0 <= k2 < k ==> has_id(g, #[trigger] g[i as int].links[k2]) && g[i as int].links[k2]
                        != g[i as int].id,
            decreases m - k,
        {
            let l = blocks[i].links[k];
            if l == blocks[i].id {
                proof {
                    reveal(well_formed);
                    assert(g[i as int].links[k as int] == g[i as int].id);
                }
                return false;
            }
            if position_of(blocks, l).is_none() {
                proof {
                    reveal(well_formed);
                    assert(!has_id(g, g[i as int].links[k as int]));
                }
                return false;
            }
            k += 1;
        }
        i += 1;
    }
    proof {
        reveal(well_formed);
    }
    true
}

} // verus!
