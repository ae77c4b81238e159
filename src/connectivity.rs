//! Connected components of the molecular graph, and whether they hold a cycle.

use vstd::prelude::*;
use crate::graph::{
    Id, NodeView, UiBlock, GraphError, graph_of, has_id, node_of, unique_ids, links_present,
    well_formed, lemma_index_of_unique,
};

verus! {

/// Node `a` of `g` lists `b` among its bond partners.
pub open spec fn linked(g: Seq<NodeView>, a: Id, b: Id) -> bool {
    has_id(g, a) && node_of(g, a).links.contains(b)
}

/// `p` is a walk along bonds of `g`.
pub open spec fn is_walk(g: Seq<NodeView>, p: Seq<Id>) -> bool {
    &&& p.len() >= 1
    &&& has_id(g, p[0])
    &&& forall|k: int| 0 <= k < p.len() - 1 ==> linked(g, #[trigger] p[k], p[k + 1])
}

/// Some walk along bonds of `g` leads from `a` to `b`.
pub open spec fn reachable(g: Seq<NodeView>, a: Id, b: Id) -> bool {
    exists|p: Seq<Id>| is_walk(g, p) && p[0] == a && p.last() == b
}

/// The test that a node belongs to the component of `a`.
pub open spec fn in_component(g: Seq<NodeView>, a: Id) -> spec_fn(NodeView) -> bool {
    |n: NodeView| reachable(g, a, n.id)
}

/// The nodes reachable from `a`, in the order of `g`.
pub open spec fn component(g: Seq<NodeView>, a: Id) -> Seq<NodeView> {
    g.filter(in_component(g, a))
}

/// The number of bond references held by the nodes of `s`: each bond unit
/// inside a component counts once from each end.
pub open spec fn degree_sum(s: Seq<NodeView>) -> nat
    decreases s.len(),
{
    if s.len() == 0 {
        0
    } else {
        degree_sum(s.drop_last()) + s.last().links.len()
    }
}

/// Whether the component of `a` holds a cycle. A connected component is
/// free of cycles exactly when it has one bond fewer than nodes; a double
/// bond closes a cycle of two.
pub open spec fn has_cycle(g: Seq<NodeView>, a: Id) -> bool {
    degree_sum(component(g, a)) != 2 * (component(g, a).len() - 1)
}

/// Some node marked in `seen` has identifier `x`.
pub open spec fn seen_id(g: Seq<NodeView>, seen: Seq<bool>, x: Id) -> bool {
    exists|m: int| 0 <= m < g.len() && seen[m] && g[m].id == x
}

/// Every bond partner of node `i` is marked in `seen`.
pub open spec fn closed_at(g: Seq<NodeView>, seen: Seq<bool>, i: int) -> bool {
    forall|k: int| 0 <= k < g[i].links.len() ==> seen_id(g, seen, #[trigger] g[i].links[k])
}

/// The number of nodes not yet marked.
pub open spec fn unseen_count(s: Seq<bool>) -> nat
    decreases s.len(),
{
    if s.len() == 0 {
        0
    } else {
        unseen_count(s.drop_last()) + if s.last() {
            0nat
        } else {
            1nat
        }
    }
}

proof fn lemma_unseen_mark(s: Seq<bool>, j: int)
    requires
        0 <= j < s.len(),
        !s[j],
    ensures
        unseen_count(s.update(j, true)) + 1 == unseen_count(s),
    decreases s.len(),
{
    let t = s.update(j, true);
    if j == s.len() - 1 {
        assert(t.drop_last() =~= s.drop_last());
    } else {
        lemma_unseen_mark(s.drop_last(), j);
        assert(t.drop_last() =~= s.drop_last().update(j, true));
    }
}

proof fn lemma_closed_mono(g: Seq<NodeView>, s1: Seq<bool>, s2: Seq<bool>, i: int)
    requires
        s1.len() == g.len(),
        s2.len() == g.len(),
        forall|m: int| 0 <= m < g.len() && s1[m] ==> s2[m],
        closed_at(g, s1, i),
    ensures
        closed_at(g, s2, i),
{
    assert forall|k: int| 0 <= k < g[i].links.len() implies seen_id(
        g,
        s2,
        #[trigger] g[i].links[k],
    ) by {
        assert(seen_id(g, s1, g[i].links[k]));
        let m = choose|m: int| 0 <= m < g.len() && s1[m] && g[m].id == g[i].links[k];
        assert(s2[m]);
    }
}

/// A walk extended by one more bond is a walk.
proof fn lemma_walk_extend(g: Seq<NodeView>, a: Id, x: Id)
    requires
        reachable(g, a, x),
    ensures
        forall|y: Id| linked(g, x, y) ==> #[trigger] reachable(g, a, y),
{
    let p = choose|p: Seq<Id>| is_walk(g, p) && p[0] == a && p.last() == x;
    assert forall|y: Id| linked(g, x, y) implies #[trigger] reachable(g, a, y) by {
        let q = p.push(y);
        assert forall|k: int| 0 <= k < q.len() - 1 implies linked(g, #[trigger] q[k], q[k + 1]) by {
            if k < p.len() - 1 {
                assert(q[k] == p[k] && q[k + 1] == p[k + 1]);
            } else {
                assert(q[k] == x);
            }
        }
        assert(is_walk(g, q));
        assert(q[0] == a && q.last() == y);
    }
}

/// When every marked node has all its partners marked, the end of every
/// walk from a marked node is marked.
proof fn lemma_walk_seen(g: Seq<NodeView>, seen: Seq<bool>, p: Seq<Id>)
    requires
        unique_ids(g),
        seen.len() == g.len(),
        is_walk(g, p),
        seen_id(g, seen, p[0]),
        forall|i: int| 0 <= i < g.len() && seen[i] ==> #[trigger] closed_at(g, seen, i),
    ensures
        seen_id(g, seen, p.last()),
    decreases p.len(),
{
    if p.len() > 1 {
        let q = p.drop_last();
        assert forall|k: int| 0 <= k < q.len() - 1 implies linked(g, #[trigger] q[k], q[k + 1]) by {
            assert(q[k] == p[k] && q[k + 1] == p[k + 1]);
        }
        lemma_walk_seen(g, seen, q);
        let x = q.last();
        assert(x == p[p.len() - 2]);
        assert(linked(g, p[p.len() - 2], p[p.len() - 1]));
        let m = choose|m: int| 0 <= m < g.len() && seen[m] && g[m].id == x;
        lemma_index_of_unique(g, m);
        assert(closed_at(g, seen, m));
        let k = choose|k: int| 0 <= k < g[m].links.len() && g[m].links[k] == p.last();
        assert(seen_id(g, seen, g[m].links[k]));
    }
}

/// The nodes connected to `g[index]`, in the order of `g`; or
/// `CycleDetected` when that component holds a cycle.
pub fn find_connex(g: &[UiBlock], index: usize) -> (r: Result<Vec<UiBlock>, GraphError>)
    requires
        well_formed(graph_of(g@)),
        index < g@.len(),
    ensures
        r is Err <==> has_cycle(graph_of(g@), g@[index as int].id),
        r is Err ==> r->Err_0 == GraphError::CycleDetected,
        r is Ok ==> graph_of(r->Ok_0@) == component(graph_of(g@), g@[index as int].id),
{
    let ghost gg = graph_of(g@);
    let ghost a = g@[index as int].id;
    proof {
        reveal(well_formed);
        lemma_index_of_unique(gg, index as int);
        let p = seq![a];
        assert(is_walk(gg, p));
        assert(p[0] == a && p.last() == a);
        assert(reachable(gg, a, a));
        assert(gg[index as int].id == a);
    }
    let n = g.len();
    let mut seen: Vec<bool> = Vec::new();
    while seen.len() < n
        invariant
            seen@.len() <= n,
            forall|m: int| 0 <= m < seen@.len() ==> !seen@[m],
        decreases n - seen@.len(),
    {
        seen.push(false);
    }
    seen.set(index, true);
    let mut stack: Vec<usize> = Vec::new();
    stack.push(index);
    assert(stack@[0] == index);
    while stack.len() > 0
        invariant
            n == g@.len(),
            gg == graph_of(g@),
            unique_ids(gg),
            links_present(gg),
            index < n,
            a == gg[index as int].id,
            seen@.len() == n,
            seen@[index as int],
            forall|j: int| 0 <= j < stack@.len() ==> #[trigger] stack@[j] < n && seen@[stack@[j] as int],
            forall|i: int| 0 <= i < n && #[trigger] seen@[i] ==> reachable(gg, a, gg[i].id),
            forall|i: int|
                0 <= i < n && seen@[i] && !stack@.contains(i as usize) ==> #[trigger] closed_at(
                    gg,
                    seen@,
                    i,
                ),
        decreases 2 * unseen_count(seen@) + stack@.len(),
    {
        let ghost full = stack@;
        let i = stack.pop().unwrap();
        proof {
            assert forall|i2: int|
                0 <= i2 < n && i2 != i && seen@[i2] && !stack@.contains(i2 as usize) implies #[trigger] closed_at(
                gg,
                seen@,
                i2,
            ) by {
                if full.contains(i2 as usize) {
                    let w = choose|w: int| 0 <= w < full.len() && full[w] == i2 as usize;
                    assert(stack@[w] == i2 as usize);
                }
            }
        }
        let ghost measure0 = 2 * unseen_count(seen@) + stack@.len();
        let m = g[i].links.len();
        let mut k: usize = 0;
        while k < m
            invariant
                n == g@.len(),
                gg == graph_of(g@),
                unique_ids(gg),
                links_present(gg),
                i < n,
                index < n,
                a == gg[index as int].id,
                m == gg[i as int].links.len(),
                k <= m,
                seen@.len() == n,
                seen@[index as int],
                seen@[i as int],
                2 * unseen_count(seen@) + stack@.len() <= measure0,
                forall|j: int| 0 <= j < stack@.len() ==> #[trigger] stack@[j] < n && seen@[stack@[j] as int],
                forall|i2: int| 0 <= i2 < n && #[trigger] seen@[i2] ==> reachable(gg, a, gg[i2].id),
                forall|i2: int|
                    0 <= i2 < n && i2 != i && seen@[i2] && !stack@.contains(i2 as usize)
                        ==> #[trigger] closed_at(gg, seen@, i2),
                forall|k2: int| 0 <= k2 < k ==> seen_id(gg, seen@, #[trigger] gg[i as int].links[k2]),
            decreases m - k,
        {
            let l = g[i].links[k];
            assert(has_id(gg, gg[i as int].links[k as int]));
            match position_of_block(g, l) {
                Some(j) => {
                    if !seen[j] {
                        let ghost s0 = seen@;
                        let ghost st0 = stack@;
                        proof {
                            lemma_unseen_mark(s0, j as int);
                            lemma_index_of_unique(gg, i as int);
                            lemma_walk_extend(gg, a, gg[i as int].id);
                            assert(linked(gg, gg[i as int].id, l));
                        }
                        seen.set(j, true);
                        stack.push(j);
                        proof {
                            assert forall|i2: int|
                                0 <= i2 < n && i2 != i && seen@[i2] && !stack@.contains(i2 as usize)
                                    implies #[trigger] closed_at(gg, seen@, i2) by {
                                assert(stack@[st0.len() as int] == j);
                                assert(i2 != j);
                                assert(!st0.contains(i2 as usize)) by {
                                    if st0.contains(i2 as usize) {
                                        let w = choose|w: int| 0 <= w < st0.len() && st0[w] == i2 as usize;
                                        assert(stack@[w] == i2 as usize);
                                    }
                                }
                                lemma_closed_mono(gg, s0, seen@, i2);
                            }
                            assert forall|k2: int| 0 <= k2 < k implies seen_id(
                                gg,
                                seen@,
                                #[trigger] gg[i as int].links[k2],
                            ) by {
                                let w = choose|w: int| 0 <= w < gg.len() && s0[w] && gg[w].id == gg[i as int].links[k2];
                                assert(seen@[w]);
                            }
                        }
                    }
                    assert(seen@[j as int] && gg[j as int].id == l);
                },
                None => {},
            }
            k += 1;
        }
        proof {
            assert(closed_at(gg, seen@, i as int));
        }
    }
    proof {
        assert forall|i: int| 0 <= i < n implies (#[trigger] seen@[i] <==> reachable(gg, a, gg[i].id)) by {
            if reachable(gg, a, gg[i].id) {
                let p = choose|p: Seq<Id>| is_walk(gg, p) && p[0] == a && p.last() == gg[i].id;
                assert(seen_id(gg, seen@, p[0]));
                lemma_walk_seen(gg, seen@, p);
                let w = choose|w: int| 0 <= w < gg.len() && seen@[w] && gg[w].id == gg[i].id;
            }
        }
    }
    collect_component(g, &seen, index)
}

/// Position of the block with identifier `id`.
fn position_of_block(g: &[UiBlock], id: Id) -> (r: Option<usize>)
    ensures
        match r {
            Some(j) => j < g@.len() && g@[j as int].id == id,
            None => !has_id(graph_of(g@), id),
        },
{
    let mut j: usize = 0;
    while j < g.len()
        invariant
            j <= g@.len(),
            forall|m: int| 0 <= m < j ==> g@[m].id != id,
        decreases g@.len() - j,
    {
        if g[j].id == id {
            return Some(j);
        }
        j += 1;
    }
    assert(forall|m: int| 0 <= m < g@.len() ==> graph_of(g@)[m].id == g@[m].id);
    None
}

/// Copies out the marked nodes and decides whether their component holds a cycle.
fn collect_component(g: &[UiBlock], seen: &Vec<bool>, index: usize) -> (r: Result<
    Vec<UiBlock>,
    GraphError,
>)
    requires
        index < g@.len(),
        seen@.len() == g@.len(),
        seen@[index as int],
        forall|i: int|
            0 <= i < g@.len() ==> (#[trigger] seen@[i] <==> reachable(
                graph_of(g@),
                g@[index as int].id,
                graph_of(g@)[i].id,
            )),
    ensures
        r is Err <==> has_cycle(graph_of(g@), g@[index as int].id),
        r is Err ==> r->Err_0 == GraphError::CycleDetected,
        r is Ok ==> graph_of(r->Ok_0@) == component(graph_of(g@), g@[index as int].id),
{
    let ghost gg = graph_of(g@);
    let ghost pred = in_component(gg, g@[index as int].id);
    let mut out: Vec<UiBlock> = Vec::new();
    let mut sum: u128 = 0;
    let mut i: usize = 0;
    while i < g.len()
        invariant
            i <= g@.len(),
            index < g@.len(),
            seen@[index as int],
            gg == graph_of(g@),
            seen@.len() == g@.len(),
            pred == in_component(gg, g@[index as int].id),
            forall|i2: int| 0 <= i2 < g@.len() ==> (#[trigger] seen@[i2] <==> pred(gg[i2])),
            graph_of(out@) == gg.subrange(0, i as int).filter(pred),
            sum == degree_sum(gg.subrange(0, i as int).filter(pred)),
            sum <= i * 0xffff_ffff_ffff_ffff,
            out@.len() <= i,
        decreases g@.len() - i,
    {
        proof {
            assert(gg.subrange(0, i + 1) =~= gg.subrange(0, i as int).push(gg[i as int]));
            gg.subrange(0, i as int).lemma_filter_push(gg[i as int], pred);
        }
        if seen[i] {
            let b = g[i].duplicate();
            let ghost before = out@;
            out.push(b);
            assert(graph_of(out@) =~= graph_of(before).push(gg[i as int]));
            let ghost f = gg.subrange(0, i + 1).filter(pred);
            assert(f.drop_last() =~= gg.subrange(0, i as int).filter(pred));
            sum = sum + g[i].links.len() as u128;
        }
        i += 1;
    }
    proof {
        assert(gg.subrange(0, g@.len() as int) =~= gg);
        assert(seen@[index as int]);
        assert(gg.filter(pred).contains(gg[index as int])) by {
            broadcast use vstd::seq_lib::group_filter_ensures;
        }
    }
    let count = out.len() as u128;
    if sum != 2 * (count - 1) {
        Err(GraphError::CycleDetected)
    } else {
        Ok(out)
    }
}

proof fn lemma_filter_none(s: Seq<NodeView>, pred: spec_fn(NodeView) -> bool)
    requires
        forall|j: int| 0 <= j < s.len() ==> !pred(#[trigger] s[j]),
    ensures
        s.filter(pred).len() == 0,
    decreases s.len(),
{
    if s.len() > 0 {
        let t = s.drop_last();
        lemma_filter_none(t, pred);
        assert(t.push(s.last()) =~= s);
        t.lemma_filter_push(s.last(), pred);
    } else {
        reveal(Seq::filter);
    }
}

proof fn lemma_filter_single(s: Seq<NodeView>, pred: spec_fn(NodeView) -> bool, i: int)
    requires
        0 <= i < s.len(),
        pred(s[i]),
        forall|j: int| 0 <= j < s.len() && j != i ==> !pred(#[trigger] s[j]),
    ensures
        s.filter(pred) == seq![s[i]],
    decreases s.len(),
{
    let t = s.drop_last();
    assert(t.push(s.last()) =~= s);
    t.lemma_filter_push(s.last(), pred);
    if i == s.len() - 1 {
        lemma_filter_none(t, pred);
        assert(s.filter(pred) =~= seq![s[i]]);
    } else {
        lemma_filter_single(t, pred, i);
    }
}

/// A node without bonds is a component of its own, and that component
/// holds no cycle.
pub proof fn lemma_isolated_node(g: Seq<NodeView>, i: int)
    requires
        well_formed(g),
        0 <= i < g.len(),
        g[i].links.len() == 0,
    ensures
        component(g, g[i].id) == seq![g[i]],
        !has_cycle(g, g[i].id),
{
    reveal(well_formed);
    let a = g[i].id;
    lemma_index_of_unique(g, i);
    assert forall|b: Id| reachable(g, a, b) implies b == a by {
        let p = choose|p: Seq<Id>| is_walk(g, p) && p[0] == a && p.last() == b;
        if p.len() > 1 {
            assert(linked(g, p[0], p[1]));
        }
    }
    let w = seq![a];
    assert(is_walk(g, w) && w[0] == a && w.last() == a);
    let pred = in_component(g, a);
    assert forall|j: int| 0 <= j < g.len() && j != i implies !pred(#[trigger] g[j]) by {
        assert(g[j].id != g[i].id);
    }
    lemma_filter_single(g, pred, i);
    let c = seq![g[i]];
    assert(c.drop_last() =~= Seq::<NodeView>::empty());
    assert(degree_sum(c) == degree_sum(c.drop_last()) + c.last().links.len());
}

} // verus!
