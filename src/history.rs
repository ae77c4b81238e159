//! The editor's state and its log of edits, with undo and redo.
//!
//! Each entry of the log describes an edit that was made; applying an entry
//! reverts that edit, and its opposite describes the reverting edit.

use vstd::prelude::*;
use crate::graph::{
    GraphError, Id, NodeView, Position, UiBlock, add_link, add_node, bonded, get_two_blocks_unchecked_mut,
    graph_of, has_id, link_added, link_removed, node_added, node_of, node_removed, pos_set,
    position_of, remove_link, remove_node, set_position, well_formed, unique_ids, index_of, refs,
    first_pos, remove_one, lemma_index_of_unique, lemma_link_added_wf, lemma_link_removed_wf,
    lemma_node_added_wf, lemma_node_removed_wf, lemma_remove_one_facts, lemma_remove_then_push, lemma_push_then_remove,
    lemma_refs_without, lemma_refs_concat_repeat, kept_links, kept_ref, with_refs, strip_node,
    lemma_same_shape_wf,
};

verus! {

/// What the pointer is holding between frames.
#[derive(Debug)]
pub enum Held {
    /// Nodes being dragged, each with the position it had when picked up.
    Radicals(Vec<(Id, Position)>),
    /// A bond being drawn from node `radical`.
    Link { radical: Id, from: Position },
    /// A selection rectangle being drawn.
    RectangleCreation { from: Position },
}

/// An edit, as recorded in the log.
#[derive(Debug)]
pub enum UiAction {
    AddRadical(UiBlock),
    DeleteRadical(UiBlock),
    /// For each moved node: its identifier, where it was, where it went.
    MoveRadicals(Vec<(Id, Position, Position)>),
    AddLink(Id, Id),
    DeleteLink(Id, Id),
}

/// What an entry of the log is, mathematically.
pub enum ActionView {
    AddRadical(NodeView),
    DeleteRadical(NodeView),
    MoveRadicals(Seq<(Id, Position, Position)>),
    AddLink(Id, Id),
    DeleteLink(Id, Id),
}

impl View for UiAction {
    type V = ActionView;

    open spec fn view(&self) -> ActionView {
        match self {
            UiAction::AddRadical(b) => ActionView::AddRadical(b@),
            UiAction::DeleteRadical(b) => ActionView::DeleteRadical(b@),
            UiAction::MoveRadicals(m) => ActionView::MoveRadicals(m@),
            UiAction::AddLink(a, b) => ActionView::AddLink(*a, *b),
            UiAction::DeleteLink(a, b) => ActionView::DeleteLink(*a, *b),
        }
    }
}

/// The moves of `m` with origin and destination swapped.
pub open spec fn swapped(m: Seq<(Id, Position, Position)>) -> Seq<(Id, Position, Position)> {
    Seq::new(m.len(), |i: int| (m[i].0, m[i].2, m[i].1))
}

/// The entry that describes reverting the edit `a` describes.
pub open spec fn opposite_of(a: ActionView) -> ActionView {
    match a {
        ActionView::AddRadical(n) => ActionView::DeleteRadical(n),
        ActionView::DeleteRadical(n) => ActionView::AddRadical(n),
        ActionView::MoveRadicals(m) => ActionView::MoveRadicals(swapped(m)),
        ActionView::AddLink(x, y) => ActionView::DeleteLink(y, x),
        ActionView::DeleteLink(x, y) => ActionView::AddLink(y, x),
    }
}

/// `g` with each moved node put back where it came from, in the order of `m`.
pub open spec fn moves_undone(g: Seq<NodeView>, m: Seq<(Id, Position, Position)>) -> Seq<NodeView>
    decreases m.len(),
{
    if m.len() == 0 {
        g
    } else {
        pos_set(moves_undone(g, m.drop_last()), m.last().0, m.last().1)
    }
}

/// `g` after the edit that entry `a` records is reverted. What refers to a
/// node that is not (or no longer, or already) there is skipped.
pub open spec fn apply_entry(g: Seq<NodeView>, a: ActionView) -> Seq<NodeView> {
    match a {
        ActionView::AddRadical(n) => if has_id(g, n.id) {
            node_removed(g, n.id)
        } else {
            g
        },
        ActionView::DeleteRadical(n) => if has_id(g, n.id) {
            g
        } else {
            node_added(g, n)
        },
        ActionView::MoveRadicals(m) => moves_undone(g, m),
        ActionView::AddLink(x, y) => if bonded(g, x, y) {
            link_removed(g, x, y)
        } else {
            g
        },
        ActionView::DeleteLink(x, y) => if has_id(g, x) && has_id(g, y) && x != y {
            link_added(g, x, y)
        } else {
            g
        },
    }
}

/// The entries of a log.
pub open spec fn entries(v: Seq<UiAction>) -> Seq<ActionView> {
    Seq::new(v.len(), |i: int| v[i]@)
}

impl UiAction {
    /// The entry that describes reverting this edit.
    pub fn opposite(&self) -> (r: UiAction)
        ensures
            r@ == opposite_of(self@),
    {
        match self {
            UiAction::AddRadical(what) => UiAction::DeleteRadical(what.duplicate()),
            UiAction::DeleteRadical(what) => UiAction::AddRadical(what.duplicate()),
            UiAction::MoveRadicals(data) => {
                let mut out: Vec<(Id, Position, Position)> = Vec::new();
                let mut k: usize = 0;
                while k < data.len()
                    invariant
                        k <= data@.len(),
                        out@ == swapped(data@).subrange(0, k as int),
                    decreases data@.len() - k,
                {
                    let (i, f, t) = data[k];
                    out.push((i, t, f));
                    k += 1;
                }
                assert(out@ =~= swapped(data@));
                UiAction::MoveRadicals(out)
            },
            UiAction::AddLink(a, b) => UiAction::DeleteLink(*b, *a),
            UiAction::DeleteLink(a, b) => UiAction::AddLink(*b, *a),
        }
    }
}

/// Reverts the edit that `action` records.
fn undo_action(blocks: &mut Vec<UiBlock>, action: UiAction)
    requires
        well_formed(graph_of(old(blocks)@)),
    ensures
        graph_of(final(blocks)@) == apply_entry(graph_of(old(blocks)@), action@),
        well_formed(graph_of(final(blocks)@)),
{
    let ghost g0 = graph_of(blocks@);
    match action {
        UiAction::AddRadical(what) => {
            let _ = remove_node(blocks, what.id);
        },
        UiAction::MoveRadicals(data) => {
            let mut k: usize = 0;
            while k < data.len()
                invariant
                    k <= data@.len(),
                    graph_of(blocks@) == moves_undone(g0, data@.subrange(0, k as int)),
                    well_formed(graph_of(blocks@)),
                decreases data@.len() - k,
            {
                let (id, from, _to) = data[k];
                assert(data@.subrange(0, k + 1).drop_last() =~= data@.subrange(0, k as int));
                let _ = set_position(blocks, id, from);
                k += 1;
            }
            assert(data@.subrange(0, k as int) =~= data@);
        },
        UiAction::DeleteRadical(what) => {
            let _ = add_node(blocks, what);
        },
        UiAction::AddLink(a_id, b_id) => {
            let _ = remove_link(blocks, a_id, b_id);
        },
        UiAction::DeleteLink(a_id, b_id) => {
            let _ = add_link(blocks, a_id, b_id);
        },
    }
}

/// The state of the editor: the graph, the pointer, and the edit log.
pub struct UiState {
    pub uiblocks: Vec<UiBlock>,
    pub held: Option<Held>,
    pub is_help_up: bool,
    /// Edits that can be undone, the latest last. Append with `push_to_undo`.
    pub undo_list: Vec<UiAction>,
    /// Undone edits that can be redone, the latest last.
    pub redo_list: Vec<UiAction>,
    /// (width, height) of the window.
    pub window_dims: (i32, i32),
    /// Text that shows the name of the molecule.
    pub naming_text: Option<String>,
}

impl UiState {
    /// The invariant of the state: its graph is well formed.
    pub open spec fn wf(&self) -> bool {
        well_formed(graph_of(self.uiblocks@))
    }

    /// An empty editor in a window of the given size.
    pub fn new(width: i32, height: i32) -> (r: Self)
        ensures
            r.wf(),
            r.uiblocks@.len() == 0,
            r.held is None,
            !r.is_help_up,
            r.undo_list@.len() == 0,
            r.redo_list@.len() == 0,
            r.window_dims == (width, height),
            r.naming_text is None,
    {
        let r = UiState {
            uiblocks: Vec::new(),
            held: None,
            is_help_up: false,
            undo_list: Vec::new(),
            redo_list: Vec::new(),
            window_dims: (width, height),
            naming_text: None,
        };
        proof {
            reveal(well_formed);
        }
        r
    }

    /// Records an edit; the edits that were undone can no longer be redone.
    pub fn push_to_undo(&mut self, a: UiAction)
        ensures
            entries(final(self).undo_list@) == entries(old(self).undo_list@).push(a@),
            final(self).redo_list@.len() == 0,
            final(self).uiblocks == old(self).uiblocks,
            final(self).held == old(self).held,
            final(self).is_help_up == old(self).is_help_up,
            final(self).window_dims == old(self).window_dims,
            final(self).naming_text == old(self).naming_text,
    {
        self.undo_list.push(a);
        self.redo_list.clear();
        assert(entries(self.undo_list@) =~= entries(old(self).undo_list@).push(a@));
    }

    /// Places `node` and records the placement. Fails, changing nothing,
    /// when its identifier is taken.
    pub fn add_radical(&mut self, node: UiBlock) -> (r: Result<(), GraphError>)
        requires
            old(self).wf(),
        ensures
            final(self).wf(),
            r is Ok <==> !has_id(graph_of(old(self).uiblocks@), node.id),
            r is Err ==> r->Err_0 == GraphError::DuplicateIdentifier(node.id) && *final(self) == *old(
                self,
            ),
            r is Ok ==> {
                let g1 = node_added(graph_of(old(self).uiblocks@), node@);
                &&& graph_of(final(self).uiblocks@) == g1
                &&& entries(final(self).undo_list@) == entries(old(self).undo_list@).push(
                    ActionView::AddRadical(g1.last()),
                )
                &&& final(self).redo_list@.len() == 0
            },
    {
        if position_of(self.uiblocks.as_slice(), node.id).is_some() {
            return Err(GraphError::DuplicateIdentifier(node.id));
        }
        let _ = add_node(&mut self.uiblocks, node);
        let n = self.uiblocks.len();
        assert(graph_of(self.uiblocks@).len() == n);
        let snapshot = self.uiblocks[n - 1].duplicate();
        self.push_to_undo(UiAction::AddRadical(snapshot));
        Ok(())
    }

    /// Deletes node `id`, severing its bonds, and records the deletion.
    pub fn delete_radical(&mut self, id: Id) -> (r: Result<(), GraphError>)
        requires
            old(self).wf(),
        ensures
            final(self).wf(),
            r is Ok <==> has_id(graph_of(old(self).uiblocks@), id),
            r is Err ==> r->Err_0 == GraphError::NotFound(id) && *final(self) == *old(self),
            r is Ok ==> {
                let g0 = graph_of(old(self).uiblocks@);
                &&& graph_of(final(self).uiblocks@) == node_removed(g0, id)
                &&& entries(final(self).undo_list@) == entries(old(self).undo_list@).push(
                    ActionView::DeleteRadical(node_of(g0, id)),
                )
                &&& final(self).redo_list@.len() == 0
            },
    {
        if position_of(self.uiblocks.as_slice(), id).is_none() {
            return Err(GraphError::NotFound(id));
        }
        match remove_node(&mut self.uiblocks, id) {
            Ok(what) => {
                self.push_to_undo(UiAction::DeleteRadical(what));
                Ok(())
            },
            Err(e) => Err(e),
        }
    }

    /// Adds one bond unit between `id_a` and `id_b` and records it.
    pub fn link_radicals(&mut self, id_a: Id, id_b: Id) -> (r: Result<(), GraphError>)
        requires
            old(self).wf(),
        ensures
            final(self).wf(),
            r is Ok <==> (has_id(graph_of(old(self).uiblocks@), id_a) && has_id(
                graph_of(old(self).uiblocks@),
                id_b,
            ) && id_a != id_b),
            r is Err ==> *final(self) == *old(self),
            r is Err && !has_id(graph_of(old(self).uiblocks@), id_a) ==> r->Err_0
                == GraphError::NotFound(id_a),
            r is Err && has_id(graph_of(old(self).uiblocks@), id_a) && !has_id(
                graph_of(old(self).uiblocks@),
                id_b,
            ) ==> r->Err_0 == GraphError::NotFound(id_b),
            r is Err && has_id(graph_of(old(self).uiblocks@), id_a) && has_id(
                graph_of(old(self).uiblocks@),
                id_b,
            ) ==> r->Err_0 == GraphError::SelfBond(id_a),
            r is Ok ==> {
                &&& graph_of(final(self).uiblocks@) == link_added(
                    graph_of(old(self).uiblocks@),
                    id_a,
                    id_b,
                )
                &&& entries(final(self).undo_list@) == entries(old(self).undo_list@).push(
                    ActionView::AddLink(id_a, id_b),
                )
                &&& final(self).redo_list@.len() == 0
            },
    {
        if let Err(e) = get_two_blocks_unchecked_mut(self.uiblocks.as_slice(), id_a, id_b) {
            return Err(e);
        }
        let _ = add_link(&mut self.uiblocks, id_a, id_b);
        self.push_to_undo(UiAction::AddLink(id_a, id_b));
        Ok(())
    }

    /// Takes out one bond unit between `id_a` and `id_b` and records it;
    /// returns whether there was one. Nothing is recorded otherwise.
    pub fn unlink_radicals(&mut self, id_a: Id, id_b: Id) -> (r: Result<bool, GraphError>)
        requires
            old(self).wf(),
        ensures
            final(self).wf(),
            r is Ok <==> has_id(graph_of(old(self).uiblocks@), id_a) && has_id(
                graph_of(old(self).uiblocks@),
                id_b,
            ),
            r == Ok::<bool, GraphError>(true) <==> bonded(graph_of(old(self).uiblocks@), id_a, id_b),
            !has_id(graph_of(old(self).uiblocks@), id_a) ==> r == Err::<bool, GraphError>(
                GraphError::NotFound(id_a),
            ),
            has_id(graph_of(old(self).uiblocks@), id_a) && !has_id(
                graph_of(old(self).uiblocks@),
                id_b,
            ) ==> r == Err::<bool, GraphError>(GraphError::NotFound(id_b)),
            r != Ok::<bool, GraphError>(true) ==> final(self).uiblocks@ == old(self).uiblocks@
                && final(self).undo_list == old(self).undo_list && final(self).redo_list == old(
                self,
            ).redo_list,
            r == Ok::<bool, GraphError>(true) ==> {
                &&& graph_of(final(self).uiblocks@) == link_removed(
                    graph_of(old(self).uiblocks@),
                    id_a,
                    id_b,
                )
                &&& entries(final(self).undo_list@) == entries(old(self).undo_list@).push(
                    ActionView::DeleteLink(id_a, id_b),
                )
                &&& final(self).redo_list@.len() == 0
            },
    {
        let r = remove_link(&mut self.uiblocks, id_a, id_b);
        if let Ok(true) = r {
            self.push_to_undo(UiAction::DeleteLink(id_a, id_b));
        }
        r
    }
}

/// Reverts the latest recorded edit and makes it available to redo; does
/// nothing when there is none.
pub fn undo_last(st: &mut UiState)
    requires
        old(st).wf(),
    ensures
        final(st).wf(),
        old(st).undo_list@.len() == 0 ==> *final(st) == *old(st),
        old(st).undo_list@.len() > 0 ==> {
            let last = old(st).undo_list@.last()@;
            &&& graph_of(final(st).uiblocks@) == apply_entry(graph_of(old(st).uiblocks@), last)
            &&& entries(final(st).undo_list@) == entries(old(st).undo_list@).drop_last()
            &&& entries(final(st).redo_list@) == entries(old(st).redo_list@).push(opposite_of(last))
        },
        final(st).held == old(st).held,
        final(st).is_help_up == old(st).is_help_up,
        final(st).window_dims == old(st).window_dims,
        final(st).naming_text == old(st).naming_text,
{
    if st.undo_list.len() == 0 {
        return;
    }
    let ghost u0 = st.undo_list@;
    let action = st.undo_list.pop().unwrap();
    assert(entries(st.undo_list@) =~= entries(u0).drop_last());
    let opp = action.opposite();
    undo_action(&mut st.uiblocks, action);
    let ghost r0 = st.redo_list@;
    st.redo_list.push(opp);
    assert(entries(st.redo_list@) =~= entries(r0).push(opp@));
}

/// Re-applies the latest undone edit and makes it available to undo again;
/// does nothing when there is none.
pub fn redo_last(st: &mut UiState)
    requires
        old(st).wf(),
    ensures
        final(st).wf(),
        old(st).redo_list@.len() == 0 ==> *final(st) == *old(st),
        old(st).redo_list@.len() > 0 ==> {
            let last = old(st).redo_list@.last()@;
            &&& graph_of(final(st).uiblocks@) == apply_entry(graph_of(old(st).uiblocks@), last)
            &&& entries(final(st).redo_list@) == entries(old(st).redo_list@).drop_last()
            &&& entries(final(st).undo_list@) == entries(old(st).undo_list@).push(opposite_of(last))
        },
        final(st).held == old(st).held,
        final(st).is_help_up == old(st).is_help_up,
        final(st).window_dims == old(st).window_dims,
        final(st).naming_text == old(st).naming_text,
{
    if st.redo_list.len() == 0 {
        return;
    }
    let ghost r0 = st.redo_list@;
    let action = st.redo_list.pop().unwrap();
    assert(entries(st.redo_list@) =~= entries(r0).drop_last());
    let opp = action.opposite();
    undo_action(&mut st.uiblocks, action);
    let ghost u0 = st.undo_list@;
    st.undo_list.push(opp);
    assert(entries(st.undo_list@) =~= entries(u0).push(opp@));
}

/// Two graphs hold the same nodes, with the same kinds and positions and,
/// for each node, the same bond partners counted with multiplicity.
pub open spec fn same_graph(g: Seq<NodeView>, h: Seq<NodeView>) -> bool {
    &&& forall|id: Id| #[trigger] has_id(g, id) <==> has_id(h, id)
    &&& forall|i: int, j: int|
        0 <= i < g.len() && 0 <= j < h.len() && #[trigger] g[i].id == #[trigger] h[j].id ==> {
            &&& g[i].radical == h[j].radical
            &&& g[i].pos == h[j].pos
            &&& g[i].links.to_multiset() == h[j].links.to_multiset()
        }
}

/// Graphs that agree position by position, bond partners counted with
/// multiplicity, are the same graph.
proof fn lemma_same_pointwise(h: Seq<NodeView>, g: Seq<NodeView>)
    requires
        unique_ids(g),
        h.len() == g.len(),
        forall|j: int|
            0 <= j < g.len() ==> (#[trigger] h[j]).id == g[j].id && h[j].radical == g[j].radical
                && h[j].pos == g[j].pos && h[j].links.to_multiset() == g[j].links.to_multiset(),
    ensures
        same_graph(h, g),
{
    assert forall|id: Id| #[trigger] has_id(h, id) <==> has_id(g, id) by {
        if has_id(h, id) {
            let j = choose|j: int| 0 <= j < h.len() && h[j].id == id;
            assert(g[j].id == id);
        }
        if has_id(g, id) {
            let j = choose|j: int| 0 <= j < g.len() && g[j].id == id;
            assert(h[j].id == id);
        }
    }
    assert forall|i: int, j: int|
        0 <= i < h.len() && 0 <= j < g.len() && #[trigger] h[i].id == #[trigger] g[j].id implies {
        &&& h[i].radical == g[j].radical
        &&& h[i].pos == g[j].pos
        &&& h[i].links.to_multiset() == g[j].links.to_multiset()
    } by {
        assert(g[i].id == g[j].id);
    }
}

/// The two positions of distinct nodes `x` and `y` of a graph with unique
/// identifiers.
proof fn lemma_two_positions(g: Seq<NodeView>, x: Id, y: Id) -> (r: (int, int))
    requires
        unique_ids(g),
        has_id(g, x),
        has_id(g, y),
        x != y,
    ensures
        0 <= r.0 < g.len() && g[r.0].id == x && index_of(g, x) == r.0,
        0 <= r.1 < g.len() && g[r.1].id == y && index_of(g, y) == r.1,
        r.0 != r.1,
{
    let i = choose|i: int| 0 <= i < g.len() && g[i].id == x;
    let j = choose|j: int| 0 <= j < g.len() && g[j].id == y;
    lemma_index_of_unique(g, i);
    lemma_index_of_unique(g, j);
    (i, j)
}

/// Graphs with the same identifiers at the same positions.
proof fn lemma_same_ids(g: Seq<NodeView>, h: Seq<NodeView>)
    requires
        g.len() == h.len(),
        forall|j: int| 0 <= j < g.len() ==> (#[trigger] h[j]).id == g[j].id,
    ensures
        forall|id: Id| #[trigger] has_id(h, id) <==> has_id(g, id),
        unique_ids(g) ==> unique_ids(h),
{
    assert forall|id: Id| #[trigger] has_id(h, id) <==> has_id(g, id) by {
        if has_id(h, id) {
            let j = choose|j: int| 0 <= j < h.len() && h[j].id == id;
            assert(g[j].id == id);
        }
        if has_id(g, id) {
            let j = choose|j: int| 0 <= j < g.len() && g[j].id == id;
            assert(h[j].id == id);
        }
    }
    if unique_ids(g) {
        assert forall|p: int, q: int|
            0 <= p < h.len() && 0 <= q < h.len() && #[trigger] h[p].id == #[trigger] h[q].id implies p
            == q by {
            assert(g[p].id == g[q].id);
        }
    }
}

/// Taking out a bond unit and putting it back gives the same graph.
proof fn lemma_round_trip_unlink(g: Seq<NodeView>, x: Id, y: Id)
    requires
        well_formed(g),
        bonded(g, x, y),
    ensures
        well_formed(link_removed(g, x, y)),
        same_graph(apply_entry(link_removed(g, x, y), ActionView::DeleteLink(y, x)), g),
{
    broadcast use vstd::seq_lib::group_to_multiset_ensures;

    reveal(well_formed);
    lemma_link_removed_wf(g, x, y);
    let (ix, iy) = lemma_two_positions(g, x, y);
    let sx = g[ix].links;
    let sy = g[iy].links;
    lemma_remove_one_facts(sx, y);
    lemma_remove_one_facts(sy, x);
    let g1 = link_removed(g, x, y);
    let n1 = NodeView { links: remove_one(sx, y), ..g[ix] };
    let n2 = NodeView { links: remove_one(sy, x), ..g[iy] };
    assert(g1 == g.update(ix, n1).update(iy, n2));
    lemma_same_ids(g, g1);
    let (jy, jx) = lemma_two_positions(g1, y, x);
    assert(jy == iy && jx == ix);
    assert(has_id(g1, x) && has_id(g1, y));
    let g2 = link_added(g1, y, x);
    assert(g2 == g1.update(iy, NodeView { links: g1[iy].links.push(x), ..g1[iy] }).update(
        ix,
        NodeView { links: g1[ix].links.push(y), ..g1[ix] },
    ));
    lemma_remove_then_push(sx, y);
    lemma_remove_then_push(sy, x);
    lemma_same_pointwise(g2, g);
}

/// Putting in a bond unit and taking it out again gives the same graph.
proof fn lemma_round_trip_link(g: Seq<NodeView>, x: Id, y: Id)
    requires
        well_formed(g),
        has_id(g, x),
        has_id(g, y),
        x != y,
    ensures
        well_formed(link_added(g, x, y)),
        same_graph(apply_entry(link_added(g, x, y), ActionView::AddLink(y, x)), g),
{
    broadcast use vstd::seq_lib::group_to_multiset_ensures;

    reveal(well_formed);
    lemma_link_added_wf(g, x, y);
    let (ix, iy) = lemma_two_positions(g, x, y);
    let g1 = link_added(g, x, y);
    let sx = g[ix].links.push(y);
    let sy = g[iy].links.push(x);
    assert(g1 == g.update(ix, NodeView { links: sx, ..g[ix] }).update(
        iy,
        NodeView { links: sy, ..g[iy] },
    ));
    lemma_same_ids(g, g1);
    let (jy, jx) = lemma_two_positions(g1, y, x);
    assert(sx[sx.len() - 1] == y);
    assert(sy[sy.len() - 1] == x);
    assert(bonded(g1, y, x));
    lemma_remove_one_facts(sy, x);
    lemma_remove_one_facts(sx, y);
    let g2 = link_removed(g1, y, x);
    assert(g2 == g1.update(iy, NodeView { links: remove_one(sy, x), ..g1[iy] }).update(
        ix,
        NodeView { links: remove_one(sx, y), ..g1[ix] },
    ));
    lemma_push_then_remove(g[ix].links, y);
    lemma_push_then_remove(g[iy].links, x);
    lemma_same_pointwise(g2, g);
}

proof fn lemma_filter_all(s: Seq<Id>, pred: spec_fn(Id) -> bool)
    requires
        forall|k: int| 0 <= k < s.len() ==> pred(#[trigger] s[k]),
    ensures
        s.filter(pred) == s,
    decreases s.len(),
{
    if s.len() == 0 {
        reveal(Seq::filter);
    } else {
        let t = s.drop_last();
        lemma_filter_all(t, pred);
        assert(t.push(s.last()) =~= s);
        t.lemma_filter_push(s.last(), pred);
    }
}

/// Adding a node with a new identifier and removing it again gives the
/// same graph.
proof fn lemma_round_trip_add(g: Seq<NodeView>, n: NodeView)
    requires
        well_formed(g),
        !has_id(g, n.id),
    ensures
        well_formed(node_added(g, n)),
        same_graph(apply_entry(node_added(g, n), ActionView::AddRadical(n)), g),
{
    broadcast use vstd::seq_lib::group_to_multiset_ensures;

    lemma_node_added_wf(g, n);
    let g1 = node_added(g, n);
    let nn = g.len() as int;
    reveal(well_formed);
    lemma_index_of_unique(g1, nn);
    let g2 = node_removed(g1, n.id);
    let kept = kept_links(g, n);
    assert forall|j: int| 0 <= j < nn implies (#[trigger] g2[j]).id == g[j].id && g2[j].radical
        == g[j].radical && g2[j].pos == g[j].pos && g2[j].links.to_multiset()
        == g[j].links.to_multiset() by {
        let c = refs(kept, g[j].id);
        assert(g1.remove(nn)[j] == with_refs(g[j], n.id, c));
        assert(g2[j] == strip_node(with_refs(g[j], n.id, c), n.id));
        assert(refs(g[j].links, n.id) == 0) by {
            if g[j].links.contains(n.id) {
                let k = choose|k: int| 0 <= k < g[j].links.len() && g[j].links[k] == n.id;
                assert(has_id(g, g[j].links[k]));
            }
        }
        lemma_refs_concat_repeat(g[j].links, n.id, c);
        assert forall|y: Id| #[trigger] g2[j].links.to_multiset().count(y)
            == g[j].links.to_multiset().count(y) by {
            lemma_refs_without(g[j].links + crate::graph::repeat(n.id, c), n.id, y);
        }
        assert(g2[j].links.to_multiset() =~= g[j].links.to_multiset());
    }
    lemma_same_pointwise(g2, g);
}

/// Removing a node and adding back the removed node gives the same graph.
proof fn lemma_round_trip_remove(g: Seq<NodeView>, i: int)
    requires
        well_formed(g),
        0 <= i < g.len(),
    ensures
        well_formed(node_removed(g, g[i].id)),
        same_graph(apply_entry(node_removed(g, g[i].id), ActionView::DeleteRadical(g[i])), g),
{
    broadcast use vstd::seq_lib::group_to_multiset_ensures;

    let n = g[i];
    let nn = g.len() as int;
    reveal(well_formed);
    lemma_index_of_unique(g, i);
    lemma_node_removed_wf(g, n.id);
    let g1 = node_removed(g, n.id);
    let r = g.remove(i);
    assert forall|p: int| 0 <= p < g1.len() implies (#[trigger] g1[p]) == strip_node(
        g[if p < i {
            p
        } else {
            p + 1
        }],
        n.id,
    ) by {
        if p < i {
            assert(r[p] == g[p]);
        } else {
            assert(r[p] == g[p + 1]);
        }
    }
    assert forall|k: int| 0 <= k < n.links.len() implies kept_ref(g1, n.id)(#[trigger] n.links[k]) by {
        let l = n.links[k];
        assert(has_id(g, n.links[k]));
        let m = choose|m: int| 0 <= m < g.len() && g[m].id == l;
        let mp = if m < i {
            m
        } else {
            m - 1
        };
        assert(g1[mp].id == l);
    }
    lemma_filter_all(n.links, kept_ref(g1, n.id));
    let kept = kept_links(g1, n);
    assert(kept == n.links);
    let g2 = node_added(g1, n);
    assert(g2[nn - 1] == n);
    assert forall|id: Id| #[trigger] has_id(g2, id) <==> has_id(g, id) by {
        if has_id(g2, id) {
            let j = choose|j: int| 0 <= j < g2.len() && g2[j].id == id;
            if j == nn - 1 {
                assert(g[i].id == id);
            } else {
                let jo = if j < i {
                    j
                } else {
                    j + 1
                };
                assert(g[jo].id == id);
            }
        }
        if has_id(g, id) {
            let j = choose|j: int| 0 <= j < g.len() && g[j].id == id;
            if j == i {
                assert(g2[nn - 1].id == id);
            } else {
                let jn = if j < i {
                    j
                } else {
                    j - 1
                };
                assert(g2[jn].id == id);
            }
        }
    }
    assert forall|j: int, k: int|
        0 <= j < g2.len() && 0 <= k < g.len() && #[trigger] g2[j].id == #[trigger] g[k].id implies {
        &&& g2[j].radical == g[k].radical
        &&& g2[j].pos == g[k].pos
        &&& g2[j].links.to_multiset() == g[k].links.to_multiset()
    } by {
        if j == nn - 1 {
            assert(g[k].id == g[i].id);
        } else {
            let jo = if j < i {
                j
            } else {
                j + 1
            };
            assert(g[jo].id == g[k].id);
            assert(jo == k);
            let c = refs(kept, g1[j].id);
            assert(g2[j] == with_refs(g1[j], n.id, c));
            lemma_refs_concat_repeat(g1[j].links, n.id, c);
            assert(refs(g[i].links, g[k].id) == refs(g[k].links, g[i].id));
            assert(g1[j] == strip_node(g[k], n.id));
            assert(g1[j].id == g[k].id);
            assert(c == refs(g[k].links, n.id));
            assert forall|y: Id| #[trigger] g2[j].links.to_multiset().count(y)
                == g[k].links.to_multiset().count(y) by {
                lemma_refs_without(g[k].links, n.id, y);
                assert(refs(g2[j].links, y) == refs(g1[j].links, y) + if n.id == y {
                    c
                } else {
                    0nat
                });
            }
            assert(g2[j].links.to_multiset() =~= g[k].links.to_multiset());
        }
    }
}

/// The position in `m` of the last move of node `id`, or -1.
pub open spec fn last_idx(m: Seq<(Id, Position, Position)>, id: Id) -> int
    decreases m.len(),
{
    if m.len() == 0 {
        -1
    } else if m.last().0 == id {
        m.len() - 1
    } else {
        last_idx(m.drop_last(), id)
    }
}

/// Every node that `m` moves already stands where its last move in `m`
/// took it.
pub open spec fn move_settled(g: Seq<NodeView>, m: Seq<(Id, Position, Position)>) -> bool {
    forall|j: int, k: int|
        #![trigger g[j], m[k]]
        0 <= j < g.len() && 0 <= k < m.len() && m[k].0 == g[j].id && (forall|k2: int|
            k < k2 < m.len() ==> m[k2].0 != m[k].0) ==> g[j].pos == m[k].2
}

/// Node `n` where undoing the moves of `m` leaves it.
pub open spec fn placed_by(n: NodeView, m: Seq<(Id, Position, Position)>) -> NodeView {
    NodeView {
        pos: if last_idx(m, n.id) >= 0 {
            m[last_idx(m, n.id)].1
        } else {
            n.pos
        },
        ..n
    }
}

proof fn lemma_last_idx(m: Seq<(Id, Position, Position)>, id: Id)
    ensures
        -1 <= last_idx(m, id) < m.len(),
        last_idx(m, id) >= 0 ==> m[last_idx(m, id)].0 == id,
        forall|k2: int| last_idx(m, id) < k2 && k2 < m.len() ==> m[k2].0 != id,
    decreases m.len(),
{
    if m.len() > 0 {
        lemma_last_idx(m.drop_last(), id);
        assert(forall|k2: int| 0 <= k2 < m.len() - 1 ==> m.drop_last()[k2] == m[k2]);
    }
}

proof fn lemma_last_idx_swapped(m: Seq<(Id, Position, Position)>, id: Id)
    ensures
        last_idx(swapped(m), id) == last_idx(m, id),
    decreases m.len(),
{
    if m.len() > 0 {
        assert(swapped(m).drop_last() =~= swapped(m.drop_last()));
        lemma_last_idx_swapped(m.drop_last(), id);
    }
}

/// Undoing the moves of `m` puts each moved node where its last move in
/// `m` started, and changes nothing else.
proof fn lemma_moves_shape(g: Seq<NodeView>, m: Seq<(Id, Position, Position)>)
    requires
        unique_ids(g),
    ensures
        moves_undone(g, m).len() == g.len(),
        forall|j: int|
            0 <= j < g.len() ==> #[trigger] moves_undone(g, m)[j] == placed_by(g[j], m),
    decreases m.len(),
{
    if m.len() > 0 {
        let t = m.drop_last();
        lemma_moves_shape(g, t);
        let prev = moves_undone(g, t);
        lemma_same_ids(g, prev);
        let id0 = m.last().0;
        let h = moves_undone(g, m);
        assert(h == pos_set(prev, id0, m.last().1));
        if has_id(prev, id0) {
            let j0 = choose|j0: int| 0 <= j0 < prev.len() && prev[j0].id == id0;
            lemma_index_of_unique(prev, j0);
        }
        assert(h.len() == g.len());
        assert forall|j: int| 0 <= j < g.len() implies #[trigger] moves_undone(g, m)[j]
            == placed_by(g[j], m) by {
            assert(prev[j] == placed_by(g[j], t));
            assert(prev[j].id == g[j].id);
            if g[j].id == id0 {
                assert(has_id(prev, id0));
                lemma_index_of_unique(prev, j);
                assert(index_of(prev, id0) == j);
                assert(h[j] == NodeView { pos: m.last().1, ..prev[j] });
                assert(last_idx(m, g[j].id) == m.len() - 1);
                assert(placed_by(g[j], m).pos == m.last().1);
                assert(h[j].pos == placed_by(g[j], m).pos);
                assert(h[j].links == placed_by(g[j], m).links);
                assert(h[j] == placed_by(g[j], m));
            } else {
                assert(last_idx(m, g[j].id) == last_idx(t, g[j].id));
                if has_id(prev, id0) {
                    let j0 = choose|j0: int| 0 <= j0 < prev.len() && prev[j0].id == id0;
                    lemma_index_of_unique(prev, j0);
                    assert(j0 != j);
                    assert(h[j] == prev[j]);
                } else {
                    assert(h[j] == prev[j]);
                }
                lemma_last_idx(t, g[j].id);
                let l = last_idx(t, g[j].id);
                if l >= 0 {
                    assert(t[l] == m[l]);
                }
                assert(placed_by(g[j], m) == placed_by(g[j], t));
                assert(h[j] == placed_by(g[j], m));
            }
        }
    }
}

/// Undoing a move whose nodes stand where it took them, then moving them
/// again, gives the same graph.
proof fn lemma_round_trip_move(g: Seq<NodeView>, m: Seq<(Id, Position, Position)>)
    requires
        well_formed(g),
        move_settled(g, m),
    ensures
        well_formed(moves_undone(g, m)),
        same_graph(moves_undone(moves_undone(g, m), swapped(m)), g),
{
    reveal(well_formed);
    lemma_moves_shape(g, m);
    let g1 = moves_undone(g, m);
    lemma_same_ids(g, g1);
    lemma_same_shape_wf(g, g1);
    lemma_moves_shape(g1, swapped(m));
    let g2 = moves_undone(g1, swapped(m));
    assert forall|j: int| 0 <= j < g.len() implies (#[trigger] g2[j]).id == g[j].id && g2[j].radical
        == g[j].radical && g2[j].pos == g[j].pos && g2[j].links.to_multiset()
        == g[j].links.to_multiset() by {
        let id = g[j].id;
        assert(g1[j].id == id);
        lemma_last_idx_swapped(m, id);
        lemma_last_idx(m, id);
        let l = last_idx(m, id);
        if l >= 0 {
            assert(g[j].pos == m[l].2);
        }
    }
    lemma_same_pointwise(g2, g);
}

/// Whether entry `a` describes an edit that `g` shows: the node it added is
/// there as recorded, the node it deleted is absent and its partners
/// present, the moved nodes stand where they were moved, the bond it added
/// is there, or the two nodes of the bond it deleted are.
pub open spec fn takes_effect(g: Seq<NodeView>, a: ActionView) -> bool {
    match a {
        ActionView::AddRadical(n) => exists|i: int| 0 <= i < g.len() && g[i] == n,
        ActionView::DeleteRadical(n) => !has_id(g, n.id) && forall|k: int|
            0 <= k < n.links.len() ==> #[trigger] n.links[k] != n.id && has_id(g, n.links[k]),
        ActionView::MoveRadicals(m) => move_settled(g, m),
        ActionView::AddLink(x, y) => bonded(g, x, y),
        ActionView::DeleteLink(x, y) => has_id(g, x) && has_id(g, y) && x != y,
    }
}

/// Reverting an edit that a graph shows, then reverting the revert, gives
/// back the same graph: same nodes, kinds, positions and bonds.
pub proof fn lemma_round_trip(g: Seq<NodeView>, a: ActionView)
    requires
        well_formed(g),
        takes_effect(g, a),
    ensures
        well_formed(apply_entry(g, a)),
        same_graph(apply_entry(apply_entry(g, a), opposite_of(a)), g),
{
    match a {
        ActionView::AddRadical(n) => {
            let i = choose|i: int| 0 <= i < g.len() && g[i] == n;
            assert(has_id(g, n.id));
            lemma_round_trip_remove(g, i);
        },
        ActionView::DeleteRadical(n) => {
            lemma_round_trip_add(g, n);
        },
        ActionView::MoveRadicals(m) => {
            lemma_round_trip_move(g, m);
        },
        ActionView::AddLink(x, y) => {
            lemma_round_trip_unlink(g, x, y);
        },
        ActionView::DeleteLink(x, y) => {
            lemma_round_trip_link(g, x, y);
        },
    }
}

/// The opposite of the opposite of an entry is the entry.
pub proof fn lemma_opposite_twice(a: ActionView)
    ensures
        opposite_of(opposite_of(a)) == a,
{
    if let ActionView::MoveRadicals(m) = a {
        assert(swapped(swapped(m)) =~= m);
    }
}

/// An edit made on a graph leaves a graph that shows it.
proof fn lemma_edit_shows(g0: Seq<NodeView>, e: ActionView)
    requires
        well_formed(g0),
        takes_effect(g0, opposite_of(e)),
    ensures
        takes_effect(apply_entry(g0, opposite_of(e)), e),
{
    reveal(well_formed);
    match e {
        ActionView::AddRadical(n) => {
            assert forall|k: int| 0 <= k < n.links.len() implies kept_ref(g0, n.id)(
                #[trigger] n.links[k],
            ) by {
                assert(n.links[k] != n.id && has_id(g0, n.links[k]));
            }
            lemma_filter_all(n.links, kept_ref(g0, n.id));
            let g1 = node_added(g0, n);
            assert(g1[g0.len() as int] == n);
        },
        ActionView::DeleteRadical(n) => {
            let i = choose|i: int| 0 <= i < g0.len() && g0[i] == n;
            lemma_index_of_unique(g0, i);
            lemma_node_removed_wf(g0, n.id);
            let g1 = node_removed(g0, n.id);
            let r = g0.remove(i);
            assert forall|k: int| 0 <= k < n.links.len() implies #[trigger] n.links[k] != n.id
                && has_id(g1, n.links[k]) by {
                let l = n.links[k];
                assert(has_id(g0, g0[i].links[k]));
                let m = choose|m: int| 0 <= m < g0.len() && g0[m].id == l;
                let mp = if m < i {
                    m
                } else {
                    m - 1
                };
                if m < i {
                    assert(r[mp] == g0[m]);
                } else {
                    assert(r[mp] == g0[m]);
                }
                assert(g1[mp].id == l);
            }
        },
        ActionView::MoveRadicals(m) => {
            let sm = swapped(m);
            lemma_moves_shape(g0, sm);
            let g1 = moves_undone(g0, sm);
            assert forall|j: int, k: int|
                #![trigger g1[j], m[k]]
                0 <= j < g1.len() && 0 <= k < m.len() && m[k].0 == g1[j].id && (forall|k2: int|
                    k < k2 < m.len() ==> m[k2].0 != m[k].0) implies g1[j].pos == m[k].2 by {
                let id = g0[j].id;
                assert(g1[j] == placed_by(g0[j], sm));
                lemma_last_idx_swapped(m, id);
                lemma_last_idx(m, id);
                let l = last_idx(m, id);
                if l > k {
                    assert(m[l].0 == m[k].0);
                }
                assert(l == k);
            }
        },
        ActionView::AddLink(x, y) => {
            let (iy, ix) = lemma_two_positions(g0, y, x);
            let g1 = link_added(g0, y, x);
            let sy = g0[iy].links.push(x);
            let sx = g0[ix].links.push(y);
            assert(g1 == g0.update(iy, NodeView { links: sy, ..g0[iy] }).update(
                ix,
                NodeView { links: sx, ..g0[ix] },
            ));
            lemma_same_ids(g0, g1);
            let (jx, jy) = lemma_two_positions(g1, x, y);
            assert(sx[sx.len() - 1] == y);
            assert(sy[sy.len() - 1] == x);
            assert(bonded(g1, x, y));
        },
        ActionView::DeleteLink(x, y) => {
            let (iy, ix) = lemma_two_positions(g0, y, x);
            let g1 = link_removed(g0, y, x);
            let n1 = NodeView { links: remove_one(g0[iy].links, x), ..g0[iy] };
            let n2 = NodeView { links: remove_one(g0[ix].links, y), ..g0[ix] };
            assert(g1 == g0.update(iy, n1).update(ix, n2));
            lemma_same_ids(g0, g1);
        },
    }
}

/// Undoing an edit gives back the graph the edit was made on, and redoing
/// it then gives back the edited graph. `e` is the entry the edit recorded;
/// the edit itself is `apply_entry(g0, opposite_of(e))`.
pub proof fn lemma_undo_redo(g0: Seq<NodeView>, e: ActionView)
    requires
        well_formed(g0),
        takes_effect(g0, opposite_of(e)),
    ensures
        well_formed(apply_entry(g0, opposite_of(e))),
        well_formed(apply_entry(apply_entry(g0, opposite_of(e)), e)),
        same_graph(apply_entry(apply_entry(g0, opposite_of(e)), e), g0),
        same_graph(
            apply_entry(apply_entry(apply_entry(g0, opposite_of(e)), e), opposite_of(e)),
            apply_entry(g0, opposite_of(e)),
        ),
{
    lemma_opposite_twice(e);
    lemma_round_trip(g0, opposite_of(e));
    lemma_edit_shows(g0, e);
    lemma_round_trip(apply_entry(g0, opposite_of(e)), e);
}

} // verus!
