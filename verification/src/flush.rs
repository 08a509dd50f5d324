//! Flushing styles to layout: sorting layout and paint children, and
//! hoisting `z-index` boxes up to their stacking contexts.
use vstd::prelude::*;

use crate::document::{
    finite_subtree, layout_seq, live, node_at, subtree_depth, tree_below, walked_kids, BaseDocument, Walk,
};
use crate::node::{ComputedStyle, DisplayInside, ElementData, Float, InlineLayout, Node, Overflow, Position};
use crate::node_id::NodeId;
use crate::paint::{
    hoisted_views, lemma_sorted_by_z, negative_prefix, z_keyed, negatives_first, node_to_paint_order, z_ordered, offset_all, offset_hoisted, paint_order, sorted_by_z,
    HoistedPaintChild, HoistedPaintChildren, HoistedView,
};
use crate::slot_store::slot_key;
use crate::sort::{
    in_key_order, keyed_by, lemma_sorted_payloads, lemma_sorted_payloads_members, lemma_stable_sorted, payloads,
    stable_sort, stable_sorted,
};

verus! {

/// What flushing reads and writes of a node.
pub ghost struct LayoutState {
    pub element: Option<ElementData>,
    pub has_layout_cache: bool,
    pub subtree_has_floats: bool,
    pub layout_children: Option<Seq<NodeId>>,
    pub paint_children: Option<Seq<NodeId>>,
    /// The stored stacking context: its hoisted children and its count of
    /// negative ones.
    pub stacking_context: Option<(Seq<HoistedView>, u32)>,
    pub auto_hoisted: Option<Seq<HoistedView>>,
}

/// The layout state of a node.
pub open spec fn layout_state(n: Node) -> LayoutState {
    LayoutState {
        element: n.element,
        has_layout_cache: n.has_layout_cache,
        subtree_has_floats: n.subtree_has_floats,
        layout_children: match n.layout_children {
            Some(v) => Some(v@),
            None => None,
        },
        paint_children: match n.paint_children {
            Some(v) => Some(v@),
            None => None,
        },
        stacking_context: match n.stacking_context {
            Some(sc) => Some((hoisted_views(sc.children@), sc.negative_z_count)),
            None => None,
        },
        auto_hoisted: match n.auto_hoisted {
            Some(ah) => Some(hoisted_views(ah@)),
            None => None,
        },
    }
}

/// The layout states of all nodes.
pub open spec fn layout_states(nodes: Map<u64, Node>) -> Map<u64, LayoutState> {
    Map::new(|k: u64| nodes.contains_key(k), |k: u64| layout_state(nodes[k]))
}

/// Whether two nodes agree on everything that flushing does not write.
pub open spec fn same_except_layout(a: Node, b: Node) -> bool {
    &&& a.id == b.id
    &&& a.in_document == b.in_document
    &&& a.is_anonymous == b.is_anonymous
    &&& a.damaged_descendants == b.damaged_descendants
    &&& a.dirty_descendants == b.dirty_descendants
    &&& a.style == b.style
    &&& a.children@ == b.children@
    &&& a.layout_parent == b.layout_parent
    &&& a.before == b.before
    &&& a.after == b.after
    &&& a.traverse_layout_children == b.traverse_layout_children
    &&& a.stacking_root == b.stacking_root
    &&& a.stacking_root_in_flex_or_grid == b.stacking_root_in_flex_or_grid
    &&& a.background_layers@ == b.background_layers@
    &&& a.mask_layers@ == b.mask_layers@
    &&& a.background_images@ == b.background_images@
    &&& a.mask_images@ == b.mask_images@
}

/// Whether `nodes` holds the nodes of `base`, changed at most in what
/// flushing writes.
pub open spec fn statics_match(base: Map<u64, Node>, nodes: Map<u64, Node>) -> bool {
    &&& base.dom() == nodes.dom()
    &&& forall|k: u64| #[trigger] base.contains_key(k) ==> same_except_layout(base[k], nodes[k])
}

/// Whether each node's layout children in `nodes` are among its layout
/// children in `base`.
pub open spec fn kids_within(base: Map<u64, Node>, nodes: Map<u64, Node>) -> bool {
    forall|k: u64, c: NodeId|
        #![trigger layout_seq(nodes[k]).contains(c)]
        base.contains_key(k) && layout_seq(nodes[k]).contains(c) ==> layout_seq(base[k]).contains(c)
}

/// The primary computed style of a node, if it has one.
pub open spec fn primary_style(n: Node) -> Option<ComputedStyle> {
    match n.style {
        Some(sd) => sd.primary,
        None => None,
    }
}

/// `z-index`, with `auto` as 0.
pub open spec fn z_or_zero(s: ComputedStyle) -> i32 {
    match s.z_index {
        Some(z) => z,
        None => 0,
    }
}

/// Whether a box with this style collects the `z-index: auto` positioned
/// descendants below its static children: a stacking context root, a
/// positioned box, and a box that clips its overflow each do.
pub open spec fn owns_auto_hoist(s: ComputedStyle, in_context: bool, in_auto: bool) -> bool {
    !in_context || !in_auto || s.position != Position::Static || s.overflow_x != Overflow::Visible
        || s.overflow_y != Overflow::Visible
}

/// Whether a box with this style is a flex or grid container.
pub open spec fn flex_or_grid(s: ComputedStyle) -> bool {
    s.display_inside == DisplayInside::Flex || s.display_inside == DisplayInside::Grid
}

/// Whether a child roots a stacking context.
pub open spec fn child_is_root(n: Node, in_flex_or_grid: bool) -> bool {
    if in_flex_or_grid {
        n.stacking_root_in_flex_or_grid
    } else {
        n.stacking_root
    }
}

/// Whether a child is recorded in the `z-index: auto` collection before its
/// descendants: a positioned child with `z-index` auto or 0, under a box
/// that does not collect them itself.
pub open spec fn hoists_auto(n: Node, owns: bool) -> bool {
    !owns && match primary_style(n) {
        Some(s) => s.position != Position::Static && z_or_zero(s) == 0,
        None => false,
    }
}

/// Whether a child is hoisted to the stacking context: it has a non-zero
/// `z-index` and is positioned, or is a flex or grid item.
pub open spec fn hoisted_to_context(n: Node, in_flex_or_grid: bool) -> bool {
    match primary_style(n) {
        Some(s) => z_or_zero(s) != 0 && (s.position != Position::Static || in_flex_or_grid),
        None => false,
    }
}

/// Whether a child is painted among its parent's paint children: it has no
/// style, or it is neither hoisted to the stacking context nor a positioned
/// box recorded in the parent's `z-index: auto` collection.
pub open spec fn paints_in_place(n: Node, owns: bool, in_flex_or_grid: bool) -> bool {
    match primary_style(n) {
        Some(s) => !hoisted_to_context(n, in_flex_or_grid) && (owns || s.position == Position::Static),
        None => true,
    }
}

/// The flex/grid `order` of a node, 0 without style.
pub open spec fn order_of(n: Node) -> i32 {
    match primary_style(n) {
        Some(s) => s.order,
        None => 0,
    }
}

/// Children keyed by their `order`.
pub open spec fn order_keyed(base: Map<u64, Node>, kids: Seq<NodeId>) -> Seq<((i32, i32), NodeId)> {
    kids.map_values(|c: NodeId| ((order_of(node_at(base, c)), 0i32), c))
}

/// Children stably sorted by `order`.
pub open spec fn sorted_by_order(base: Map<u64, Node>, kids: Seq<NodeId>) -> Seq<NodeId> {
    stable_sorted(order_keyed(base, kids)).map_values(|e: ((i32, i32), NodeId)| e.1)
}

/// Children keyed by their paint order.
pub open spec fn paint_keyed(base: Map<u64, Node>, kids: Seq<NodeId>, in_flex_or_grid: bool) -> Seq<((i32, i32), NodeId)> {
    kids.map_values(|c: NodeId| (paint_order(node_at(base, c), in_flex_or_grid), c))
}

/// Children stably sorted by paint order.
pub open spec fn sorted_by_paint_order(base: Map<u64, Node>, kids: Seq<NodeId>, in_flex_or_grid: bool) -> Seq<NodeId> {
    stable_sorted(paint_keyed(base, kids, in_flex_or_grid)).map_values(|e: ((i32, i32), NodeId)| e.1)
}

/// Whether a child paints in place, as a function.
pub open spec fn in_place(base: Map<u64, Node>, owns: bool, in_flex_or_grid: bool) -> spec_fn(NodeId) -> bool {
    |c: NodeId| paints_in_place(node_at(base, c), owns, in_flex_or_grid)
}

/// Whether a child is hoisted to the stacking context, as a function.
pub open spec fn to_context(base: Map<u64, Node>, in_flex_or_grid: bool) -> spec_fn(NodeId) -> bool {
    |c: NodeId| hoisted_to_context(node_at(base, c), in_flex_or_grid)
}

/// The hoisted child that a child hoisted to the stacking context makes.
pub open spec fn hoisted_entry(base: Map<u64, Node>, c: NodeId) -> HoistedView {
    (c, z_or_zero(primary_style(node_at(base, c)).unwrap()), Seq::empty())
}

/// The children that a box hoists to its stacking context, in order.
pub open spec fn direct_hoisted(base: Map<u64, Node>, kids: Seq<NodeId>, in_flex_or_grid: bool) -> Seq<HoistedView> {
    kids.filter(to_context(base, in_flex_or_grid)).map_values(|c: NodeId| hoisted_entry(base, c))
}

/// A layout state with the layout cache and the cached content widths cleared.
pub open spec fn cache_cleared_state(s: LayoutState) -> LayoutState {
    LayoutState {
        has_layout_cache: false,
        element: match s.element {
            Some(el) => Some(
                ElementData {
                    inline_layout: match el.inline_layout {
                        Some(il) => Some(InlineLayout { has_content_widths: false }),
                        None => None,
                    },
                    ..el
                },
            ),
            None => None,
        },
        ..s
    }
}

/// Whether some child's layout subtree holds a float.
pub open spec fn any_child_floats(st: Map<u64, LayoutState>, kids: Seq<NodeId>) -> bool {
    exists|i: int| 0 <= i < kids.len() && #[trigger] st[slot_key(kids[i]@)].subtree_has_floats
}

/// The end of flushing a box: where its `z-index: auto` collection and its
/// stacking context go.
pub open spec fn flush_finish(
    st: Map<u64, LayoutState>,
    id: NodeId,
    owns: bool,
    in_context: bool,
    sc: Seq<HoistedView>,
    ah: Seq<HoistedView>,
) -> (Map<u64, LayoutState>, Seq<HoistedView>, Seq<HoistedView>) {
    let k = slot_key(id@);
    let st1 = if owns {
        st.insert(
            k,
            LayoutState { auto_hoisted: if ah.len() > 0 { Some(ah) } else { None }, ..st[k] },
        )
    } else {
        st.insert(k, LayoutState { auto_hoisted: None, ..st[k] })
    };
    let ah_up = if owns { Seq::empty() } else { offset_all(ah, id) };
    if in_context {
        (st1, offset_all(sc, id), ah_up)
    } else {
        let sorted = sorted_by_z(sc);
        (
            st1.insert(
                k,
                LayoutState {
                    stacking_context: Some((sorted, negative_prefix(sorted) as u32)),
                    ..st1[k]
                },
            ),
            Seq::empty(),
            ah_up,
        )
    }
}

/// Flushing the box `id` and, through its layout children, its subtree, with
/// at most `depth` levels: the layout states afterwards, and what it hands up
/// to the stacking context and to the `z-index: auto` collection it is in.
pub open spec fn flush_node(
    base: Map<u64, Node>,
    st: Map<u64, LayoutState>,
    id: NodeId,
    in_context: bool,
    in_auto: bool,
    incremental: bool,
    depth: nat,
) -> (Map<u64, LayoutState>, Seq<HoistedView>, Seq<HoistedView>)
    decreases depth, 0nat,
{
    if depth == 0 || !live(base, id) {
        (st, Seq::empty(), Seq::empty())
    } else {
        let k = slot_key(id@);
        match primary_style(base[k]) {
            None => (st, Seq::empty(), Seq::empty()),
            Some(s) => {
                let owns = owns_auto_hoist(s, in_context, in_auto);
                let s0 = if incremental { st[k] } else { cache_cleared_state(st[k]) };
                let st1 = st.insert(
                    k,
                    LayoutState { subtree_has_floats: s.float != Float::NoFloat, ..s0 },
                );
                match st1[k].layout_children {
                    None => flush_finish(st1, id, owns, in_context, Seq::empty(), Seq::empty()),
                    Some(kids) => {
                        let fg = flex_or_grid(s);
                        let below = flush_kids(
                            base,
                            st1,
                            kids,
                            owns,
                            fg,
                            incremental,
                            (depth - 1) as nat,
                            Seq::empty(),
                            Seq::empty(),
                        );
                        let st2 = below.0;
                        let floats = st2[k].subtree_has_floats || any_child_floats(st2, kids);
                        let sorted = if fg { sorted_by_order(base, kids) } else { kids };
                        let paint = sorted_by_paint_order(base, sorted.filter(in_place(base, owns, fg)), fg);
                        let sc = below.1 + direct_hoisted(base, sorted, fg);
                        let st3 = st2.insert(
                            k,
                            LayoutState {
                                layout_children: Some(sorted),
                                paint_children: Some(paint),
                                subtree_has_floats: floats,
                                ..st2[k]
                            },
                        );
                        flush_finish(st3, id, owns, in_context, sc, below.2)
                    },
                }
            },
        }
    }
}

/// Flushing each of a box's layout children in turn, collecting what they
/// hand up (after the child itself, where it is recorded in the `z-index:
/// auto` collection).
pub open spec fn flush_kids(
    base: Map<u64, Node>,
    st: Map<u64, LayoutState>,
    kids: Seq<NodeId>,
    owns: bool,
    in_flex_or_grid: bool,
    incremental: bool,
    depth: nat,
    sc: Seq<HoistedView>,
    ah: Seq<HoistedView>,
) -> (Map<u64, LayoutState>, Seq<HoistedView>, Seq<HoistedView>)
    decreases depth, kids.len() + 1,
{
    if kids.len() == 0 {
        (st, sc, ah)
    } else {
        let c = kids[0];
        let n = node_at(base, c);
        let root = child_is_root(n, in_flex_or_grid);
        let ah1 = if hoists_auto(n, owns) {
            ah.push((c, 0i32, Seq::empty()))
        } else {
            ah
        };
        let r = flush_node(base, st, c, !root, !root, incremental, depth);
        flush_kids(base, r.0, kids.drop_first(), owns, in_flex_or_grid, incremental, depth, sc + r.1, ah1 + r.2)
    }
}

/// The layout states after one node is replaced.
proof fn lemma_states_insert(m: Map<u64, Node>, k: u64, n: Node)
    requires
        m.contains_key(k),
    ensures
        layout_states(m.insert(k, n)) == layout_states(m).insert(k, layout_state(n)),
{
    assert(layout_states(m.insert(k, n)) =~= layout_states(m).insert(k, layout_state(n)));
}

/// Replacing a node by one that agrees with it outside its layout keeps the
/// statics.
proof fn lemma_statics_insert(base: Map<u64, Node>, m: Map<u64, Node>, k: u64, n: Node)
    requires
        statics_match(base, m),
        m.contains_key(k),
        same_except_layout(m[k], n),
    ensures
        statics_match(base, m.insert(k, n)),
{
    assert(m.insert(k, n).dom() =~= m.dom());
}

/// Replacing a node whose layout children stay among its links keeps
/// `kids_within`.
proof fn lemma_kids_within_insert(base: Map<u64, Node>, m: Map<u64, Node>, k: u64, n: Node)
    requires
        kids_within(base, m),
        base.contains_key(k),
        forall|c: NodeId| #[trigger] layout_seq(n).contains(c) ==> layout_seq(base[k]).contains(c),
    ensures
        kids_within(base, m.insert(k, n)),
{
    assert forall|j: u64, c: NodeId| base.contains_key(j) && #[trigger] layout_seq(m.insert(k, n)[j]).contains(c)
        implies layout_seq(base[j]).contains(c) by {
        if j != k {
            assert(layout_seq(m[j]).contains(c));
        }
    }
}

/// Sorting children by `order` keeps the same children.
proof fn lemma_sorted_by_order_members(base: Map<u64, Node>, kids: Seq<NodeId>)
    ensures
        forall|c: NodeId| #[trigger] sorted_by_order(base, kids).contains(c) ==> kids.contains(c),
{
    let keyed = order_keyed(base, kids);
    lemma_stable_sorted(keyed);
    let sorted = stable_sorted(keyed);
    assert forall|c: NodeId| #[trigger] sorted_by_order(base, kids).contains(c) implies kids.contains(c) by {
        let i = choose|i: int| 0 <= i < sorted_by_order(base, kids).len() && sorted_by_order(base, kids)[i] == c;
        let e = sorted[i];
        sorted.to_multiset_ensures();
        keyed.to_multiset_ensures();
        assert(sorted.contains(e));
        assert(sorted.to_multiset().count(e) > 0);
        assert(keyed.contains(e));
        let w = choose|w: int| 0 <= w < keyed.len() && keyed[w] == e;
        assert(kids[w] == c);
    }
}

/// Whether the stored stacking context of a layout state is sorted by
/// `z-index`, with the negative children first and counted.
pub open spec fn context_in_paint_order(s: LayoutState) -> bool {
    match s.stacking_context {
        Some((sc, count)) => z_ordered(sc) && negatives_first(sc, negative_prefix(sc)) && count == negative_prefix(sc)
            as u32,
        None => false,
    }
}

/// A box flushed outside any stacking context stores a stacking context of
/// its own, in paint order.
proof fn lemma_flush_root_context(
    base: Map<u64, Node>,
    st: Map<u64, LayoutState>,
    id: NodeId,
    incremental: bool,
    depth: nat,
)
    requires
        depth > 0,
        live(base, id),
        st.contains_key(slot_key(id@)),
        primary_style(node_at(base, id)) is Some,
    ensures
        context_in_paint_order(flush_node(base, st, id, false, false, incremental, depth).0[slot_key(id@)]),
{
    let k = slot_key(id@);
    let s = primary_style(base[k]).unwrap();
    let owns = owns_auto_hoist(s, false, false);
    let s0 = if incremental { st[k] } else { cache_cleared_state(st[k]) };
    let st1 = st.insert(k, LayoutState { subtree_has_floats: s.float != Float::NoFloat, ..s0 });
    match st1[k].layout_children {
        None => {
            lemma_sorted_by_z(Seq::empty());
        },
        Some(kids) => {
            let fg = flex_or_grid(s);
            let below = flush_kids(base, st1, kids, owns, fg, incremental, (depth - 1) as nat, Seq::empty(), Seq::empty());
            let sorted = if fg { sorted_by_order(base, kids) } else { kids };
            let sc = below.1 + direct_hoisted(base, sorted, fg);
            lemma_sorted_by_z(sc);
        },
    }
}

/// The paint sort key of a child, as a function.
pub open spec fn paint_key(base: Map<u64, Node>, in_flex_or_grid: bool) -> spec_fn(NodeId) -> (i32, i32) {
    |c: NodeId| paint_order(node_at(base, c), in_flex_or_grid)
}

/// The `order` sort key of a child, as a function.
pub open spec fn order_key(base: Map<u64, Node>) -> spec_fn(NodeId) -> (i32, i32) {
    |c: NodeId| (order_of(node_at(base, c)), 0i32)
}

/// Whether a flushed box's children are in order: its paint children by
/// paint order and, in a flex or grid container, its layout children by
/// `order`.
pub open spec fn children_in_order(base: Map<u64, Node>, s: LayoutState, in_flex_or_grid: bool) -> bool {
    &&& s.paint_children is Some
    &&& in_key_order(s.paint_children.unwrap(), paint_key(base, in_flex_or_grid))
    &&& in_flex_or_grid ==> s.layout_children is Some && in_key_order(
        s.layout_children.unwrap(),
        order_key(base),
    )
}

/// A box with style and layout children, flushed outside any stacking
/// context, stores its children in order.
proof fn lemma_flush_root_children(
    base: Map<u64, Node>,
    st: Map<u64, LayoutState>,
    id: NodeId,
    incremental: bool,
    depth: nat,
)
    requires
        depth > 0,
        live(base, id),
        st.contains_key(slot_key(id@)),
        primary_style(node_at(base, id)) is Some,
        st[slot_key(id@)].layout_children is Some,
    ensures
        children_in_order(
            base,
            flush_node(base, st, id, false, false, incremental, depth).0[slot_key(id@)],
            flex_or_grid(primary_style(node_at(base, id)).unwrap()),
        ),
{
    let k = slot_key(id@);
    let s = primary_style(base[k]).unwrap();
    let owns = owns_auto_hoist(s, false, false);
    let s0 = if incremental { st[k] } else { cache_cleared_state(st[k]) };
    let st1 = st.insert(k, LayoutState { subtree_has_floats: s.float != Float::NoFloat, ..s0 });
    let kids = st1[k].layout_children.unwrap();
    let fg = flex_or_grid(s);
    let sorted = if fg { sorted_by_order(base, kids) } else { kids };
    let placed = sorted.filter(in_place(base, owns, fg));
    assert(paint_keyed(base, placed, fg) =~= placed.map_values(|x: NodeId| (paint_key(base, fg)(x), x)));
    lemma_sorted_payloads(placed, paint_key(base, fg));
    if fg {
        assert(order_keyed(base, kids) =~= kids.map_values(|x: NodeId| (order_key(base)(x), x)));
        lemma_sorted_payloads(kids, order_key(base));
    }
}

/// A box that starts its own `z-index: auto` collection hands nothing up to
/// an enclosing one: a box outside any stacking context or collection, a
/// positioned box, and a box that clips its overflow on either axis.
pub proof fn lemma_flush_collection_stays(
    base: Map<u64, Node>,
    st: Map<u64, LayoutState>,
    id: NodeId,
    in_context: bool,
    in_auto: bool,
    incremental: bool,
    depth: nat,
)
    requires
        !in_context || !in_auto || (primary_style(node_at(base, id)) is Some && ({
            let s = primary_style(node_at(base, id)).unwrap();
            s.position != Position::Static || s.overflow_x != Overflow::Visible || s.overflow_y
                != Overflow::Visible
        })),
    ensures
        flush_node(base, st, id, in_context, in_auto, incremental, depth).2 == Seq::<HoistedView>::empty(),
{
}

/// Whether a hoisted list holds an entry for node `c`.
pub open spec fn names(s: Seq<HoistedView>, c: NodeId) -> bool {
    exists|i: int| 0 <= i < s.len() && (#[trigger] s[i]).0 == c
}

/// Adding boxes' offsets to hoisted children keeps which nodes they are.
proof fn lemma_offset_all_names(s: Seq<HoistedView>, id: NodeId, c: NodeId)
    requires
        names(s, c),
    ensures
        names(offset_all(s, id), c),
{
    let i = choose|i: int| 0 <= i < s.len() && (#[trigger] s[i]).0 == c;
    assert(offset_all(s, id)[i].0 == c);
}

/// Sorting hoisted children by `z-index` keeps which nodes they are.
proof fn lemma_sorted_by_z_names(s: Seq<HoistedView>, c: NodeId)
    requires
        names(s, c),
    ensures
        names(sorted_by_z(s), c),
{
    let zk = |x: HoistedView| (x.1, 0i32);
    assert(z_keyed(s) =~= keyed_by(s, zk));
    assert(sorted_by_z(s) =~= payloads(stable_sorted(keyed_by(s, zk))));
    lemma_sorted_payloads_members(s, zk);
    let i = choose|i: int| 0 <= i < s.len() && (#[trigger] s[i]).0 == c;
    assert(s.contains(s[i]));
    assert(sorted_by_z(s).contains(s[i]));
    let j = choose|j: int| 0 <= j < sorted_by_z(s).len() && sorted_by_z(s)[j] == s[i];
    assert(sorted_by_z(s)[j].0 == c);
}

/// Flushing the children in turn keeps what the collection held, and adds
/// each child that is recorded in it.
proof fn lemma_flush_kids_collects(
    base: Map<u64, Node>,
    st: Map<u64, LayoutState>,
    kids: Seq<NodeId>,
    owns: bool,
    in_flex_or_grid: bool,
    incremental: bool,
    depth: nat,
    sc: Seq<HoistedView>,
    ah: Seq<HoistedView>,
)
    ensures
        ({
            let r = flush_kids(base, st, kids, owns, in_flex_or_grid, incremental, depth, sc, ah);
            &&& forall|x: NodeId| #[trigger] names(ah, x) ==> names(r.2, x)
            &&& forall|c: NodeId| #[trigger] kids.contains(c) && hoists_auto(node_at(base, c), owns) ==> names(r.2, c)
        }),
    decreases kids.len(),
{
    if kids.len() > 0 {
        let c0 = kids[0];
        let n = node_at(base, c0);
        let root = child_is_root(n, in_flex_or_grid);
        let ah1 = if hoists_auto(n, owns) { ah.push((c0, 0i32, Seq::empty())) } else { ah };
        let r0 = flush_node(base, st, c0, !root, !root, incremental, depth);
        let ah2 = ah1 + r0.2;
        let rest = kids.drop_first();
        lemma_flush_kids_collects(base, r0.0, rest, owns, in_flex_or_grid, incremental, depth, sc + r0.1, ah2);
        let r = flush_kids(base, st, kids, owns, in_flex_or_grid, incremental, depth, sc, ah);
        assert forall|x: NodeId| #[trigger] names(ah, x) implies names(r.2, x) by {
            let i = choose|i: int| 0 <= i < ah.len() && (#[trigger] ah[i]).0 == x;
            assert(ah2[i] == ah[i]);
            assert(names(ah2, x));
        }
        if hoists_auto(n, owns) {
            assert(ah2[ah.len() as int].0 == c0);
            assert(names(ah2, c0));
        }
        assert forall|c: NodeId| #[trigger] kids.contains(c) && hoists_auto(node_at(base, c), owns) implies names(
            r.2,
            c,
        ) by {
            if c != c0 {
                let i = choose|i: int| 0 <= i < kids.len() && kids[i] == c;
                assert(rest[i - 1] == c);
                assert(rest.contains(c));
            } else {
                assert(names(ah2, c0));
            }
        }
    }
}

/// Flushing a box with style places each of its layout children where it
/// is painted: among the box's paint children, in the stacking context's
/// hoisted children (handed up, or stored on the box), or in a `z-index:
/// auto` collection (handed up, or stored on the box). No child is dropped.
pub proof fn lemma_flush_places_children(
    base: Map<u64, Node>,
    st: Map<u64, LayoutState>,
    id: NodeId,
    in_context: bool,
    in_auto: bool,
    incremental: bool,
    depth: nat,
    c: NodeId,
)
    requires
        depth > 0,
        live(base, id),
        primary_style(node_at(base, id)) is Some,
        st.contains_key(slot_key(id@)),
        st[slot_key(id@)].layout_children is Some,
        st[slot_key(id@)].layout_children.unwrap().contains(c),
    ensures
        ({
            let (st2, sc, ah) = flush_node(base, st, id, in_context, in_auto, incremental, depth);
            let s = st2[slot_key(id@)];
            ||| s.paint_children is Some && s.paint_children.unwrap().contains(c)
            ||| names(sc, c)
            ||| s.stacking_context is Some && names(s.stacking_context.unwrap().0, c)
            ||| names(ah, c)
            ||| s.auto_hoisted is Some && names(s.auto_hoisted.unwrap(), c)
        }),
{
    let k = slot_key(id@);
    let sty = primary_style(base[k]).unwrap();
    let owns = owns_auto_hoist(sty, in_context, in_auto);
    let s0 = if incremental { st[k] } else { cache_cleared_state(st[k]) };
    let st1 = st.insert(k, LayoutState { subtree_has_floats: sty.float != Float::NoFloat, ..s0 });
    let kids = st1[k].layout_children.unwrap();
    let fg = flex_or_grid(sty);
    let below = flush_kids(base, st1, kids, owns, fg, incremental, (depth - 1) as nat, Seq::empty(), Seq::empty());
    let sorted = if fg { sorted_by_order(base, kids) } else { kids };
    let placed = sorted.filter(in_place(base, owns, fg));
    let paint = sorted_by_paint_order(base, placed, fg);
    let sc = below.1 + direct_hoisted(base, sorted, fg);
    let n = node_at(base, c);
    // The child is among the sorted children.
    assert(sorted.contains(c)) by {
        if fg {
            let ok = order_key(base);
            assert(order_keyed(base, kids) =~= keyed_by(kids, ok));
            assert(sorted_by_order(base, kids) =~= payloads(stable_sorted(keyed_by(kids, ok))));
            lemma_sorted_payloads_members(kids, ok);
        }
    }
    let i = choose|i: int| 0 <= i < sorted.len() && sorted[i] == c;
    let r = flush_node(base, st, id, in_context, in_auto, incremental, depth);
    if paints_in_place(n, owns, fg) {
        sorted.lemma_filter_contains(in_place(base, owns, fg), i);
        let pk = paint_key(base, fg);
        assert(paint_keyed(base, placed, fg) =~= keyed_by(placed, pk));
        assert(paint =~= payloads(stable_sorted(keyed_by(placed, pk))));
        lemma_sorted_payloads_members(placed, pk);
        assert(paint.contains(c));
        assert(r.0[k].paint_children == Some(paint));
    } else if hoisted_to_context(n, fg) {
        sorted.lemma_filter_contains(to_context(base, fg), i);
        let hoisted = sorted.filter(to_context(base, fg));
        let j = choose|j: int| 0 <= j < hoisted.len() && hoisted[j] == c;
        let dh = direct_hoisted(base, sorted, fg);
        assert(dh[j].0 == c);
        assert(sc[below.1.len() + j].0 == c);
        assert(names(sc, c));
        if in_context {
            lemma_offset_all_names(sc, id, c);
        } else {
            lemma_sorted_by_z_names(sc, c);
        }
    } else {
        assert(hoists_auto(n, owns));
        lemma_flush_kids_collects(base, st1, kids, owns, fg, incremental, (depth - 1) as nat, Seq::empty(), Seq::empty());
        assert(names(below.2, c));
        if !owns {
            lemma_offset_all_names(below.2, id, c);
        } else {
            let w = choose|w: int| 0 <= w < below.2.len() && (#[trigger] below.2[w]).0 == c;
            assert(below.2.len() > 0);
        }
    }
}

/// The ids of keyed items, keys dropped.
fn strip_keys(v: Vec<((i32, i32), NodeId)>) -> (ids: Vec<NodeId>)
    ensures
        ids@ == v@.map_values(|e: ((i32, i32), NodeId)| e.1),
{
    let mut ids: Vec<NodeId> = Vec::new();
    let mut i: usize = 0;
    while i < v.len()
        invariant
            0 <= i <= v.len(),
            ids@ == v@.take(i as int).map_values(|e: ((i32, i32), NodeId)| e.1),
        decreases v.len() - i,
    {
        ids.push(v[i].1);
        proof {
            assert(v@.take(i + 1) =~= v@.take(i as int).push(v@[i as int]));
            assert(ids@ =~= v@.take(i + 1).map_values(|e: ((i32, i32), NodeId)| e.1));
        }
        i = i + 1;
    }
    proof {
        assert(v@.take(v.len() as int) =~= v@);
    }
    ids
}

impl BaseDocument {
    /// The primary style of the node at `id`, which must be live.
    fn primary_style_of(&self, id: NodeId, Ghost(base): Ghost<Map<u64, Node>>) -> (r: Option<ComputedStyle>)
        requires
            statics_match(base, self.nodes@),
            live(base, id),
        ensures
            r == primary_style(node_at(base, id)),
    {
        let node = self.nodes.index(id);
        proof {
            assert(same_except_layout(base[slot_key(id@)], self.nodes@[slot_key(id@)]));
        }
        match &node.style {
            Some(sd) => sd.primary,
            None => None,
        }
    }

    /// Layout children stably sorted by their `order`.
    fn sort_by_order(&self, kids: Vec<NodeId>, Ghost(base): Ghost<Map<u64, Node>>) -> (sorted: Vec<NodeId>)
        requires
            statics_match(base, self.nodes@),
            forall|i: int| 0 <= i < kids.len() ==> live(base, #[trigger] kids@[i]),
        ensures
            sorted@ == sorted_by_order(base, kids@),
    {
        let mut keyed: Vec<((i32, i32), NodeId)> = Vec::new();
        let mut i: usize = 0;
        while i < kids.len()
            invariant
                0 <= i <= kids.len(),
                statics_match(base, self.nodes@),
                forall|j: int| 0 <= j < kids.len() ==> live(base, #[trigger] kids@[j]),
                keyed@ == order_keyed(base, kids@.take(i as int)),
            decreases kids.len() - i,
        {
            let c = kids[i];
            let style = self.primary_style_of(c, Ghost(base));
            let order = match style {
                Some(st) => st.order,
                None => 0,
            };
            keyed.push(((order, 0), c));
            proof {
                assert(kids@.take(i + 1) =~= kids@.take(i as int).push(c));
                assert(keyed@ =~= order_keyed(base, kids@.take(i + 1)));
            }
            i = i + 1;
        }
        proof {
            assert(kids@.take(kids.len() as int) =~= kids@);
        }
        strip_keys(stable_sort(keyed))
    }

    /// Paint children stably sorted by paint order.
    fn sort_by_paint_order(&self, kids: Vec<NodeId>, in_flex_or_grid: bool, Ghost(base): Ghost<Map<u64, Node>>) -> (sorted: Vec<NodeId>)
        requires
            statics_match(base, self.nodes@),
            forall|i: int| 0 <= i < kids.len() ==> live(base, #[trigger] kids@[i]),
        ensures
            sorted@ == sorted_by_paint_order(base, kids@, in_flex_or_grid),
    {
        let mut keyed: Vec<((i32, i32), NodeId)> = Vec::new();
        let mut i: usize = 0;
        while i < kids.len()
            invariant
                0 <= i <= kids.len(),
                statics_match(base, self.nodes@),
                forall|j: int| 0 <= j < kids.len() ==> live(base, #[trigger] kids@[j]),
                keyed@ == paint_keyed(base, kids@.take(i as int), in_flex_or_grid),
            decreases kids.len() - i,
        {
            let c = kids[i];
            let node = self.nodes.index(c);
            proof {
                assert(same_except_layout(base[slot_key(c@)], self.nodes@[slot_key(c@)]));
            }
            let key = node_to_paint_order(node, in_flex_or_grid);
            keyed.push((key, c));
            proof {
                assert(kids@.take(i + 1) =~= kids@.take(i as int).push(c));
                assert(keyed@ =~= paint_keyed(base, kids@.take(i + 1), in_flex_or_grid));
            }
            i = i + 1;
        }
        proof {
            assert(kids@.take(kids.len() as int) =~= kids@);
        }
        strip_keys(stable_sort(keyed))
    }

    /// The children that paint in place, and the hoisted children that the
    /// box adds to its stacking context, each in order.
    fn classify_children(&self, kids: &Vec<NodeId>, owns: bool, in_flex_or_grid: bool, Ghost(base): Ghost<Map<u64, Node>>)
        -> (r: (Vec<NodeId>, Vec<HoistedPaintChild>))
        requires
            statics_match(base, self.nodes@),
            forall|i: int| 0 <= i < kids.len() ==> live(base, #[trigger] kids@[i]),
        ensures
            r.0@ == kids@.filter(in_place(base, owns, in_flex_or_grid)),
            hoisted_views(r.1@) == direct_hoisted(base, kids@, in_flex_or_grid),
    {
        let mut paint: Vec<NodeId> = Vec::new();
        let mut hoisted: Vec<HoistedPaintChild> = Vec::new();
        let mut i: usize = 0;
        while i < kids.len()
            invariant
                0 <= i <= kids.len(),
                statics_match(base, self.nodes@),
                forall|j: int| 0 <= j < kids.len() ==> live(base, #[trigger] kids@[j]),
                paint@ == kids@.take(i as int).filter(in_place(base, owns, in_flex_or_grid)),
                hoisted_views(hoisted@) == direct_hoisted(base, kids@.take(i as int), in_flex_or_grid),
            decreases kids.len() - i,
        {
            let c = kids[i];
            let ghost prefix = kids@.take(i as int);
            proof {
                assert(kids@.take(i + 1) =~= prefix.push(c));
                prefix.lemma_filter_push(c, in_place(base, owns, in_flex_or_grid));
                prefix.lemma_filter_push(c, to_context(base, in_flex_or_grid));
            }
            let ghost hoisted_before = hoisted@;
            match self.primary_style_of(c, Ghost(base)) {
                None => {
                    paint.push(c);
                },
                Some(style) => {
                    let z = match style.z_index {
                        Some(z) => z,
                        None => 0,
                    };
                    if z != 0 && (style.position != Position::Static || in_flex_or_grid) {
                        hoisted.push(HoistedPaintChild { node_id: c, z_index: z, offsets: Vec::new() });
                    } else if !owns && style.position != Position::Static {
                    } else {
                        paint.push(c);
                    }
                },
            }
            proof {
                let f = |x: NodeId| hoisted_entry(base, x);
                let prev = prefix.filter(to_context(base, in_flex_or_grid));
                if hoisted_to_context(node_at(base, c), in_flex_or_grid) {
                    assert(prev.push(c).map_values(f) =~= prev.map_values(f).push(hoisted_entry(base, c)));
                    assert(hoisted_views(hoisted@) =~= hoisted_views(hoisted_before).push(hoisted@.last()@));
                } else {
                    assert(hoisted@ == hoisted_before);
                }
            }
            i = i + 1;
        }
        proof {
            assert(kids@.take(kids.len() as int) =~= kids@);
        }
        (paint, hoisted)
    }

    /// The start of flushing a box: record whether it floats, clear its
    /// layout cache when layout is not incremental, and read its layout
    /// children.
    fn flush_start(&mut self, node_id: NodeId, style: ComputedStyle, Ghost(base): Ghost<Map<u64, Node>>) -> (kids: Option<Vec<NodeId>>)
        requires
            old(self).nodes.wf(),
            statics_match(base, old(self).nodes@),
            kids_within(base, old(self).nodes@),
            live(base, node_id),
        ensures
            final(self).nodes.wf(),
            statics_match(base, final(self).nodes@),
            kids_within(base, final(self).nodes@),
            layout_states(final(self).nodes@) == layout_states(old(self).nodes@).insert(
                slot_key(node_id@),
                LayoutState {
                    subtree_has_floats: style.float != Float::NoFloat,
                    ..(if old(self).incremental_layout {
                        layout_states(old(self).nodes@)[slot_key(node_id@)]
                    } else {
                        cache_cleared_state(layout_states(old(self).nodes@)[slot_key(node_id@)])
                    })
                },
            ),
            kids matches Some(v) ==> layout_states(final(self).nodes@)[slot_key(node_id@)].layout_children == Some(v@),
            kids is None ==> layout_states(final(self).nodes@)[slot_key(node_id@)].layout_children is None,
            final(self).incremental_layout == old(self).incremental_layout,
            final(self).pending_style_image_nodes@ == old(self).pending_style_image_nodes@,
            final(self).image_cache@ == old(self).image_cache@,
            final(self).pending_images@ == old(self).pending_images@,
    {
        let ghost k = slot_key(node_id@);
        let incremental = self.incremental_layout;
        let ghost nodes_a = self.nodes@;
        let node = self.nodes.index_mut(node_id);
        node.subtree_has_floats = style.float != Float::NoFloat;
        if !incremental {
            node.has_layout_cache = false;
            match &mut node.element {
                Some(el) => match &mut el.inline_layout {
                    Some(il) => {
                        il.has_content_widths = false;
                    },
                    None => {},
                },
                None => {},
            }
        }
        let kids_opt: Option<Vec<NodeId>> = match &node.layout_children {
            Some(v) => Some(v.clone()),
            None => None,
        };
        proof {
            lemma_states_insert(nodes_a, k, self.nodes@[k]);
            assert(self.nodes@ == nodes_a.insert(k, self.nodes@[k]));
            lemma_statics_insert(base, nodes_a, k, self.nodes@[k]);
            assert(layout_seq(self.nodes@[k]) == layout_seq(nodes_a[k]));
            assert forall|c: NodeId| #[trigger] layout_seq(self.nodes@[k]).contains(c) implies layout_seq(base[k]).contains(c) by {
                assert(layout_seq(nodes_a[k]).contains(c));
            }
            lemma_kids_within_insert(base, nodes_a, k, self.nodes@[k]);
        }
        kids_opt
    }

    /// Flush each of `kids` in turn, collecting what they hand up.
    fn flush_kids_below(
        &mut self,
        node_id: NodeId,
        kids: &Vec<NodeId>,
        owns: bool,
        fg: bool,
        Ghost(base): Ghost<Map<u64, Node>>,
        Ghost(depth): Ghost<nat>,
    ) -> (r: (Vec<HoistedPaintChild>, Vec<HoistedPaintChild>))
        requires
            old(self).nodes.wf(),
            statics_match(base, old(self).nodes@),
            kids_within(base, old(self).nodes@),
            forall|c: NodeId| #[trigger] kids@.contains(c) ==> tree_below(base, c, depth, Walk::Layout),
        ensures
            final(self).nodes.wf(),
            statics_match(base, final(self).nodes@),
            kids_within(base, final(self).nodes@),
            (layout_states(final(self).nodes@), hoisted_views(r.0@), hoisted_views(r.1@)) == flush_kids(
                base,
                layout_states(old(self).nodes@),
                kids@,
                owns,
                fg,
                old(self).incremental_layout,
                depth,
                Seq::empty(),
                Seq::empty(),
            ),
            final(self).incremental_layout == old(self).incremental_layout,
            final(self).pending_style_image_nodes@ == old(self).pending_style_image_nodes@,
            final(self).image_cache@ == old(self).image_cache@,
            final(self).pending_images@ == old(self).pending_images@,
        decreases depth, 1nat,
    {
        let ghost st1 = layout_states(self.nodes@);
        let incremental = self.incremental_layout;
        let mut sc: Vec<HoistedPaintChild> = Vec::new();
        let mut ah: Vec<HoistedPaintChild> = Vec::new();
        proof {
            assert(kids@.skip(0) =~= kids@);
            assert(hoisted_views(sc@) =~= Seq::<HoistedView>::empty());
            assert(hoisted_views(ah@) =~= Seq::<HoistedView>::empty());
        }
        let mut i: usize = 0;
        while i < kids.len()
            invariant
                0 <= i <= kids.len(),
                self.nodes.wf(),
                statics_match(base, self.nodes@),
                kids_within(base, self.nodes@),
                forall|c: NodeId| #[trigger] kids@.contains(c) ==> tree_below(base, c, depth, Walk::Layout),
                flush_kids(base, st1, kids@, owns, fg, incremental, depth, Seq::empty(), Seq::empty())
                    == flush_kids(
                    base,
                    layout_states(self.nodes@),
                    kids@.skip(i as int),
                    owns,
                    fg,
                    incremental,
                    depth,
                    hoisted_views(sc@),
                    hoisted_views(ah@),
                ),
                incremental == self.incremental_layout,
                self.incremental_layout == old(self).incremental_layout,
                self.pending_style_image_nodes@ == old(self).pending_style_image_nodes@,
                self.image_cache@ == old(self).image_cache@,
                self.pending_images@ == old(self).pending_images@,
            decreases kids.len() - i,
        {
            let c = kids[i];
            proof {
                assert(kids@.contains(c));
                assert(kids@.skip(i as int)[0] == c);
                assert(kids@.skip(i as int).drop_first() =~= kids@.skip(i + 1));
            }
            let ghost ck = slot_key(c@);
            let child = self.nodes.index(c);
            proof {
                assert(same_except_layout(base[ck], self.nodes@[ck]));
            }
            let root = if fg {
                child.stacking_root_in_flex_or_grid
            } else {
                child.stacking_root
            };
            let hoists = !owns && match &child.style {
                Some(sd) => match sd.primary {
                    Some(cs) => cs.position != Position::Static && match cs.z_index {
                        Some(z) => z == 0,
                        None => true,
                    },
                    None => false,
                },
                None => false,
            };
            let ghost ah_before = hoisted_views(ah@);
            let ghost sc_before = hoisted_views(sc@);
            if hoists {
                ah.push(HoistedPaintChild { node_id: c, z_index: 0, offsets: Vec::new() });
            }
            proof {
                let e: HoistedView = (c, 0i32, Seq::empty());
                if hoists {
                    assert(hoisted_views(ah@) =~= ah_before.push(e));
                }
            }
            let ghost ah_mid = hoisted_views(ah@);
            let (mut csc, mut cah) = self.flush_below(c, !root, !root, Ghost(base), Ghost(depth));
            let ghost csc_v = hoisted_views(csc@);
            let ghost cah_v = hoisted_views(cah@);
            sc.append(&mut csc);
            ah.append(&mut cah);
            proof {
                assert(hoisted_views(sc@) =~= sc_before + csc_v);
                assert(hoisted_views(ah@) =~= ah_mid + cah_v);
            }
            i = i + 1;
        }
        proof {
            assert(kids@.skip(kids.len() as int) =~= Seq::<NodeId>::empty());
        }
        (sc, ah)
    }

    /// Whether the node at `node_id`, or the layout subtree of one of `kids`,
    /// holds a float.
    fn subtree_floats(&self, node_id: NodeId, kids: &Vec<NodeId>, Ghost(base): Ghost<Map<u64, Node>>) -> (floats: bool)
        requires
            statics_match(base, self.nodes@),
            live(base, node_id),
            forall|c: NodeId| #[trigger] kids@.contains(c) ==> live(base, c),
        ensures
            floats == (layout_states(self.nodes@)[slot_key(node_id@)].subtree_has_floats || any_child_floats(
                layout_states(self.nodes@),
                kids@,
            )),
    {
        let ghost st2 = layout_states(self.nodes@);
        let ghost k = slot_key(node_id@);
        let mut floats = self.nodes.index(node_id).subtree_has_floats;
        let mut j: usize = 0;
        while j < kids.len()
            invariant
                0 <= j <= kids.len(),
                statics_match(base, self.nodes@),
                st2 == layout_states(self.nodes@),
                forall|c: NodeId| #[trigger] kids@.contains(c) ==> live(base, c),
                floats == (st2[k].subtree_has_floats || exists|x: int|
                    0 <= x < j && #[trigger] st2[slot_key(kids@[x]@)].subtree_has_floats),
            decreases kids.len() - j,
        {
            let c = kids[j];
            proof {
                assert(kids@.contains(c));
            }
            let f = self.nodes.index(c).subtree_has_floats;
            proof {
                assert(st2[slot_key(c@)] == layout_state(self.nodes@[slot_key(c@)]));
                assert(f == st2[slot_key(kids@[j as int]@)].subtree_has_floats);
            }
            if f {
                floats = true;
            }
            proof {
                if f {
                    assert(0 <= j < j + 1 && st2[slot_key(kids@[j as int]@)].subtree_has_floats);
                } else {
                    if exists|x: int| 0 <= x < j + 1 && #[trigger] st2[slot_key(kids@[x]@)].subtree_has_floats {
                        let x = choose|x: int|
                            0 <= x < j + 1 && #[trigger] st2[slot_key(kids@[x]@)].subtree_has_floats;
                        assert(x < j);
                    }
                }
            }
            j = j + 1;
        }
        floats
    }

    /// Order the layout children (by `order` in a flex or grid container),
    /// sort out the children that paint in place from those hoisted to the
    /// stacking context, and store the layout and paint children.
    fn flush_children_lists(
        &mut self,
        node_id: NodeId,
        kids: Vec<NodeId>,
        owns: bool,
        fg: bool,
        floats: bool,
        Ghost(base): Ghost<Map<u64, Node>>,
    ) -> (hoisted: Vec<HoistedPaintChild>)
        requires
            old(self).nodes.wf(),
            statics_match(base, old(self).nodes@),
            kids_within(base, old(self).nodes@),
            live(base, node_id),
            forall|c: NodeId| #[trigger] kids@.contains(c) ==> live(base, c),
            forall|c: NodeId| #[trigger] kids@.contains(c) ==> layout_seq(base[slot_key(node_id@)]).contains(c),
        ensures
            final(self).nodes.wf(),
            statics_match(base, final(self).nodes@),
            kids_within(base, final(self).nodes@),
            ({
                let k = slot_key(node_id@);
                let st = layout_states(old(self).nodes@);
                let sorted = if fg { sorted_by_order(base, kids@) } else { kids@ };
                &&& hoisted_views(hoisted@) == direct_hoisted(base, sorted, fg)
                &&& layout_states(final(self).nodes@) == st.insert(
                    k,
                    LayoutState {
                        layout_children: Some(sorted),
                        paint_children: Some(
                            sorted_by_paint_order(base, sorted.filter(in_place(base, owns, fg)), fg),
                        ),
                        subtree_has_floats: floats,
                        ..st[k]
                    },
                )
            }),
            final(self).incremental_layout == old(self).incremental_layout,
            final(self).pending_style_image_nodes@ == old(self).pending_style_image_nodes@,
            final(self).image_cache@ == old(self).image_cache@,
            final(self).pending_images@ == old(self).pending_images@,
    {
        let ghost k = slot_key(node_id@);
        proof {
            assert forall|x: int| 0 <= x < kids.len() implies live(base, #[trigger] kids@[x]) by {
                assert(kids@.contains(kids@[x]));
            }
        }
        let ghost kids_v = kids@;
        let sorted = if fg {
            self.sort_by_order(kids, Ghost(base))
        } else {
            kids
        };
        proof {
            lemma_sorted_by_order_members(base, kids_v);
            assert forall|c: NodeId| #[trigger] sorted@.contains(c) implies kids_v.contains(c) by {}
            assert forall|x: int| 0 <= x < sorted.len() implies live(base, #[trigger] sorted@[x]) by {
                assert(sorted@.contains(sorted@[x]));
                assert(kids_v.contains(sorted@[x]));
            }
        }
        let (paint, hoisted) = self.classify_children(&sorted, owns, fg, Ghost(base));
        proof {
            let filtered = sorted@.filter(in_place(base, owns, fg));
            assert forall|x: int| 0 <= x < filtered.len() implies live(base, #[trigger] filtered[x]) by {
                assert(filtered.contains(filtered[x]));
                sorted@.lemma_filter_contains_rev(in_place(base, owns, fg), filtered[x]);
                assert(sorted@.contains(filtered[x]));
                let w = choose|w: int| 0 <= w < sorted.len() && sorted@[w] == filtered[x];
            }
        }
        let paint = self.sort_by_paint_order(paint, fg, Ghost(base));
        let ghost nodes_b = self.nodes@;
        let ghost sorted_v = sorted@;
        let node = self.nodes.index_mut(node_id);
        node.layout_children = Some(sorted);
        node.paint_children = Some(paint);
        node.subtree_has_floats = floats;
        proof {
            lemma_states_insert(nodes_b, k, self.nodes@[k]);
            assert(self.nodes@ == nodes_b.insert(k, self.nodes@[k]));
            lemma_statics_insert(base, nodes_b, k, self.nodes@[k]);
            assert forall|c: NodeId| #[trigger] layout_seq(self.nodes@[k]).contains(c) implies layout_seq(base[k]).contains(c) by {
                assert(sorted_v.contains(c));
                assert(kids_v.contains(c));
            }
            lemma_kids_within_insert(base, nodes_b, k, self.nodes@[k]);
        }
        hoisted
    }

    /// The end of flushing a box: store its `z-index: auto` collection, or
    /// hand it up offset by the box; store its stacking context, sorted, or
    /// hand it up offset by the box.
    #[verifier::rlimit(60)]
    fn flush_end(
        &mut self,
        node_id: NodeId,
        owns: bool,
        in_context: bool,
        sc: Vec<HoistedPaintChild>,
        ah: Vec<HoistedPaintChild>,
        Ghost(base): Ghost<Map<u64, Node>>,
    ) -> (r: (Vec<HoistedPaintChild>, Vec<HoistedPaintChild>))
        requires
            old(self).nodes.wf(),
            statics_match(base, old(self).nodes@),
            kids_within(base, old(self).nodes@),
            live(base, node_id),
        ensures
            final(self).nodes.wf(),
            statics_match(base, final(self).nodes@),
            kids_within(base, final(self).nodes@),
            (layout_states(final(self).nodes@), hoisted_views(r.0@), hoisted_views(r.1@)) == flush_finish(
                layout_states(old(self).nodes@),
                node_id,
                owns,
                in_context,
                hoisted_views(sc@),
                hoisted_views(ah@),
            ),
            final(self).incremental_layout == old(self).incremental_layout,
            final(self).pending_style_image_nodes@ == old(self).pending_style_image_nodes@,
            final(self).image_cache@ == old(self).image_cache@,
            final(self).pending_images@ == old(self).pending_images@,
    {
        let ghost k = slot_key(node_id@);
        let ghost nodes_c = self.nodes@;
        let mut sc = sc;
        let mut ah = ah;
        let node = self.nodes.index_mut(node_id);
        let ah_up = if owns {
            if ah.len() > 0 {
                node.auto_hoisted = Some(Box::new(ah));
            } else {
                node.auto_hoisted = None;
            }
            Vec::new()
        } else {
            offset_hoisted(&mut ah, node_id);
            node.auto_hoisted = None;
            ah
        };
        let result = if in_context {
            offset_hoisted(&mut sc, node_id);
            (sc, ah_up)
        } else {
            let mut ctx = HoistedPaintChildren { children: sc, negative_z_count: 0 };
            ctx.sort();
            node.stacking_context = Some(Box::new(ctx));
            (Vec::new(), ah_up)
        };
        proof {
            lemma_states_insert(nodes_c, k, self.nodes@[k]);
            assert(self.nodes@ == nodes_c.insert(k, self.nodes@[k]));
            lemma_statics_insert(base, nodes_c, k, self.nodes@[k]);
            assert forall|c: NodeId| #[trigger] layout_seq(self.nodes@[k]).contains(c) implies layout_seq(base[k]).contains(c) by {
                assert(layout_seq(nodes_c[k]).contains(c));
            }
            lemma_kids_within_insert(base, nodes_c, k, self.nodes@[k]);
            if !in_context {
                assert(hoisted_views(result.0@) =~= Seq::<HoistedView>::empty());
            }
            if owns {
                assert(hoisted_views(result.1@) =~= Seq::<HoistedView>::empty());
            }
        }
        result
    }

    /// Flush the box `node_id` and its layout subtree; returns what it hands
    /// up to the stacking context and to the `z-index: auto` collection that
    /// it is in (empty when it is in none).
    fn flush_below(
        &mut self,
        node_id: NodeId,
        in_context: bool,
        in_auto: bool,
        Ghost(base): Ghost<Map<u64, Node>>,
        Ghost(depth): Ghost<nat>,
    ) -> (r: (Vec<HoistedPaintChild>, Vec<HoistedPaintChild>))
        requires
            old(self).nodes.wf(),
            statics_match(base, old(self).nodes@),
            kids_within(base, old(self).nodes@),
            tree_below(base, node_id, depth, Walk::Layout),
        ensures
            final(self).nodes.wf(),
            statics_match(base, final(self).nodes@),
            kids_within(base, final(self).nodes@),
            (layout_states(final(self).nodes@), hoisted_views(r.0@), hoisted_views(r.1@)) == flush_node(
                base,
                layout_states(old(self).nodes@),
                node_id,
                in_context,
                in_auto,
                old(self).incremental_layout,
                depth,
            ),
            final(self).incremental_layout == old(self).incremental_layout,
            final(self).pending_style_image_nodes@ == old(self).pending_style_image_nodes@,
            final(self).image_cache@ == old(self).image_cache@,
            final(self).pending_images@ == old(self).pending_images@,
        decreases depth, 0nat,
    {
        let ghost k = slot_key(node_id@);
        let style = match self.primary_style_of(node_id, Ghost(base)) {
            Some(s) => s,
            None => {
                return (Vec::new(), Vec::new());
            },
        };
        let owns = !in_context || !in_auto || style.position != Position::Static || style.overflow_x
            != Overflow::Visible || style.overflow_y != Overflow::Visible;
        let kids_opt = self.flush_start(node_id, style, Ghost(base));
        match kids_opt {
            None => {
                let sc: Vec<HoistedPaintChild> = Vec::new();
                let ah: Vec<HoistedPaintChild> = Vec::new();
                proof {
                    assert(hoisted_views(sc@) =~= Seq::<HoistedView>::empty());
                    assert(hoisted_views(ah@) =~= Seq::<HoistedView>::empty());
                }
                self.flush_end(node_id, owns, in_context, sc, ah, Ghost(base))
            },
            Some(kids) => {
                let fg = style.display_inside == DisplayInside::Flex || style.display_inside
                    == DisplayInside::Grid;
                proof {
                    assert forall|c: NodeId| #[trigger] kids@.contains(c) implies tree_below(base, c, (depth - 1) as nat, Walk::Layout)
                        && layout_seq(base[k]).contains(c) by {
                        assert(layout_seq(self.nodes@[k]).contains(c));
                        assert(walked_kids(node_at(base, node_id), Walk::Layout) == layout_seq(node_at(base, node_id)));
                        assert(walked_kids(node_at(base, node_id), Walk::Layout).contains(c));
                    }
                }
                let (sc, ah) = self.flush_kids_below(node_id, &kids, owns, fg, Ghost(base), Ghost((depth - 1) as nat));
                let floats = self.subtree_floats(node_id, &kids, Ghost(base));
                let mut sc = sc;
                let mut hoisted = self.flush_children_lists(node_id, kids, owns, fg, floats, Ghost(base));
                let ghost sc_v = hoisted_views(sc@);
                let ghost hoisted_v = hoisted_views(hoisted@);
                sc.append(&mut hoisted);
                proof {
                    assert(hoisted_views(sc@) =~= sc_v + hoisted_v);
                }
                self.flush_end(node_id, owns, in_context, sc, ah, Ghost(base))
            },
        }
    }

    /// Walk the layout tree below `node_id`, rebuilding each box's paint
    /// children and hoisting `z-index` boxes up to their stacking contexts;
    /// `node_id` itself roots a stacking context.
    pub fn flush_styles_to_layout(&mut self, node_id: NodeId)
        requires
            old(self).nodes.wf(),
            finite_subtree(old(self).nodes@, node_id, Walk::Layout),
        ensures
            final(self).nodes.wf(),
            statics_match(old(self).nodes@, final(self).nodes@),
            layout_states(final(self).nodes@) == flush_node(
                old(self).nodes@,
                layout_states(old(self).nodes@),
                node_id,
                false,
                false,
                old(self).incremental_layout,
                subtree_depth(old(self).nodes@, node_id, Walk::Layout),
            ).0,
            // A box with style stores its stacking context in paint order.
            primary_style(node_at(old(self).nodes@, node_id)) is Some ==> context_in_paint_order(
                layout_states(final(self).nodes@)[slot_key(node_id@)],
            ),
            // It paints its children in paint order, and a flex or grid
            // container lays them out by `order`.
            primary_style(node_at(old(self).nodes@, node_id)) is Some && node_at(
                old(self).nodes@,
                node_id,
            ).layout_children is Some ==> children_in_order(
                old(self).nodes@,
                layout_states(final(self).nodes@)[slot_key(node_id@)],
                flex_or_grid(primary_style(node_at(old(self).nodes@, node_id)).unwrap()),
            ),
            final(self).incremental_layout == old(self).incremental_layout,
            final(self).pending_style_image_nodes@ == old(self).pending_style_image_nodes@,
            final(self).image_cache@ == old(self).image_cache@,
            final(self).pending_images@ == old(self).pending_images@,
    {
        let ghost base = self.nodes@;
        let ghost depth = subtree_depth(self.nodes@, node_id, Walk::Layout);
        proof {
            assert(statics_match(base, base));
            if primary_style(node_at(base, node_id)) is Some {
                lemma_flush_root_context(base, layout_states(base), node_id, self.incremental_layout, depth);
                if node_at(base, node_id).layout_children is Some {
                    lemma_flush_root_children(base, layout_states(base), node_id, self.incremental_layout, depth);
                }
            }
        }
        let _ = self.flush_below(node_id, false, false, Ghost(base), Ghost(depth));
    }
}

} // verus!
