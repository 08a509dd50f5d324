//! Damage propagation through the layout tree.
use vstd::prelude::*;

use crate::document::{
    all_kids, all_kids_vec, layout_seq, live, node_at, opt_seq,
    clear_skips, propagation_kids, same_links, walk_stops, same_shape, skips_clean_subtree, stops_kept, subtree_depth, tree_below,
    finite_subtree, lemma_tree_below_kept, walked_kids, BaseDocument, Walk,
};
use crate::node::{ElementData, InlineLayout, Node, StyleData};
use crate::node_id::NodeId;
use crate::restyle_damage::{contains, intersects, ALL_DAMAGE, CONSTRUCT_BOX, ONLY_RELAYOUT, RELAYOUT};
use crate::slot_store::slot_key;

verus! {

/// A node whose layout cache, and cached content widths, are cleared.
pub open spec fn cache_cleared(n: Node) -> Node {
    Node {
        has_layout_cache: false,
        element: match n.element {
            Some(el) => Some(
                ElementData {
                    inline_layout: match el.inline_layout {
                        Some(il) => Some(InlineLayout { has_content_widths: false }),
                        None => None,
                    },
                    ..el
                },
            ),
            None => None,
        },
        ..n
    }
}

/// A node with its stored restyle damage set to `damage` (no change for a
/// node without style data).
pub open spec fn with_damage(n: Node, damage: u16) -> Node {
    Node {
        style: match n.style {
            Some(sd) => Some(StyleData { damage, ..sd }),
            None => None,
        },
        ..n
    }
}

/// Damage propagation from `id`, given the damage of its parent, with at
/// most `depth` levels: the nodes afterwards, and the damage for the parent.
pub open spec fn propagated(nodes: Map<u64, Node>, id: NodeId, from_parent: u16, depth: nat) -> (
    Map<u64, Node>,
    u16,
)
    decreases depth, 0nat,
{
    if depth == 0 || !live(nodes, id) {
        (nodes, 0)
    } else {
        let n = node_at(nodes, id);
        match n.style {
            None => (nodes, 0),
            Some(sd) => {
                let damage = sd.damage | from_parent;
                if skips_clean_subtree(n, damage) {
                    (nodes, 0)
                } else {
                    let below = propagated_list(
                        nodes,
                        propagation_kids(n),
                        (depth - 1) as nat,
                        damage,
                    );
                    let after = below.0;
                    let d = if contains(below.1, CONSTRUCT_BOX) {
                        below.1 | RELAYOUT
                    } else {
                        below.1
                    };
                    let relayout = intersects(d, ONLY_RELAYOUT | CONSTRUCT_BOX);
                    let n2 = if relayout {
                        cache_cleared(after[slot_key(id@)])
                    } else {
                        after[slot_key(id@)]
                    };
                    let stored = if relayout {
                        d & !ONLY_RELAYOUT
                    } else {
                        d
                    };
                    (after.insert(slot_key(id@), with_damage(n2, stored)), d)
                }
            },
        }
    }
}

/// Damage propagation from each of `kids` in turn, each with no damage from
/// its parent, the damage they return added to `acc`.
pub open spec fn propagated_list(nodes: Map<u64, Node>, kids: Seq<NodeId>, depth: nat, acc: u16) -> (
    Map<u64, Node>,
    u16,
)
    decreases depth, kids.len() + 1,
{
    if kids.len() == 0 {
        (nodes, acc)
    } else {
        let first = propagated(nodes, kids[0], 0, depth);
        propagated_list(first.0, kids.drop_first(), depth, acc | first.1)
    }
}

/// Propagating through a list of nodes keeps the damage it started with.
proof fn lemma_propagated_list_keeps(nodes: Map<u64, Node>, kids: Seq<NodeId>, depth: nat, acc: u16)
    ensures
        contains(propagated_list(nodes, kids, depth, acc).1, acc),
    decreases kids.len(),
{
    if kids.len() > 0 {
        let first = propagated(nodes, kids[0], 0, depth);
        lemma_propagated_list_keeps(first.0, kids.drop_first(), depth, acc | first.1);
        let r = propagated_list(nodes, kids, depth, acc).1;
        assert(r == propagated_list(first.0, kids.drop_first(), depth, acc | first.1).1);
        let d = first.1;
        assert(r & (acc | d) == (acc | d) ==> r & acc == acc) by (bit_vector);
    } else {
        assert(acc & acc == acc) by (bit_vector);
    }
}

proof fn lemma_contains_trans(a: u16, b: u16, c: u16)
    requires
        contains(a, b),
        contains(b, c),
    ensures
        contains(a, c),
{
    assert(a & b == b && b & c == c ==> a & c == c) by (bit_vector);
}

proof fn lemma_contains_join(a: u16, b: u16)
    ensures
        contains(a | b, a),
        contains(a | b, b),
        contains(a, a & !ONLY_RELAYOUT),
        contains(a, a),
{
    assert((a | b) & a == a && (a | b) & b == b && a & (a & !0b1000u16) == a & !0b1000u16 && a & a == a)
        by (bit_vector);
}

/// Whether each node of `m` is, in `r`, as it was or holds style data whose
/// damage lies within `d`.
spec fn changed_within(m: Map<u64, Node>, r: Map<u64, Node>, d: u16) -> bool {
    &&& r.dom() == m.dom()
    &&& forall|k: u64| #[trigger] m.contains_key(k) ==> r[k] == m[k] || (r[k].style is Some && contains(
        d,
        r[k].style.unwrap().damage,
    ))
}

proof fn lemma_changed_within_widen(a: Map<u64, Node>, b: Map<u64, Node>, d1: u16, d: u16)
    requires
        changed_within(a, b, d1),
        contains(d, d1),
    ensures
        changed_within(a, b, d),
{
    assert forall|k: u64| #[trigger] a.contains_key(k) implies b[k] == a[k] || (b[k].style is Some && contains(
        d,
        b[k].style.unwrap().damage,
    )) by {
        if b[k] != a[k] {
            lemma_contains_trans(d, d1, b[k].style.unwrap().damage);
        }
    }
}

proof fn lemma_changed_within_trans(a: Map<u64, Node>, b: Map<u64, Node>, c: Map<u64, Node>, d: u16)
    requires
        changed_within(a, b, d),
        changed_within(b, c, d),
    ensures
        changed_within(a, c, d),
{
    assert forall|k: u64| #[trigger] a.contains_key(k) implies c[k] == a[k] || (c[k].style is Some && contains(
        d,
        c[k].style.unwrap().damage,
    )) by {
        assert(b.contains_key(k));
    }
}

/// Propagation changes a node only by giving it damage within the damage it
/// returns, and the node it starts from, where it has style data, ends with
/// damage within what it returns.
proof fn lemma_propagated_within(nodes: Map<u64, Node>, id: NodeId, from_parent: u16, depth: nat)
    ensures
        ({
            let (after, r) = propagated(nodes, id, from_parent, depth);
            &&& changed_within(nodes, after, r)
            &&& depth > 0 && live(nodes, id) && node_at(after, id).style is Some ==> contains(
                r,
                node_at(after, id).style.unwrap().damage,
            )
        }),
    decreases depth, 0nat,
{
    let (after, r) = propagated(nodes, id, from_parent, depth);
    if depth == 0 || !live(nodes, id) {
        assert(after == nodes);
    } else {
        let n = node_at(nodes, id);
        let k0 = slot_key(id@);
        match n.style {
            None => {},
            Some(sd) => {
                let damage = sd.damage | from_parent;
                if skips_clean_subtree(n, damage) {
                    let own = sd.damage;
                    assert(own | from_parent == 0 ==> own == 0) by (bit_vector);
                    assert(r == 0);
                    lemma_contains_join(0, 0);
                } else {
                    let kids = propagation_kids(n);
                    let below = propagated_list(nodes, kids, (depth - 1) as nat, damage);
                    lemma_propagated_list_within(nodes, kids, (depth - 1) as nat, damage);
                    let b = below.1;
                    let d = if contains(b, CONSTRUCT_BOX) { b | RELAYOUT } else { b };
                    lemma_contains_join(b, RELAYOUT);
                    lemma_contains_join(d, 0);
                    assert(contains(d, b));
                    lemma_changed_within_widen(nodes, below.0, b, d);
                    assert(below.0.contains_key(k0));
                    assert(below.0[k0].style is Some);
                    assert forall|k: u64| #[trigger] nodes.contains_key(k) implies after[k] == nodes[k] || (
                    after[k].style is Some && contains(r, after[k].style.unwrap().damage)) by {}
                    assert(after.dom() =~= nodes.dom());
                }
            },
        }
    }
}

/// Propagating through a list changes nodes only within the damage it
/// returns, and leaves each live node of the list with damage within it.
proof fn lemma_propagated_list_within(nodes: Map<u64, Node>, kids: Seq<NodeId>, depth: nat, acc: u16)
    ensures
        ({
            let (after, r) = propagated_list(nodes, kids, depth, acc);
            &&& changed_within(nodes, after, r)
            &&& forall|c: NodeId| #[trigger]
                kids.contains(c) && depth > 0 && live(nodes, c) && node_at(after, c).style is Some ==> contains(
                    r,
                    node_at(after, c).style.unwrap().damage,
                )
        }),
    decreases depth, kids.len() + 1,
{
    let (after, r) = propagated_list(nodes, kids, depth, acc);
    if kids.len() == 0 {
        assert(changed_within(nodes, nodes, acc));
    } else {
        let c0 = kids[0];
        let rest = kids.drop_first();
        let first = propagated(nodes, c0, 0, depth);
        let acc2 = acc | first.1;
        lemma_propagated_within(nodes, c0, 0, depth);
        lemma_propagated_list_within(first.0, rest, depth, acc2);
        lemma_propagated_list_keeps(first.0, rest, depth, acc2);
        lemma_contains_join(acc, first.1);
        lemma_contains_trans(r, acc2, first.1);
        lemma_changed_within_widen(nodes, first.0, first.1, r);
        lemma_changed_within_trans(nodes, first.0, after, r);
        assert forall|c: NodeId| #[trigger]
            kids.contains(c) && depth > 0 && live(nodes, c) && node_at(after, c).style is Some implies contains(
            r,
            node_at(after, c).style.unwrap().damage,
        ) by {
            let kc = slot_key(c@);
            assert(first.0.contains_key(kc));
            if c == c0 {
                if after[kc] == first.0[kc] {
                    lemma_contains_trans(r, first.1, after[kc].style.unwrap().damage);
                }
            } else {
                let i = choose|i: int| 0 <= i < kids.len() && kids[i] == c;
                assert(rest[i - 1] == c);
                assert(rest.contains(c));
            }
        }
    }
}

/// Damage propagation from a node that is not skipped collects the damage
/// of every node it links to on the side it walks: for a node walked by its
/// DOM side, each DOM child and its `::before` and `::after` boxes; for one
/// walked by its layout children, each of those. Each such node that has
/// style data ends with damage within the damage returned.
pub proof fn lemma_propagation_collects_links(
    nodes: Map<u64, Node>,
    id: NodeId,
    from_parent: u16,
    depth: nat,
    c: NodeId,
)
    requires
        depth > 1,
        live(nodes, id),
        node_at(nodes, id).style is Some,
        !skips_clean_subtree(node_at(nodes, id), node_at(nodes, id).style.unwrap().damage | from_parent),
        live(nodes, c),
        ({
            let n = node_at(nodes, id);
            if n.traverse_layout_children {
                n.layout_children is Some && n.layout_children.unwrap()@.contains(c)
            } else {
                n.children@.contains(c) || n.before == Some(c) || n.after == Some(c)
            }
        }),
    ensures
        ({
            let (after, r) = propagated(nodes, id, from_parent, depth);
            node_at(after, c).style is Some ==> contains(r, node_at(after, c).style.unwrap().damage)
        }),
{
    let n = node_at(nodes, id);
    let kids = propagation_kids(n);
    assert(kids.contains(c)) by {
        if n.traverse_layout_children {
        } else {
            let a = n.children@;
            let b = opt_seq(n.before);
            if a.contains(c) {
                let i = choose|i: int| 0 <= i < a.len() && a[i] == c;
                assert(kids[i] == c);
            } else if n.before == Some(c) {
                assert(kids[a.len() as int] == c);
            } else {
                assert(kids[(a.len() + b.len()) as int] == c);
            }
        }
    }
    lemma_propagated_within(nodes, id, from_parent, depth);
    let sd = n.style.unwrap();
    let damage = sd.damage | from_parent;
    let below = propagated_list(nodes, kids, (depth - 1) as nat, damage);
    lemma_propagated_list_within(nodes, kids, (depth - 1) as nat, damage);
    let (after, r) = propagated(nodes, id, from_parent, depth);
    let b = below.1;
    lemma_contains_join(b, RELAYOUT);
    lemma_contains_join(b, 0);
    assert(contains(r, b));
    if slot_key(c@) != slot_key(id@) {
        assert(node_at(after, c) == node_at(below.0, c));
        if node_at(after, c).style is Some {
            lemma_contains_trans(r, b, node_at(after, c).style.unwrap().damage);
        }
    }
}

/// What propagation does to the node it starts from.
proof fn lemma_propagated_node(nodes: Map<u64, Node>, id: NodeId, from_parent: u16, depth: nat)
    requires
        tree_below(nodes, id, depth, Walk::Propagation(from_parent)),
    ensures
        ({
            let (after, r) = propagated(nodes, id, from_parent, depth);
            let n = node_at(nodes, id);
            &&& n.style is None ==> r == 0 && after == nodes
            &&& (n.style is Some && skips_clean_subtree(n, n.style.unwrap().damage | from_parent)) ==> (r == 0
                && after == nodes)
            &&& n.style is Some ==> contains(r, n.style.unwrap().damage | from_parent)
            &&& contains(r, CONSTRUCT_BOX) ==> contains(r, RELAYOUT)
            &&& intersects(r, ONLY_RELAYOUT | CONSTRUCT_BOX) ==> !node_at(after, id).has_layout_cache
            &&& node_at(after, id).style is Some ==> node_at(after, id).style.unwrap().damage == r
                & !ONLY_RELAYOUT
        }),
{
    let n = node_at(nodes, id);
    let (after, r) = propagated(nodes, id, from_parent, depth);
    let zero: u16 = 0;
    assert(zero & CONSTRUCT_BOX != CONSTRUCT_BOX && zero & (ONLY_RELAYOUT | CONSTRUCT_BOX) == 0) by (bit_vector)
        requires zero == 0u16;
    match n.style {
        None => {},
        Some(sd) => {
            let damage = sd.damage | from_parent;
            if skips_clean_subtree(n, damage) {
                assert(damage == 0);
                let own = sd.damage;
                assert(own | from_parent == 0 ==> own == 0) by (bit_vector);
                assert(r & !ONLY_RELAYOUT == 0 && r & damage == damage) by (bit_vector)
                    requires r == 0u16, damage == 0u16;
            } else {
                let below = propagated_list(nodes, propagation_kids(n), (depth - 1) as nat, damage);
                lemma_propagated_list_keeps(nodes, propagation_kids(n), (depth - 1) as nat, damage);
                let b = below.1;
                let d = if contains(b, CONSTRUCT_BOX) { b | RELAYOUT } else { b };
                assert(d == r);
                assert(b & damage == damage ==> (b | RELAYOUT) & damage == damage) by (bit_vector);
                assert((b | RELAYOUT) & RELAYOUT == RELAYOUT) by (bit_vector);
                assert(b & CONSTRUCT_BOX == CONSTRUCT_BOX ==> (b | RELAYOUT) & CONSTRUCT_BOX == CONSTRUCT_BOX) by (bit_vector);
                assert(!(d & (ONLY_RELAYOUT | CONSTRUCT_BOX) != 0) ==> d & !ONLY_RELAYOUT == d) by (bit_vector);
                let k = slot_key(id@);
                assert(node_at(after, id) == with_damage(
                    if intersects(d, ONLY_RELAYOUT | CONSTRUCT_BOX) {
                        cache_cleared(below.0[k])
                    } else {
                        below.0[k]
                    },
                    if intersects(d, ONLY_RELAYOUT | CONSTRUCT_BOX) { d & !ONLY_RELAYOUT } else { d },
                ));
            }
        },
    }
}

/// A node with no damage and neither descendant flag set.
pub open spec fn flags_cleared(n: Node) -> Node {
    Node { damaged_descendants: false, dirty_descendants: false, ..with_damage(n, 0) }
}

/// Clearing damage and descendant flags from `id` down, with at most `depth`
/// levels.
pub open spec fn cleared(nodes: Map<u64, Node>, id: NodeId, depth: nat) -> Map<u64, Node>
    decreases depth, 0nat,
{
    if depth == 0 || !live(nodes, id) || clear_skips(node_at(nodes, id)) {
        nodes
    } else {
        let after = cleared_list(nodes, all_kids(node_at(nodes, id)), (depth - 1) as nat);
        after.insert(slot_key(id@), flags_cleared(after[slot_key(id@)]))
    }
}

/// Clearing from each of `kids` in turn.
pub open spec fn cleared_list(nodes: Map<u64, Node>, kids: Seq<NodeId>, depth: nat) -> Map<u64, Node>
    decreases depth, kids.len() + 1,
{
    if kids.len() == 0 {
        nodes
    } else {
        cleared_list(cleared(nodes, kids[0], depth), kids.drop_first(), depth)
    }
}

/// What clearing does to the node it starts from.
proof fn lemma_cleared_node(nodes: Map<u64, Node>, id: NodeId, depth: nat)
    requires
        tree_below(nodes, id, depth, Walk::Clearing),
    ensures
        node_at(cleared(nodes, id, depth), id).style matches Some(sd) ==> sd.damage == 0,
        !node_at(cleared(nodes, id, depth), id).damaged_descendants,
{
}

/// Clearing a node twice is clearing it once.
proof fn lemma_flags_cleared_twice(n: Node)
    ensures
        flags_cleared(flags_cleared(n)) == flags_cleared(n),
{
}

/// Whether `r` holds the nodes of `m`, each as it was or with its damage
/// and descendant flags cleared.
spec fn clear_steps(m: Map<u64, Node>, r: Map<u64, Node>) -> bool {
    &&& r.dom() == m.dom()
    &&& forall|k: u64| #[trigger] m.contains_key(k) ==> r[k] == m[k] || r[k] == flags_cleared(m[k])
}

proof fn lemma_clear_steps_trans(a: Map<u64, Node>, b: Map<u64, Node>, c: Map<u64, Node>)
    requires
        clear_steps(a, b),
        clear_steps(b, c),
    ensures
        clear_steps(a, c),
{
    assert forall|k: u64| #[trigger] a.contains_key(k) implies c[k] == a[k] || c[k] == flags_cleared(a[k]) by {
        assert(b.contains_key(k));
        lemma_flags_cleared_twice(a[k]);
    }
}

/// Clearing changes nodes only by clearing their damage and flags, so it
/// keeps the shape and every node at which clearing stops.
proof fn lemma_clear_steps_keep(m: Map<u64, Node>, r: Map<u64, Node>)
    requires
        clear_steps(m, r),
    ensures
        same_shape(m, r),
        stops_kept(m, r, Walk::Clearing),
{
    assert forall|k: u64| #[trigger] m.contains_key(k) implies same_links(m[k], r[k]) by {}
    assert forall|k: u64| #[trigger] m.contains_key(k) && walk_stops(m[k], Walk::Clearing) implies walk_stops(
        r[k],
        Walk::Clearing,
    ) by {}
}

/// What clearing does to the nodes: each keeps its place, and is left as it
/// was or with its damage and flags cleared.
proof fn lemma_cleared_steps(nodes: Map<u64, Node>, id: NodeId, depth: nat)
    ensures
        clear_steps(nodes, cleared(nodes, id, depth)),
    decreases depth, 0nat,
{
    if !(depth == 0 || !live(nodes, id) || clear_skips(node_at(nodes, id))) {
        let kids = all_kids(node_at(nodes, id));
        lemma_cleared_list_steps(nodes, kids, (depth - 1) as nat);
        let after = cleared_list(nodes, kids, (depth - 1) as nat);
        let k0 = slot_key(id@);
        let r = after.insert(k0, flags_cleared(after[k0]));
        assert(r.dom() =~= nodes.dom());
        lemma_flags_cleared_twice(nodes[k0]);
        assert forall|k: u64| #[trigger] nodes.contains_key(k) implies r[k] == nodes[k] || r[k] == flags_cleared(
            nodes[k],
        ) by {}
    }
}

proof fn lemma_cleared_list_steps(nodes: Map<u64, Node>, kids: Seq<NodeId>, depth: nat)
    ensures
        clear_steps(nodes, cleared_list(nodes, kids, depth)),
    decreases depth, kids.len() + 1,
{
    if kids.len() > 0 {
        let first = cleared(nodes, kids[0], depth);
        lemma_cleared_steps(nodes, kids[0], depth);
        lemma_cleared_list_steps(first, kids.drop_first(), depth);
        lemma_clear_steps_trans(nodes, first, cleared_list(first, kids.drop_first(), depth));
    } else {
        assert(clear_steps(nodes, nodes));
    }
}

/// Whether clearing from `id`, with at most `depth` levels, has nothing
/// left to do: the walk stops there, or the node is cleared already and
/// so is each node it walks to.
spec fn settled(m: Map<u64, Node>, id: NodeId, depth: nat) -> bool
    decreases depth,
{
    ||| depth == 0
    ||| !live(m, id)
    ||| clear_skips(node_at(m, id))
    ||| (flags_cleared(node_at(m, id)) == node_at(m, id) && forall|c: NodeId| #[trigger]
        all_kids(node_at(m, id)).contains(c) ==> settled(m, c, (depth - 1) as nat))
}

/// Clearing where nothing is left to do changes nothing.
proof fn lemma_settled_fixed(m: Map<u64, Node>, id: NodeId, depth: nat)
    requires
        settled(m, id, depth),
    ensures
        cleared(m, id, depth) == m,
    decreases depth, 0nat,
{
    if !(depth == 0 || !live(m, id) || clear_skips(node_at(m, id))) {
        let kids = all_kids(node_at(m, id));
        lemma_settled_list_fixed(m, kids, (depth - 1) as nat);
        let k0 = slot_key(id@);
        assert(m.insert(k0, flags_cleared(m[k0])) =~= m);
    }
}

proof fn lemma_settled_list_fixed(m: Map<u64, Node>, kids: Seq<NodeId>, depth: nat)
    requires
        forall|c: NodeId| #[trigger] kids.contains(c) ==> settled(m, c, depth),
    ensures
        cleared_list(m, kids, depth) == m,
    decreases depth, kids.len() + 1,
{
    if kids.len() > 0 {
        assert(kids.contains(kids[0]));
        lemma_settled_fixed(m, kids[0], depth);
        assert forall|c: NodeId| #[trigger] kids.drop_first().contains(c) implies settled(m, c, depth) by {
            let i = choose|i: int| 0 <= i < kids.drop_first().len() && kids.drop_first()[i] == c;
            assert(kids[i + 1] == c);
            assert(kids.contains(c));
        }
        lemma_settled_list_fixed(m, kids.drop_first(), depth);
    }
}

/// Clearing elsewhere leaves a settled node settled.
proof fn lemma_settled_kept(m: Map<u64, Node>, r: Map<u64, Node>, id: NodeId, depth: nat)
    requires
        settled(m, id, depth),
        clear_steps(m, r),
    ensures
        settled(r, id, depth),
    decreases depth,
{
    if !(depth == 0 || !live(m, id)) {
        let k0 = slot_key(id@);
        assert(m.contains_key(k0));
        if !clear_skips(node_at(m, id)) {
            assert(r[k0] == m[k0]);
            assert forall|c: NodeId| #[trigger] all_kids(node_at(r, id)).contains(c) implies settled(
                r,
                c,
                (depth - 1) as nat,
            ) by {
                lemma_settled_kept(m, r, c, (depth - 1) as nat);
            }
        }
    }
}

/// After clearing from `id`, nothing is left to do there, whatever the depth
/// of the second walk.
proof fn lemma_cleared_settled(nodes: Map<u64, Node>, id: NodeId, depth: nat, depth2: nat)
    requires
        tree_below(nodes, id, depth, Walk::Clearing),
    ensures
        settled(cleared(nodes, id, depth), id, depth2),
    decreases depth, 0nat,
{
    let k0 = slot_key(id@);
    if !clear_skips(node_at(nodes, id)) && depth2 > 0 {
        let kids = all_kids(node_at(nodes, id));
        assert(walked_kids(node_at(nodes, id), Walk::Clearing) == kids);
        lemma_cleared_list_settled(nodes, kids, (depth - 1) as nat, (depth2 - 1) as nat);
        let after = cleared_list(nodes, kids, (depth - 1) as nat);
        let r = cleared(nodes, id, depth);
        assert(r == after.insert(k0, flags_cleared(after[k0])));
        lemma_cleared_list_steps(nodes, kids, (depth - 1) as nat);
        assert(nodes.contains_key(k0));
        lemma_flags_cleared_twice(after[k0]);
        assert(clear_steps(after, r)) by {
            assert(r.dom() =~= after.dom());
            lemma_flags_cleared_twice(nodes[k0]);
        }
        lemma_clear_steps_keep(after, r);
        assert(same_links(after[k0], r[k0]));
        assert(same_links(nodes[k0], after[k0])) by {
            lemma_clear_steps_keep(nodes, after);
        }
        assert forall|c: NodeId| #[trigger] all_kids(node_at(r, id)).contains(c) implies settled(
            r,
            c,
            (depth2 - 1) as nat,
        ) by {
            assert(kids.contains(c));
            lemma_settled_kept(after, r, c, (depth2 - 1) as nat);
        }
    }
}

proof fn lemma_cleared_list_settled(nodes: Map<u64, Node>, kids: Seq<NodeId>, depth: nat, depth2: nat)
    requires
        forall|c: NodeId| #[trigger] kids.contains(c) ==> tree_below(nodes, c, depth, Walk::Clearing),
    ensures
        forall|c: NodeId| #[trigger] kids.contains(c) ==> settled(cleared_list(nodes, kids, depth), c, depth2),
    decreases depth, kids.len() + 1,
{
    if kids.len() > 0 {
        let k = kids[0];
        let rest = kids.drop_first();
        assert(kids.contains(k));
        let first = cleared(nodes, k, depth);
        lemma_cleared_settled(nodes, k, depth, depth2);
        lemma_cleared_steps(nodes, k, depth);
        lemma_clear_steps_keep(nodes, first);
        assert forall|c: NodeId| #[trigger] rest.contains(c) implies tree_below(first, c, depth, Walk::Clearing) by {
            let i = choose|i: int| 0 <= i < rest.len() && rest[i] == c;
            assert(kids[i + 1] == c);
            assert(kids.contains(c));
            lemma_tree_below_kept(nodes, first, c, depth, Walk::Clearing);
        }
        lemma_cleared_list_settled(first, rest, depth, depth2);
        let r = cleared_list(first, rest, depth);
        lemma_cleared_list_steps(first, rest, depth);
        lemma_settled_kept(first, r, k, depth2);
        assert forall|c: NodeId| #[trigger] kids.contains(c) implies settled(r, c, depth2) by {
            if c != k {
                let i = choose|i: int| 0 <= i < kids.len() && kids[i] == c;
                assert(rest[i - 1] == c);
                assert(rest.contains(c));
            }
        }
    }
}

/// Whether a node holds no damage and no damaged-descendants flag.
pub open spec fn clean(n: Node) -> bool {
    &&& n.style is Some ==> n.style.unwrap().damage == 0
    &&& !n.damaged_descendants
}

/// Clearing from each of `kids` leaves every live one of them clean.
proof fn lemma_cleared_list_cleans(nodes: Map<u64, Node>, kids: Seq<NodeId>, depth: nat, c: NodeId)
    requires
        depth > 0,
        kids.contains(c),
        live(nodes, c),
    ensures
        clean(node_at(cleared_list(nodes, kids, depth), c)),
    decreases kids.len(),
{
    let first = cleared(nodes, kids[0], depth);
    let rest = kids.drop_first();
    let r = cleared_list(first, rest, depth);
    lemma_cleared_steps(nodes, kids[0], depth);
    lemma_cleared_list_steps(first, rest, depth);
    let k = slot_key(c@);
    if kids[0] == c {
        assert(clean(first[k]));
    } else {
        let i = choose|i: int| 0 <= i < kids.len() && kids[i] == c;
        assert(rest[i - 1] == c);
        assert(first.contains_key(k));
        lemma_cleared_list_cleans(first, rest, depth, c);
    }
    assert(first.contains_key(k));
    assert(clean(r[k]));
}

/// Clearing from a node that is not skipped clears what it links to: each
/// of its DOM children, its layout children, and its `::before` and
/// `::after` boxes is left with no damage and no damaged-descendants flag.
pub proof fn lemma_clear_reaches_links(nodes: Map<u64, Node>, id: NodeId, depth: nat, c: NodeId)
    requires
        depth > 1,
        live(nodes, id),
        !clear_skips(node_at(nodes, id)),
        live(nodes, c),
        ({
            let n = node_at(nodes, id);
            ||| n.children@.contains(c)
            ||| (n.layout_children is Some && n.layout_children.unwrap()@.contains(c))
            ||| n.before == Some(c)
            ||| n.after == Some(c)
        }),
    ensures
        clean(node_at(cleared(nodes, id, depth), c)),
{
    let n = node_at(nodes, id);
    let kids = all_kids(n);
    let a = n.children@;
    let l = layout_seq(n);
    let b = opt_seq(n.before);
    assert(kids.contains(c)) by {
        if a.contains(c) {
            let i = choose|i: int| 0 <= i < a.len() && a[i] == c;
            assert(kids[i] == c);
        } else if n.layout_children is Some && l.contains(c) {
            let i = choose|i: int| 0 <= i < l.len() && l[i] == c;
            assert(kids[a.len() + i] == c);
        } else if n.before == Some(c) {
            assert(kids[(a.len() + l.len()) as int] == c);
        } else {
            assert(kids[(a.len() + l.len() + b.len()) as int] == c);
        }
    }
    lemma_cleared_list_cleans(nodes, kids, (depth - 1) as nat, c);
    let after = cleared_list(nodes, kids, (depth - 1) as nat);
    lemma_cleared_list_steps(nodes, kids, (depth - 1) as nat);
    assert(after.contains_key(slot_key(id@)));
}

/// Clearing twice in a row from any node: the second clear changes nothing.
pub proof fn lemma_clear_settles(nodes: Map<u64, Node>, id: NodeId, depth: nat, depth2: nat)
    requires
        tree_below(nodes, id, depth, Walk::Clearing),
    ensures
        cleared(cleared(nodes, id, depth), id, depth2) == cleared(nodes, id, depth),
{
    lemma_cleared_settled(nodes, id, depth, depth2);
    lemma_settled_fixed(cleared(nodes, id, depth), id, depth2);
}

/// A node with `damage` added to its stored damage (no change for a node
/// without style data).
pub open spec fn damage_inserted(n: Node, damage: u16) -> Node {
    match n.style {
        Some(sd) => with_damage(n, sd.damage | damage),
        None => n,
    }
}

/// Adding no damage changes nothing.
proof fn lemma_insert_no_damage(n: Node)
    ensures
        damage_inserted(n, 0) == n,
{
    match n.style {
        Some(sd) => {
            let d = sd.damage;
            assert(d | 0 == d) by (bit_vector);
            assert(with_damage(n, d) == n);
        },
        None => {},
    }
}

/// Adding damage twice adds the union.
proof fn lemma_insert_twice(n: Node, a: u16, b: u16)
    ensures
        damage_inserted(damage_inserted(n, a), b) == damage_inserted(n, a | b),
{
    match n.style {
        Some(sd) => {
            let d = sd.damage;
            assert((d | a) | b == d | (a | b)) by (bit_vector);
        },
        None => {},
    }
}

/// Adding all damage on top of what a node may already have been given.
proof fn lemma_insert_all_twice(n: Node, had: bool)
    ensures
        damage_inserted(damage_inserted(n, if had { ALL_DAMAGE } else { 0 }), ALL_DAMAGE) == damage_inserted(
            n,
            ALL_DAMAGE,
        ),
{
    lemma_insert_twice(n, if had { ALL_DAMAGE } else { 0 }, ALL_DAMAGE);
    let z: u16 = 0;
    assert((ALL_DAMAGE | ALL_DAMAGE) == ALL_DAMAGE && (z | ALL_DAMAGE) == ALL_DAMAGE) by (bit_vector)
        requires z == 0u16;
}

/// Whether a node in the document roots an inline formatting context.
pub open spec fn inline_root(n: Node) -> bool {
    n.in_document && n.element is Some && n.element.unwrap().inline_layout is Some
}

/// Whether a node is an anonymous inline root: its layout parent takes the
/// damage in its place.
pub open spec fn anonymous_inline_root(n: Node) -> bool {
    inline_root(n) && n.is_anonymous
}

/// Whether a node is a text input in the document outside any inline root,
/// whose editor is refreshed when the inline contexts are invalidated.
pub open spec fn refreshes_editor(n: Node) -> bool {
    n.in_document && n.element is Some && n.element.unwrap().inline_layout is None
        && n.element.unwrap().is_text_input
}

/// The damage that invalidating the inline contexts gives a node itself.
pub open spec fn own_inline_damage(n: Node) -> u16 {
    if inline_root(n) && !n.is_anonymous {
        ALL_DAMAGE
    } else if refreshes_editor(n) {
        ONLY_RELAYOUT
    } else {
        0
    }
}

/// The storage key of the layout parent of the node that `id` names.
pub open spec fn parent_key(nodes: Map<u64, Node>, id: NodeId) -> Option<u64> {
    match node_at(nodes, id).layout_parent {
        Some(p) => Some(slot_key(p@)),
        None => None,
    }
}

/// Whether the node at `c` is an anonymous inline root whose id names a
/// node with layout parent `k`.
pub open spec fn anonymous_inline_child(nodes: Map<u64, Node>, c: u64, k: u64) -> bool {
    &&& nodes.contains_key(c)
    &&& anonymous_inline_root(nodes[c])
    &&& parent_key(nodes, nodes[c].id) == Some(k)
}

/// Whether `id` is the id of some anonymous inline root.
pub open spec fn names_anonymous_inline_root(nodes: Map<u64, Node>, id: NodeId) -> bool {
    exists|c: u64| #[trigger] nodes.contains_key(c) && anonymous_inline_root(nodes[c]) && id == nodes[c].id
}

/// Whether some anonymous inline root passes its damage to the node at `k`.
pub open spec fn has_anonymous_inline_child(nodes: Map<u64, Node>, k: u64) -> bool {
    exists|c: u64| #[trigger] anonymous_inline_child(nodes, c, k)
}

/// The nodes after invalidating the inline contexts.
pub open spec fn inline_invalidated(nodes: Map<u64, Node>) -> Map<u64, Node> {
    Map::new(
        |k: u64| nodes.contains_key(k),
        |k: u64|
            damage_inserted(
                nodes[k],
                own_inline_damage(nodes[k]) | if has_anonymous_inline_child(nodes, k) {
                    ALL_DAMAGE
                } else {
                    0
                },
            ),
    )
}

/// Invalidating the inline contexts keeps every node and only adds damage:
/// each node keeps its style data, its damage afterwards holds its damage
/// before, and a node outside the document changes only when an anonymous
/// inline root passes its damage to it.
pub proof fn lemma_inline_invalidation_adds_damage(nodes: Map<u64, Node>, k: u64)
    requires
        nodes.contains_key(k),
    ensures
        inline_invalidated(nodes).dom() == nodes.dom(),
        inline_invalidated(nodes)[k].style is Some == nodes[k].style is Some,
        inline_invalidated(nodes)[k].style matches Some(sd) ==> contains(sd.damage, nodes[k].style.unwrap().damage),
        !nodes[k].in_document && !has_anonymous_inline_child(nodes, k) ==> inline_invalidated(nodes)[k] == nodes[k],
{
    assert(inline_invalidated(nodes).dom() =~= nodes.dom());
    let n = nodes[k];
    let added = own_inline_damage(n) | if has_anonymous_inline_child(nodes, k) { ALL_DAMAGE } else { 0 };
    match n.style {
        Some(sd) => {
            let d = sd.damage;
            assert((d | added) & d == d) by (bit_vector);
            if !n.in_document && !has_anonymous_inline_child(nodes, k) {
                assert(added == 0) by {
                    let z: u16 = 0;
                    assert(z | z == 0u16) by (bit_vector) requires z == 0u16;
                }
                lemma_insert_no_damage(n);
            }
        },
        None => {},
    }
}

/// Whether each anonymous inline root's id, and the layout parent of the
/// node it names, resolve to live nodes.
pub open spec fn anonymous_inline_roots_resolve(nodes: Map<u64, Node>) -> bool {
    forall|c: u64| #[trigger] nodes.contains_key(c) && anonymous_inline_root(nodes[c]) ==> {
        &&& live(nodes, nodes[c].id)
        &&& (node_at(nodes, nodes[c].id).layout_parent matches Some(p) ==> live(nodes, p))
    }
}

/// Adding damage leaves a node's links and id as they were.
proof fn lemma_insert_keeps_links(n: Node, damage: u16)
    ensures
        damage_inserted(n, damage).layout_parent == n.layout_parent,
        damage_inserted(n, damage).id == n.id,
        same_links(n, damage_inserted(n, damage)),
{
}

impl Node {
    /// Add `damage` to the node's stored restyle damage.
    pub fn insert_damage(&mut self, damage: u16)
        ensures
            *final(self) == damage_inserted(*old(self), damage),
    {
        match &mut self.style {
            Some(sd) => {
                sd.damage = sd.damage | damage;
            },
            None => {},
        }
    }
}

impl BaseDocument {
    /// Propagate restyle damage down from `node_id` and collect it back up:
    /// each node's damage is joined with its parent's, subtrees without
    /// damage are skipped (anonymous boxes never are), a node whose subtree
    /// needs relayout has its layout cache cleared, and the damage of the
    /// whole subtree is returned for the parent.
    pub fn propagate_damage_flags(&mut self, node_id: NodeId, damage_from_parent: u16) -> (r: u16)
        requires
            old(self).nodes.wf(),
            finite_subtree(old(self).nodes@, node_id, Walk::Propagation(damage_from_parent)),
        ensures
            final(self).nodes.wf(),
            (final(self).nodes@, r) == propagated(
                old(self).nodes@,
                node_id,
                damage_from_parent,
                subtree_depth(old(self).nodes@, node_id, Walk::Propagation(damage_from_parent)),
            ),
            same_shape(old(self).nodes@, final(self).nodes@),
            final(self).incremental_layout == old(self).incremental_layout,
            final(self).pending_style_image_nodes@ == old(self).pending_style_image_nodes@,
            final(self).image_cache@ == old(self).image_cache@,
            final(self).pending_images@ == old(self).pending_images@,
            // A node without style data, and a clean subtree, are left alone.
            node_at(old(self).nodes@, node_id).style is None ==> r == 0 && final(self).nodes@
                == old(self).nodes@,
            node_at(old(self).nodes@, node_id).style matches Some(sd) && skips_clean_subtree(
                node_at(old(self).nodes@, node_id),
                sd.damage | damage_from_parent,
            ) ==> r == 0 && final(self).nodes@ == old(self).nodes@,
            // Otherwise the damage for the parent holds the node's own damage
            // and its parent's.
            node_at(old(self).nodes@, node_id).style matches Some(sd) ==> contains(
                r,
                sd.damage | damage_from_parent,
            ),
            // Box construction implies relayout.
            contains(r, CONSTRUCT_BOX) ==> contains(r, RELAYOUT),
            // Relayout damage clears the node's layout cache.
            intersects(r, ONLY_RELAYOUT | CONSTRUCT_BOX) ==> !node_at(
                final(self).nodes@,
                node_id,
            ).has_layout_cache,
            // The node keeps the damage it hands up, less the relayout bit.
            node_at(final(self).nodes@, node_id).style matches Some(sd) ==> sd.damage == r
                & !ONLY_RELAYOUT,
    {
        let ghost depth = subtree_depth(self.nodes@, node_id, Walk::Propagation(damage_from_parent));
        proof {
            lemma_propagated_node(self.nodes@, node_id, damage_from_parent, depth);
        }
        self.propagate_below(node_id, damage_from_parent, Ghost(depth))
    }

    #[verifier::rlimit(80)]
    fn propagate_below(&mut self, node_id: NodeId, damage_from_parent: u16, Ghost(depth): Ghost<nat>) -> (r: u16)
        requires
            old(self).nodes.wf(),
            tree_below(old(self).nodes@, node_id, depth, Walk::Propagation(damage_from_parent)),
        ensures
            final(self).nodes.wf(),
            (final(self).nodes@, r) == propagated(old(self).nodes@, node_id, damage_from_parent, depth),
            same_shape(old(self).nodes@, final(self).nodes@),
            damage_from_parent == 0 ==> stops_kept(old(self).nodes@, final(self).nodes@, Walk::Propagation(0)),
            final(self).incremental_layout == old(self).incremental_layout,
            final(self).pending_style_image_nodes@ == old(self).pending_style_image_nodes@,
            final(self).image_cache@ == old(self).image_cache@,
            final(self).pending_images@ == old(self).pending_images@,
        decreases depth, 0nat,
    {
        let ghost nodes0 = self.nodes@;
        let node = self.nodes.index(node_id);
        let mut damage = match node.style {
            Some(sd) => sd.damage,
            None => return 0,
        };
        damage = damage | damage_from_parent;
        if damage == 0 && !node.damaged_descendants && !node.is_anonymous {
            return 0;
        }
        let kids: Vec<NodeId> = if node.traverse_layout_children {
            node.layout_children.as_ref().unwrap().clone()
        } else {
            let mut kids = node.children.clone();
            match node.before {
                Some(b) => kids.push(b),
                None => {},
            }
            match node.after {
                Some(a) => kids.push(a),
                None => {},
            }
            kids
        };
        proof {
            let n = node_at(nodes0, node_id);
            assert(kids@ =~= propagation_kids(n));
            assert(walked_kids(n, Walk::Propagation(damage_from_parent)) == kids@);
        }
        let ghost d0 = damage;
        assert(kids@.skip(0) =~= kids@);
        let mut i: usize = 0;
        while i < kids.len()
            invariant
                0 <= i <= kids.len(),
                depth > 0,
                self.nodes.wf(),
                same_shape(nodes0, self.nodes@),
                forall|c: NodeId| #[trigger] kids@.contains(c) ==> tree_below(nodes0, c, (depth - 1) as nat, Walk::Propagation(0)),
                stops_kept(nodes0, self.nodes@, Walk::Propagation(0)),
                propagated_list(nodes0, kids@, (depth - 1) as nat, d0) == propagated_list(
                    self.nodes@,
                    kids@.skip(i as int),
                    (depth - 1) as nat,
                    damage,
                ),
                self.incremental_layout == old(self).incremental_layout,
                self.pending_style_image_nodes@ == old(self).pending_style_image_nodes@,
                self.image_cache@ == old(self).image_cache@,
                self.pending_images@ == old(self).pending_images@,
            decreases kids.len() - i,
        {
            let child = kids[i];
            proof {
                assert(kids@.contains(child));
                lemma_tree_below_kept(nodes0, self.nodes@, child, (depth - 1) as nat, Walk::Propagation(0));
                assert(kids@.skip(i as int)[0] == child);
                assert(kids@.skip(i as int).drop_first() =~= kids@.skip(i + 1));
            }
            let ghost before = self.nodes@;
            let r = self.propagate_below(child, 0, Ghost((depth - 1) as nat));
            proof {
                assert forall|k: u64| #[trigger] nodes0.contains_key(k) && walk_stops(nodes0[k], Walk::Propagation(0))
                    implies walk_stops(self.nodes@[k], Walk::Propagation(0)) by {
                    assert(before.contains_key(k));
                }
            }
            damage = damage | r;
            i = i + 1;
        }
        proof {
            assert(kids@.skip(kids.len() as int) =~= Seq::<NodeId>::empty());
        }
        let ghost after = self.nodes@;
        if damage & CONSTRUCT_BOX == CONSTRUCT_BOX {
            damage = damage | RELAYOUT;
        }
        let damage_for_parent = damage;
        let node = self.nodes.index_mut(node_id);
        if damage & (ONLY_RELAYOUT | CONSTRUCT_BOX) != 0 {
            node.has_layout_cache = false;
            match &mut node.element {
                Some(el) => match &mut el.inline_layout {
                    Some(il) => {
                        il.has_content_widths = false;
                    },
                    None => {},
                },
                None => {},
            }
            damage = damage & !ONLY_RELAYOUT;
        }
        match &mut node.style {
            Some(sd) => {
                sd.damage = damage;
            },
            None => {},
        }
        proof {
            let k = slot_key(node_id@);
            assert(same_links(after[k], self.nodes@[k]));
            assert(self.nodes@.dom() =~= nodes0.dom());
            assert forall|j: u64| #[trigger] nodes0.contains_key(j) implies same_links(
                nodes0[j],
                self.nodes@[j],
            ) by {
                assert(same_links(nodes0[j], after[j]));
            }
        }
        damage_for_parent
    }

    /// Clear damage and the `damaged_descendants`/`dirty_descendants` flags
    /// on all nodes which may carry them, using the `damaged_descendants`
    /// flags to skip clean subtrees (as damage propagation does).
    pub fn clear_damage_and_dirty_flags(&mut self, node_id: NodeId)
        requires
            old(self).nodes.wf(),
            finite_subtree(old(self).nodes@, node_id, Walk::Clearing),
        ensures
            final(self).nodes.wf(),
            final(self).nodes@ == cleared(
                old(self).nodes@,
                node_id,
                subtree_depth(old(self).nodes@, node_id, Walk::Clearing),
            ),
            same_shape(old(self).nodes@, final(self).nodes@),
            final(self).incremental_layout == old(self).incremental_layout,
            final(self).pending_style_image_nodes@ == old(self).pending_style_image_nodes@,
            final(self).image_cache@ == old(self).image_cache@,
            final(self).pending_images@ == old(self).pending_images@,
            // The node is left without damage and without the flag that
            // marks damaged descendants.
            node_at(final(self).nodes@, node_id).style matches Some(sd) ==> sd.damage == 0,
            !node_at(final(self).nodes@, node_id).damaged_descendants,
    {
        let ghost depth = subtree_depth(self.nodes@, node_id, Walk::Clearing);
        proof {
            lemma_cleared_node(self.nodes@, node_id, depth);
        }
        self.clear_below(node_id, Ghost(depth))
    }

    #[verifier::rlimit(60)]
    fn clear_below(&mut self, node_id: NodeId, Ghost(depth): Ghost<nat>)
        requires
            old(self).nodes.wf(),
            tree_below(old(self).nodes@, node_id, depth, Walk::Clearing),
        ensures
            final(self).nodes.wf(),
            final(self).nodes@ == cleared(old(self).nodes@, node_id, depth),
            same_shape(old(self).nodes@, final(self).nodes@),
            stops_kept(old(self).nodes@, final(self).nodes@, Walk::Clearing),
            final(self).incremental_layout == old(self).incremental_layout,
            final(self).pending_style_image_nodes@ == old(self).pending_style_image_nodes@,
            final(self).image_cache@ == old(self).image_cache@,
            final(self).pending_images@ == old(self).pending_images@,
        decreases depth, 0nat,
    {
        let ghost nodes0 = self.nodes@;
        let node = self.nodes.index(node_id);
        let has_damage = match node.style {
            Some(sd) => sd.damage != 0,
            None => false,
        };
        if !has_damage && !node.damaged_descendants && !node.is_anonymous {
            return;
        }
        let kids = all_kids_vec(node);
        assert(walked_kids(node_at(nodes0, node_id), Walk::Clearing) == kids@);
        assert(kids@.skip(0) =~= kids@);
        let mut i: usize = 0;
        while i < kids.len()
            invariant
                0 <= i <= kids.len(),
                depth > 0,
                self.nodes.wf(),
                same_shape(nodes0, self.nodes@),
                forall|c: NodeId| #[trigger] kids@.contains(c) ==> tree_below(nodes0, c, (depth - 1) as nat, Walk::Clearing),
                stops_kept(nodes0, self.nodes@, Walk::Clearing),
                kids@ == all_kids(node_at(nodes0, node_id)),
                cleared_list(nodes0, kids@, (depth - 1) as nat) == cleared_list(
                    self.nodes@,
                    kids@.skip(i as int),
                    (depth - 1) as nat,
                ),
                self.incremental_layout == old(self).incremental_layout,
                self.pending_style_image_nodes@ == old(self).pending_style_image_nodes@,
                self.image_cache@ == old(self).image_cache@,
                self.pending_images@ == old(self).pending_images@,
            decreases kids.len() - i,
        {
            let child = kids[i];
            proof {
                assert(kids@.contains(child));
                lemma_tree_below_kept(nodes0, self.nodes@, child, (depth - 1) as nat, Walk::Clearing);
                assert(kids@.skip(i as int)[0] == child);
                assert(kids@.skip(i as int).drop_first() =~= kids@.skip(i + 1));
            }
            let ghost before = self.nodes@;
            self.clear_below(child, Ghost((depth - 1) as nat));
            proof {
                assert forall|k: u64| #[trigger] nodes0.contains_key(k) && walk_stops(nodes0[k], Walk::Clearing)
                    implies walk_stops(self.nodes@[k], Walk::Clearing) by {
                    assert(before.contains_key(k));
                }
            }
            i = i + 1;
        }
        proof {
            assert(kids@.skip(kids.len() as int) =~= Seq::<NodeId>::empty());
        }
        let ghost after = self.nodes@;
        let node = self.nodes.index_mut(node_id);
        match &mut node.style {
            Some(sd) => {
                sd.damage = 0;
            },
            None => {},
        }
        node.damaged_descendants = false;
        node.dirty_descendants = false;
        proof {
            let k = slot_key(node_id@);
            assert(same_links(after[k], self.nodes@[k]));
            assert(self.nodes@.dom() =~= nodes0.dom());
            assert forall|j: u64| #[trigger] nodes0.contains_key(j) implies same_links(
                nodes0[j],
                self.nodes@[j],
            ) by {
                assert(same_links(nodes0[j], after[j]));
            }
        }
    }

    /// Invalidate the inline formatting contexts after a change of scale:
    /// every inline root in the document gets all damage (an anonymous one
    /// passes it to its layout parent), and every text input outside one gets
    /// relayout damage. The text inputs are returned, by slot order: their
    /// editors are to be refreshed at the new scale.
    #[verifier::spinoff_prover]
    #[verifier::rlimit(40)]
    pub fn invalidate_inline_contexts(&mut self) -> (text_inputs: Vec<NodeId>)
        requires
            old(self).nodes.wf(),
            anonymous_inline_roots_resolve(old(self).nodes@),
        ensures
            final(self).nodes.wf(),
            final(self).nodes@ == inline_invalidated(old(self).nodes@),
            forall|i: int| 0 <= i < text_inputs.len() ==> #[trigger] old(self).nodes@.contains_key(text_inputs[i]@)
                && refreshes_editor(old(self).nodes@[text_inputs[i]@]),
            forall|k: u64| #[trigger] old(self).nodes@.contains_key(k) && refreshes_editor(old(self).nodes@[k])
                ==> exists|i: int| 0 <= i < text_inputs.len() && text_inputs[i]@ == k,
            final(self).incremental_layout == old(self).incremental_layout,
            final(self).pending_style_image_nodes@ == old(self).pending_style_image_nodes@,
            final(self).image_cache@ == old(self).image_cache@,
            final(self).pending_images@ == old(self).pending_images@,
    {
        let ghost nodes0 = self.nodes@;
        proof {
            self.nodes.lemma_live_ids();
        }
        let ids = self.nodes.ids();
        let mut anon_nodes: Vec<NodeId> = Vec::new();
        let ghost mut anon_keys: Seq<u64> = Seq::empty();
        let mut text_inputs: Vec<NodeId> = Vec::new();
        let mut i: usize = 0;
        while i < ids.len()
            invariant
                0 <= i <= ids.len(),
                self.nodes.wf(),
                self.nodes@.dom() == nodes0.dom(),
                forall|a: int, b: int| 0 <= a < b < ids.len() ==> ids[a]@ != ids[b]@,
                forall|j: int| 0 <= j < ids.len() ==> #[trigger] nodes0.contains_key(ids[j]@),
                forall|k: u64| #[trigger] nodes0.contains_key(k) ==> slot_key(k) == k,
                forall|j: int| 0 <= j < i ==> #[trigger] self.nodes@[ids[j]@] == damage_inserted(
                    nodes0[ids[j]@],
                    own_inline_damage(nodes0[ids[j]@]),
                ),
                forall|j: int| i <= j < ids.len() ==> #[trigger] self.nodes@[ids[j]@] == nodes0[ids[j]@],
                anon_nodes.len() == anon_keys.len(),
                forall|x: int| 0 <= x < anon_keys.len() ==> #[trigger] nodes0.contains_key(anon_keys[x])
                    && anonymous_inline_root(nodes0[anon_keys[x]]) && anon_nodes[x] == nodes0[anon_keys[x]].id,
                forall|j: int| 0 <= j < i && anonymous_inline_root(#[trigger] nodes0[ids[j]@]) ==> anon_keys.contains(ids[j]@),
                forall|x: int| 0 <= x < text_inputs.len() ==> #[trigger] nodes0.contains_key(text_inputs[x]@)
                    && refreshes_editor(nodes0[text_inputs[x]@]),
                forall|j: int| 0 <= j < i && refreshes_editor(#[trigger] nodes0[ids[j]@]) ==> text_inputs@.contains(ids[j]),
                self.incremental_layout == old(self).incremental_layout,
                self.pending_style_image_nodes@ == old(self).pending_style_image_nodes@,
                self.image_cache@ == old(self).image_cache@,
                self.pending_images@ == old(self).pending_images@,
            decreases ids.len() - i,
        {
            let id = ids[i];
            let ghost before = self.nodes@;
            let ghost keys_before = anon_keys;
            let ghost texts_before = text_inputs@;
            let (anon, text) = self.invalidate_one(id);
            match anon {
                Some(x) => {
                    anon_nodes.push(x);
                    proof {
                        anon_keys = anon_keys.push(id@);
                    }
                },
                None => {},
            }
            if text {
                text_inputs.push(id);
            }
            proof {
                assert forall|j: int| 0 <= j < i + 1 implies #[trigger] self.nodes@[ids[j]@] == damage_inserted(
                    nodes0[ids[j]@],
                    own_inline_damage(nodes0[ids[j]@]),
                ) by {
                    if j < i {
                        assert(ids[j]@ != id@);
                    }
                }
                assert forall|j: int| i + 1 <= j < ids.len() implies #[trigger] self.nodes@[ids[j]@] == nodes0[ids[j]@] by {
                    assert(ids[j]@ != id@);
                }
                assert forall|j: int| 0 <= j < i + 1 && anonymous_inline_root(#[trigger] nodes0[ids[j]@]) implies anon_keys.contains(ids[j]@) by {
                    if j == i {
                        assert(anon_keys[anon_keys.len() - 1] == id@);
                    } else {
                        let w = choose|w: int| 0 <= w < keys_before.len() && keys_before[w] == ids[j]@;
                        assert(anon_keys[w] == ids[j]@);
                    }
                }
                assert forall|j: int| 0 <= j < i + 1 && refreshes_editor(#[trigger] nodes0[ids[j]@]) implies text_inputs@.contains(ids[j]) by {
                    if j == i {
                        assert(text_inputs@[text_inputs.len() - 1] == id);
                    } else {
                        let w = choose|w: int| 0 <= w < texts_before.len() && texts_before[w] == ids[j];
                        assert(text_inputs@[w] == ids[j]);
                    }
                }
                assert(self.nodes@.dom() =~= nodes0.dom());
            }
            i = i + 1;
        }
        let ghost mid = self.nodes@;
        proof {
            assert forall|k: u64| #[trigger] nodes0.contains_key(k) implies mid[k] == damage_inserted(nodes0[k], own_inline_damage(nodes0[k])) by {
                let j = choose|j: int| 0 <= j < ids.len() && ids[j]@ == k;
            }
        }
        proof {
            assert forall|x: int| 0 <= x < anon_nodes.len() implies #[trigger] names_anonymous_inline_root(nodes0, anon_nodes[x]) by {
                assert(nodes0.contains_key(anon_keys[x]));
            }
        }
        self.damage_layout_parents(&anon_nodes, Ghost(nodes0), Ghost(mid));
        proof {
            let last = self.nodes@;
            assert forall|k: u64| #[trigger] nodes0.contains_key(k) implies last[k] == inline_invalidated(nodes0)[k] by {
                let in_list = exists|x: int| 0 <= x < anon_nodes.len() && parent_key(nodes0, anon_nodes[x]) == Some(k);
                if in_list {
                    let x = choose|x: int| 0 <= x < anon_nodes.len() && parent_key(nodes0, anon_nodes[x]) == Some(k);
                    assert(nodes0.contains_key(anon_keys[x]));
                    assert(anonymous_inline_child(nodes0, anon_keys[x], k));
                }
                if has_anonymous_inline_child(nodes0, k) {
                    let c = choose|c: u64| anonymous_inline_child(nodes0, c, k);
                    let j = choose|j: int| 0 <= j < ids.len() && ids[j]@ == c;
                    assert(anon_keys.contains(c));
                    let x = choose|x: int| 0 <= x < anon_keys.len() && anon_keys[x] == c;
                    assert(parent_key(nodes0, anon_nodes[x]) == Some(k));
                }
                lemma_insert_twice(nodes0[k], own_inline_damage(nodes0[k]), if in_list { ALL_DAMAGE } else { 0 });
            }
            assert(last =~= inline_invalidated(nodes0));
            assert forall|k: u64| #[trigger] nodes0.contains_key(k) && refreshes_editor(nodes0[k])
                implies exists|x: int| 0 <= x < text_inputs.len() && text_inputs[x]@ == k by {
                let j = choose|j: int| 0 <= j < ids.len() && ids[j]@ == k;
                assert(text_inputs@.contains(ids[j]));
            }
        }
        text_inputs
    }

    /// The damage that invalidating inline contexts gives the node at `id`
    /// itself; says whether it is an anonymous inline root (with its id) or a
    /// text input whose editor is to be refreshed.
    fn invalidate_one(&mut self, id: NodeId) -> (r: (Option<NodeId>, bool))
        requires
            old(self).nodes.wf(),
            old(self).nodes@.contains_key(id@),
            slot_key(id@) == id@,
        ensures
            final(self).nodes.wf(),
            final(self).nodes@ == old(self).nodes@.insert(
                id@,
                damage_inserted(old(self).nodes@[id@], own_inline_damage(old(self).nodes@[id@])),
            ),
            r.0 == (if anonymous_inline_root(old(self).nodes@[id@]) {
                Some(old(self).nodes@[id@].id)
            } else {
                None
            }),
            r.1 == refreshes_editor(old(self).nodes@[id@]),
            final(self).incremental_layout == old(self).incremental_layout,
            final(self).pending_style_image_nodes@ == old(self).pending_style_image_nodes@,
            final(self).image_cache@ == old(self).image_cache@,
            final(self).pending_images@ == old(self).pending_images@,
    {
        let ghost n0 = self.nodes@[id@];
        proof {
            lemma_insert_no_damage(n0);
        }
        let node = self.nodes.index_mut(id);
        let mut anon = None;
        let mut text = false;
        if node.in_document {
            match &node.element {
                Some(el) => {
                    if el.inline_layout.is_some() {
                        if node.is_anonymous {
                            anon = Some(node.id);
                        } else {
                            node.insert_damage(ALL_DAMAGE);
                        }
                    } else if el.is_text_input {
                        text = true;
                        node.insert_damage(ONLY_RELAYOUT);
                    }
                },
                None => {},
            }
        }
        (anon, text)
    }

    /// Give all damage to the layout parent of each node in `anon_nodes`.
    fn damage_layout_parents(&mut self, anon_nodes: &Vec<NodeId>, Ghost(nodes0): Ghost<Map<u64, Node>>, Ghost(mid): Ghost<Map<u64, Node>>)
        requires
            old(self).nodes.wf(),
            old(self).nodes@ == mid,
            mid.dom() == nodes0.dom(),
            anonymous_inline_roots_resolve(nodes0),
            forall|k: u64| #[trigger] nodes0.contains_key(k) ==> mid[k] == damage_inserted(nodes0[k], own_inline_damage(nodes0[k])),
            forall|x: int| 0 <= x < anon_nodes.len() ==> #[trigger] names_anonymous_inline_root(nodes0, anon_nodes[x]),
        ensures
            final(self).nodes.wf(),
            final(self).nodes@.dom() == nodes0.dom(),
            forall|k: u64| #[trigger] nodes0.contains_key(k) ==> final(self).nodes@[k] == damage_inserted(
                mid[k],
                if exists|x: int| 0 <= x < anon_nodes.len() && parent_key(nodes0, anon_nodes[x]) == Some(k) {
                    ALL_DAMAGE
                } else {
                    0
                },
            ),
            final(self).incremental_layout == old(self).incremental_layout,
            final(self).pending_style_image_nodes@ == old(self).pending_style_image_nodes@,
            final(self).image_cache@ == old(self).image_cache@,
            final(self).pending_images@ == old(self).pending_images@,
    {
        proof {
            assert forall|k: u64| #[trigger] nodes0.contains_key(k) implies self.nodes@[k] == damage_inserted(
                mid[k],
                if exists|x: int| 0 <= x < 0 && parent_key(nodes0, anon_nodes[x]) == Some(k) { ALL_DAMAGE } else { 0 },
            ) by {
                lemma_insert_no_damage(mid[k]);
            }
        }
        let mut a: usize = 0;
        while a < anon_nodes.len()
            invariant
                0 <= a <= anon_nodes.len(),
                self.nodes.wf(),
                self.nodes@.dom() == nodes0.dom(),
                mid.dom() == nodes0.dom(),
                anonymous_inline_roots_resolve(nodes0),
                forall|k: u64| #[trigger] nodes0.contains_key(k) ==> mid[k] == damage_inserted(nodes0[k], own_inline_damage(nodes0[k])),
                forall|x: int| 0 <= x < anon_nodes.len() ==> #[trigger] names_anonymous_inline_root(nodes0, anon_nodes[x]),
                forall|k: u64| #[trigger] nodes0.contains_key(k) ==> self.nodes@[k] == damage_inserted(
                    mid[k],
                    if exists|x: int| 0 <= x < a && parent_key(nodes0, anon_nodes[x]) == Some(k) {
                        ALL_DAMAGE
                    } else {
                        0
                    },
                ),
                self.incremental_layout == old(self).incremental_layout,
                self.pending_style_image_nodes@ == old(self).pending_style_image_nodes@,
                self.image_cache@ == old(self).image_cache@,
                self.pending_images@ == old(self).pending_images@,
            decreases anon_nodes.len() - a,
        {
            let node_id = anon_nodes[a];
            proof {
                assert(names_anonymous_inline_root(nodes0, node_id));
                let c = choose|c: u64| #[trigger] nodes0.contains_key(c) && anonymous_inline_root(nodes0[c]) && node_id == nodes0[c].id;
                assert(live(nodes0, node_id));
                assert(self.nodes@.contains_key(slot_key(node_id@)));
                assert(node_at(self.nodes@, node_id).layout_parent == node_at(nodes0, node_id).layout_parent) by {
                    lemma_insert_keeps_links(nodes0[slot_key(node_id@)], own_inline_damage(nodes0[slot_key(node_id@)]));
                    lemma_insert_keeps_links(mid[slot_key(node_id@)], if exists|x: int| 0 <= x < a && parent_key(nodes0, anon_nodes[x]) == Some(slot_key(node_id@)) { ALL_DAMAGE } else { 0 });
                }
            }
            let parent = self.nodes.index(node_id).layout_parent;
            match parent {
                Some(parent_id) => {
                    let ghost pk = slot_key(parent_id@);
                    proof {
                        assert(parent_key(nodes0, node_id) == Some(pk));
                        assert(live(nodes0, parent_id));
                    }
                    let ghost before = self.nodes@;
                    let parent_node = self.nodes.index_mut(parent_id);
                    parent_node.insert_damage(ALL_DAMAGE);
                    proof {
                        assert forall|k: u64| #[trigger] nodes0.contains_key(k) implies self.nodes@[k] == damage_inserted(
                            mid[k],
                            if exists|x: int| 0 <= x < a + 1 && parent_key(nodes0, anon_nodes[x]) == Some(k) {
                                ALL_DAMAGE
                            } else {
                                0
                            },
                        ) by {
                            if k == pk {
                                assert(0 <= a < a + 1 && parent_key(nodes0, anon_nodes[a as int]) == Some(k));
                                let had = exists|x: int| 0 <= x < a && parent_key(nodes0, anon_nodes[x]) == Some(k);
                                lemma_insert_all_twice(mid[k], had);
                            } else {
                                if exists|x: int| 0 <= x < a + 1 && parent_key(nodes0, anon_nodes[x]) == Some(k) {
                                    let x = choose|x: int| 0 <= x < a + 1 && parent_key(nodes0, anon_nodes[x]) == Some(k);
                                    assert(x < a);
                                }
                            }
                        }
                        assert(self.nodes@.dom() =~= nodes0.dom());
                    }
                },
                None => {
                    proof {
                        assert(parent_key(nodes0, node_id) == None::<u64>);
                        assert forall|k: u64| #[trigger] nodes0.contains_key(k) implies self.nodes@[k] == damage_inserted(
                            mid[k],
                            if exists|x: int| 0 <= x < a + 1 && parent_key(nodes0, anon_nodes[x]) == Some(k) {
                                ALL_DAMAGE
                            } else {
                                0
                            },
                        ) by {
                            if exists|x: int| 0 <= x < a + 1 && parent_key(nodes0, anon_nodes[x]) == Some(k) {
                                let x = choose|x: int| 0 <= x < a + 1 && parent_key(nodes0, anon_nodes[x]) == Some(k);
                                assert(x < a);
                            }
                        }
                    }
                },
            }
            a = a + 1;
        }
    }
}

} // verus!
