//! The document: its node storage and the shape of its trees.
use vstd::prelude::*;

use crate::images::PendingImage;
use crate::node::Node;
use crate::node_id::NodeId;
use crate::slot_store::slot_key;
use crate::tree::NodeTree;

verus! {

/// The parts of a document that damage propagation and layout flushing
/// work on.
pub struct BaseDocument {
    pub nodes: NodeTree,
    /// Whether layout runs incrementally: then damage propagation, not
    /// layout flushing, clears the layout caches.
    pub incremental_layout: bool,
    /// Nodes whose style changed since their image layers were last flushed.
    pub pending_style_image_nodes: Vec<NodeId>,
    /// Loaded images, by URL: each image is known by a handle.
    pub image_cache: Vec<(String, u64)>,
    /// Images being fetched, by URL, with the nodes and layers waiting on each.
    pub pending_images: Vec<PendingImage>,
}

/// Whether `id` resolves to a live node of `nodes`.
pub open spec fn live(nodes: Map<u64, Node>, id: NodeId) -> bool {
    nodes.contains_key(slot_key(id@))
}

/// The node that `id` resolves to in `nodes`.
pub open spec fn node_at(nodes: Map<u64, Node>, id: NodeId) -> Node {
    nodes[slot_key(id@)]
}

/// An optional id as a sequence of zero or one ids.
pub open spec fn opt_seq(o: Option<NodeId>) -> Seq<NodeId> {
    match o {
        Some(id) => seq![id],
        None => Seq::empty(),
    }
}

/// The layout children of a node, none when it has no list.
pub open spec fn layout_seq(n: Node) -> Seq<NodeId> {
    match n.layout_children {
        Some(v) => v@,
        None => Seq::empty(),
    }
}

/// The DOM children of a node followed by its `::before` and `::after` boxes.
pub open spec fn dom_kids(n: Node) -> Seq<NodeId> {
    n.children@ + opt_seq(n.before) + opt_seq(n.after)
}

/// Every node that some traversal goes to from `n`: its DOM children, its
/// layout children, and its `::before` and `::after` boxes.
pub open spec fn all_kids(n: Node) -> Seq<NodeId> {
    n.children@ + layout_seq(n) + opt_seq(n.before) + opt_seq(n.after)
}

/// Whether a node is well formed for traversal: one that is to be walked
/// by its layout children has a list of them.
pub open spec fn node_traversable(n: Node) -> bool {
    n.traverse_layout_children ==> n.layout_children is Some
}

/// The nodes that damage propagation walks below `n`: its layout children
/// when it is walked by them, else its DOM children and `::before` and
/// `::after` boxes.
pub open spec fn propagation_kids(n: Node) -> Seq<NodeId> {
    if n.traverse_layout_children {
        layout_seq(n)
    } else {
        dom_kids(n)
    }
}

/// Whether propagation returns at once from a node that holds `damage`.
pub open spec fn skips_clean_subtree(n: Node, damage: u16) -> bool {
    damage == 0 && !n.damaged_descendants && !n.is_anonymous
}

/// Whether clearing returns at once from a node: it has no damage, no
/// damaged descendants, and is not anonymous.
pub open spec fn clear_skips(n: Node) -> bool {
    let has_damage = match n.style {
        Some(sd) => sd.damage != 0,
        None => false,
    };
    !has_damage && !n.damaged_descendants && !n.is_anonymous
}

/// The walks down the trees, each following its own links.
pub ghost enum Walk {
    /// Damage propagation, with the damage handed down from the parent:
    /// `propagation_kids`.
    Propagation(u16),
    /// Clearing damage flags: every child, layout child and pseudo-element box.
    Clearing,
    /// Flushing styles to layout: the layout children.
    Layout,
}

/// Whether a walk returns from `n` without going below it: propagation at a
/// node without style data or with a clean subtree, clearing at a clean
/// node, flushing at a box without a primary style.
pub open spec fn walk_stops(n: Node, walk: Walk) -> bool {
    match walk {
        Walk::Propagation(from_parent) => match n.style {
            None => true,
            Some(sd) => skips_clean_subtree(n, sd.damage | from_parent),
        },
        Walk::Clearing => clear_skips(n),
        Walk::Layout => !(n.style is Some && n.style.unwrap().primary is Some),
    }
}

/// The walk that goes on below a node: propagation hands the children no
/// damage of its own.
pub open spec fn walk_below(walk: Walk) -> Walk {
    match walk {
        Walk::Propagation(_) => Walk::Propagation(0),
        _ => walk,
    }
}

/// The nodes that a walk goes to from `n`.
pub open spec fn walked_kids(n: Node, walk: Walk) -> Seq<NodeId> {
    if walk_stops(n, walk) {
        Seq::empty()
    } else {
        match walk {
            Walk::Propagation(_) => propagation_kids(n),
            Walk::Clearing => all_kids(n),
            Walk::Layout => layout_seq(n),
        }
    }
}

/// Whether a walk can go on from `n`: propagation unwraps the layout
/// children of a node walked by them.
pub open spec fn walkable(n: Node, walk: Walk) -> bool {
    !walk_stops(n, walk) && walk is Propagation ==> node_traversable(n)
}

/// Whether every path of a walk from `id` has fewer than `depth` nodes,
/// each live and walkable.
pub open spec fn tree_below(nodes: Map<u64, Node>, id: NodeId, depth: nat, walk: Walk) -> bool
    decreases depth,
{
    &&& depth > 0
    &&& live(nodes, id)
    &&& walkable(node_at(nodes, id), walk)
    &&& forall|c: NodeId| #[trigger]
        walked_kids(node_at(nodes, id), walk).contains(c) ==> tree_below(nodes, c, (depth - 1) as nat, walk_below(walk))
}

/// Whether a walk from `id` goes through finitely many live nodes.
pub open spec fn finite_subtree(nodes: Map<u64, Node>, id: NodeId, walk: Walk) -> bool {
    exists|depth: nat| tree_below(nodes, id, depth, walk)
}

/// The depth that a walk from `id` is measured with.
pub open spec fn subtree_depth(nodes: Map<u64, Node>, id: NodeId, walk: Walk) -> nat {
    choose|depth: nat| tree_below(nodes, id, depth, walk)
}

/// What the traversals read of a node's place in the trees.
pub open spec fn same_links(a: Node, b: Node) -> bool {
    &&& a.children@ == b.children@
    &&& a.layout_children is Some == b.layout_children is Some
    &&& layout_seq(a) == layout_seq(b)
    &&& a.before == b.before
    &&& a.after == b.after
    &&& a.traverse_layout_children == b.traverse_layout_children
}

/// Whether two node maps hold the same ids, linked the same way.
pub open spec fn same_shape(a: Map<u64, Node>, b: Map<u64, Node>) -> bool {
    &&& a.dom() == b.dom()
    &&& forall|k: u64| #[trigger] a.contains_key(k) ==> same_links(a[k], b[k])
}

/// Whether each node at which a walk stops in `a` stops it in `b` too.
pub open spec fn stops_kept(a: Map<u64, Node>, b: Map<u64, Node>, walk: Walk) -> bool {
    forall|k: u64| #[trigger] a.contains_key(k) && walk_stops(a[k], walk) ==> walk_stops(b[k], walk)
}

/// A depth bound below a node holds in any node map of the same shape in
/// which the walk stops wherever it stopped before.
pub proof fn lemma_tree_below_kept(a: Map<u64, Node>, b: Map<u64, Node>, id: NodeId, depth: nat, walk: Walk)
    requires
        same_shape(a, b),
        stops_kept(a, b, walk),
        walk_below(walk) == walk,
        tree_below(a, id, depth, walk),
    ensures
        tree_below(b, id, depth, walk),
    decreases depth,
{
    let k = slot_key(id@);
    assert(a.contains_key(k));
    if !walk_stops(node_at(b, id), walk) {
        assert(!walk_stops(node_at(a, id), walk));
        assert(same_links(a[k], b[k]));
        assert(walked_kids(node_at(a, id), walk) == walked_kids(node_at(b, id), walk));
    }
    assert forall|c: NodeId| #[trigger] walked_kids(node_at(b, id), walk).contains(c) implies tree_below(
        b,
        c,
        (depth - 1) as nat,
        walk_below(walk),
    ) by {
        assert(walked_kids(node_at(a, id), walk).contains(c));
        lemma_tree_below_kept(a, b, c, (depth - 1) as nat, walk);
    }
}

/// The ids that `all_kids` names, in a vector.
pub fn all_kids_vec(node: &Node) -> (kids: Vec<NodeId>)
    ensures
        kids@ == all_kids(*node),
{
    let mut kids = node.children.clone();
    match &node.layout_children {
        Some(lc) => {
            let mut j: usize = 0;
            while j < lc.len()
                invariant
                    0 <= j <= lc.len(),
                    kids@ == node.children@ + lc@.take(j as int),
                decreases lc.len() - j,
            {
                kids.push(lc[j]);
                proof {
                    assert(lc@.take(j + 1) =~= lc@.take(j as int).push(lc@[j as int]));
                }
                j = j + 1;
            }
            proof {
                assert(lc@.take(lc.len() as int) =~= lc@);
            }
        },
        None => {},
    }
    match node.before {
        Some(b) => kids.push(b),
        None => {},
    }
    match node.after {
        Some(a) => kids.push(a),
        None => {},
    }
    proof {
        assert(kids@ =~= all_kids(*node));
    }
    kids
}

} // verus!
