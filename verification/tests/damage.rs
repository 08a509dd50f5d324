use blitz_dom::document::BaseDocument;
use blitz_dom::node::{
    ComputedStyle, DisplayInside, ElementData, Float, InlineLayout, Node, Overflow, Position,
    StyleData,
};
use blitz_dom::node_id::NodeId;
use blitz_dom::restyle_damage::{
    ALL_DAMAGE, CONSTRUCT_BOX, ONLY_RELAYOUT, REBUILD_STACKING_CONTEXT, RELAYOUT, REPAINT,
};
use blitz_dom::tree::NodeTree;

fn bare_node(id: NodeId) -> Node {
    Node {
        id,
        in_document: true,
        is_anonymous: false,
        damaged_descendants: false,
        dirty_descendants: false,
        style: None,
        element: None,
        children: Vec::new(),
        layout_children: None,
        paint_children: None,
        layout_parent: None,
        before: None,
        after: None,
        traverse_layout_children: false,
        stacking_root: false,
        stacking_root_in_flex_or_grid: false,
        has_layout_cache: true,
        subtree_has_floats: false,
        stacking_context: None,
        auto_hoisted: None,
        background_layers: Vec::new(),
        mask_layers: Vec::new(),
        background_images: Vec::new(),
        mask_images: Vec::new(),
    }
}

fn block_style() -> ComputedStyle {
    ComputedStyle {
        display_inside: DisplayInside::Flow,
        position: Position::Static,
        float: Float::NoFloat,
        overflow_x: Overflow::Visible,
        overflow_y: Overflow::Visible,
        z_index: None,
        order: 0,
    }
}

fn styled_node(id: NodeId, damage: u16) -> Node {
    let mut n = bare_node(id);
    n.style = Some(StyleData { damage, primary: Some(block_style()) });
    n.element = Some(ElementData {
        inline_layout: Some(InlineLayout { has_content_widths: true }),
        is_text_input: false,
    });
    n
}

fn empty_document() -> BaseDocument {
    BaseDocument {
        nodes: NodeTree::new(),
        incremental_layout: true,
        pending_style_image_nodes: Vec::new(),
        image_cache: Vec::new(),
        pending_images: Vec::new(),
    }
}

fn stored_damage(doc: &BaseDocument, id: NodeId) -> u16 {
    doc.nodes.get(id).unwrap().style.unwrap().damage
}

/// A root with two children; `damages` gives the root's and the children's damage.
fn two_level(damages: [u16; 3]) -> (BaseDocument, NodeId, NodeId, NodeId) {
    let mut doc = empty_document();
    let root = doc.nodes.insert_with_key(|id| styled_node(id, damages[0]));
    let a = doc.nodes.insert_with_key(|id| styled_node(id, damages[1]));
    let b = doc.nodes.insert_with_key(|id| styled_node(id, damages[2]));
    doc.nodes.index_mut(root).children = vec![a, b];
    (doc, root, a, b)
}

#[test]
fn damage_flag_values() {
    assert_eq!(REPAINT, 0b1);
    assert_eq!(REBUILD_STACKING_CONTEXT, 0b11);
    assert_eq!(RELAYOUT, 0b1111);
    assert_eq!(ONLY_RELAYOUT, 0b1000);
    assert_eq!(CONSTRUCT_BOX, 0b1_0000);
    assert_eq!(ALL_DAMAGE, 0b111_1111);
}

#[test]
fn insert_damage_joins_bits() {
    let mut doc = empty_document();
    let a = doc.nodes.insert_with_key(|id| styled_node(id, REPAINT));
    doc.nodes.index_mut(a).insert_damage(ONLY_RELAYOUT);
    assert_eq!(stored_damage(&doc, a), REPAINT | ONLY_RELAYOUT);
    // A node without style data stores no damage.
    let b = doc.nodes.insert_with_key(bare_node);
    doc.nodes.index_mut(b).insert_damage(ALL_DAMAGE);
    assert!(doc.nodes.get(b).unwrap().style.is_none());
}

#[test]
fn propagate_without_style_data_returns_nothing() {
    let mut doc = empty_document();
    let a = doc.nodes.insert_with_key(bare_node);
    assert_eq!(doc.propagate_damage_flags(a, RELAYOUT), 0);
    assert!(doc.nodes.get(a).unwrap().has_layout_cache);
}

#[test]
fn propagate_skips_a_clean_subtree() {
    let (mut doc, root, a, _b) = two_level([0, CONSTRUCT_BOX, 0]);
    // The root has no damage and no damaged descendants flag: nothing is walked.
    assert_eq!(doc.propagate_damage_flags(root, 0), 0);
    assert_eq!(stored_damage(&doc, a), CONSTRUCT_BOX);
    assert!(doc.nodes.get(a).unwrap().has_layout_cache);
}

#[test]
fn propagate_never_skips_an_anonymous_box() {
    let (mut doc, root, a, _b) = two_level([0, REPAINT, 0]);
    doc.nodes.index_mut(root).is_anonymous = true;
    assert_eq!(doc.propagate_damage_flags(root, 0), REPAINT);
    assert_eq!(stored_damage(&doc, root), REPAINT);
    assert_eq!(stored_damage(&doc, a), REPAINT);
}

#[test]
fn construct_box_implies_relayout_and_clears_caches() {
    let (mut doc, root, a, b) = two_level([0, CONSTRUCT_BOX, 0]);
    doc.nodes.index_mut(root).damaged_descendants = true;
    let up = doc.propagate_damage_flags(root, 0);
    // The child's damage gains RELAYOUT and comes back up whole.
    assert_eq!(up, CONSTRUCT_BOX | RELAYOUT);
    // Stored without the relayout bit, once the cache has been cleared.
    assert_eq!(stored_damage(&doc, a), (CONSTRUCT_BOX | RELAYOUT) & !ONLY_RELAYOUT);
    assert_eq!(stored_damage(&doc, root), (CONSTRUCT_BOX | RELAYOUT) & !ONLY_RELAYOUT);
    let na = doc.nodes.get(a).unwrap();
    assert!(!na.has_layout_cache);
    assert!(!na.element.unwrap().inline_layout.unwrap().has_content_widths);
    assert!(!doc.nodes.get(root).unwrap().has_layout_cache);
    // The clean sibling is skipped and keeps its cache.
    assert_eq!(stored_damage(&doc, b), 0);
    assert!(doc.nodes.get(b).unwrap().has_layout_cache);
}

#[test]
fn parent_damage_reaches_the_node_not_its_children() {
    let (mut doc, root, a, _b) = two_level([0, 0, 0]);
    let up = doc.propagate_damage_flags(root, REPAINT);
    assert_eq!(up, REPAINT);
    assert_eq!(stored_damage(&doc, root), REPAINT);
    // Children get no damage from their parent: the clean ones are skipped.
    assert_eq!(stored_damage(&doc, a), 0);
    assert!(doc.nodes.get(root).unwrap().has_layout_cache);
}

#[test]
fn relayout_damage_is_stored_without_its_relayout_bit() {
    let (mut doc, root, _a, _b) = two_level([RELAYOUT, 0, 0]);
    assert_eq!(doc.propagate_damage_flags(root, 0), RELAYOUT);
    assert_eq!(stored_damage(&doc, root), RELAYOUT & !ONLY_RELAYOUT);
    assert!(!doc.nodes.get(root).unwrap().has_layout_cache);
}

#[test]
fn propagate_walks_pseudo_elements_and_layout_children() {
    let mut doc = empty_document();
    let root = doc.nodes.insert_with_key(|id| styled_node(id, 0));
    let before = doc.nodes.insert_with_key(|id| styled_node(id, REPAINT));
    let anon = doc.nodes.insert_with_key(|id| styled_node(id, REBUILD_STACKING_CONTEXT));
    doc.nodes.index_mut(root).damaged_descendants = true;
    doc.nodes.index_mut(root).before = Some(before);
    doc.nodes.index_mut(root).layout_children = Some(vec![anon]);
    // Walking the DOM side: the `::before` box, not the layout children.
    assert_eq!(doc.propagate_damage_flags(root, 0), REPAINT);
    assert_eq!(stored_damage(&doc, anon), REBUILD_STACKING_CONTEXT);
    // Walking the layout side: the layout children only.
    doc.nodes.index_mut(root).traverse_layout_children = true;
    assert_eq!(doc.propagate_damage_flags(root, 0), REPAINT | REBUILD_STACKING_CONTEXT);
}

#[test]
fn clear_resets_damage_and_flags_below() {
    let (mut doc, root, a, b) = two_level([REPAINT, RELAYOUT, 0]);
    doc.nodes.index_mut(root).damaged_descendants = true;
    doc.nodes.index_mut(root).dirty_descendants = true;
    doc.nodes.index_mut(a).dirty_descendants = true;
    doc.nodes.index_mut(b).dirty_descendants = true;
    doc.clear_damage_and_dirty_flags(root);
    for id in [root, a] {
        let n = doc.nodes.get(id).unwrap();
        assert_eq!(n.style.unwrap().damage, 0);
        assert!(!n.damaged_descendants);
        assert!(!n.dirty_descendants);
    }
    // A clean child below a flagged parent is skipped, flags and all.
    assert!(doc.nodes.get(b).unwrap().dirty_descendants);
}

#[test]
fn clear_skips_a_clean_subtree() {
    let (mut doc, root, a, _b) = two_level([0, REPAINT, 0]);
    doc.nodes.index_mut(root).dirty_descendants = true;
    doc.clear_damage_and_dirty_flags(root);
    assert!(doc.nodes.get(root).unwrap().dirty_descendants);
    assert_eq!(stored_damage(&doc, a), REPAINT);
}

#[test]
fn invalidate_inline_contexts_damages_roots_and_inputs() {
    let mut doc = empty_document();
    let block = doc.nodes.insert_with_key(|id| styled_node(id, 0));
    let inline_root = doc.nodes.insert_with_key(|id| styled_node(id, 0));
    let anon_root = doc.nodes.insert_with_key(|id| styled_node(id, 0));
    let input = doc.nodes.insert_with_key(|id| styled_node(id, REPAINT));
    let detached = doc.nodes.insert_with_key(|id| styled_node(id, 0));
    let plain = doc.nodes.insert_with_key(|id| styled_node(id, 0));
    doc.nodes.index_mut(block).element = Some(ElementData { inline_layout: None, is_text_input: false });
    doc.nodes.index_mut(anon_root).is_anonymous = true;
    doc.nodes.index_mut(anon_root).layout_parent = Some(block);
    doc.nodes.index_mut(input).element = Some(ElementData { inline_layout: None, is_text_input: true });
    doc.nodes.index_mut(detached).in_document = false;
    doc.nodes.index_mut(plain).element = None;

    let inputs = doc.invalidate_inline_contexts();
    assert_eq!(inputs, vec![input]);
    assert_eq!(stored_damage(&doc, inline_root), ALL_DAMAGE);
    // An anonymous inline root passes its damage to its layout parent.
    assert_eq!(stored_damage(&doc, anon_root), 0);
    assert_eq!(stored_damage(&doc, block), ALL_DAMAGE);
    assert_eq!(stored_damage(&doc, input), REPAINT | ONLY_RELAYOUT);
    assert_eq!(stored_damage(&doc, detached), 0);
    assert_eq!(stored_damage(&doc, plain), 0);
}

#[test]
fn skipped_subtree_links_are_not_read() {
    let (mut doc, root, a, _b) = two_level([0, 0, 0]);
    // A clean root is skipped, so its children are not walked, live or not.
    doc.nodes.remove(a);
    assert_eq!(doc.propagate_damage_flags(root, 0), 0);
    doc.clear_damage_and_dirty_flags(root);
    assert_eq!(stored_damage(&doc, root), 0);
}

#[test]
fn second_clear_from_an_anonymous_box_changes_nothing() {
    let (mut doc, root, a, b) = two_level([0, RELAYOUT, 0]);
    doc.nodes.index_mut(root).is_anonymous = true;
    doc.nodes.index_mut(b).is_anonymous = true;
    doc.nodes.index_mut(b).dirty_descendants = true;
    doc.clear_damage_and_dirty_flags(root);
    let snapshot: Vec<(u16, bool, bool)> = [root, a, b]
        .iter()
        .map(|id| {
            let n = doc.nodes.get(*id).unwrap();
            (n.style.unwrap().damage, n.damaged_descendants, n.dirty_descendants)
        })
        .collect();
    doc.clear_damage_and_dirty_flags(root);
    let again: Vec<(u16, bool, bool)> = [root, a, b]
        .iter()
        .map(|id| {
            let n = doc.nodes.get(*id).unwrap();
            (n.style.unwrap().damage, n.damaged_descendants, n.dirty_descendants)
        })
        .collect();
    assert_eq!(snapshot, again);
    assert_eq!(snapshot, vec![(0, false, false), (0, false, false), (0, false, false)]);
}
