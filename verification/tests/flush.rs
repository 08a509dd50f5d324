use blitz_dom::document::BaseDocument;
use blitz_dom::node::{ComputedStyle, DisplayInside, Float, Node, Overflow, Position, StyleData};
use blitz_dom::node_id::NodeId;
use blitz_dom::tree::NodeTree;

fn layout_node(id: NodeId) -> Node {
    Node {
        id,
        in_document: true,
        is_anonymous: false,
        damaged_descendants: false,
        dirty_descendants: false,
        style: None,
        element: None,
        children: Vec::new(),
        layout_children: None,
        paint_children: None,
        layout_parent: None,
        before: None,
        after: None,
        traverse_layout_children: false,
        stacking_root: false,
        stacking_root_in_flex_or_grid: false,
        has_layout_cache: true,
        subtree_has_floats: false,
        stacking_context: None,
        auto_hoisted: None,
        background_layers: Vec::new(),
        mask_layers: Vec::new(),
        background_images: Vec::new(),
        mask_images: Vec::new(),
    }
}

fn style_of(display: DisplayInside, position: Position, z_index: Option<i32>) -> ComputedStyle {
    ComputedStyle {
        display_inside: display,
        position,
        float: Float::NoFloat,
        overflow_x: Overflow::Visible,
        overflow_y: Overflow::Visible,
        z_index,
        order: 0,
    }
}

fn add_box(doc: &mut BaseDocument, style: ComputedStyle) -> NodeId {
    doc.nodes.insert_with_key(|id| {
        let mut n = layout_node(id);
        n.style = Some(StyleData { damage: 0, primary: Some(style) });
        n
    })
}

fn layout_document(incremental: bool) -> BaseDocument {
    BaseDocument {
        nodes: NodeTree::new(),
        incremental_layout: incremental,
        pending_style_image_nodes: Vec::new(),
        image_cache: Vec::new(),
        pending_images: Vec::new(),
    }
}

fn flow() -> ComputedStyle {
    style_of(DisplayInside::Flow, Position::Static, None)
}

fn hoisted_ids(doc: &BaseDocument, id: NodeId) -> Vec<(NodeId, i32)> {
    let sc = doc.nodes.get(id).unwrap().stacking_context.as_ref().unwrap();
    sc.children.iter().map(|c| (c.node_id, c.z_index)).collect()
}

#[test]
fn paint_children_sort_by_paint_level() {
    let mut doc = layout_document(false);
    let root = add_box(&mut doc, flow());
    let positioned = add_box(&mut doc, style_of(DisplayInside::Flow, Position::Absolute, None));
    let in_flow = add_box(&mut doc, flow());
    let mut float_style = flow();
    float_style.float = Float::Left;
    let floated = add_box(&mut doc, float_style);
    doc.nodes.index_mut(root).layout_children = Some(vec![positioned, in_flow, floated]);

    doc.flush_styles_to_layout(root);

    let r = doc.nodes.get(root).unwrap();
    // In-flow content, then floats, then positioned boxes.
    assert_eq!(r.paint_children.clone().unwrap(), vec![in_flow, floated, positioned]);
    assert_eq!(r.layout_children.clone().unwrap(), vec![positioned, in_flow, floated]);
    assert!(r.subtree_has_floats);
    assert!(!doc.nodes.get(in_flow).unwrap().subtree_has_floats);
    // Not incremental: every flushed box has its cache cleared.
    assert!(!r.has_layout_cache);
    assert!(!doc.nodes.get(floated).unwrap().has_layout_cache);
    // The root keeps an empty stacking context and no `auto` collection.
    assert!(hoisted_ids(&doc, root).is_empty());
    assert!(r.auto_hoisted.is_none());
}

#[test]
fn incremental_flush_keeps_layout_caches() {
    let mut doc = layout_document(true);
    let root = add_box(&mut doc, flow());
    let child = add_box(&mut doc, flow());
    doc.nodes.index_mut(root).layout_children = Some(vec![child]);
    doc.flush_styles_to_layout(root);
    assert!(doc.nodes.get(root).unwrap().has_layout_cache);
    assert!(doc.nodes.get(child).unwrap().has_layout_cache);
}

#[test]
fn z_indexed_boxes_hoist_to_the_stacking_context() {
    let mut doc = layout_document(false);
    let root = add_box(&mut doc, flow());
    let above = add_box(&mut doc, style_of(DisplayInside::Flow, Position::Relative, Some(5)));
    let below = add_box(&mut doc, style_of(DisplayInside::Flow, Position::Relative, Some(-1)));
    let in_flow = add_box(&mut doc, flow());
    // A static box with a z-index is not hoisted outside flex and grid.
    let static_z = add_box(&mut doc, style_of(DisplayInside::Flow, Position::Static, Some(4)));
    doc.nodes.index_mut(above).stacking_root = true;
    doc.nodes.index_mut(below).stacking_root = true;
    doc.nodes.index_mut(root).layout_children = Some(vec![above, below, in_flow, static_z]);

    doc.flush_styles_to_layout(root);

    assert_eq!(hoisted_ids(&doc, root), vec![(below, -1), (above, 5)]);
    let sc = doc.nodes.get(root).unwrap().stacking_context.as_ref().unwrap();
    assert_eq!(sc.negative_z_count, 1);
    assert_eq!(sc.neg_z_hoisted_children().len(), 1);
    assert_eq!(sc.pos_z_hoisted_children()[0].node_id, above);
    assert_eq!(doc.nodes.get(root).unwrap().paint_children.clone().unwrap(), vec![in_flow, static_z]);
    // Each stacking context root keeps its own.
    assert!(hoisted_ids(&doc, above).is_empty());
    assert!(hoisted_ids(&doc, below).is_empty());
}

#[test]
fn hoisted_boxes_carry_the_offsets_of_the_boxes_between() {
    let mut doc = layout_document(false);
    let root = add_box(&mut doc, flow());
    let middle = add_box(&mut doc, flow());
    let deep = add_box(&mut doc, style_of(DisplayInside::Flow, Position::Absolute, Some(2)));
    doc.nodes.index_mut(root).layout_children = Some(vec![middle]);
    doc.nodes.index_mut(middle).layout_children = Some(vec![deep]);
    doc.nodes.index_mut(deep).stacking_root = true;

    doc.flush_styles_to_layout(root);

    let sc = doc.nodes.get(root).unwrap().stacking_context.as_ref().unwrap();
    assert_eq!(sc.children.len(), 1);
    assert_eq!(sc.children[0].node_id, deep);
    assert_eq!(sc.children[0].offsets, vec![middle]);
    // A box inside a stacking context stores none of its own.
    assert!(doc.nodes.get(middle).unwrap().stacking_context.is_none());
}

#[test]
fn auto_positioned_box_is_collected_by_its_ancestor() {
    let mut doc = layout_document(false);
    let root = add_box(&mut doc, flow());
    let wrapper = add_box(&mut doc, flow());
    let positioned = add_box(&mut doc, style_of(DisplayInside::Flow, Position::Relative, None));
    doc.nodes.index_mut(root).layout_children = Some(vec![wrapper]);
    doc.nodes.index_mut(wrapper).layout_children = Some(vec![positioned]);

    doc.flush_styles_to_layout(root);

    let r = doc.nodes.get(root).unwrap();
    let collected = r.auto_hoisted.as_ref().unwrap();
    assert_eq!(collected.len(), 1);
    assert_eq!(collected[0].node_id, positioned);
    assert_eq!(collected[0].z_index, 0);
    assert_eq!(collected[0].offsets, vec![wrapper]);
    // The static wrapper passes it up and paints nothing of it.
    let w = doc.nodes.get(wrapper).unwrap();
    assert!(w.auto_hoisted.is_none());
    assert_eq!(w.paint_children.clone().unwrap(), Vec::<NodeId>::new());
    assert_eq!(r.paint_children.clone().unwrap(), vec![wrapper]);
}

#[test]
fn flex_children_sort_by_order_and_hoist_static_z() {
    let mut doc = layout_document(false);
    let root = add_box(&mut doc, style_of(DisplayInside::Flex, Position::Static, None));
    let mut s2 = flow();
    s2.order = 2;
    let mut s1 = flow();
    s1.order = 1;
    let a = add_box(&mut doc, s2);
    let b = add_box(&mut doc, s1);
    let c = add_box(&mut doc, s2);
    let z = add_box(&mut doc, style_of(DisplayInside::Flow, Position::Static, Some(3)));
    doc.nodes.index_mut(root).layout_children = Some(vec![a, b, c, z]);

    doc.flush_styles_to_layout(root);

    let r = doc.nodes.get(root).unwrap();
    assert_eq!(r.layout_children.clone().unwrap(), vec![z, b, a, c]);
    assert_eq!(r.paint_children.clone().unwrap(), vec![b, a, c]);
    assert_eq!(hoisted_ids(&doc, root), vec![(z, 3)]);
}

#[test]
fn box_without_style_is_left_alone() {
    let mut doc = layout_document(false);
    let root = doc.nodes.insert_with_key(layout_node);
    let child = add_box(&mut doc, flow());
    doc.nodes.index_mut(root).layout_children = Some(vec![child]);
    doc.flush_styles_to_layout(root);
    let r = doc.nodes.get(root).unwrap();
    assert!(r.paint_children.is_none());
    assert!(r.stacking_context.is_none());
    assert!(r.has_layout_cache);
    assert!(doc.nodes.get(child).unwrap().has_layout_cache);
}

#[test]
fn positioned_float_paints_with_positioned_boxes() {
    let mut doc = layout_document(false);
    let root = add_box(&mut doc, flow());
    let mut positioned_float_style = style_of(DisplayInside::Flow, Position::Relative, None);
    positioned_float_style.float = Float::Left;
    let positioned_float = add_box(&mut doc, positioned_float_style);
    let positioned = add_box(&mut doc, style_of(DisplayInside::Flow, Position::Absolute, None));
    let mut float_style = flow();
    float_style.float = Float::Right;
    let floated = add_box(&mut doc, float_style);
    let in_flow = add_box(&mut doc, flow());
    doc.nodes.index_mut(root).layout_children = Some(vec![positioned_float, positioned, floated, in_flow]);

    doc.flush_styles_to_layout(root);

    // All positioned boxes share one level above floats, in tree order.
    let r = doc.nodes.get(root).unwrap();
    assert_eq!(r.paint_children.clone().unwrap(), vec![in_flow, floated, positioned_float, positioned]);
}

#[test]
fn flush_reads_only_layout_children() {
    let mut doc = layout_document(false);
    let root = add_box(&mut doc, flow());
    let child = add_box(&mut doc, flow());
    // A DOM child that is no longer live is not walked by flushing.
    let gone = add_box(&mut doc, flow());
    doc.nodes.remove(gone);
    doc.nodes.index_mut(root).children = vec![gone];
    doc.nodes.index_mut(root).layout_children = Some(vec![child]);
    doc.flush_styles_to_layout(root);
    assert_eq!(doc.nodes.get(root).unwrap().paint_children.clone().unwrap(), vec![child]);
}
