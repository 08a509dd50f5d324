use vstd::prelude::*;

use crate::node_id::NodeId;
use crate::images::{ImageResource, StyleImage};
use crate::paint::{HoistedPaintChild, HoistedPaintChildren};

verus! {

/// The computed `position` of a box.
#[derive(Clone, Copy, PartialEq, Eq, Structural, Debug)]
pub enum Position {
    Static,
    Relative,
    Absolute,
    Fixed,
    Sticky,
}

/// The computed `float` of a box.
#[derive(Clone, Copy, PartialEq, Eq, Structural, Debug)]
pub enum Float {
    Left,
    Right,
    /// `float: none`.
    NoFloat,
    InlineStart,
    InlineEnd,
}

/// The computed `overflow-x` / `overflow-y` of a box.
#[derive(Clone, Copy, PartialEq, Eq, Structural, Debug)]
pub enum Overflow {
    Visible,
    Hidden,
    Scroll,
    Auto,
    Clip,
}

/// The inner display type of a box.
#[derive(Clone, Copy, PartialEq, Eq, Structural, Debug)]
pub enum DisplayInside {
    /// `display: none`.
    NoBox,
    Contents,
    Flow,
    FlowRoot,
    Flex,
    Grid,
    GridLanes,
    Table,
    TableRowGroup,
    TableColumn,
    TableColumnGroup,
    TableHeaderGroup,
    TableFooterGroup,
    TableRow,
    TableCell,
}

/// The values of a node's primary computed style that layout flushing reads.
#[derive(Clone, Copy, PartialEq, Eq, Structural, Debug)]
pub struct ComputedStyle {
    pub display_inside: DisplayInside,
    pub position: Position,
    pub float: Float,
    pub overflow_x: Overflow,
    pub overflow_y: Overflow,
    /// `z-index`: `None` for `auto`.
    pub z_index: Option<i32>,
    /// The flex/grid `order`.
    pub order: i32,
}

/// The style data of an element: its restyle damage and its primary style.
#[derive(Clone, Copy, PartialEq, Eq, Structural, Debug)]
pub struct StyleData {
    pub damage: u16,
    pub primary: Option<ComputedStyle>,
}

/// Inline layout data of an element that roots an inline formatting context.
#[derive(Clone, Copy, PartialEq, Eq, Structural, Debug)]
pub struct InlineLayout {
    /// Whether the min/max content widths are cached.
    pub has_content_widths: bool,
}

/// What an element carries besides its style.
#[derive(Clone, Copy, PartialEq, Eq, Structural, Debug)]
pub struct ElementData {
    pub inline_layout: Option<InlineLayout>,
    /// Whether the element is a text input with an editor.
    pub is_text_input: bool,
}

/// A node of the DOM tree, with the data that damage propagation and layout
/// flushing read and write.
pub struct Node {
    pub id: NodeId,
    pub in_document: bool,
    pub is_anonymous: bool,
    pub damaged_descendants: bool,
    pub dirty_descendants: bool,
    pub style: Option<StyleData>,
    pub element: Option<ElementData>,
    pub children: Vec<NodeId>,
    pub layout_children: Option<Vec<NodeId>>,
    /// The layout children in paint order, less those hoisted to a stacking
    /// context (held in a plain `Vec`; a thin vector is only a smaller
    /// representation of the same list).
    pub paint_children: Option<Vec<NodeId>>,
    pub layout_parent: Option<NodeId>,
    /// The `::before` pseudo-element box.
    pub before: Option<NodeId>,
    /// The `::after` pseudo-element box.
    pub after: Option<NodeId>,
    /// Whether damage propagation walks the layout children in place of the
    /// DOM children and pseudo-elements.
    pub traverse_layout_children: bool,
    /// Whether the node roots a stacking context, as a child of a box that
    /// is not a flex or grid container.
    pub stacking_root: bool,
    /// Whether the node roots a stacking context, as a flex or grid item.
    pub stacking_root_in_flex_or_grid: bool,
    /// Whether the node's layout cache holds results.
    pub has_layout_cache: bool,
    /// Whether a float occurs anywhere in the node's layout subtree.
    pub subtree_has_floats: bool,
    pub stacking_context: Option<Box<HoistedPaintChildren>>,
    /// The `z-index: auto` positioned descendants collected below this box.
    pub auto_hoisted: Option<Box<Vec<HoistedPaintChild>>>,
    /// The `background-image` layers of the primary style.
    pub background_layers: Vec<StyleImage>,
    /// The `mask-image` layers of the primary style.
    pub mask_layers: Vec<StyleImage>,
    /// The element's background images, by layer.
    pub background_images: Vec<Option<ImageResource>>,
    /// The element's mask images, by layer.
    pub mask_images: Vec<Option<ImageResource>>,
}

} // verus!
