//! The layout damage that a style change calls for.
use vstd::prelude::*;

use crate::restyle_damage::{ALL_DAMAGE, RELAYOUT};

verus! {

/// How a node's style changed, property by property, from the old computed
/// style to the new one; with the few facts about the styles that decide
/// which changes matter.
#[derive(Clone, Copy, PartialEq, Eq, Structural, Debug)]
pub struct StyleChange {
    pub display_changed: bool,
    pub float_changed: bool,
    pub position_changed: bool,
    pub contain_changed: bool,
    pub visibility_changed: bool,
    pub font_changed: bool,
    /// The new style is `display: block` with a flow inner display.
    pub new_is_block_flow: bool,
    pub overflow_x_scrollable_changed: bool,
    pub multicol_changed: bool,
    pub column_span_changed: bool,
    /// Whether `align-content` makes a new block formatting context changed.
    pub align_content_bfc_changed: bool,
    /// The old style is a list item.
    pub old_is_list_item: bool,
    pub list_style_position_changed: bool,
    pub list_style_image_changed: bool,
    /// The new `list-style-image` is `none`.
    pub new_list_style_image_is_none: bool,
    pub list_style_type_changed: bool,
    /// The new style is that of a pseudo-element.
    pub new_is_pseudo: bool,
    pub counters_content_changed: bool,
    pub direction_changed: bool,
    pub unicode_bidi_changed: bool,
    /// Both styles share one inherited text struct.
    pub inherited_text_shared: bool,
    pub white_space_collapse_changed: bool,
    pub text_transform_changed: bool,
    pub word_break_changed: bool,
    pub overflow_wrap_changed: bool,
    pub letter_spacing_changed: bool,
    pub word_spacing_changed: bool,
    pub text_rendering_changed: bool,
}

/// Whether the box tree must be rebuilt: the box's own display, float,
/// position, containment, visibility or font changed; or, for a block box
/// with flow layout, a change that makes or unmakes a block formatting
/// context; or, for a list item, its marker changed; or, for a
/// pseudo-element, its generated content.
pub open spec fn box_tree_needs_rebuild(c: StyleChange) -> bool {
    ||| c.display_changed
    ||| c.float_changed
    ||| c.position_changed
    ||| c.contain_changed
    ||| c.visibility_changed
    ||| c.font_changed
    ||| (c.new_is_block_flow && (c.overflow_x_scrollable_changed || c.multicol_changed
        || c.column_span_changed || c.align_content_bfc_changed))
    ||| (c.old_is_list_item && (c.list_style_position_changed || c.list_style_image_changed || (
    c.new_list_style_image_is_none && c.list_style_type_changed)))
    ||| (c.new_is_pseudo && c.counters_content_changed)
}

/// Whether text shaping must collect its input again: direction or bidi
/// changed, or, unless the inherited text struct is shared, a text property
/// that shaping reads.
pub open spec fn text_shaping_needs_recollect(c: StyleChange) -> bool {
    ||| c.direction_changed
    ||| c.unicode_bidi_changed
    ||| (!c.inherited_text_shared && (c.white_space_collapse_changed || c.text_transform_changed
        || c.word_break_changed || c.overflow_wrap_changed || c.letter_spacing_changed
        || c.word_spacing_changed || c.text_rendering_changed))
}

/// The layout damage of a style change: all damage when the box tree or the
/// text shaping is affected, relayout otherwise.
pub open spec fn layout_damage(c: StyleChange) -> u16 {
    if box_tree_needs_rebuild(c) || text_shaping_needs_recollect(c) {
        ALL_DAMAGE
    } else {
        RELAYOUT
    }
}

fn box_tree_rebuild(c: &StyleChange) -> (b: bool)
    ensures
        b == box_tree_needs_rebuild(*c),
{
    if c.display_changed || c.float_changed || c.position_changed || c.contain_changed
        || c.visibility_changed {
        return true;
    }
    if c.font_changed {
        return true;
    }
    if c.new_is_block_flow {
        if c.overflow_x_scrollable_changed || c.multicol_changed || c.column_span_changed
            || c.align_content_bfc_changed {
            return true;
        }
    }
    if c.old_is_list_item {
        if c.list_style_position_changed || c.list_style_image_changed || (
        c.new_list_style_image_is_none && c.list_style_type_changed) {
            return true;
        }
    }
    if c.new_is_pseudo && c.counters_content_changed {
        return true;
    }
    false
}

fn text_shaping_recollect(c: &StyleChange) -> (b: bool)
    ensures
        b == text_shaping_needs_recollect(*c),
{
    if c.direction_changed || c.unicode_bidi_changed {
        return true;
    }
    if !c.inherited_text_shared && (c.white_space_collapse_changed || c.text_transform_changed
        || c.word_break_changed || c.overflow_wrap_changed || c.letter_spacing_changed
        || c.word_spacing_changed || c.text_rendering_changed) {
        return true;
    }
    false
}

/// The layout damage of a style change.
pub fn compute_layout_damage(change: &StyleChange) -> (damage: u16)
    ensures
        damage == layout_damage(*change),
{
    if box_tree_rebuild(change) {
        ALL_DAMAGE
    } else if text_shaping_recollect(change) {
        ALL_DAMAGE
    } else {
        RELAYOUT
    }
}

/// Which changes call for all damage: a change of the box's display,
/// float, position, containment, visibility or font; for a block box with
/// flow layout, a change in what makes it a block formatting context; for a
/// list item, a change of its marker; for a pseudo-element, of its generated
/// content; a change of direction or bidi; and, unless both styles share one
/// inherited text struct, a change of any text property that shaping reads.
/// Any other change calls for relayout alone.
pub proof fn lemma_layout_damage_cases(c: StyleChange)
    ensures
        c.display_changed || c.float_changed || c.position_changed || c.contain_changed
            || c.visibility_changed || c.font_changed ==> layout_damage(c) == ALL_DAMAGE,
        c.new_is_block_flow && (c.overflow_x_scrollable_changed || c.multicol_changed
            || c.column_span_changed || c.align_content_bfc_changed) ==> layout_damage(c) == ALL_DAMAGE,
        c.old_is_list_item && (c.list_style_position_changed || c.list_style_image_changed || (
        c.new_list_style_image_is_none && c.list_style_type_changed)) ==> layout_damage(c) == ALL_DAMAGE,
        c.new_is_pseudo && c.counters_content_changed ==> layout_damage(c) == ALL_DAMAGE,
        c.direction_changed || c.unicode_bidi_changed ==> layout_damage(c) == ALL_DAMAGE,
        !c.inherited_text_shared && c.white_space_collapse_changed ==> layout_damage(c) == ALL_DAMAGE,
        !c.inherited_text_shared && c.text_transform_changed ==> layout_damage(c) == ALL_DAMAGE,
        !c.inherited_text_shared && c.word_break_changed ==> layout_damage(c) == ALL_DAMAGE,
        !c.inherited_text_shared && c.overflow_wrap_changed ==> layout_damage(c) == ALL_DAMAGE,
        !c.inherited_text_shared && c.letter_spacing_changed ==> layout_damage(c) == ALL_DAMAGE,
        !c.inherited_text_shared && c.word_spacing_changed ==> layout_damage(c) == ALL_DAMAGE,
        !c.inherited_text_shared && c.text_rendering_changed ==> layout_damage(c) == ALL_DAMAGE,
        !(c.display_changed || c.float_changed || c.position_changed || c.contain_changed
            || c.visibility_changed || c.font_changed) && !(c.new_is_block_flow && (
        c.overflow_x_scrollable_changed || c.multicol_changed || c.column_span_changed
            || c.align_content_bfc_changed)) && !(c.old_is_list_item && (c.list_style_position_changed
            || c.list_style_image_changed || (c.new_list_style_image_is_none
            && c.list_style_type_changed))) && !(c.new_is_pseudo && c.counters_content_changed)
            && !c.direction_changed && !c.unicode_bidi_changed && (c.inherited_text_shared || !(
        c.white_space_collapse_changed || c.text_transform_changed || c.word_break_changed
            || c.overflow_wrap_changed || c.letter_spacing_changed || c.word_spacing_changed
            || c.text_rendering_changed)) ==> layout_damage(c) == RELAYOUT,
{
}

} // verus!
