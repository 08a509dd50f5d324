use blitz_dom::layout_damage::{compute_layout_damage, StyleChange};
use blitz_dom::restyle_damage::{ALL_DAMAGE, RELAYOUT};

fn no_change() -> StyleChange {
    StyleChange {
        display_changed: false,
        float_changed: false,
        position_changed: false,
        contain_changed: false,
        visibility_changed: false,
        font_changed: false,
        new_is_block_flow: false,
        overflow_x_scrollable_changed: false,
        multicol_changed: false,
        column_span_changed: false,
        align_content_bfc_changed: false,
        old_is_list_item: false,
        list_style_position_changed: false,
        list_style_image_changed: false,
        new_list_style_image_is_none: false,
        list_style_type_changed: false,
        new_is_pseudo: false,
        counters_content_changed: false,
        direction_changed: false,
        unicode_bidi_changed: false,
        inherited_text_shared: false,
        white_space_collapse_changed: false,
        text_transform_changed: false,
        word_break_changed: false,
        overflow_wrap_changed: false,
        letter_spacing_changed: false,
        word_spacing_changed: false,
        text_rendering_changed: false,
    }
}

#[test]
fn unchanged_box_needs_only_relayout() {
    assert_eq!(compute_layout_damage(&no_change()), RELAYOUT);
}

#[test]
fn box_properties_rebuild_the_box_tree() {
    let setters: [fn(&mut StyleChange); 6] = [
        |c: &mut StyleChange| c.display_changed = true,
        |c: &mut StyleChange| c.float_changed = true,
        |c: &mut StyleChange| c.position_changed = true,
        |c: &mut StyleChange| c.contain_changed = true,
        |c: &mut StyleChange| c.visibility_changed = true,
        |c: &mut StyleChange| c.font_changed = true,
    ];
    for set in setters {
        let mut c = no_change();
        set(&mut c);
        assert_eq!(compute_layout_damage(&c), ALL_DAMAGE);
    }
}

#[test]
fn block_formatting_context_changes_count_for_block_flow_only() {
    let mut c = no_change();
    c.overflow_x_scrollable_changed = true;
    assert_eq!(compute_layout_damage(&c), RELAYOUT);
    c.new_is_block_flow = true;
    assert_eq!(compute_layout_damage(&c), ALL_DAMAGE);
    let mut c = no_change();
    c.new_is_block_flow = true;
    c.align_content_bfc_changed = true;
    assert_eq!(compute_layout_damage(&c), ALL_DAMAGE);
}

#[test]
fn list_marker_changes_count_for_list_items_only() {
    let mut c = no_change();
    c.list_style_position_changed = true;
    assert_eq!(compute_layout_damage(&c), RELAYOUT);
    c.old_is_list_item = true;
    assert_eq!(compute_layout_damage(&c), ALL_DAMAGE);
    // A type change matters only without a marker image.
    let mut c = no_change();
    c.old_is_list_item = true;
    c.list_style_type_changed = true;
    assert_eq!(compute_layout_damage(&c), RELAYOUT);
    c.new_list_style_image_is_none = true;
    assert_eq!(compute_layout_damage(&c), ALL_DAMAGE);
}

#[test]
fn generated_content_counts_for_pseudo_elements_only() {
    let mut c = no_change();
    c.counters_content_changed = true;
    assert_eq!(compute_layout_damage(&c), RELAYOUT);
    c.new_is_pseudo = true;
    assert_eq!(compute_layout_damage(&c), ALL_DAMAGE);
}

#[test]
fn text_changes_recollect_unless_shared() {
    let mut c = no_change();
    c.direction_changed = true;
    assert_eq!(compute_layout_damage(&c), ALL_DAMAGE);
    let mut c = no_change();
    c.letter_spacing_changed = true;
    assert_eq!(compute_layout_damage(&c), ALL_DAMAGE);
    c.inherited_text_shared = true;
    assert_eq!(compute_layout_damage(&c), RELAYOUT);
    c.unicode_bidi_changed = true;
    assert_eq!(compute_layout_damage(&c), ALL_DAMAGE);
}
