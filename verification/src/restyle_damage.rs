//! Restyle damage: the bits of layout work that a style change calls for.
use vstd::prelude::*;

verus! {

/// Repaint the node itself.
pub const REPAINT: u16 = 0b0001;

/// Rebuild the stacking contexts (implies a repaint).
pub const REBUILD_STACKING_CONTEXT: u16 = 0b0011;

/// Recalculate the scrollable overflow (implies the two above).
pub const RECALCULATE_OVERFLOW: u16 = 0b0111;

/// Run layout again (implies everything above).
pub const RELAYOUT: u16 = 0b1111;

/// Construct the node's box.
pub const CONSTRUCT_BOX: u16 = 0b0001_0000;

/// Construct the node's formatting context.
pub const CONSTRUCT_FC: u16 = 0b0010_0000;

/// Construct some descendant's box.
pub const CONSTRUCT_DESCENDENT: u16 = 0b0100_0000;

/// The relayout bit alone, without the repaint bits that `RELAYOUT` implies.
pub const ONLY_RELAYOUT: u16 = 0b0000_1000;

/// Every kind of damage that layout knows.
pub const ALL_DAMAGE: u16 = 0b0111_1111;

/// Whether `damage` holds every bit of `flags`.
pub open spec fn contains(damage: u16, flags: u16) -> bool {
    damage & flags == flags
}

/// Whether `damage` holds some bit of `flags`.
pub open spec fn intersects(damage: u16, flags: u16) -> bool {
    damage & flags != 0
}

} // verus!
