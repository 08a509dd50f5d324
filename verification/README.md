# blitz_dom

The node storage and the layout-side bookkeeping of an HTML/CSS document,
written in Verus. Every function of the library is proved against its
contract, except the wrappers in `src/slot_store.rs`, whose contracts state
what the `slotmap` crate's source does and are trusted.

- `src/tree.rs`: `NodeTree`, versioned node storage on a slot map. Ids carry
  the slot's version, so an id of a removed node does not resolve to whatever
  later occupies its slot (`NodeTree::retired`), until the slot's 32-bit
  version counter wraps around.
- `src/damage.rs`: restyle damage propagation down the trees and back up,
  clearing of damage flags, and invalidation of inline formatting contexts.
- `src/flush.rs`, `src/paint.rs`, `src/sort.rs`: flushing styles to layout,
  with stable sorts of layout and paint children and `z-index` hoisting into
  stacking contexts.
- `src/images.rs`: flushing CSS image layers to an element's image slots,
  against the image cache and the fetches in flight; the fetches to start are
  returned.
- `src/layout_damage.rs`: the layout damage that a style change calls for.
- `src/slot_store.rs`: the calls into the `slotmap` crate, with the contracts
  that the rest relies on.

`app/` holds what needs the style engine's computed values or float
geometry: reading a computed style into the library's plain values, comparing
two styles, and the positions and content area of hoisted children.
