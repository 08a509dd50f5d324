pub mod damage;
pub mod document;
pub mod flush;
pub mod images;
pub mod layout_damage;
pub mod node;
pub mod node_id;
pub mod paint;
pub mod restyle_damage;
pub mod slot_store;
pub mod sort;
pub mod tree;
