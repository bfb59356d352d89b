//! Small collections that the engine is built on.

pub mod decimal;
pub mod hash_map_list;
pub mod tree;
