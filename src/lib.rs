pub mod address;
pub mod time_list;
pub mod node_index;
pub mod address_tree;
pub mod tree;
pub mod log;
pub mod protocol;
