pub mod dir_node;
