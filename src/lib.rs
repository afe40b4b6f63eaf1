pub mod bst;
pub mod datastructs;
pub mod tree;
