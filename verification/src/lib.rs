pub mod tree;
