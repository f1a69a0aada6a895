pub mod error;
pub mod radix_tree;
pub mod context;
pub mod engine;
