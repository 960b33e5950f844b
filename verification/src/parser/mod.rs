//! The tokenizer, the tree it builds, and the types the tree is made of.

pub mod attributes;
pub mod base;
pub mod children;
pub mod constants;
pub mod grammar;
pub mod handle;
pub mod index;
pub mod soundness;
pub mod options;
pub mod order;
pub mod scan;
pub mod tag;
