//! Lossless editing of list-valued attributes in Nix documents.
pub mod append;
pub mod edit;
pub mod packages;
pub mod remove;
pub mod resolve;
pub mod syntax;
pub mod tree;
