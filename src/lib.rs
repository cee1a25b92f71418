//! Static discovery of an application's routing tree: route declarations are
//! extracted from syntax trees of routing files, lazy-load references are
//! resolved to further files, and everything is merged into one forest.

pub mod extract;
pub mod forest;
pub mod model;
pub mod resolve;
pub mod syntax;
pub mod text;
