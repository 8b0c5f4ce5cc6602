//! Core logic of a small static site generator: a directory walker that
//! honours per-directory ignore rules, a line-oriented markdown-to-HTML
//! renderer with five levels of heading numbering, navigation breadcrumb
//! construction, and sibling listings.
//!
//! The filesystem is modelled as an explicit tree value ([`fstree::FsNode`]);
//! callers read a real directory tree into that model and hand it to the
//! functions here, which are all pure and fully specified.

pub mod fstree;
pub mod headings;
pub mod ignore;
pub mod nav;
pub mod order;
pub mod page;
pub mod render;
pub mod same_level;
pub mod text;
pub mod walker;
