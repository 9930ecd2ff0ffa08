//! A catalog of the video files found under one directory: it numbers the
//! videos of a directory tree, serves each under an identifier made of its
//! number and its extension, and is built anew when the tree has changed.

pub mod catalog;
pub mod identifiers;
pub mod listing;
pub mod paths;
pub mod sorting;
pub mod text;
pub mod walk_laws;

pub use crate::catalog::{CatalogError, VideoEntry, VideoPlayerConfig, VideoPlayerState};
pub use crate::listing::{DirListing, SubDir};
