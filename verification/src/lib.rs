//! Asset manager library: file references, persisted metadata, bundle
//! export planning, grid sizing, archive listing, the decisions of the file
//! browser and detail panel, searching, and image facts, each with its
//! contract.

pub mod text;
pub mod path;
pub mod file_ref;
pub mod export;
pub mod grid;
pub mod sorted;
pub mod data;
pub mod archive;
pub mod browse;
pub mod search;
pub mod panel;
pub mod image;
