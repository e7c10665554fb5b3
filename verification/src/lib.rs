//! DAI core: docset naming, markdown chunking, project matching, snippets,
//! and the text handling they share.

pub mod text;
pub mod paths;
pub mod normalize;
pub mod project;
pub mod manifests;
pub mod store;
pub mod library;
pub mod snippets;
pub mod dash;
pub mod devdocs;
pub mod index;
pub mod sorted;
pub mod daemon;
pub mod markdown;
pub mod generate;
