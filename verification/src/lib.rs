//! Verified engine for splicing and normalizing the page trees of
//! paginated documents: a page-count normalizer and a multi-point merge
//! engine, working on an explicit model of a document's object graph.

pub mod document;
pub mod merge;
pub mod names;
pub mod normalize;
pub mod object;
pub mod order;
pub mod renumber;
