//! Core of a small blog backend: the tag-set codec that packs a post's tag
//! ids into one searchable column, the predicate that drives post listing,
//! the paginated query engine, and the atomic single-row mutations
//! (hit-count increment, soft-delete toggle), all verified against an
//! explicit model of the post store.

pub mod api;
pub mod codec;
pub mod post;
pub mod predicate;
pub mod render;
pub mod service;
pub mod store;
