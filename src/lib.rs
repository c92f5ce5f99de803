//! Indexing, pagination, visibility and feed-ingestion core of a feed
//! reader and microblog whose records live in an ordered byte-key store.
use vstd::prelude::*;

pub mod codec;
pub mod error;
pub mod feed_view;
pub mod folders;
pub mod ingest;
pub mod marks;
pub mod page;
pub mod solo;
pub mod text;
pub mod visibility;

verus! {

} // verus!
