//! An in-memory, read-only index over a catalog of podcasts.
//!
//! The catalog is loaded once and organised into three coupled views: the
//! podcasts in descending order of their number, a lookup by number, and a
//! grouping by tag. Queries are answered from those views alone.
pub mod builder;
pub mod by_tags;
pub mod fdr_cache;
pub mod laws;
pub mod lemmas;
pub mod model;
pub mod order;
pub mod podcast;
pub mod search;
pub mod sets;
pub mod tag_counts;
pub mod tag_groups;
pub mod text;

pub use fdr_cache::FdrCache;
pub use fdr_cache::PodcastQuery;
pub use podcast::Podcast;
pub use podcast::PodcastNumber;
pub use podcast::PodcastTag;
pub use podcast::PodcastView;
