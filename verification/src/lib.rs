//! Tracks subscribed content feeds and their entries in delimited-text
//! catalogs, refreshes them from network sources through a bounded-
//! parallelism fetch orchestrator, and names the files that selected
//! entries are materialized into. Reading and writing the catalog files,
//! the network transport itself and the command-line surface are left to
//! thin collaborators around this library.

use vstd::prelude::*;

pub mod codec;
pub mod config;
pub mod digits;
pub mod episodes;
pub mod errors;
pub mod feed;
pub mod fetch;
pub mod file_system;
pub mod identity;
pub mod podcasts;
pub mod records;
pub mod text;

pub use config::Config;
pub use episodes::Episodes;
pub use errors::Errors;
pub use feed::{Feed, FeedItem};
pub use fetch::{FetchOutcome, Fetcher, FixtureFetcher, Orchestrator, TimeoutPolicy};
pub use file_system::{FilePermissions, FileSystem, FileSystemErrors, OpenFlags};
pub use identity::assign;
pub use podcasts::Podcasts;
pub use records::{Episode, Podcast};

verus! {

} // verus!
