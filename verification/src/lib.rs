//! A verified hybrid retrieval engine for cached starred-repository metadata.
//!
//! The library keeps one snapshot of records and embedding vectors per owner,
//! replaces a snapshot atomically on ingestion, decides when cached data is
//! stale, and answers filtered, lexical and semantic queries merged into one
//! ranked result.

pub mod errors;
pub mod freshness;
pub mod ingest;
pub mod laws;
pub mod paths;
pub mod rank;
pub mod record;
pub mod remote;
pub mod sorting;
pub mod store;
pub mod text;
pub mod vecmath;

pub use errors::StarsError;
pub use freshness::TTL_SECONDS;
pub use ingest::{embed_text, embed_texts};
pub use paths::get_db_path;
pub use rank::{list, search, search_owner};
pub use record::RepoRecord;
pub use remote::{get_github_token, has_next_page};
pub use store::Store;
pub use text::{parse_languages, parse_usernames};
