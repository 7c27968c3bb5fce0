//! A directory-listing service core: request-path resolution that cannot
//! leave the served root, a bounded enumeration of directory entries, the
//! ordering and formatting rules of a listing, and the mapping of failures
//! to HTTP responses.
pub mod config;
pub mod text;
pub mod path;
pub mod listing;
pub mod format;
pub mod serve;
