//! Finds files with identical content under a set of roots.
//!
//! The library holds the decisions of a scan: which files share a bucket
//! (`scanner`, `bucket`), how each file of a bucket is matched against the
//! groups formed so far, cheap fingerprints first and an exact comparison
//! of the streams last (`matcher`, `group`), and which groups are reported,
//! in what order (`scan`). Walking directories and reading files is left to
//! whoever drives a scan: it answers the reads that the scan asks for.
//!
//! `model` states what the groups of a bucket are for a given content of
//! its files, and proves the laws they obey.

pub mod bucket;
pub mod checksum;
pub mod comparator;
pub mod config;
pub mod group;
pub mod matcher;
pub mod message;
pub mod model;
pub mod receiver;
pub mod scan;
pub mod scanner;

pub use crate::bucket::Bucket;
pub use crate::comparator::{Comparator, ExactGroupComparator, GroupComparator, JsonGroupComparator};
pub use crate::config::Config;
pub use crate::group::{FdupesGroup, Fingerprint, BLOCK_SIZE};
pub use crate::matcher::{BucketMatcher, Request, CHUNK_SIZE};
pub use crate::message::DupeMessage;
pub use crate::receiver::{mark_group, BasicReceiver, DupeGroup, Mark};
pub use crate::scan::{Scan, ScanAction, ScanPhase};
pub use crate::scanner::{walk_depth, ConfigError, DupeScanner};
