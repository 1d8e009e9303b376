//! First-draft changelog generation for keep-a-changelog style `CHANGELOG.md` files.

pub mod text;
pub mod numbers;
pub mod extract;
pub mod subseq;
pub mod merge;
pub mod refdefs;
pub mod marker;
pub mod paths;
pub mod config;
pub mod coauthors;
pub mod process;
pub mod collect;
pub mod release;
pub mod apply;
