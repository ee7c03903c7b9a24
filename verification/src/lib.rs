//! Turns an export of social-media post metadata into per-media-file tag
//! side-files and tag-frequency tables.
//!
//! The markup export is pull-parsed into structural events; a small state
//! machine over the last opened element turns those events into [`Post`]
//! records. The records feed three consumers: a sidecar planner that matches
//! records against an on-disk media inventory, a missing-media reporter, and
//! a tag counter producing sorted frequency tables.

pub mod config;
pub mod counter;
pub mod events;
pub mod generate;
pub mod inventory;
pub mod mappings;
pub mod parser;
pub mod post;
pub mod report;
pub mod text;

pub use config::{CommonOpts, Config};
pub use counter::{count_tags, Counter, TagCount, TagCountView};
pub use events::{Attr, Event};
pub use generate::{plan_sidecars, SidecarFile};
pub use inventory::build_file_cache;
pub use mappings::{parse_tag_mappings, MappingError, TagMappings};
pub use parser::{parse_posts, posts_from_events, OpenMark, ParseError};
pub use post::{MediaType, Post, PostView};
pub use report::{report_missing_media, MissingMedia};
