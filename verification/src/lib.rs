//! Quill: a pub/sub topic-matching engine.
//!
//! Topics are hierarchical paths of non-empty levels, patterns add the
//! MQTT-style wildcards `+` (one level) and `#` (any remaining levels), and a
//! trie-backed [`Registry`] routes a topic to every subscriber whose pattern
//! matches it.

pub mod pattern;
pub mod registry;
pub mod topic;
mod trie;

pub use topic::{DEFAULT_DELIMITER, ParseError, Topic, TopicView};
pub use pattern::{Pattern, PatternView, Segment, SegmentView};
pub use registry::{Registry, RegistryView};
