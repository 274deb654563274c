//! Subscription-matching engine of a publish/subscribe broker.
//!
//! A trie stores topic filters (patterns, possibly with wildcards) together
//! with the identifiers registered under each; given a concrete topic it
//! reports every matching filter with its value set, through a lazy
//! pull-based traversal. A structural codec turns a whole trie into bytes
//! and back for snapshots.

pub mod codec;
pub mod laws;
pub mod level;
pub mod matching;
pub mod node;
pub mod render;

use vstd::prelude::*;

verus! {

pub use crate::codec::DecodeError;
pub use crate::level::Level;
pub use crate::level::LevelView;
pub use crate::level::Topic;
pub use crate::matching::MatchedIter;
pub use crate::matching::Matcher;
pub use crate::node::Node;
pub use crate::node::NodeView;
pub use crate::node::TreeValue;
pub use crate::render::VecToString;
pub use crate::render::VecToTopic;

/// The subscription tree, rooted at an initially empty node.
pub type TopicTree<V> = Node<V>;

} // verus!
