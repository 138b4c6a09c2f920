//! An ordered key/value map kept in a skip list: a sorted, multi-level
//! linked structure whose node towers are stored in an arena and linked by
//! tagged links.

pub mod key;
pub mod tagged;
pub mod node;
pub mod towers;
pub mod skiplist;
pub mod laws;

pub use key::SkipKey;
pub use node::Node;
pub use skiplist::{Entry, IntoIter, Iter, SkipList};
pub use tagged::MaybeTagged;
