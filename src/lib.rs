//! A skip list: an ordered set of `i32` keys kept in an index arena, with
//! a seeded height generator.
pub mod list;
pub mod node;
mod oracle;
pub mod skip_list;

pub use list::SkipListInner;
pub use skip_list::SkipList;
pub use node::Node;
