pub mod iter;
pub mod laws;
pub mod levels;
pub mod list;
pub mod model;

pub use iter::{IntoIter, Iter, IterMut};
pub use list::{Node, SkipList, DEFAULT_MAX_LEVEL};
