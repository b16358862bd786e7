pub mod algebra;
pub mod count;
pub mod counter;
mod heap;
pub mod key;
pub mod laws;
pub mod merge;
pub mod model;
mod order;
pub mod query;
pub mod ranking;
mod sort;
mod steps;
pub mod topk;

pub use count::Count;
pub use counter::Counter;
pub use key::OrderedKey;
