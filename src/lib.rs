pub mod model;
pub mod stack;

pub use stack::MergeFold;
