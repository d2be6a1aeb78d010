//! Singly-linked lists in two storage strategies: a chain of individually
//! owned nodes, and a fixed store of slots linked by index.

pub mod dynamic_list;
pub mod model;
mod slots;
pub mod static_list;

pub use dynamic_list::DynamicLinkedList;
pub use static_list::StaticLinkedList;
