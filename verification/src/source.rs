//! The stateful completion sources the orchestrator can own.

pub mod buffer;
pub mod counter;
pub mod static_list;

pub use buffer::BufferWords;
pub use counter::Counter;
pub use static_list::Static;
