//! A repeating 24-hour schedule: the day is cut into blocks, each with hooks
//! that run when the block is entered and when it is left, and the schedule
//! catches up lazily on the boundaries that passed since it was last asked.

pub mod hook;
pub mod laws;
pub mod node;
pub mod ring;
pub mod time;
pub mod time_linked_list;

pub use hook::{identity, FnHook, Identity, Transition};
pub use node::TimeLinkedListNode;
pub use time::{TimeOfDay, TimeSource};
pub use time_linked_list::{DayLoop, DayView};
