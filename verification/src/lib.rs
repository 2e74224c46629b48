//! A personal task organizer core: tasks with a name, category, optional
//! sub-category, optional due date, a done flag and a priority, kept in an
//! ordered store, persisted through a text codec, and mirrored by a two-level
//! category tree that is patched incrementally as the store changes.

pub mod codec;
pub mod digits;
pub mod organizer;
pub mod store;
pub mod strings;
pub mod task;
pub mod tree;

pub use task::Task;
pub use task::TaskView;
pub use task::DueDate;
pub use task::OrganizerError;
