//! File-system change tracking: mapping raw events to index operations,
//! collapsing bursts of events, and reconciling what is on disk with what
//! the index knows.

pub mod debounce;
pub mod event_mapper;
pub mod operation;
pub mod path;
pub mod reconcile;

pub use operation::OperationType;
