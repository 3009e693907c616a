//! A small task tracker: free-text descriptions carry inline `#` tags for
//! category, priority and due date; the parser extracts them, and the store
//! owns the collection, its filters, and the persisted representation.
pub mod codec;
pub mod store;
pub mod tags;
pub mod task;
