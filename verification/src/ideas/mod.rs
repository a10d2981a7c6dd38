//! Idea Inbox: captures, idea threads, and the decisions taken about them.
pub mod ids;
pub mod records;
pub mod files;
pub mod lifecycle;
pub mod analysis;
pub mod adoption;
pub mod store;
pub mod service;
