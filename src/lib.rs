//! Synchronises facet events reported by a time-tracking cube into a local
//! history, lets the user correct that history in a text editor, and renders
//! filtered views of it.
pub mod calendar;
pub mod edit;
pub mod entry;
pub mod merge;
pub mod render;
pub mod session;
pub mod store;
pub mod text;
pub mod view;
