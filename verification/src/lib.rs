//! Viewport-driven incremental loading for a grid of file tiles.
//!
//! A client shows a grid of placeholders, one per file of a collection on the
//! server. When a placeholder scrolls into view, its [`visibility`] tracker
//! tells the [`store`], which decides whether a batch request for the row of
//! the cell has to go out. The [`fetch`] module reads the answer and matches
//! it back to the indices; the [`layout`] probe says how long a row is. On
//! the server the [`listing`] module picks the requested entries out of the
//! enumeration of the caller's collection, behind the bearer credential that
//! [`auth`] reads.
//!
//! What the coordinator does is defined on plain mathematical values in
//! [`model`], together with the laws that hold of it.

pub mod auth;
pub mod config;
pub mod count;
pub mod fetch;
pub mod indices;
pub mod item;
pub mod layout;
pub mod listing;
pub mod model;
pub mod request;
pub mod store;
pub mod visibility;

pub use indices::sorted_unique;
pub use item::{ItemData, ItemState};
