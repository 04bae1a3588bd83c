//! A linear history rewrite engine and two history queries over a
//! content-addressed object graph of commits, trees and branches.
//!
//! The graph itself is held in plain values (`model::Repo`); loading it from
//! and storing it back to an on-disk store is left to the surrounding
//! application.

pub mod add_renames;
pub mod bytes;
pub mod delete_merged;
pub mod diff;
pub mod graph;
pub mod model;
pub mod multi_status;
pub mod rename;
