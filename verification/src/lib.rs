//! A small task store: hierarchical todo items persisted as binary records,
//! with add/update logic that keeps parent/child links mutually consistent
//! and applies every mutation all-or-nothing.

pub mod cli;
pub mod codec;
pub mod config;
pub mod error;
pub mod models;
pub mod storage;
pub mod tui;
