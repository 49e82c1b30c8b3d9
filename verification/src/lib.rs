//! Core of a local note-vault collection: a durable registry of known vaults,
//! a manager that performs filesystem CRUD while keeping the registry
//! consistent, and a change-notification pipeline that filters, debounces and
//! deduplicates raw filesystem events.
//!
//! All logic is verified against an explicit filesystem model ([`fs_model::FsTree`]);
//! a host program mirrors each model operation onto the real filesystem.

pub mod fs_model;
pub mod manager;
pub mod models;
pub mod paths;
pub mod watcher;
