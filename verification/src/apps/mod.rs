//! System applications.

pub mod notes;
