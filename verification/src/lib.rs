//! Records which versions of its dependencies a Python package currently
//! resolves to.
//!
//! The crate has two halves. [`listing`] turns the flat `name==version` text
//! that a package manager prints into structured requirements. [`statement`],
//! [`store`] and [`merge`] describe how those requirements are written to a
//! relational store of projects, requirements and the versioned links between
//! them: which statements are issued, in which order, and what they leave
//! behind.
//!
//! Nothing here performs I/O. A caller runs the statements against its
//! database and reports each outcome back.

pub mod listing;
pub mod merge;
pub mod statement;
pub mod store;
