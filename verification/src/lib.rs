//! crabbucket: a static site framework where the site is a typed value.
//!
//! The failures that break a small documentation site are almost all string
//! failures: a dead link, a page with no title, a renamed design token, a base
//! path that is right in development and wrong on a project host.  This crate
//! holds the logic that turns each of those into a build failure, with the
//! behaviour of every function stated as a contract and proved.

pub mod text;
pub mod sorting;
pub mod table;
pub mod directive;
pub mod url;
pub mod config;
pub mod feed;
pub mod style;
pub mod paths;
pub mod links;
pub mod markdown;
pub mod search;
pub mod routes;
pub mod tokens;
pub mod og;
pub mod error;
pub mod scaffold;
pub mod cli;
pub mod content;
pub mod theme;
pub mod site;
pub mod ui;
pub mod plain;
pub mod bench;
