//! Core logic of a lightweight Jira desktop viewer: issue hierarchy,
//! filtering, tree building, duration handling, document text and the
//! request planning that talks to the Jira Cloud REST API.

pub mod text;
pub mod duration;
pub mod adf;
pub mod issue;
pub mod demo;
pub mod keys;
pub mod hierarchy;
pub mod forest;
pub mod rows;
pub mod tree;
pub mod jira;
pub mod fetch;
pub mod requests;
pub mod oauth;
pub mod options;
pub mod calendar;
pub mod edits;
