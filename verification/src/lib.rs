//! Discovery of PX docs: parsing doc metadata, filtering, searching and
//! selecting docs, command-line options, the persisted configuration and
//! the decisions the command-line tool takes between its I/O steps.

pub mod text;
pub mod doc;
pub mod paths;
pub mod rank;
pub mod query;
pub mod options;
pub mod config;
pub mod source;
pub mod command;
