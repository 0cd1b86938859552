//! Reorders the `"AuthorizedDevice"` records of a Steam `config.vdf` file.
//!
//! The core of the crate is a verified parser and patcher for the one
//! brace-delimited section of the file that holds the authorized-device
//! records.  `vdf` defines the grammar of that section, the byte-exact
//! renderer, and the round-trip laws; `config` holds the document type that
//! a caller loads, reorders and saves; `web` holds the pure half of the
//! identity lookup that a UI performs for display.

pub mod config;
pub mod vdf;
pub mod web;
