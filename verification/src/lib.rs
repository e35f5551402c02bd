//! Line search: the lines of a text that contain a query, in the order in
//! which they stand, compared as written or after lower-casing.
//!
//! - [`text`] is the mathematical model that the contracts speak of: what
//!   the lines of a text are, and when one text occurs inside another.
//! - [`search`] is the executable search, proved against that model.
//! - [`config`] makes the configuration of a search from a command line.
//! - [`laws`] proves what holds of every search and of every text.
//! - [`encoding`] relates the characters of the model to the UTF-8 bytes
//!   that the executable code scans.
//! - [`folding`] names the lower-casing that the standard library does.

pub mod config;
pub mod encoding;
pub mod folding;
pub mod laws;
pub mod search;
pub mod text;

pub use config::{Argument, Config, ConfigError};
pub use search::{run, search, search_case_insensitive};
