//! Line-oriented text search: the lines of a text that contain a query, and
//! the same lines with every occurrence of the query marked for a terminal.
//!
//! - `pattern`: what it means for one sequence to occur in another, and the
//!   search for the leftmost occurrence in a slice of bytes;
//! - `encoding`: how occurrences in a text and in its UTF-8 bytes correspond;
//! - `text`: `find`, `contains` and `ends_with` on string slices;
//! - `lines`: the lines of a text;
//! - `search`: the lines that contain a query, with or without regard to
//!   letter case;
//! - `highlight`: a line with the occurrences of the query between markers;
//! - `strip`: what taking the markers out again gives;
//! - `config`: the configuration of a search, and the search from a
//!   configuration and a text to the lines to print.
//!
//! Contracts are stated over the characters of a string, `s@`; the code works
//! on its bytes.

pub mod config;
pub mod encoding;
pub mod highlight;
pub mod lines;
pub mod pattern;
pub mod search;
pub mod strip;
pub mod text;

pub use config::{run, Config};
pub use highlight::highlight;
pub use search::{search, search_case_insensitive};
