//! Persistence core for a JSON compilation database.
//!
//! The crate models build records (`Entry`), the two on-disk shapes of a
//! record (`GenericEntry`), the shell-word codec that turns an argument
//! vector into one quoted command string and back, and the JSON codec that
//! reads and writes a whole database file.  File input and output stay with
//! the caller: the library works on text and returns text.

pub mod db;
pub mod entry;
pub mod format;
pub mod json;
pub mod shell;
pub mod text;
pub mod wire;
