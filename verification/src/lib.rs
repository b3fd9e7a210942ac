//! Feature flags read from a small text configuration and evaluated per key.

pub mod assoc;
pub mod clock;
pub mod config;
pub mod date;
pub mod error;
pub mod flagset;
pub mod fmt;
pub mod hash;
pub mod json;
pub mod laws;
pub mod render;
pub mod text;

pub use error::{EvalError, ParseError};
pub use flagset::{parse, FlagInfo, FlagSet};
pub use hash::bucket;
pub use json::json_escape;
