//! A line-oriented text filter in the manner of `cat`: concatenates byte
//! sources and optionally numbers lines, marks line ends, shows tabs,
//! squeezes blank lines and escapes non-printing bytes.

mod escape;
pub mod laws;
pub mod model;
mod options;
mod transform;

pub use escape::escape_byte;
pub use options::{flags_of, Flags, Options};
pub use transform::{cat, render_source, transform};
