//! Convert lists of file paths into compact brace expansion syntax.
//!
//! `brace_paths` turns `["foo/bar.rs", "foo/baz.rs"]` into `"foo/{bar,baz}.rs"`;
//! `expand_braces` goes the other way.

pub mod error;
pub mod highlight;
pub mod processor;
pub mod text;

pub use error::BraceError;
pub use processor::expansion::expand_braces;
pub use processor::ppb::pretty_braces;
pub use processor::{brace_paths, BraceConfig};
