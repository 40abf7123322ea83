//! Parsing and application of line-oriented patches.
//!
//! The crate turns a patch in the traditional ("normal") diff dialect into a
//! canonical `Diff` value — an ordered sequence of hunks over a shared line
//! model — and replays such a value against original text, reproducing the
//! patched text together with change statistics.
//!
//! Everything is specified against a mathematical model of the input bytes:
//! line decomposition, the command grammar, parsing and application each have
//! a spec-level definition, and the executable functions are proved to return
//! exactly what those definitions say.

pub mod apply;
pub mod laws;
pub mod lines;
pub mod model;
pub mod parse_normal;

pub use apply::{apply, apply_bytes};
pub use lines::RawLine;
pub use model::{ApplyError, Diff, Hunk, HunkRange, Line, ParsePatchError, Stats};
pub use parse_normal::{
    is_normal_diff, is_normal_diff_bytes, parse_normal, parse_normal_bytes,
    parse_normal_bytes_multiple, parse_normal_multiple,
};
