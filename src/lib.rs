//! Build-time message extraction, catalog maintenance and runtime message
//! formatting for gettext-based localization.
//!
//! - `message`: template entries and the rule that keeps one entry per
//!   `(message id, context)` pair.
//! - `format`: positional placeholder substitution.
//! - `config` and `init`: the per-build-unit configuration, its persisted
//!   text, and the grammar of the initialisation arguments.
//! - `paths`: where sources and artifacts live.
//! - `pipeline`: which catalog tool runs when, and which compiled catalogs
//!   are loaded.

pub mod config;
pub mod format;
pub mod init;
pub mod message;
pub mod paths;
pub mod pipeline;

pub use format::{try_format, FormatError};
pub use paths::{domain_path, pot_path};
pub use pipeline::compile_domain_lang;
