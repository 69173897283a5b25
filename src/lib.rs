//! A password-protected vault: a directory tree whose file contents, file names
//! and folder names are kept encrypted at rest, driven by key material wrapped in
//! a per-vault masterfile.

pub mod error;
pub mod files;
pub mod hexcode;
pub mod keys;
pub mod masterfile;
pub mod names;
pub mod primitives;
pub mod stream;
pub mod text;
pub mod vault;
pub mod walker;
