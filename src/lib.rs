//! Packing and installing desktop themes.
//!
//! A theme travels as a single bundle file: a magic tag, a length-prefixed
//! manifest and a sequence of named blobs, up to the end of the file. This
//! crate holds the verified logic around that format:
//!
//! - `codec`: encoding and decoding bundles, with the round-trip,
//!   truncation and magic-tag laws;
//! - `pack` and `extract`: which files go into a bundle under which names,
//!   and which files an unpacked bundle writes;
//! - `classify` and `install`: which components an unpacked theme holds
//!   and where each is replace-installed; `replace` states what that does
//!   to the files under the home directory;
//! - `recent`: the bounded, newest-first ledger of installed themes.
//!
//! The crate reads and writes no files itself: callers perform the plans it
//! returns.
pub mod error;
pub mod le;
pub mod text;
pub mod paths;
pub mod manifest;
pub mod codec;
pub mod pack;
pub mod extract;
pub mod classify;
pub mod install;
pub mod replace;
pub mod recent;
