//! Why a bundle, a manifest or a theme was refused.
use vstd::prelude::*;

verus! {

/// Why a bundle, a manifest or a theme was refused. Filesystem failures
/// belong to the caller that performs the reads and writes.
#[derive(Debug)]
pub enum ThemeError {
    /// The data does not start with the bundle's magic tag.
    BadMagic,
    /// A declared length runs past the end of the data.
    Truncated,
    /// The manifest is present but not well formed.
    BadManifest,
    /// An asset's name would place its file outside the extraction root.
    UnsafeAssetName(String),
    /// Two assets would be stored under the same name, and one would be lost
    /// on unpacking.
    DuplicateAssetName(String),
}

} // verus!
