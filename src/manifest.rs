//! Theme metadata and what a bundle is made from.
use vstd::prelude::*;
use vstd::utf8::encode_utf8;
use crate::error::ThemeError;
use crate::paths::{is_safe_segment, safe_segment};

verus! {

/// Descriptive metadata of a theme.
pub struct ThemeManifest {
    /// The theme's name; it names the installed directories.
    pub name: String,
    pub author: String,
    pub description: String,
    pub version: String,
    pub tags: String,
    pub license: String,
}

/// What to pack into a bundle, and where to write it.
pub struct BundleRequest {
    pub manifest: ThemeManifest,
    pub output_path: String,
    /// The files to pack, absolute or relative to `theme_directory`.
    pub assets: Vec<String>,
    /// The directory where the theme's files are located.
    pub theme_directory: Option<String>,
}

/// A theme name can serve as one directory name.
pub open spec fn valid_theme_name(n: Seq<char>) -> bool {
    safe_segment(encode_utf8(n))
}

/// Checks that the name is usable as a directory name.
pub fn check_theme_name(name: &str) -> (r: Result<(), ThemeError>)
    ensures
        r is Ok <==> valid_theme_name(name@),
        r is Err ==> r == Err::<(), ThemeError>(ThemeError::BadManifest),
{
    if is_safe_segment(name.as_bytes()) {
        Ok(())
    } else {
        Err(ThemeError::BadManifest)
    }
}

/// Checks a manifest read from a bundle: its name must be usable as a
/// directory name.
pub fn check_manifest(m: &ThemeManifest) -> (r: Result<(), ThemeError>)
    ensures
        r is Ok <==> valid_theme_name(m.name@),
        r is Err ==> r == Err::<(), ThemeError>(ThemeError::BadManifest),
{
    check_theme_name(m.name.as_str())
}

} // verus!
