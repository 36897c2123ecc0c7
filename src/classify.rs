//! Which parts of an unpacked theme can be installed.
//!
//! Detection looks only at the names found directly under the tree's root,
//! never at file contents.
use vstd::prelude::*;
use vstd::utf8::encode_utf8;
use crate::text::{bytes_eq, str_eq};

verus! {

/// Folders of the theme engines, shells and window managers.
pub open spec fn is_wm_marker(n: Seq<char>) -> bool {
    n == "gtk-2.0"@ || n == "gtk-3.0"@ || n == "gtk-4.0"@ || n == "xfwm4"@ || n == "gnome-shell"@
        || n == "cinnamon"@ || n == "metacity-1"@ || n == "openbox-3"@ || n == "plank"@
}

/// Icon size and category folders, and the icon set's index file.
pub open spec fn is_icon_marker(n: Seq<char>) -> bool {
    n == "icons"@ || n == "scalable"@ || n == "16x16"@ || n == "22x22"@ || n == "24x24"@
        || n == "32x32"@ || n == "48x48"@ || n == "64x64"@ || n == "128x128"@ || n == "256x256"@
        || n == "apps"@ || n == "places"@ || n == "devices"@ || n == "mimetypes"@ || n == "actions"@
        || n == "index.theme"@
}

/// The cursor folder and the cursor set's descriptor.
pub open spec fn is_cursor_marker(n: Seq<char>) -> bool {
    n == "cursors"@ || n == "cursor.theme"@
}

/// The bytes `b` end with a dot and then `ext`, and something comes before
/// the dot (so `.ttf` alone is a hidden file, not a font).
pub open spec fn has_extension(b: Seq<u8>, ext: Seq<u8>) -> bool {
    let k = b.len() - ext.len();
    &&& b.len() >= ext.len() + 2
    &&& b[k - 1] == 46u8  // '.'
    &&& b.subrange(k, b.len() as int) == ext
}

/// A file name whose extension is one of the font formats.
pub open spec fn is_font_file(n: Seq<char>) -> bool {
    let b = encode_utf8(n);
    has_extension(b, encode_utf8("ttf"@)) || has_extension(b, encode_utf8("otf"@))
        || has_extension(b, encode_utf8("woff"@)) || has_extension(b, encode_utf8("woff2"@))
        || has_extension(b, encode_utf8("eot"@))
}

pub open spec fn any_entry(entries: Seq<String>, p: spec_fn(Seq<char>) -> bool) -> bool {
    exists|i: int| 0 <= i < entries.len() && p(#[trigger] entries[i]@)
}

fn wm_marker(n: &str) -> (r: bool)
    ensures
        r == is_wm_marker(n@),
{
    str_eq(n, "gtk-2.0") || str_eq(n, "gtk-3.0") || str_eq(n, "gtk-4.0") || str_eq(n, "xfwm4")
        || str_eq(n, "gnome-shell") || str_eq(n, "cinnamon") || str_eq(n, "metacity-1")
        || str_eq(n, "openbox-3") || str_eq(n, "plank")
}

fn icon_marker(n: &str) -> (r: bool)
    ensures
        r == is_icon_marker(n@),
{
    str_eq(n, "icons") || str_eq(n, "scalable") || str_eq(n, "16x16") || str_eq(n, "22x22")
        || str_eq(n, "24x24") || str_eq(n, "32x32") || str_eq(n, "48x48") || str_eq(n, "64x64")
        || str_eq(n, "128x128") || str_eq(n, "256x256") || str_eq(n, "apps") || str_eq(n, "places")
        || str_eq(n, "devices") || str_eq(n, "mimetypes") || str_eq(n, "actions")
        || str_eq(n, "index.theme")
}

fn cursor_marker(n: &str) -> (r: bool)
    ensures
        r == is_cursor_marker(n@),
{
    str_eq(n, "cursors") || str_eq(n, "cursor.theme")
}

fn ends_with_extension(b: &[u8], ext: &[u8]) -> (r: bool)
    ensures
        r == has_extension(b@, ext@),
{
    let n: usize = b.len();
    let m: usize = ext.len();
    if n < 2 || n - 2 < m {
        return false;
    }
    let k: usize = n - m;
    if b[k - 1] != 46u8 {
        return false;
    }
    bytes_eq(vstd::slice::slice_subrange(b, k, n), ext)
}

/// Whether the name `n` is that of a font file.
pub fn font_file(n: &str) -> (r: bool)
    ensures
        r == is_font_file(n@),
{
    let b: &[u8] = n.as_bytes();
    ends_with_extension(b, "ttf".as_bytes()) || ends_with_extension(b, "otf".as_bytes())
        || ends_with_extension(b, "woff".as_bytes()) || ends_with_extension(b, "woff2".as_bytes())
        || ends_with_extension(b, "eot".as_bytes())
}

/// Whether the tree holds a window-manager or shell theme.
pub fn has_gtk_or_wm_components(entries: &Vec<String>) -> (r: bool)
    ensures
        r == any_entry(entries@, |n: Seq<char>| is_wm_marker(n)),
{
    let mut i: usize = 0;
    while i < entries.len()
        invariant
            i <= entries@.len(),
            forall|j: int| 0 <= j < i ==> !is_wm_marker(#[trigger] entries@[j]@),
        decreases entries@.len() - i,
    {
        if wm_marker(entries[i].as_str()) {
            return true;
        }
        i = i + 1;
    }
    false
}

/// Whether the tree holds an icon set.
pub fn has_icons(entries: &Vec<String>) -> (r: bool)
    ensures
        r == any_entry(entries@, |n: Seq<char>| is_icon_marker(n)),
{
    let mut i: usize = 0;
    while i < entries.len()
        invariant
            i <= entries@.len(),
            forall|j: int| 0 <= j < i ==> !is_icon_marker(#[trigger] entries@[j]@),
        decreases entries@.len() - i,
    {
        if icon_marker(entries[i].as_str()) {
            return true;
        }
        i = i + 1;
    }
    false
}

/// Whether the tree holds a cursor set.
pub fn has_cursors(entries: &Vec<String>) -> (r: bool)
    ensures
        r == any_entry(entries@, |n: Seq<char>| is_cursor_marker(n)),
{
    let mut i: usize = 0;
    while i < entries.len()
        invariant
            i <= entries@.len(),
            forall|j: int| 0 <= j < i ==> !is_cursor_marker(#[trigger] entries@[j]@),
        decreases entries@.len() - i,
    {
        if cursor_marker(entries[i].as_str()) {
            return true;
        }
        i = i + 1;
    }
    false
}

/// Whether the tree's root holds at least one font file.
pub fn has_fonts(entries: &Vec<String>) -> (r: bool)
    ensures
        r == any_entry(entries@, |n: Seq<char>| is_font_file(n)),
{
    let mut i: usize = 0;
    while i < entries.len()
        invariant
            i <= entries@.len(),
            forall|j: int| 0 <= j < i ==> !is_font_file(#[trigger] entries@[j]@),
        decreases entries@.len() - i,
    {
        if font_file(entries[i].as_str()) {
            return true;
        }
        i = i + 1;
    }
    false
}

/// The font files among the names, in their order.
pub fn font_files(entries: &Vec<String>) -> (r: Vec<String>)
    ensures
        r@.map_values(|s: String| s@) == entries@.map_values(|s: String| s@).filter(
            |n: Seq<char>| is_font_file(n),
        ),
{
    let mut out: Vec<String> = Vec::new();
    let mut i: usize = 0;
    while i < entries.len()
        invariant
            i <= entries@.len(),
            out@.map_values(|s: String| s@) == entries@.subrange(0, i as int).map_values(
                |s: String| s@,
            ).filter(|n: Seq<char>| is_font_file(n)),
        decreases entries@.len() - i,
    {
        let ghost prev = out@;
        let keep = font_file(entries[i].as_str());
        if keep {
            out.push(entries[i].clone());
        }
        proof {
            let f = |n: Seq<char>| is_font_file(n);
            let before = entries@.subrange(0, i as int).map_values(|s: String| s@);
            let after = entries@.subrange(0, i + 1).map_values(|s: String| s@);
            assert(after =~= before.push(entries@[i as int]@));
            reveal(Seq::filter);
            assert(after.drop_last() =~= before);
            assert(out@.map_values(|s: String| s@) =~= after.filter(f));
        }
        i = i + 1;
    }
    proof {
        assert(entries@.subrange(0, entries@.len() as int) =~= entries@);
    }
    out
}

} // verus!
