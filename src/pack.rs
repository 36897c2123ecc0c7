//! Planning a bundle: which files are read, and under which names they are
//! stored.
//!
//! An asset under the theme directory keeps its path relative to that
//! directory, so that unpacking restores the tree; any other asset is
//! stored under its file name.
use vstd::prelude::*;
use vstd::slice::slice_subrange;
use vstd::string::StringExecFns;
use vstd::utf8::encode_utf8;
use crate::codec::{name_of, utf8_lossy};
use crate::error::ThemeError;
use crate::manifest::{check_manifest, valid_theme_name, BundleRequest};
use crate::paths::{is_safe_relative_path, safe_relative_path};
use crate::text::{bytes_eq, str_eq};

verus! {

/// A file to pack: where to read it, and the name it gets in the bundle.
pub struct AssetSource {
    pub path: String,
    pub name: String,
}

/// A path that starts at the filesystem root.
pub open spec fn is_absolute(p: Seq<char>) -> bool {
    encode_utf8(p).len() > 0 && encode_utf8(p)[0] == 47u8
}

/// Where to read the asset `p` of a request with theme directory `base`.
pub open spec fn source_path(base: Option<Seq<char>>, p: Seq<char>) -> Seq<char> {
    match base {
        Some(d) => if is_absolute(p) {
            p
        } else {
            d + "/"@ + p
        },
        None => p,
    }
}

/// The offset just past the last `/` of `b`, or 0 if it has none.
pub open spec fn after_last_slash(b: Seq<u8>) -> int
    decreases b.len(),
{
    if b.len() == 0 {
        0
    } else if b.last() == 47u8 {
        b.len() as int
    } else {
        after_last_slash(b.drop_last())
    }
}

/// `d` followed by `/` begins `b`.
pub open spec fn lies_under(b: Seq<u8>, d: Seq<u8>) -> bool {
    b.len() > d.len() && b.subrange(0, d.len() as int) == d && b[d.len() as int] == 47u8
}

/// The name under which the asset `p` is stored.
pub open spec fn entry_name(base: Option<Seq<char>>, p: Seq<char>) -> Seq<char> {
    let b = encode_utf8(p);
    match base {
        Some(d) => if !is_absolute(p) {
            p
        } else if lies_under(b, encode_utf8(d)) {
            name_of(b.subrange(encode_utf8(d).len() + 1int, b.len() as int))
        } else {
            name_of(b.subrange(after_last_slash(b), b.len() as int))
        },
        None => name_of(b.subrange(after_last_slash(b), b.len() as int)),
    }
}

pub open spec fn source_of(base: Option<Seq<char>>, p: Seq<char>) -> (Seq<char>, Seq<char>) {
    (source_path(base, p), entry_name(base, p))
}

pub open spec fn option_view(o: Option<String>) -> Option<Seq<char>> {
    match o {
        Some(s) => Some(s@),
        None => None,
    }
}

pub open spec fn sources_view(s: Seq<AssetSource>) -> Seq<(Seq<char>, Seq<char>)> {
    s.map_values(|a: AssetSource| (a.path@, a.name@))
}

pub open spec fn planned_sources(req: BundleRequest) -> Seq<(Seq<char>, Seq<char>)> {
    req.assets@.map_values(|p: String| source_of(option_view(req.theme_directory), p@))
}

fn last_slash_end(b: &[u8]) -> (r: usize)
    ensures
        r == after_last_slash(b@),
        r <= b@.len(),
{
    let mut k: usize = b.len();
    proof {
        assert(b@.subrange(0, k as int) =~= b@);
    }
    while k > 0 && b[k - 1] != 47u8
        invariant
            k <= b@.len(),
            after_last_slash(b@) == after_last_slash(b@.subrange(0, k as int)),
        decreases k,
    {
        proof {
            assert(b@.subrange(0, k as int).drop_last() =~= b@.subrange(0, k - 1));
        }
        k = k - 1;
    }
    proof {
        if k == 0 {
            assert(b@.subrange(0, 0) =~= Seq::<u8>::empty());
        }
    }
    k
}

fn starts_under(b: &[u8], d: &[u8]) -> (r: bool)
    ensures
        r == lies_under(b@, d@),
{
    let n: usize = d.len();
    if b.len() <= n {
        return false;
    }
    if b[n] != 47u8 {
        return false;
    }
    bytes_eq(slice_subrange(b, 0, n), d)
}

fn asset_source(base: &Option<String>, p: &String) -> (r: AssetSource)
    ensures
        (r.path@, r.name@) == source_of(option_view(*base), p@),
{
    let b: &[u8] = p.as_str().as_bytes();
    let absolute = b.len() > 0 && b[0] == 47u8;
    match base {
        Some(d) => {
            if !absolute {
                let mut path: String = d.clone();
                path.append("/");
                path.append(p.as_str());
                AssetSource { path, name: p.clone() }
            } else {
                let db: &[u8] = d.as_str().as_bytes();
                let k: usize = if starts_under(b, db) {
                    db.len() + 1
                } else {
                    last_slash_end(b)
                };
                AssetSource { path: p.clone(), name: utf8_lossy(slice_subrange(b, k, b.len())) }
            }
        },
        None => {
            let k = last_slash_end(b);
            AssetSource { path: p.clone(), name: utf8_lossy(slice_subrange(b, k, b.len())) }
        },
    }
}

/// The `i`-th stored name of `s` is safe and repeats no earlier one.
pub open spec fn stored_name_ok(s: Seq<(Seq<char>, Seq<char>)>, i: int) -> bool {
    &&& safe_relative_path(encode_utf8(s[i].1))
    &&& forall|j: int| 0 <= j < i ==> (#[trigger] s[j]).1 != s[i].1
}

/// The error for the first asset `i` whose stored name is not usable.
pub open spec fn pack_error(req: BundleRequest, i: int) -> ThemeError {
    if !safe_relative_path(encode_utf8(planned_sources(req)[i].1)) {
        ThemeError::UnsafeAssetName(req.assets@[i])
    } else {
        ThemeError::DuplicateAssetName(req.assets@[i])
    }
}

/// Lists the files of a bundle request with their names in the bundle, so
/// that every asset survives unpacking. Fails with `BadManifest` when the
/// theme's name cannot serve as a directory name; otherwise, for the first
/// asset whose stored name would not stay inside the extraction root, with
/// `UnsafeAssetName`, or repeats an earlier asset's, with
/// `DuplicateAssetName`.
pub fn plan_pack(req: &BundleRequest) -> (r: Result<Vec<AssetSource>, ThemeError>)
    ensures
        !valid_theme_name(req.manifest.name@) ==> r == Err::<Vec<AssetSource>, ThemeError>(
            ThemeError::BadManifest,
        ),
        valid_theme_name(req.manifest.name@) ==> match r {
            Ok(v) => {
                &&& sources_view(v@) == planned_sources(*req)
                &&& forall|i: int|
                    0 <= i < v@.len() ==> stored_name_ok(planned_sources(*req), i)
                &&& forall|i: int, j: int|
                    0 <= i < j < v@.len() ==> (#[trigger] v@[i]).name@ != (#[trigger] v@[j]).name@
            },
            Err(e) => exists|i: int|
                0 <= i < planned_sources(*req).len() && !stored_name_ok(planned_sources(*req), i)
                    && (forall|j: int| 0 <= j < i ==> stored_name_ok(planned_sources(*req), j))
                    && e == pack_error(*req, i),
        },
{
    let checked = check_manifest(&req.manifest);
    if checked.is_err() {
        return Err(ThemeError::BadManifest);
    }
    proof {
        assert(valid_theme_name(req.manifest.name@));
    }
    let ghost ps = planned_sources(*req);
    let mut out: Vec<AssetSource> = Vec::new();
    let n: usize = req.assets.len();
    let mut i: usize = 0;
    while i < n
        invariant
            n == req.assets@.len(),
            ps == planned_sources(*req),
            ps.len() == n,
            valid_theme_name(req.manifest.name@),
            i <= n,
            out@.len() == i,
            sources_view(out@) == ps.subrange(0, i as int),
            forall|j: int| 0 <= j < i ==> stored_name_ok(ps, j),
        decreases n - i,
    {
        let s = asset_source(&req.theme_directory, &req.assets[i]);
        proof {
            assert(ps[i as int] == source_of(option_view(req.theme_directory), req.assets@[i as int]@));
            assert forall|j: int| 0 <= j < i implies #[trigger] out@[j].name@ == ps[j].1 by {
                assert(sources_view(out@)[j] == ps.subrange(0, i as int)[j]);
            }
        }
        let ok = is_safe_relative_path(s.name.as_str().as_bytes());
        if !ok {
            proof {
                assert(!safe_relative_path(encode_utf8(ps[i as int].1)));
                assert(!stored_name_ok(ps, i as int));
            }
            let a = req.assets[i].clone();
            proof {
                assert(pack_error(*req, i as int) == ThemeError::UnsafeAssetName(a));
                assert(0 <= i < planned_sources(*req).len() && !stored_name_ok(planned_sources(*req), i as int)
                    && (forall|j: int| 0 <= j < i ==> stored_name_ok(planned_sources(*req), j))
                    && ThemeError::UnsafeAssetName(a) == pack_error(*req, i as int));
            }
            return Err(ThemeError::UnsafeAssetName(a));
        }
        let mut k: usize = 0;
        while k < i
            invariant
                i < n,
                n == req.assets@.len(),
                ps == planned_sources(*req),
                ps.len() == n,
                valid_theme_name(req.manifest.name@),
                safe_relative_path(encode_utf8(ps[i as int].1)),
                forall|j: int| 0 <= j < i ==> stored_name_ok(ps, j),
                out@.len() == i,
                k <= i,
                s.name@ == ps[i as int].1,
                forall|j: int| 0 <= j < i ==> #[trigger] out@[j].name@ == ps[j].1,
                forall|j: int| 0 <= j < k ==> (#[trigger] ps[j]).1 != ps[i as int].1,
            decreases i - k,
        {
            if str_eq(out[k].name.as_str(), s.name.as_str()) {
                proof {
                    assert(ps[k as int].1 == ps[i as int].1);
                    assert(!stored_name_ok(ps, i as int));
                }
                let a = req.assets[i].clone();
                proof {
                    assert(pack_error(*req, i as int) == ThemeError::DuplicateAssetName(a));
                    assert(0 <= i < planned_sources(*req).len() && !stored_name_ok(planned_sources(*req), i as int)
                        && (forall|j: int| 0 <= j < i ==> stored_name_ok(planned_sources(*req), j))
                        && ThemeError::DuplicateAssetName(a) == pack_error(*req, i as int));
                }
                return Err(ThemeError::DuplicateAssetName(a));
            }
            k = k + 1;
        }
        let ghost prev = out@;
        out.push(s);
        proof {
            assert(ps.subrange(0, i + 1) =~= ps.subrange(0, i as int).push(ps[i as int]));
            assert(sources_view(out@) =~= sources_view(prev).push((s.path@, s.name@)));
        }
        i = i + 1;
    }
    proof {
        assert(ps.subrange(0, n as int) =~= ps);
        assert forall|a: int, b: int| 0 <= a < b < out@.len() implies (#[trigger] out@[a]).name@ != (
        #[trigger] out@[b]).name@ by {
            assert(sources_view(out@)[a] == ps[a]);
            assert(sources_view(out@)[b] == ps[b]);
            assert(stored_name_ok(ps, b));
        }
    }
    Ok(out)
}

} // verus!
