//! Unpacking a decoded bundle: which files are written, in which order.
use vstd::prelude::*;
use vstd::utf8::encode_utf8;
use crate::codec::{
    all_entries_fit, assets_view, bundle_bytes, decode_spec, lemma_decode_encode, Asset, AssetView,
    Bundle, BundleView,
};
use crate::error::ThemeError;
use crate::paths::{is_safe_relative_path, safe_relative_path};

verus! {

/// The file, inside the extraction root, that receives the manifest's bytes.
pub open spec fn sidecar_name() -> Seq<char> {
    "reskin.json"@
}

pub open spec fn safe_asset(a: Asset) -> bool {
    safe_relative_path(encode_utf8(a.name@))
}

/// The writes of an extraction, relative to the root: the manifest's
/// sidecar, then every asset in bundle order. When two share a path the
/// later write wins.
pub open spec fn writes_of(v: BundleView) -> Seq<AssetView> {
    seq![(sidecar_name(), v.0)] + v.1
}

/// The files under the root after performing `ws` in order.
pub open spec fn written(ws: Seq<AssetView>) -> Map<Seq<char>, Seq<u8>>
    decreases ws.len(),
{
    if ws.len() == 0 {
        Map::empty()
    } else {
        written(ws.drop_last()).insert(ws.last().0, ws.last().1)
    }
}

pub open spec fn distinct_paths(ws: Seq<AssetView>) -> bool {
    forall|i: int, j: int| 0 <= i < j < ws.len() ==> (#[trigger] ws[i]).0 != (#[trigger] ws[j]).0
}

proof fn lemma_written_distinct(ws: Seq<AssetView>)
    requires
        distinct_paths(ws),
    ensures
        forall|p: Seq<char>|
            #[trigger] written(ws).contains_key(p) <==> exists|i: int| 0 <= i < ws.len() && ws[i].0 == p,
        forall|i: int| 0 <= i < ws.len() ==> written(ws)[#[trigger] ws[i].0] == ws[i].1,
    decreases ws.len(),
{
    if ws.len() > 0 {
        let prev = ws.drop_last();
        assert(distinct_paths(prev)) by {
            assert forall|i: int, j: int| 0 <= i < j < prev.len() implies (#[trigger] prev[i]).0 != (
            #[trigger] prev[j]).0 by {
                assert(prev[i] == ws[i] && prev[j] == ws[j]);
            }
        }
        lemma_written_distinct(prev);
        let last = ws.len() - 1;
        assert forall|p: Seq<char>| #[trigger] written(ws).contains_key(p) <==> exists|i: int|
            0 <= i < ws.len() && ws[i].0 == p by {
            if written(prev).contains_key(p) {
                let i = choose|i: int| 0 <= i < prev.len() && prev[i].0 == p;
                assert(ws[i] == prev[i]);
            }
            if exists|i: int| 0 <= i < ws.len() && ws[i].0 == p {
                let i = choose|i: int| 0 <= i < ws.len() && ws[i].0 == p;
                if i < last {
                    assert(prev[i] == ws[i]);
                }
            }
        }
        assert forall|i: int| 0 <= i < ws.len() implies written(ws)[#[trigger] ws[i].0] == ws[i].1 by {
            if i < last {
                assert(prev[i] == ws[i]);
                assert(ws[i].0 != ws[last].0);
            }
        }
    }
}

/// Unpacking an encoded bundle whose asset paths are distinct and differ
/// from the sidecar's leaves under the root exactly the sidecar with the
/// manifest's bytes and every asset byte for byte under its path.
pub proof fn lemma_unpack_restores(m: Seq<u8>, s: Seq<AssetView>)
    requires
        m.len() < 0x1_0000_0000_0000_0000,
        all_entries_fit(s),
        distinct_paths(s),
        forall|i: int| 0 <= i < s.len() ==> (#[trigger] s[i]).0 != sidecar_name(),
    ensures
        decode_spec(bundle_bytes(m, s)) == Ok::<BundleView, ThemeError>((m, s)),
        forall|p: Seq<char>|
            #[trigger] written(writes_of((m, s))).contains_key(p) <==> (p == sidecar_name() || exists|
                i: int,
            | 0 <= i < s.len() && s[i].0 == p),
        written(writes_of((m, s)))[sidecar_name()] == m,
        forall|i: int| 0 <= i < s.len() ==> written(writes_of((m, s)))[#[trigger] s[i].0] == s[i].1,
{
    lemma_decode_encode(m, s);
    let ws = writes_of((m, s));
    assert(distinct_paths(ws)) by {
        assert forall|i: int, j: int| 0 <= i < j < ws.len() implies (#[trigger] ws[i]).0 != (
        #[trigger] ws[j]).0 by {
            assert(ws[j] == s[j - 1]);
            if i > 0 {
                assert(ws[i] == s[i - 1]);
            }
        }
    }
    lemma_written_distinct(ws);
    assert(ws[0].0 == sidecar_name());
    assert forall|i: int| 0 <= i < s.len() implies written(ws)[#[trigger] s[i].0] == s[i].1 by {
        assert(ws[i + 1] == s[i]);
    }
    assert forall|p: Seq<char>| #[trigger] written(ws).contains_key(p) <==> (p == sidecar_name()
        || exists|i: int| 0 <= i < s.len() && s[i].0 == p) by {
        if written(ws).contains_key(p) {
            let i = choose|i: int| 0 <= i < ws.len() && ws[i].0 == p;
            if i > 0 {
                assert(ws[i] == s[i - 1]);
            }
        }
        if exists|i: int| 0 <= i < s.len() && s[i].0 == p {
            let k = choose|k: int| 0 <= k < s.len() && s[k].0 == p;
            assert(ws[k + 1] == s[k]);
        }
    }
}

/// Lists the files to write when unpacking `b`. Fails, naming the first
/// offending asset, when an asset's name would not stay inside the root.
pub fn plan_extraction(b: Bundle) -> (r: Result<Vec<Asset>, ThemeError>)
    ensures
        r is Ok <==> forall|i: int| 0 <= i < b.assets@.len() ==> safe_asset(#[trigger] b.assets@[i]),
        r is Ok ==> assets_view(r->Ok_0@) == writes_of(b@),
        r is Err ==> exists|i: int|
            0 <= i < b.assets@.len() && !safe_asset(#[trigger] b.assets@[i]) && (forall|j: int|
                0 <= j < i ==> safe_asset(#[trigger] b.assets@[j])) && r == Err::<Vec<Asset>, ThemeError>(
                ThemeError::UnsafeAssetName(b.assets@[i].name),
            ),
{
    let n: usize = b.assets.len();
    let mut i: usize = 0;
    while i < n
        invariant
            n == b.assets@.len(),
            i <= n,
            forall|j: int| 0 <= j < i ==> safe_asset(#[trigger] b.assets@[j]),
        decreases n - i,
    {
        let ok = is_safe_relative_path(b.assets[i].name.as_str().as_bytes());
        if !ok {
            let name = b.assets[i].name.clone();
            proof {
                assert(!safe_asset(b.assets@[i as int]));
            }
            return Err(ThemeError::UnsafeAssetName(name));
        }
        i = i + 1;
    }
    let ghost orig = b;
    let Bundle { manifest_json, mut assets } = b;
    let mut writes: Vec<Asset> = Vec::new();
    writes.push(Asset { name: "reskin.json".to_owned(), data: manifest_json });
    writes.append(&mut assets);
    proof {
        assert(assets_view(writes@) =~= writes_of(orig@));
    }
    Ok(writes)
}

} // verus!
