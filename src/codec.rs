//! The bundle container: a magic tag, a length-prefixed manifest and a
//! sequence of named blobs, up to the end of the data.
use vstd::prelude::*;
use vstd::slice::{slice_subrange, slice_to_vec};
use vstd::utf8::{decode_utf8, encode_utf8, encode_utf8_decode_utf8, encode_utf8_valid_utf8, valid_utf8};
use crate::error::ThemeError;
use crate::le::{
    le_bytes, le_value, lemma_le_bytes_len, lemma_le_round_trip, lemma_pow256_eight,
    lemma_pow256_four, push_le, read_le,
};

verus! {

/// An asset as a mathematical value: its name and its bytes.
pub type AssetView = (Seq<char>, Seq<u8>);

/// A decoded bundle as a mathematical value: the manifest's bytes and the assets in order.
pub type BundleView = (Seq<u8>, Seq<AssetView>);

/// One named blob of a bundle.
pub struct Asset {
    pub name: String,
    pub data: Vec<u8>,
}

impl View for Asset {
    type V = AssetView;

    open spec fn view(&self) -> AssetView {
        (self.name@, self.data@)
    }
}

/// What a bundle holds: the manifest's serialized bytes and the assets in order.
pub struct Bundle {
    pub manifest_json: Vec<u8>,
    pub assets: Vec<Asset>,
}

impl View for Bundle {
    type V = BundleView;

    open spec fn view(&self) -> BundleView {
        (self.manifest_json@, assets_view(self.assets@))
    }
}

/// The assets of `s` as mathematical values.
pub open spec fn assets_view(s: Seq<Asset>) -> Seq<AssetView> {
    s.map_values(|a: Asset| a@)
}

/// A decoding result as a mathematical value.
pub open spec fn bundle_result_view(r: Result<Bundle, ThemeError>) -> Result<BundleView, ThemeError> {
    match r {
        Ok(b) => Ok(b@),
        Err(e) => Err(e),
    }
}

/// The four bytes `RSKN` that open every bundle.
pub open spec fn magic() -> Seq<u8> {
    seq![82u8, 83u8, 75u8, 78u8]
}

/// `b` starts with the magic tag.
pub open spec fn has_magic(b: Seq<u8>) -> bool {
    b.len() >= 4 && b[0] == 82u8 && b[1] == 83u8 && b[2] == 75u8 && b[3] == 78u8
}

/// What a lossy UTF-8 conversion gives for bytes that are not valid UTF-8.
pub uninterp spec fn lossy_utf8(b: Seq<u8>) -> Seq<char>;

/// The name that the bytes of an entry's name field denote.
pub open spec fn name_of(b: Seq<u8>) -> Seq<char> {
    if valid_utf8(b) {
        decode_utf8(b)
    } else {
        lossy_utf8(b)
    }
}

/// An asset's name and bytes fit the entry's 32-bit length fields.
pub open spec fn entry_fits(a: AssetView) -> bool {
    encode_utf8(a.0).len() < 0x1_0000_0000 && a.1.len() < 0x1_0000_0000
}

/// Every asset of `s` fits its entry's length fields.
pub open spec fn all_entries_fit(s: Seq<AssetView>) -> bool {
    forall|i: int| 0 <= i < s.len() ==> entry_fits(#[trigger] s[i])
}

/// The bytes of one entry: name length, name, data length, data.
pub open spec fn entry_bytes(a: AssetView) -> Seq<u8> {
    let nb = encode_utf8(a.0);
    le_bytes(nb.len(), 4) + nb + le_bytes(a.1.len(), 4) + a.1
}

/// The entries of `s`, one after the other.
pub open spec fn entries_bytes(s: Seq<AssetView>) -> Seq<u8>
    decreases s.len(),
{
    if s.len() == 0 {
        Seq::empty()
    } else {
        entry_bytes(s[0]) + entries_bytes(s.drop_first())
    }
}

/// The encoding of a bundle with manifest bytes `m` and assets `s`.
pub open spec fn bundle_bytes(m: Seq<u8>, s: Seq<AssetView>) -> Seq<u8> {
    magic() + le_bytes(m.len(), 8) + m + entries_bytes(s)
}

/// Puts the assets `front` before the result of parsing the rest.
pub open spec fn prepend(
    front: Seq<AssetView>,
    r: Result<Seq<AssetView>, ThemeError>,
) -> Result<Seq<AssetView>, ThemeError> {
    match r {
        Ok(rest) => Ok(front + rest),
        Err(e) => Err(e),
    }
}

/// Parses the entries of `b` from offset `pos` to the end.
pub open spec fn parse_entries(b: Seq<u8>, pos: int) -> Result<Seq<AssetView>, ThemeError>
    decreases b.len() - pos,
{
    if pos >= b.len() {
        Ok(Seq::empty())
    } else if b.len() - pos < 4 {
        Err(ThemeError::Truncated)
    } else {
        let npos = pos + 4;
        let nlen = le_value(b.subrange(pos, npos));
        if b.len() - npos < nlen {
            Err(ThemeError::Truncated)
        } else {
            let dpos = npos + nlen;
            if b.len() - dpos < 4 {
                Err(ThemeError::Truncated)
            } else {
                let spos = dpos + 4;
                let dlen = le_value(b.subrange(dpos, spos));
                if b.len() - spos < dlen {
                    Err(ThemeError::Truncated)
                } else {
                    let end = spos + dlen;
                    let a = (name_of(b.subrange(npos, dpos)), b.subrange(spos, end));
                    prepend(seq![a], parse_entries(b, end))
                }
            }
        }
    }
}

/// What decoding the bytes `b` gives.
pub open spec fn decode_spec(b: Seq<u8>) -> Result<BundleView, ThemeError> {
    if !has_magic(b) {
        Err(ThemeError::BadMagic)
    } else if b.len() < 12 {
        Err(ThemeError::Truncated)
    } else {
        let mlen = le_value(b.subrange(4, 12)) as int;
        if b.len() - 12 < mlen {
            Err(ThemeError::Truncated)
        } else {
            match parse_entries(b, 12 + mlen) {
                Ok(s) => Ok((b.subrange(12, 12 + mlen), s)),
                Err(e) => Err(e),
            }
        }
    }
}

/// What reading only the header and the manifest of `b` gives.
pub open spec fn header_spec(b: Seq<u8>) -> Result<Seq<u8>, ThemeError> {
    if !has_magic(b) {
        Err(ThemeError::BadMagic)
    } else if b.len() < 12 {
        Err(ThemeError::Truncated)
    } else {
        let mlen = le_value(b.subrange(4, 12)) as int;
        if b.len() - 12 < mlen {
            Err(ThemeError::Truncated)
        } else {
            Ok(b.subrange(12, 12 + mlen))
        }
    }
}

pub open spec fn bytes_result_view(r: Result<Vec<u8>, ThemeError>) -> Result<Seq<u8>, ThemeError> {
    match r {
        Ok(v) => Ok(v@),
        Err(e) => Err(e),
    }
}

/// Reads the manifest's bytes from the head of a bundle, without looking at
/// the assets that follow. Where this fails, decoding the whole bundle fails
/// the same way; where it succeeds, decoding gives the same manifest bytes
/// or fails on the assets.
pub fn decode_manifest(b: &[u8]) -> (r: Result<Vec<u8>, ThemeError>)
    ensures
        bytes_result_view(r) == header_spec(b@),
        r is Err ==> decode_spec(b@) == Err::<BundleView, ThemeError>(r->Err_0),
        decode_spec(b@) is Ok ==> r is Ok && decode_spec(b@)->Ok_0.0 == r->Ok_0@,
{
    let len: usize = b.len();
    if len < 4 || b[0] != 82u8 || b[1] != 83u8 || b[2] != 75u8 || b[3] != 78u8 {
        return Err(ThemeError::BadMagic);
    }
    if len < 12 {
        return Err(ThemeError::Truncated);
    }
    let mlen: u64 = read_le(b, 4, 8);
    if mlen > (len - 12) as u64 {
        return Err(ThemeError::Truncated);
    }
    let start: usize = 12 + mlen as usize;
    Ok(slice_to_vec(slice_subrange(b, 12, start)))
}

/// Relies on `String::from_utf8_lossy`: valid UTF-8 is decoded as it
/// stands; other bytes get replacement characters.
#[verifier::external_body]
pub(crate) fn utf8_lossy(b: &[u8]) -> (r: String)
    ensures
        valid_utf8(b@) ==> r@ == decode_utf8(b@),
        !valid_utf8(b@) ==> r@ == lossy_utf8(b@),
{
    String::from_utf8_lossy(b).into_owned()
}

proof fn lemma_prepend_push(front: Seq<AssetView>, a: AssetView, r: Result<Seq<AssetView>, ThemeError>)
    ensures
        prepend(front, prepend(seq![a], r)) == prepend(front.push(a), r),
{
    match r {
        Ok(rest) => {
            assert(front + (seq![a] + rest) =~= front.push(a) + rest);
        },
        Err(_) => {},
    }
}

/// Decodes a bundle, checking its structure as it goes.
pub fn decode_bundle(b: &[u8]) -> (r: Result<Bundle, ThemeError>)
    ensures
        bundle_result_view(r) == decode_spec(b@),
{
    let len: usize = b.len();
    if len < 4 || b[0] != 82u8 || b[1] != 83u8 || b[2] != 75u8 || b[3] != 78u8 {
        return Err(ThemeError::BadMagic);
    }
    if len < 12 {
        return Err(ThemeError::Truncated);
    }
    let mlen: u64 = read_le(b, 4, 8);
    if mlen > (len - 12) as u64 {
        return Err(ThemeError::Truncated);
    }
    let start: usize = 12 + mlen as usize;
    let manifest_json = slice_to_vec(slice_subrange(b, 12, start));
    let mut assets: Vec<Asset> = Vec::new();
    let mut pos: usize = start;
    proof {
        assert(assets_view(assets@) =~= Seq::<AssetView>::empty());
        assert(prepend(Seq::empty(), parse_entries(b@, pos as int)) == parse_entries(b@, pos as int)) by {
            match parse_entries(b@, pos as int) {
                Ok(rest) => {
                    assert(Seq::<AssetView>::empty() + rest =~= rest);
                },
                Err(_) => {},
            }
        }
    }
    while pos < len
        invariant
            len == b@.len(),
            has_magic(b@),
            12 <= start <= pos <= len,
            start == 12 + le_value(b@.subrange(4, 12)),
            manifest_json@ == b@.subrange(12, start as int),
            parse_entries(b@, start as int) == prepend(assets_view(assets@), parse_entries(b@, pos as int)),
        decreases len - pos,
    {
        if len - pos < 4 {
            proof {
                assert(parse_entries(b@, pos as int) == Err::<Seq<AssetView>, ThemeError>(ThemeError::Truncated));
            }
            return Err(ThemeError::Truncated);
        }
        let npos: usize = pos + 4;
        let nlen: u64 = read_le(b, pos, 4);
        if nlen > (len - npos) as u64 {
            proof {
                assert(parse_entries(b@, pos as int) == Err::<Seq<AssetView>, ThemeError>(ThemeError::Truncated));
            }
            return Err(ThemeError::Truncated);
        }
        let dpos: usize = npos + nlen as usize;
        if len - dpos < 4 {
            proof {
                assert(parse_entries(b@, pos as int) == Err::<Seq<AssetView>, ThemeError>(ThemeError::Truncated));
            }
            return Err(ThemeError::Truncated);
        }
        let spos: usize = dpos + 4;
        let dlen: u64 = read_le(b, dpos, 4);
        if dlen > (len - spos) as u64 {
            proof {
                assert(parse_entries(b@, pos as int) == Err::<Seq<AssetView>, ThemeError>(ThemeError::Truncated));
            }
            return Err(ThemeError::Truncated);
        }
        let end: usize = spos + dlen as usize;
        let name = utf8_lossy(slice_subrange(b, npos, dpos));
        let data = slice_to_vec(slice_subrange(b, spos, end));
        let asset = Asset { name, data };
        let ghost prev = assets@;
        let ghost a = asset@;
        proof {
            assert(a == (name_of(b@.subrange(npos as int, dpos as int)), b@.subrange(spos as int, end as int)));
            assert(parse_entries(b@, pos as int) == prepend(seq![a], parse_entries(b@, end as int)));
            lemma_prepend_push(assets_view(assets@), a, parse_entries(b@, end as int));
        }
        assets.push(asset);
        proof {
            assert(assets_view(assets@) =~= assets_view(prev).push(a));
        }
        pos = end;
    }
    proof {
        assert(assets_view(assets@) + Seq::<AssetView>::empty() =~= assets_view(assets@));
    }
    Ok(Bundle { manifest_json, assets })
}

/// Encoding one more asset appends its entry.
pub proof fn lemma_entries_bytes_push(s: Seq<AssetView>, a: AssetView)
    ensures
        entries_bytes(s.push(a)) == entries_bytes(s) + entry_bytes(a),
    decreases s.len(),
{
    if s.len() == 0 {
        assert(s.push(a).drop_first() =~= Seq::<AssetView>::empty());
        assert(s.push(a)[0] == a);
        assert(entries_bytes(Seq::<AssetView>::empty()) == Seq::<u8>::empty());
        assert(entries_bytes(s) == Seq::<u8>::empty());
        assert(entries_bytes(s.push(a)) =~= entry_bytes(a) + Seq::<u8>::empty());
    } else {
        assert(s.push(a).drop_first() =~= s.drop_first().push(a));
        lemma_entries_bytes_push(s.drop_first(), a);
        assert(entries_bytes(s.push(a)) =~= entries_bytes(s) + entry_bytes(a));
    }
}

/// Appends the bytes `b` to `out`.
fn push_bytes(out: &mut Vec<u8>, b: &[u8])
    ensures
        final(out)@ == old(out)@ + b@,
{
    let ghost start = out@;
    let n: usize = b.len();
    let mut i: usize = 0;
    while i < n
        invariant
            n == b@.len(),
            i <= n,
            out@ == start + b@.subrange(0, i as int),
        decreases n - i,
    {
        proof {
            assert(b@.subrange(0, i + 1) =~= b@.subrange(0, i as int).push(b@[i as int]));
            assert(start + b@.subrange(0, i + 1) =~= (start + b@.subrange(0, i as int)).push(b@[i as int]));
        }
        out.push(b[i]);
        i = i + 1;
    }
    proof {
        assert(b@.subrange(0, n as int) =~= b@);
    }
}

/// Encodes a manifest's bytes and the assets, in order, as a bundle.
pub fn encode_bundle(manifest_json: &[u8], assets: &Vec<Asset>) -> (r: Vec<u8>)
    requires
        all_entries_fit(assets_view(assets@)),
    ensures
        r@ == bundle_bytes(manifest_json@, assets_view(assets@)),
{
    let mut out: Vec<u8> = Vec::new();
    out.push(82u8);
    out.push(83u8);
    out.push(75u8);
    out.push(78u8);
    proof {
        assert(out@ =~= magic());
    }
    push_le(&mut out, manifest_json.len() as u64, 8);
    push_bytes(&mut out, manifest_json);
    let ghost head = out@;
    let n: usize = assets.len();
    let mut i: usize = 0;
    proof {
        assert(assets_view(assets@).subrange(0, 0) =~= Seq::<AssetView>::empty());
        assert(head + entries_bytes(Seq::<AssetView>::empty()) =~= head);
    }
    while i < n
        invariant
            n == assets@.len(),
            i <= n,
            all_entries_fit(assets_view(assets@)),
            out@ == head + entries_bytes(assets_view(assets@).subrange(0, i as int)),
        decreases n - i,
    {
        let asset = &assets[i];
        let ghost a = asset@;
        let name_bytes: &[u8] = asset.name.as_str().as_bytes();
        proof {
            assert(a == assets_view(assets@)[i as int]);
            assert(entry_fits(a));
        }
        push_le(&mut out, name_bytes.len() as u64, 4);
        push_bytes(&mut out, name_bytes);
        push_le(&mut out, asset.data.len() as u64, 4);
        push_bytes(&mut out, asset.data.as_slice());
        proof {
            let done = assets_view(assets@).subrange(0, i as int);
            assert(assets_view(assets@).subrange(0, i + 1) =~= done.push(a));
            lemma_entries_bytes_push(done, a);
            assert(out@ =~= head + entries_bytes(done) + entry_bytes(a));
        }
        i = i + 1;
    }
    proof {
        assert(assets_view(assets@).subrange(0, n as int) =~= assets_view(assets@));
    }
    out
}

/// The parser reads one whole entry written by `entry_bytes`, whatever follows it.
proof fn lemma_parse_entry(p: Seq<u8>, a: AssetView, rest: Seq<u8>)
    requires
        entry_fits(a),
    ensures
        parse_entries(p + entry_bytes(a) + rest, p.len() as int) == prepend(
            seq![a],
            parse_entries(p + entry_bytes(a) + rest, (p + entry_bytes(a)).len() as int),
        ),
{
    let b = p + entry_bytes(a) + rest;
    let nb = encode_utf8(a.0);
    let ln = le_bytes(nb.len(), 4);
    let ld = le_bytes(a.1.len(), 4);
    lemma_le_bytes_len(nb.len(), 4);
    lemma_le_bytes_len(a.1.len(), 4);
    lemma_pow256_four();
    lemma_le_round_trip(nb.len(), 4);
    lemma_le_round_trip(a.1.len(), 4);
    encode_utf8_valid_utf8(a.0);
    encode_utf8_decode_utf8(a.0);
    let pos = p.len() as int;
    let npos = pos + 4;
    let dpos = npos + nb.len();
    let spos = dpos + 4;
    let end = spos + a.1.len();
    assert(b.subrange(pos, npos) =~= ln);
    assert(b.subrange(npos, dpos) =~= nb);
    assert(b.subrange(dpos, spos) =~= ld);
    assert(b.subrange(spos, end) =~= a.1);
    assert((p + entry_bytes(a)).len() == end);
}

/// Parsing the encoded entries of `s` after any prefix gives back `s`.
proof fn lemma_parse_all(p: Seq<u8>, s: Seq<AssetView>)
    requires
        all_entries_fit(s),
    ensures
        parse_entries(p + entries_bytes(s), p.len() as int) == Ok::<Seq<AssetView>, ThemeError>(s),
    decreases s.len(),
{
    if s.len() == 0 {
        assert(p + entries_bytes(s) =~= p);
        assert(s =~= Seq::<AssetView>::empty());
    } else {
        let a = s[0];
        let rest = s.drop_first();
        let p2 = p + entry_bytes(a);
        assert(entry_fits(s[0]));
        assert(all_entries_fit(rest)) by {
            assert forall|i: int| 0 <= i < rest.len() implies entry_fits(#[trigger] rest[i]) by {
                assert(rest[i] == s[i + 1]);
            }
        }
        assert(p + entries_bytes(s) =~= p2 + entries_bytes(rest));
        lemma_parse_entry(p, a, entries_bytes(rest));
        lemma_parse_all(p2, rest);
        assert(seq![a] + rest =~= s);
    }
}

/// Decoding what `encode_bundle` writes gives back the manifest bytes and
/// the assets, field for field and byte for byte.
pub proof fn lemma_decode_encode(m: Seq<u8>, s: Seq<AssetView>)
    requires
        m.len() < 0x1_0000_0000_0000_0000,
        all_entries_fit(s),
    ensures
        decode_spec(bundle_bytes(m, s)) == Ok::<BundleView, ThemeError>((m, s)),
{
    let l8 = le_bytes(m.len(), 8);
    let head = magic() + l8 + m;
    let b = bundle_bytes(m, s);
    lemma_le_bytes_len(m.len(), 8);
    lemma_pow256_eight();
    lemma_le_round_trip(m.len(), 8);
    assert(b =~= head + entries_bytes(s));
    assert(b.subrange(4, 12) =~= l8);
    assert(b.subrange(12, 12 + m.len() as int) =~= m);
    lemma_parse_all(head, s);
}

/// Any data whose first four bytes are not the magic tag, or that is
/// shorter than four bytes, is rejected as `BadMagic`.
pub proof fn lemma_bad_magic_rejected(b: Seq<u8>)
    requires
        b.len() < 4 || b.subrange(0, 4) != magic(),
    ensures
        decode_spec(b) == Err::<BundleView, ThemeError>(ThemeError::BadMagic),
{
    if has_magic(b) {
        assert(b.subrange(0, 4) =~= magic());
    }
}

/// Cutting the entries of `s` at an offset `k` that lies inside an entry
/// makes the parser fail with `Truncated`.
proof fn lemma_parse_truncated(p: Seq<u8>, s: Seq<AssetView>, k: int)
    requires
        all_entries_fit(s),
        p.len() < k < (p + entries_bytes(s)).len(),
        forall|i: int| 1 <= i <= s.len() ==> k != p.len() + #[trigger] entries_bytes(s.take(i)).len(),
    ensures
        parse_entries((p + entries_bytes(s)).take(k), p.len() as int) == Err::<Seq<AssetView>, ThemeError>(ThemeError::Truncated),
    decreases s.len(),
{
    if s.len() == 0 {
        assert(p + entries_bytes(s) =~= p);
    } else {
        let a = s[0];
        let rest = s.drop_first();
        let e = entry_bytes(a);
        let p2 = p + e;
        let w = p + entries_bytes(s);
        let t = w.take(k);
        assert(entry_fits(s[0]));
        assert(w =~= p2 + entries_bytes(rest));
        assert(s.take(1).drop_first() =~= Seq::<AssetView>::empty());
        assert(s.take(1)[0] == a);
        assert(entries_bytes(Seq::<AssetView>::empty()) == Seq::<u8>::empty());
        assert(entries_bytes(s.take(1)) =~= e + Seq::<u8>::empty());
        assert(k != p2.len());
        if k < p2.len() {
            let nb = encode_utf8(a.0);
            lemma_le_bytes_len(nb.len(), 4);
            lemma_le_bytes_len(a.1.len(), 4);
            lemma_pow256_four();
            lemma_le_round_trip(nb.len(), 4);
            lemma_le_round_trip(a.1.len(), 4);
            let pos = p.len() as int;
            let npos = pos + 4;
            let dpos = npos + nb.len();
            let spos = dpos + 4;
            if k - pos >= 4 {
                assert(t.subrange(pos, npos) =~= le_bytes(nb.len(), 4));
                if k - npos >= nb.len() {
                    if k - dpos >= 4 {
                        assert(t.subrange(dpos, spos) =~= le_bytes(a.1.len(), 4));
                    }
                }
            }
        } else {
            let tail = entries_bytes(rest).take(k - p2.len());
            assert(t =~= p + e + tail);
            lemma_parse_entry(p, a, tail);
            assert(all_entries_fit(rest)) by {
                assert forall|i: int| 0 <= i < rest.len() implies entry_fits(#[trigger] rest[i]) by {
                    assert(rest[i] == s[i + 1]);
                }
            }
            assert forall|i: int| 1 <= i <= rest.len() implies k != p2.len()
                + #[trigger] entries_bytes(rest.take(i)).len() by {
                assert(s.take(i + 1).drop_first() =~= rest.take(i));
                assert(s.take(i + 1)[0] == a);
                assert(entries_bytes(s.take(i + 1)) == e + entries_bytes(rest.take(i)));
            }
            assert((p2 + entries_bytes(rest)).take(k) =~= t);
            lemma_parse_truncated(p2, rest, k);
        }
    }
}

/// `k` is an offset at which a whole number of entries of the bundle ends.
pub open spec fn entry_boundary(m: Seq<u8>, s: Seq<AssetView>, k: int) -> bool {
    exists|i: int| 0 <= i <= s.len() && k == 12 + m.len() + #[trigger] entries_bytes(s.take(i)).len()
}

/// Cutting an encoded bundle short anywhere from its fifth byte on makes
/// decoding fail with `Truncated`, unless the cut falls exactly where an
/// entry ends (the format has no count, so such a prefix is itself a bundle).
pub proof fn lemma_truncated_bundle_rejected(m: Seq<u8>, s: Seq<AssetView>, k: int)
    requires
        m.len() < 0x1_0000_0000_0000_0000,
        all_entries_fit(s),
        4 <= k < bundle_bytes(m, s).len(),
        !entry_boundary(m, s, k),
    ensures
        decode_spec(bundle_bytes(m, s).take(k)) == Err::<BundleView, ThemeError>(ThemeError::Truncated),
{
    let l8 = le_bytes(m.len(), 8);
    let head = magic() + l8 + m;
    let b = bundle_bytes(m, s);
    let t = b.take(k);
    lemma_le_bytes_len(m.len(), 8);
    lemma_pow256_eight();
    lemma_le_round_trip(m.len(), 8);
    assert(b =~= head + entries_bytes(s));
    assert(t[0] == b[0] && t[1] == b[1] && t[2] == b[2] && t[3] == b[3]);
    assert(has_magic(t));
    if k >= 12 {
        assert(t.subrange(4, 12) =~= l8);
        assert(s.take(0) =~= Seq::<AssetView>::empty());
        assert(entries_bytes(s.take(0)).len() == 0);
        assert(k != 12 + m.len());
        if k > 12 + m.len() {
            assert forall|i: int| 1 <= i <= s.len() implies k != head.len()
                + #[trigger] entries_bytes(s.take(i)).len() by {
                assert(!(0 <= i <= s.len() && k == 12 + m.len() + entries_bytes(s.take(i)).len()));
            }
            lemma_parse_truncated(head, s, k);
        }
    }
}

} // verus!
