use reskin::codec::{decode_bundle, decode_manifest, encode_bundle, Asset, Bundle};
use reskin::error::ThemeError;
use reskin::extract::plan_extraction;

fn asset(name: &str, data: &[u8]) -> Asset {
    Asset { name: name.to_string(), data: data.to_vec() }
}

fn views(assets: &[Asset]) -> Vec<(String, Vec<u8>)> {
    assets.iter().map(|a| (a.name.clone(), a.data.clone())).collect()
}

#[test]
fn encode_writes_the_documented_layout() {
    let bytes = encode_bundle(b"{}", &vec![asset("a", b"xyz")]);
    let mut expected = b"RSKN".to_vec();
    expected.extend_from_slice(&[2, 0, 0, 0, 0, 0, 0, 0]);
    expected.extend_from_slice(b"{}");
    expected.extend_from_slice(&[1, 0, 0, 0]);
    expected.extend_from_slice(b"a");
    expected.extend_from_slice(&[3, 0, 0, 0]);
    expected.extend_from_slice(b"xyz");
    assert_eq!(bytes, expected);
}

#[test]
fn round_trip_keeps_manifest_and_assets() {
    let manifest = br#"{"name":"Nord"}"#;
    let assets = vec![
        asset("gtk-3.0/gtk.css", b"body{}"),
        asset("empty", b""),
        asset("b\u{e9}b\u{e9}.png", &[0, 255, 1, 254]),
        asset("gtk-3.0/gtk.css", b"second"),
    ];
    let bytes = encode_bundle(manifest, &assets);
    let decoded = decode_bundle(&bytes).unwrap();
    assert_eq!(decoded.manifest_json, manifest.to_vec());
    assert_eq!(views(&decoded.assets), views(&assets));
}

#[test]
fn round_trip_with_no_assets() {
    let bytes = encode_bundle(b"m", &Vec::new());
    assert_eq!(bytes.len(), 13);
    let decoded = decode_bundle(&bytes).unwrap();
    assert_eq!(decoded.manifest_json, b"m".to_vec());
    assert!(decoded.assets.is_empty());
}

#[test]
fn truncation_inside_an_entry_is_detected() {
    let bytes = encode_bundle(b"{}", &vec![asset("a.css", b"one"), asset("b.css", b"two")]);
    let manifest_end = 12 + 2;
    let first_end = manifest_end + 4 + 5 + 4 + 3;
    for k in 4..bytes.len() {
        let r = decode_bundle(&bytes[..k]);
        if k == manifest_end || k == first_end {
            assert!(r.is_ok(), "cut at {} is a whole entry boundary", k);
        } else {
            assert!(matches!(r, Err(ThemeError::Truncated)), "cut at {}", k);
        }
    }
}

#[test]
fn cut_at_an_entry_boundary_gives_the_earlier_entries() {
    let bytes = encode_bundle(b"{}", &vec![asset("a.css", b"one"), asset("b.css", b"two")]);
    let decoded = decode_bundle(&bytes[..30]).unwrap();
    assert_eq!(views(&decoded.assets), vec![("a.css".to_string(), b"one".to_vec())]);
}

#[test]
fn wrong_magic_is_rejected() {
    let mut bytes = encode_bundle(b"{}", &vec![asset("a", b"x")]);
    bytes[2] = b'X';
    assert!(matches!(decode_bundle(&bytes), Err(ThemeError::BadMagic)));
    assert!(matches!(decode_bundle(b"RSK"), Err(ThemeError::BadMagic)));
    assert!(matches!(decode_bundle(b"ZIP!\0\0\0\0\0\0\0\0"), Err(ThemeError::BadMagic)));
}

#[test]
fn empty_input_is_rejected_without_panic() {
    let r = decode_bundle(&[]);
    assert!(matches!(r, Err(ThemeError::BadMagic) | Err(ThemeError::Truncated)));
}

#[test]
fn header_without_full_length_is_truncated() {
    assert!(matches!(decode_bundle(b"RSKN\x01\x00"), Err(ThemeError::Truncated)));
}

#[test]
fn manifest_longer_than_data_is_truncated() {
    let mut bytes = b"RSKN".to_vec();
    bytes.extend_from_slice(&[9, 0, 0, 0, 0, 0, 0, 0]);
    bytes.extend_from_slice(b"{}");
    assert!(matches!(decode_bundle(&bytes), Err(ThemeError::Truncated)));
}

#[test]
fn huge_declared_blob_is_truncated() {
    let mut bytes = encode_bundle(b"{}", &Vec::new());
    bytes.extend_from_slice(&[1, 0, 0, 0, b'a', 0xff, 0xff, 0xff, 0xff, 1, 2]);
    assert!(matches!(decode_bundle(&bytes), Err(ThemeError::Truncated)));
}

#[test]
fn invalid_utf8_name_is_decoded_lossily() {
    let mut bytes = encode_bundle(b"{}", &Vec::new());
    bytes.extend_from_slice(&[2, 0, 0, 0, b'a', 0xff, 1, 0, 0, 0, 7]);
    let decoded = decode_bundle(&bytes).unwrap();
    assert_eq!(decoded.assets[0].name, "a\u{fffd}");
    assert_eq!(decoded.assets[0].data, vec![7]);
}

#[test]
fn extraction_writes_sidecar_then_assets() {
    let bundle = Bundle {
        manifest_json: b"{}".to_vec(),
        assets: vec![asset("gtk-3.0/gtk.css", b"a"), asset("x.ttf", b"b")],
    };
    let writes = plan_extraction(bundle).unwrap();
    assert_eq!(
        views(&writes),
        vec![
            ("reskin.json".to_string(), b"{}".to_vec()),
            ("gtk-3.0/gtk.css".to_string(), b"a".to_vec()),
            ("x.ttf".to_string(), b"b".to_vec()),
        ]
    );
}

#[test]
fn extraction_refuses_names_that_leave_the_root() {
    for bad in ["../evil", "/etc/passwd", "a//b", "a/./b", "a/", "", "a/..", "nul\0"] {
        let bundle = Bundle {
            manifest_json: b"{}".to_vec(),
            assets: vec![asset("ok.css", b"a"), asset(bad, b"b")],
        };
        match plan_extraction(bundle) {
            Err(ThemeError::UnsafeAssetName(n)) => assert_eq!(n, bad),
            _ => panic!("{:?} was accepted", bad),
        }
    }
}

#[test]
fn extraction_accepts_dotted_names() {
    let bundle = Bundle {
        manifest_json: Vec::new(),
        assets: vec![asset(".hidden", b""), asset("a/...", b""), asset("a..b/c", b"")],
    };
    assert!(plan_extraction(bundle).is_ok());
}

#[test]
fn manifest_is_read_without_the_assets() {
    let mut bytes = encode_bundle(b"{\"name\":\"N\"}", &vec![asset("a", b"xyz")]);
    bytes.truncate(bytes.len() - 1);
    assert_eq!(decode_manifest(&bytes).unwrap(), b"{\"name\":\"N\"}".to_vec());
    assert!(matches!(decode_bundle(&bytes), Err(ThemeError::Truncated)));
    assert!(matches!(decode_manifest(b"RSKX"), Err(ThemeError::BadMagic)));
    assert!(matches!(decode_manifest(b"RSKN\x05\0\0\0\0\0\0\0ab"), Err(ThemeError::Truncated)));
}
