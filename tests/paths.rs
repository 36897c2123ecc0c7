use reskin::le::{push_le, read_le};
use reskin::paths::{is_safe_relative_path, is_safe_segment};
use reskin::text::{bytes_eq, str_eq};

#[test]
fn relative_paths_must_stay_inside() {
    assert!(is_safe_relative_path(b"gtk-3.0/gtk.css"));
    assert!(is_safe_relative_path(b"a"));
    assert!(is_safe_relative_path(b".config/x"));
    assert!(!is_safe_relative_path(b""));
    assert!(!is_safe_relative_path(b"/abs"));
    assert!(!is_safe_relative_path(b"a/"));
    assert!(!is_safe_relative_path(b"a//b"));
    assert!(!is_safe_relative_path(b"./a"));
    assert!(!is_safe_relative_path(b"a/../../b"));
    assert!(!is_safe_relative_path(b".."));
    assert!(!is_safe_relative_path(b"a\0b"));
}

#[test]
fn a_segment_holds_no_slash() {
    assert!(is_safe_segment("Nord".as_bytes()));
    assert!(is_safe_segment("Théme".as_bytes()));
    assert!(!is_safe_segment(b"a/b"));
    assert!(!is_safe_segment(b"."));
}

#[test]
fn equality_of_strings_and_bytes() {
    assert!(str_eq("gtk-3.0", "gtk-3.0"));
    assert!(!str_eq("gtk-3.0", "gtk-3.00"));
    assert!(!str_eq("é", "e"));
    assert!(bytes_eq(&[], &[]));
    assert!(!bytes_eq(&[1, 2], &[1, 3]));
}

#[test]
fn little_endian_read_and_write() {
    let mut out = vec![9u8];
    push_le(&mut out, 0x0102_0304, 4);
    assert_eq!(out, vec![9, 4, 3, 2, 1]);
    assert_eq!(read_le(&out, 1, 4), 0x0102_0304);
    let mut wide = Vec::new();
    push_le(&mut wide, u64::MAX, 8);
    assert_eq!(read_le(&wide, 0, 8), u64::MAX);
    assert_eq!(read_le(&out, 0, 0), 0);
}
