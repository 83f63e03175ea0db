use dupfinder::bytes::bytes_eq;
use dupfinder::bytes::bytes_lt;
use dupfinder::render::escape_path;
use dupfinder::render::unescape_path;

#[test]
fn escape_space_and_backslash() {
    assert_eq!(escape_path(b"a b\\c"), b"a\\ b\\\\c".to_vec());
    assert_eq!(escape_path(b"plain.txt"), b"plain.txt".to_vec());
    assert_eq!(escape_path(b""), b"".to_vec());
}

#[test]
fn unescape_recovers_original() {
    let originals: [&[u8]; 4] = [b"a b\\c", b"plain", b"", b" \\ \\\\ leading"];
    for p in originals {
        let escaped = escape_path(p);
        assert_eq!(unescape_path(&escaped), Some(p.to_vec()));
    }
}

#[test]
fn unescape_rejects_trailing_backslash() {
    assert_eq!(unescape_path(b"oops\\"), None);
}

#[test]
fn byte_order_is_lexicographic() {
    assert!(bytes_lt(b"a", b"b"));
    assert!(bytes_lt(b"a", b"ab"));
    assert!(!bytes_lt(b"ab", b"a"));
    assert!(!bytes_lt(b"a", b"a"));
    assert!(bytes_eq(b"same", b"same"));
    assert!(!bytes_eq(b"same", b"sam"));
}
