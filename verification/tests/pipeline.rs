use dupfinder::digest::digest_of_bytes;
use dupfinder::digest::ContentHasher;
use dupfinder::render::render_report;
use dupfinder::render::u64_to_decimal;
use dupfinder::table::build_table;
use dupfinder::table::entry_before;
use dupfinder::table::FileEntry;
use dupfinder::table::FileOutcome;
use dupfinder::table::HashedFile;

fn hashed(path: &str, content: &[u8]) -> FileOutcome {
    FileOutcome::Hashed(HashedFile {
        path: path.as_bytes().to_vec(),
        size: content.len() as u64,
        digest: digest_of_bytes(content),
    })
}

fn report_of(outcomes: Vec<FileOutcome>) -> Vec<Vec<u8>> {
    let table = build_table(outcomes);
    render_report(&table)
}

#[test]
fn md5_known_values() {
    let hex = |d: &Vec<u8>| -> String { d.iter().map(|b| format!("{:02x}", b)).collect() };
    assert_eq!(hex(&digest_of_bytes(b"hello")), "5d41402abc4b2a76b9719d911017c592");
    assert_eq!(hex(&digest_of_bytes(b"")), "d41d8cd98f00b204e9800998ecf8427e");
    assert_eq!(digest_of_bytes(b"hello").len(), 16);
}

#[test]
fn streaming_matches_one_shot() {
    let mut h = ContentHasher::new();
    h.update(b"he");
    h.update(b"llo");
    assert_eq!(h.finish(), digest_of_bytes(b"hello"));
}

#[test]
fn two_duplicates_one_line() {
    let lines = report_of(vec![
        hashed("a.txt", b"hello"),
        hashed("b.txt", b"hello"),
        hashed("c.txt", b"world"),
    ]);
    assert_eq!(lines.len(), 1);
    assert_eq!(lines[0], b"5 a.txt b.txt".to_vec());
}

#[test]
fn pairwise_distinct_no_lines() {
    let lines = report_of(vec![
        hashed("a.txt", b"one"),
        hashed("b.txt", b"two"),
        hashed("c.txt", b"three"),
    ]);
    assert!(lines.is_empty());
}

#[test]
fn empty_tree_no_lines() {
    let lines = report_of(vec![]);
    assert!(lines.is_empty());
}

#[test]
fn unreadable_files_excluded() {
    let with_failures = report_of(vec![
        hashed("a.txt", b"hello"),
        FileOutcome::Unreadable,
        hashed("b.txt", b"hello"),
        FileOutcome::Unreadable,
    ]);
    let without_failures = report_of(vec![hashed("a.txt", b"hello"), hashed("b.txt", b"hello")]);
    assert_eq!(with_failures, without_failures);
    assert_eq!(with_failures, vec![b"5 a.txt b.txt".to_vec()]);
}

#[test]
fn single_member_groups_never_printed() {
    let lines = report_of(vec![hashed("only.txt", b"unique content")]);
    assert!(lines.is_empty());
}

#[test]
fn insertion_order_does_not_matter() {
    let one = report_of(vec![
        hashed("b.txt", b"hello"),
        hashed("w2.txt", b"world"),
        hashed("a.txt", b"hello"),
        hashed("w1.txt", b"world"),
    ]);
    let two = report_of(vec![
        hashed("w1.txt", b"world"),
        hashed("a.txt", b"hello"),
        hashed("w2.txt", b"world"),
        hashed("b.txt", b"hello"),
    ]);
    assert_eq!(one, two);
    // md5("hello") = 5d41..., md5("world") = 7d79...: the hello group comes first
    assert_eq!(one, vec![b"5 a.txt b.txt".to_vec(), b"5 w1.txt w2.txt".to_vec()]);
}

#[test]
fn members_sorted_by_path() {
    let lines = report_of(vec![
        hashed("c.txt", b"same"),
        hashed("a.txt", b"same"),
        hashed("b.txt", b"same"),
    ]);
    assert_eq!(lines, vec![b"4 a.txt b.txt c.txt".to_vec()]);
}

#[test]
fn paths_escaped_in_report() {
    let lines = report_of(vec![hashed("my file", b"x"), hashed("dir\\sub", b"x")]);
    assert_eq!(lines, vec![b"1 dir\\\\sub my\\ file".to_vec()]);
}

#[test]
fn entry_order_path_then_size() {
    let e = |p: &str, s: u64| FileEntry { path: p.as_bytes().to_vec(), size: s };
    assert!(entry_before(&e("a", 5), &e("b", 1)));
    assert!(entry_before(&e("a", 1), &e("a", 2)));
    assert!(!entry_before(&e("a", 2), &e("a", 2)));
    assert!(!entry_before(&e("b", 1), &e("a", 5)));
}

#[test]
fn decimal_rendering() {
    assert_eq!(u64_to_decimal(0), b"0".to_vec());
    assert_eq!(u64_to_decimal(5), b"5".to_vec());
    assert_eq!(u64_to_decimal(1234567890), b"1234567890".to_vec());
    assert_eq!(u64_to_decimal(u64::MAX), b"18446744073709551615".to_vec());
}
