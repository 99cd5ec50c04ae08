use sn_cli::address::{Address, AddressError};
use sn_cli::manifest::{
    format_line, parse_line, read_manifest, upload_record, LineError, ManifestEntry, SkippedLine,
};

fn address(fill: u8) -> Address {
    Address([fill; 32])
}

fn line(fill: u8, name: &str) -> Vec<u8> {
    format_line(&address(fill), name.as_bytes())
}

#[test]
fn line_is_hex_colon_space_name() {
    let text = String::from_utf8(format_line(&address(0xab), b"hello.txt")).unwrap();
    assert_eq!(text, format!("{}: hello.txt", "ab".repeat(32)));
}

#[test]
fn line_is_read_back() {
    let parsed = parse_line(&line(0x5c, "notes/a b.txt"));
    assert_eq!(parsed, Ok(ManifestEntry { address: address(0x5c), name: b"notes/a b.txt".to_vec() }));
    let empty = parse_line(&line(1, ""));
    assert_eq!(empty, Ok(ManifestEntry { address: address(1), name: Vec::new() }));
}

#[test]
fn line_without_separator_is_malformed() {
    assert_eq!(parse_line(b""), Err(LineError::Malformed));
    assert_eq!(parse_line(b"no separator here"), Err(LineError::Malformed));
    assert_eq!(parse_line(b"colon:without space"), Err(LineError::Malformed));
    assert_eq!(parse_line(b"trailing colon:"), Err(LineError::Malformed));
}

#[test]
fn line_with_two_separators_is_malformed() {
    assert_eq!(parse_line(&line(2, "a: b")), Err(LineError::Malformed));
    assert_eq!(parse_line(b": : "), Err(LineError::Malformed));
}

#[test]
fn line_with_a_bad_address_says_so() {
    assert_eq!(parse_line(b"zz: name"), Err(LineError::BadAddress(AddressError::NotHex)));
    assert_eq!(parse_line(b"abc: name"), Err(LineError::BadAddress(AddressError::NotHex)));
    assert_eq!(
        parse_line(b"abcd: name"),
        Err(LineError::BadAddress(AddressError::WrongLength { bytes: 2 }))
    );
    assert_eq!(
        parse_line(b": name"),
        Err(LineError::BadAddress(AddressError::WrongLength { bytes: 0 }))
    );
}

#[test]
fn manifest_is_listed_by_address() {
    let lines = vec![line(9, "nine"), line(3, "three"), line(5, "five")];
    let manifest = read_manifest(&lines);
    assert!(manifest.skipped.is_empty());
    assert_eq!(
        manifest.entries,
        vec![
            ManifestEntry { address: address(3), name: b"three".to_vec() },
            ManifestEntry { address: address(5), name: b"five".to_vec() },
            ManifestEntry { address: address(9), name: b"nine".to_vec() },
        ]
    );
}

#[test]
fn last_line_for_an_address_wins() {
    let lines = vec![line(4, "old"), line(2, "two"), line(4, "new")];
    let manifest = read_manifest(&lines);
    assert_eq!(
        manifest.entries,
        vec![
            ManifestEntry { address: address(2), name: b"two".to_vec() },
            ManifestEntry { address: address(4), name: b"new".to_vec() },
        ]
    );
}

#[test]
fn lines_not_understood_are_passed_over() {
    let lines = vec![
        b"garbage".to_vec(),
        line(1, "one"),
        b"abcd: short".to_vec(),
        line(1, "a: b"),
        line(0, "zero"),
    ];
    let manifest = read_manifest(&lines);
    assert_eq!(
        manifest.skipped,
        vec![
            SkippedLine { index: 0, reason: LineError::Malformed },
            SkippedLine {
                index: 2,
                reason: LineError::BadAddress(AddressError::WrongLength { bytes: 2 })
            },
            SkippedLine { index: 3, reason: LineError::Malformed },
        ]
    );
    assert_eq!(
        manifest.entries,
        vec![
            ManifestEntry { address: address(0), name: b"zero".to_vec() },
            ManifestEntry { address: address(1), name: b"one".to_vec() },
        ]
    );
}

#[test]
fn empty_manifest_has_no_entries() {
    let manifest = read_manifest(&Vec::new());
    assert!(manifest.entries.is_empty());
    assert!(manifest.skipped.is_empty());
}

#[test]
fn record_has_a_line_for_each_file() {
    let files = vec![("hello.txt".to_string(), address(7)), ("żółw.txt".to_string(), address(8))];
    let record = upload_record(&files);
    assert_eq!(record, vec![line(7, "hello.txt"), line(8, "żółw.txt")]);
}

#[test]
fn record_is_found_in_the_manifest() {
    let files = vec![("a".to_string(), address(7)), ("b".to_string(), address(8))];
    let mut lines = vec![line(1, "earlier")];
    lines.extend(upload_record(&files));
    let manifest = read_manifest(&lines);
    for (name, root) in &files {
        assert!(manifest.entries.iter().any(|e| e.address == *root && e.name == name.as_bytes()));
    }
}

#[test]
fn appending_a_record_again_changes_nothing() {
    let files = vec![("a".to_string(), address(7)), ("b".to_string(), address(8))];
    let mut once = vec![line(7, "older name"), line(1, "earlier")];
    once.extend(upload_record(&files));
    let mut twice = once.clone();
    twice.extend(upload_record(&files));
    assert_eq!(read_manifest(&once).entries, read_manifest(&twice).entries);
}

#[test]
fn manifest_of_two_files_lists_both() {
    let manifest = read_manifest(&vec![line(0x11, "first.txt"), line(0x0a, "second.txt")]);
    assert!(manifest.skipped.is_empty());
    assert_eq!(
        manifest.entries,
        vec![
            ManifestEntry { address: address(0x0a), name: b"second.txt".to_vec() },
            ManifestEntry { address: address(0x11), name: b"first.txt".to_vec() },
        ]
    );
}
