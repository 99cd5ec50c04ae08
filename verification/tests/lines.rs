use sn_cli::address::Address;
use sn_cli::lines::{join_lines, split_lines};
use sn_cli::manifest::{format_line, manifest_record, parse_manifest, LineError, ManifestEntry, SkippedLine};
use sn_cli::store::{read_record, write_record, FileRecord, RecordError};

fn lines(texts: &[&str]) -> Vec<Vec<u8>> {
    texts.iter().map(|text| text.as_bytes().to_vec()).collect()
}

#[test]
fn content_is_split_at_newlines() {
    assert_eq!(split_lines(b""), lines(&[]));
    assert_eq!(split_lines(b"a"), lines(&["a"]));
    assert_eq!(split_lines(b"a\n"), lines(&["a"]));
    assert_eq!(split_lines(b"a\nb"), lines(&["a", "b"]));
    assert_eq!(split_lines(b"a\nb\n"), lines(&["a", "b"]));
    assert_eq!(split_lines(b"\n"), lines(&[""]));
    assert_eq!(split_lines(b"\n\nx\n\n"), lines(&["", "", "x", ""]));
}

#[test]
fn carriage_return_before_a_newline_is_dropped() {
    assert_eq!(split_lines(b"a\r\nb\r\n"), lines(&["a", "b"]));
    assert_eq!(split_lines(b"a\r\r\nb\r"), lines(&["a\r", "b\r"]));
    assert_eq!(split_lines(b"\r\n"), lines(&[""]));
    assert_eq!(split_lines(b"a\rb\n"), lines(&["a\rb"]));
}

#[test]
fn split_reads_as_the_standard_reader_does() {
    for content in ["", "one\ntwo\r\nthree", "x\n\n\r\ny\r", "\r\n\r\n", "tail\n"] {
        let expected: Vec<Vec<u8>> =
            std::io::BufRead::lines(content.as_bytes()).map(|line| line.unwrap().into_bytes()).collect();
        assert_eq!(split_lines(content.as_bytes()), expected);
    }
}

#[test]
fn lines_are_joined_with_a_newline_after_each() {
    assert_eq!(join_lines(&lines(&[])), b"".to_vec());
    assert_eq!(join_lines(&lines(&["a"])), b"a\n".to_vec());
    assert_eq!(join_lines(&lines(&["a", "", "bc"])), b"a\n\nbc\n".to_vec());
}

#[test]
fn joined_lines_are_split_again() {
    let written = lines(&["first", "", "a: b", "last one"]);
    assert_eq!(split_lines(&join_lines(&written)), written);
}

#[test]
fn manifest_is_read_from_the_bytes_of_its_file() {
    let first = Address([0x22; 32]);
    let second = Address([0x11; 32]);
    let mut content = format_line(&first, b"first.txt");
    content.extend_from_slice(b"\r\nnot a line\n");
    content.extend(format_line(&second, b"second.txt"));
    let manifest = parse_manifest(&content);
    assert_eq!(
        manifest.entries,
        vec![
            ManifestEntry { address: second, name: b"second.txt".to_vec() },
            ManifestEntry { address: first, name: b"first.txt".to_vec() },
        ]
    );
    assert_eq!(manifest.skipped, vec![SkippedLine { index: 1, reason: LineError::Malformed }]);
}

#[test]
fn record_of_an_upload_is_appended_and_read() {
    let files = vec![("a.txt".to_string(), Address([1; 32])), ("b.txt".to_string(), Address([2; 32]))];
    let record = manifest_record(&files);
    assert_eq!(
        String::from_utf8(record.clone()).unwrap(),
        format!("{}: a.txt\n{}: b.txt\n", "01".repeat(32), "02".repeat(32))
    );
    let mut content = join_lines(&vec![format_line(&Address([1; 32]), b"old name")]);
    content.extend(record.clone());
    let once = parse_manifest(&content);
    assert_eq!(
        once.entries,
        vec![
            ManifestEntry { address: Address([1; 32]), name: b"a.txt".to_vec() },
            ManifestEntry { address: Address([2; 32]), name: b"b.txt".to_vec() },
        ]
    );
    content.extend(record);
    assert_eq!(parse_manifest(&content), once);
}

#[test]
fn record_of_a_file_is_written_and_read() {
    let record = FileRecord {
        name: b"a.bin".to_vec(),
        root: Address([7; 32]),
        chunks: vec![Address([7; 32]), Address([8; 32])],
    };
    let content = write_record(&record);
    assert_eq!(
        String::from_utf8(content.clone()).unwrap(),
        format!("{}: a.bin\n{}\n{}\n", "07".repeat(32), "07".repeat(32), "08".repeat(32))
    );
    assert_eq!(read_record(&content), Ok(record));
    assert_eq!(read_record(b""), Err(RecordError::Empty));
}
