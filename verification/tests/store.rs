use sn_cli::address::{Address, AddressError};
use sn_cli::chunks::{ChunkManager, ChunkRef};
use sn_cli::manifest::LineError;
use sn_cli::store::{format_record, parse_record, FileRecord, RecordError, CHUNKS_DIR, FILES_DIR};
use std::path::PathBuf;

fn address(fill: u8) -> Address {
    Address([fill; 32])
}

fn chunk(fill: u8) -> ChunkRef {
    let name = String::from_utf8(address(fill).to_hex()).unwrap();
    ChunkRef { address: address(fill), path: PathBuf::from("/store").join(CHUNKS_DIR).join(name) }
}

#[test]
fn layout() {
    assert_eq!(CHUNKS_DIR, "chunks");
    assert_eq!(FILES_DIR, "files");
}

#[test]
fn record_is_a_header_and_a_line_for_each_chunk() {
    let record = FileRecord { name: b"a.bin".to_vec(), root: address(1), chunks: vec![address(1), address(2)] };
    let lines: Vec<String> =
        format_record(&record).into_iter().map(|l| String::from_utf8(l).unwrap()).collect();
    assert_eq!(lines, vec![format!("{}: a.bin", "01".repeat(32)), "01".repeat(32), "02".repeat(32)]);
}

#[test]
fn record_is_read_back() {
    for chunks in [vec![], vec![address(9)], vec![address(3), address(1), address(3)]] {
        let record = FileRecord { name: b"dir/a b.bin".to_vec(), root: address(7), chunks };
        assert_eq!(parse_record(&format_record(&record)), Ok(record));
    }
}

#[test]
fn record_that_is_not_understood_says_why() {
    assert_eq!(parse_record(&Vec::new()), Err(RecordError::Empty));
    assert_eq!(
        parse_record(&vec![b"no header".to_vec()]),
        Err(RecordError::BadHeader(LineError::Malformed))
    );
    let good = format_record(&FileRecord {
        name: b"a".to_vec(),
        root: address(7),
        chunks: vec![address(1), address(2), address(3)],
    });
    let mut bad = good.clone();
    bad[2] = b"abcd".to_vec();
    bad[3] = b"zz".to_vec();
    assert_eq!(
        parse_record(&bad),
        Err(RecordError::BadChunk { line: 2, reason: AddressError::WrongLength { bytes: 2 } })
    );
    bad[2] = good[2].clone();
    assert_eq!(parse_record(&bad), Err(RecordError::BadChunk { line: 3, reason: AddressError::NotHex }));
}

#[test]
fn chunks_gone_from_disk_were_stored() {
    let mut manager = ChunkManager::new();
    let chunks = vec![chunk(1), chunk(2), chunk(3)];
    manager.restore_file("a.bin".to_string(), address(1), &chunks, &vec![false, true, false]);
    assert_eq!(manager.get_chunks(), vec![chunk(2)]);
    assert_eq!(manager.already_put_chunks(), chunks);
    assert!(manager.verified_files().is_empty());

    manager.restore_file("b.bin".to_string(), address(4), &vec![chunk(4), chunk(1)], &vec![false, true]);
    assert_eq!(manager.get_chunks(), vec![chunk(2)]);
    assert_eq!(manager.verified_files(), vec![("b.bin".to_string(), address(4))]);
}
