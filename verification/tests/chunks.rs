use sn_cli::address::Address;
use sn_cli::chunks::{ChunkManager, ChunkRef};
use std::path::PathBuf;

fn address(fill: u8) -> Address {
    Address([fill; 32])
}

fn chunk(fill: u8) -> ChunkRef {
    ChunkRef { address: address(fill), path: PathBuf::from(format!("/store/chunks/{fill:02x}")) }
}

fn two_files() -> ChunkManager {
    let mut manager = ChunkManager::new();
    manager.insert_file("a.bin".to_string(), address(1), &vec![chunk(1), chunk(2), chunk(3)]);
    manager.insert_file("b.bin".to_string(), address(4), &vec![chunk(4), chunk(2)]);
    manager
}

#[test]
fn new_manager_is_empty() {
    let manager = ChunkManager::new();
    assert!(manager.is_chunks_empty());
    assert!(manager.get_chunks().is_empty());
    assert!(manager.already_put_chunks().is_empty());
    assert!(manager.verified_files().is_empty());
}

#[test]
fn chunks_of_a_file_are_pending() {
    let manager = two_files();
    assert!(!manager.is_chunks_empty());
    assert_eq!(manager.get_chunks(), vec![chunk(1), chunk(2), chunk(3), chunk(4)]);
    assert!(manager.verified_files().is_empty());
}

#[test]
fn an_address_is_known_once() {
    let mut manager = ChunkManager::new();
    let other = ChunkRef { address: address(1), path: PathBuf::from("/elsewhere") };
    manager.insert_file("a".to_string(), address(1), &vec![chunk(1), other, chunk(1)]);
    assert_eq!(manager.get_chunks(), vec![chunk(1)]);
}

#[test]
fn registering_a_file_again_changes_nothing() {
    let mut manager = two_files();
    manager.mark_completed(&vec![address(1)]);
    let before = manager.get_chunks();
    manager.insert_file("a.bin".to_string(), address(1), &vec![chunk(1), chunk(2), chunk(3)]);
    assert_eq!(manager.get_chunks(), before);
    assert_eq!(manager.already_put_chunks().len(), 4);
}

#[test]
fn completed_chunks_leave_the_pending() {
    let mut manager = two_files();
    manager.mark_completed(&vec![address(2), address(9)]);
    assert_eq!(manager.get_chunks(), vec![chunk(1), chunk(3), chunk(4)]);
    manager.mark_completed(&vec![address(2)]);
    assert_eq!(manager.get_chunks(), vec![chunk(1), chunk(3), chunk(4)]);
    assert_eq!(manager.already_put_chunks(), vec![chunk(1), chunk(2), chunk(3), chunk(4)]);
}

#[test]
fn file_is_verified_when_all_its_chunks_are_completed() {
    let mut manager = two_files();
    manager.mark_completed(&vec![address(4), address(2)]);
    assert_eq!(manager.verified_files(), vec![("b.bin".to_string(), address(4))]);
    manager.mark_completed(&vec![address(3), address(1)]);
    assert_eq!(
        manager.verified_files(),
        vec![("a.bin".to_string(), address(1)), ("b.bin".to_string(), address(4))]
    );
    assert!(manager.is_chunks_empty());
}

#[test]
fn reopened_chunks_are_pending_again() {
    let mut manager = two_files();
    manager.mark_completed(&vec![address(1), address(2), address(3), address(4)]);
    assert!(manager.is_chunks_empty());
    manager.reopen(&vec![address(3), address(8)]);
    assert_eq!(manager.get_chunks(), vec![chunk(3)]);
    assert_eq!(manager.verified_files(), vec![("b.bin".to_string(), address(4))]);
}
