use p2p_share::chat::{current_timestamp, new_chat_message};
use p2p_share::chunker::split_file;
use p2p_share::reconcile::{count_local_chunks, deleted_files, local_chunks_of, lost_chunks, missing_files};
use p2p_share::share::{already_shared, chunk_registrations};
use p2p_share::text::{is_chunk_file_name, is_sidecar_name};
use p2p_share::tracker::PeerInfo;

fn v(xs: &[&str]) -> Vec<String> {
    xs.iter().map(|x| x.to_string()).collect()
}

#[test]
fn counts_chunk_files_only() {
    let names = v(&["a.txt", "a.txt.chunk0", "doc.bin.chunk12", "notes", "x.chunky"]);
    assert_eq!(count_local_chunks(&names), 3);
    assert_eq!(count_local_chunks(&Vec::new()), 0);
}

#[test]
fn chunk_marker_and_sidecar_recognition() {
    assert!(is_chunk_file_name("doc.bin.chunk3"));
    assert!(!is_chunk_file_name("doc.bin"));
    assert!(is_sidecar_name("doc.bin.chunk3", "doc.bin"));
    assert!(!is_sidecar_name("doc.bin.chunk3", "other.bin"));
    assert!(!is_sidecar_name("doc.bin", "doc.bin"));
}

#[test]
fn local_chunks_of_a_file() {
    let names = v(&["doc.bin.chunk0", "doc.bin", "doc.bin.chunk2", "big.bin.chunk0"]);
    assert_eq!(local_chunks_of("doc.bin", &names), v(&["doc.bin.chunk0", "doc.bin.chunk2"]));
}

#[test]
fn deleted_files_are_those_absent() {
    let shared = v(&["a.txt", "b.txt", "doc.bin"]);
    let present = v(&["a.txt", "doc.bin.chunk0"]);
    assert_eq!(deleted_files(&shared, &present), v(&["b.txt", "doc.bin"]));
}

#[test]
fn missing_files_wait_for_sidecars() {
    let shared = v(&["a.txt", "b.txt", "doc.bin"]);
    let present = v(&["a.txt", "doc.bin.chunk0"]);
    assert_eq!(missing_files(&shared, &present), v(&["b.txt"]));
    assert_eq!(missing_files(&shared, &Vec::new()), shared);
}

#[test]
fn lost_chunks_are_reported() {
    let expected = v(&["doc.bin.chunk0", "doc.bin.chunk1", "doc.bin.chunk2"]);
    let present = v(&["doc.bin.chunk1", "doc.bin"]);
    assert_eq!(lost_chunks(&expected, &present), v(&["doc.bin.chunk0", "doc.bin.chunk2"]));
}

#[test]
fn already_shared_checks_this_peer_only() {
    let list = vec![
        PeerInfo { name: "a".to_string(), address: "A".to_string(), files: v(&["doc.bin"]) },
        PeerInfo { name: "b".to_string(), address: "B".to_string(), files: v(&["x.txt"]) },
    ];
    assert!(already_shared(&list, &"a".to_string(), &"doc.bin".to_string()));
    assert!(!already_shared(&list, &"a".to_string(), &"x.txt".to_string()));
    assert!(!already_shared(&list, &"c".to_string(), &"doc.bin".to_string()));
}

#[test]
fn registrations_carry_piece_names_and_checksums() {
    let data = vec![5u8; 1_048_577];
    let pieces = split_file("doc.bin", &data);
    let reread: Vec<Vec<u8>> = pieces.iter().map(|p| p.data.clone()).collect();
    let regs = chunk_registrations(&"a".to_string(), &"127.0.0.1:8001".to_string(), &"doc.bin".to_string(), &pieces, &reread);
    assert_eq!(regs.len(), 2);
    for (p, c) in pieces.iter().zip(regs.iter()) {
        assert_eq!(c.peer, "a");
        assert_eq!(c.file_name, "doc.bin");
        assert_eq!(c.peer_address, "127.0.0.1:8001");
        assert_eq!(c.chunk_name, p.chunk_name);
        assert_eq!(c.checksum, p.checksum);
    }
}

#[test]
fn corrupted_sidecar_is_not_registered() {
    let data: Vec<u8> = (0..2_100_000u32).map(|i| (i % 7) as u8).collect();
    let pieces = split_file("doc.bin", &data);
    let mut reread: Vec<Vec<u8>> = pieces.iter().map(|p| p.data.clone()).collect();
    reread[1][0] ^= 1;
    let regs = chunk_registrations(&"a".to_string(), &"A".to_string(), &"doc.bin".to_string(), &pieces, &reread);
    let names: Vec<&str> = regs.iter().map(|c| c.chunk_name.as_str()).collect();
    assert_eq!(names, vec!["doc.bin.chunk0", "doc.bin.chunk2"]);
    let short = chunk_registrations(&"a".to_string(), &"A".to_string(), &"doc.bin".to_string(), &pieces, &Vec::new());
    assert!(short.is_empty());
}

#[test]
fn chat_message_is_stamped() {
    let m = new_chat_message("a".to_string(), "hi".to_string());
    assert_eq!(m.sender, "a");
    assert_eq!(m.message, "hi");
    assert!(m.timestamp > 1_600_000_000);
    assert!(current_timestamp() >= m.timestamp);
}
