use p2p_share::tracker::{list_peers, ChunkIndex, ChunkRef, FileDigests, PeerDirectory, TrackerError};

fn chunk(peer: &str, file: &str, i: usize, sum: &str, addr: &str) -> ChunkRef {
    ChunkRef {
        peer: peer.to_string(),
        file_name: file.to_string(),
        chunk_name: format!("{}.chunk{}", file, i),
        checksum: sum.to_string(),
        peer_address: addr.to_string(),
    }
}

fn s(x: &str) -> String {
    x.to_string()
}

#[test]
fn name_collision_second_register_refused() {
    let mut d = PeerDirectory::new();
    assert_eq!(d.register_peer(s("alice"), s("127.0.0.1:8001"), 10), Ok(()));
    assert_eq!(
        d.register_peer(s("alice"), s("127.0.0.1:8002"), 11),
        Err(TrackerError::NameTaken)
    );
    assert_eq!(d.address_of(&s("alice")), Some(s("127.0.0.1:8001")));
}

#[test]
fn heartbeat_known_and_unknown() {
    let mut d = PeerDirectory::new();
    d.register_peer(s("a"), s("127.0.0.1:8001"), 0).unwrap();
    assert_eq!(d.heartbeat(&s("a"), 100), Ok(()));
    assert_eq!(d.heartbeat(&s("zed"), 100), Err(TrackerError::UnknownPeer));
    // refreshed at 100: still live at 280, stale at 281
    d.expire_stale(280);
    assert!(d.contains(&s("a")));
    d.expire_stale(281);
    assert!(!d.contains(&s("a")));
}

#[test]
fn stale_peers_are_evicted_others_kept() {
    let mut d = PeerDirectory::new();
    d.register_peer(s("old"), s("127.0.0.1:8001"), 0).unwrap();
    d.register_peer(s("new"), s("127.0.0.1:8002"), 200).unwrap();
    d.expire_stale(300);
    assert!(!d.contains(&s("old")));
    assert!(d.contains(&s("new")));
}

#[test]
fn unregister_peer_keeps_its_chunks() {
    let mut d = PeerDirectory::new();
    let mut idx = ChunkIndex::new();
    d.register_peer(s("a"), s("127.0.0.1:8001"), 0).unwrap();
    idx.register_chunk(chunk("a", "doc.bin", 0, "h0", "127.0.0.1:8001"));
    assert_eq!(d.unregister_peer(&s("a")), Ok(()));
    assert_eq!(d.unregister_peer(&s("a")), Err(TrackerError::UnknownPeer));
    assert!(!d.contains(&s("a")));
    assert_eq!(idx.get_file_chunks(&s("doc.bin")).len(), 1);
}

#[test]
fn duplicate_chunk_registration_is_a_no_op() {
    let mut idx = ChunkIndex::new();
    assert!(idx.register_chunk(chunk("a", "doc.bin", 0, "h0", "A")));
    for _ in 0..4 {
        assert!(!idx.register_chunk(chunk("a", "doc.bin", 0, "h0", "A")));
    }
    assert!(idx.register_chunk(chunk("b", "doc.bin", 0, "h0", "B")));
    let got = idx.get_file_chunks(&s("doc.bin"));
    assert_eq!(got.len(), 2);
    assert_eq!(got[0].peer, "a");
    assert_eq!(got[1].peer, "b");
}

#[test]
fn file_chunks_of_unknown_file_are_empty() {
    let mut idx = ChunkIndex::new();
    idx.register_chunk(chunk("a", "doc.bin", 0, "h0", "A"));
    assert!(idx.get_file_chunks(&s("other.bin")).is_empty());
}

#[test]
fn file_chunks_in_registration_order() {
    let mut idx = ChunkIndex::new();
    for i in 0..3 {
        idx.register_chunk(chunk("a", "doc.bin", i, &format!("h{}", i), "A"));
    }
    idx.register_chunk(chunk("a", "x.txt", 0, "hx", "A"));
    let got = idx.get_file_chunks(&s("doc.bin"));
    let names: Vec<&str> = got.iter().map(|c| c.chunk_name.as_str()).collect();
    assert_eq!(names, vec!["doc.bin.chunk0", "doc.bin.chunk1", "doc.bin.chunk2"]);
    assert_eq!(got[2].checksum, "h2");
}

#[test]
fn unregister_file_only_for_that_peer() {
    let mut idx = ChunkIndex::new();
    idx.register_chunk(chunk("a", "doc.bin", 0, "h0", "A"));
    idx.register_chunk(chunk("a", "doc.bin", 1, "h1", "A"));
    idx.register_chunk(chunk("b", "doc.bin", 0, "h0", "B"));
    assert_eq!(idx.unregister_file(&s("a"), &s("doc.bin")), Ok(()));
    let left = idx.get_file_chunks(&s("doc.bin"));
    assert_eq!(left.len(), 1);
    assert_eq!(left[0].peer, "b");
    assert_eq!(
        idx.unregister_file(&s("a"), &s("nothing.bin")),
        Err(TrackerError::UnknownFile)
    );
}

#[test]
fn unregister_chunk_removes_single_reference() {
    let mut idx = ChunkIndex::new();
    idx.register_chunk(chunk("a", "doc.bin", 0, "h0", "A"));
    idx.register_chunk(chunk("a", "doc.bin", 1, "h1", "A"));
    idx.unregister_chunk(&s("a"), &s("doc.bin.chunk0"));
    assert_eq!(idx.peer_chunk_names(&s("a")), vec![s("doc.bin.chunk1")]);
}

#[test]
fn list_reports_distinct_files_per_peer() {
    let mut d = PeerDirectory::new();
    let mut idx = ChunkIndex::new();
    d.register_peer(s("a"), s("127.0.0.1:8001"), 0).unwrap();
    d.register_peer(s("b"), s("127.0.0.1:8002"), 0).unwrap();
    idx.register_chunk(chunk("a", "doc.bin", 0, "h0", "A"));
    idx.register_chunk(chunk("a", "doc.bin", 1, "h1", "A"));
    idx.register_chunk(chunk("a", "x.txt", 0, "hx", "A"));
    let list = list_peers(&d, &idx);
    assert_eq!(list.len(), 2);
    assert_eq!(list[0].name, "a");
    assert_eq!(list[0].address, "127.0.0.1:8001");
    let mut files = list[0].files.clone();
    files.sort();
    assert_eq!(files, vec![s("doc.bin"), s("x.txt")]);
    assert!(list[1].files.is_empty());
}

#[test]
fn deleted_file_disappears_from_list() {
    let mut d = PeerDirectory::new();
    let mut idx = ChunkIndex::new();
    d.register_peer(s("a"), s("A"), 0).unwrap();
    idx.register_chunk(chunk("a", "doc.bin", 0, "h0", "A"));
    idx.unregister_file(&s("a"), &s("doc.bin")).unwrap();
    let list = list_peers(&d, &idx);
    assert!(list[0].files.is_empty());
}

#[test]
fn whole_file_checksum_publish_and_conflict() {
    let mut d = FileDigests::new();
    assert_eq!(d.lookup(&s("doc.bin")), None);
    assert_eq!(d.publish(s("doc.bin"), s("abc")), Ok(()));
    assert_eq!(d.publish(s("doc.bin"), s("abc")), Ok(()));
    assert_eq!(d.publish(s("doc.bin"), s("xyz")), Err(TrackerError::ChecksumConflict));
    assert_eq!(d.lookup(&s("doc.bin")), Some(s("abc")));
}

#[test]
fn whole_file_checksum_retired_with_last_chunk() {
    let mut d = FileDigests::new();
    let mut idx = ChunkIndex::new();
    idx.register_chunk(chunk("a", "doc.bin", 0, "h0", "A"));
    d.publish(s("doc.bin"), s("abc")).unwrap();
    d.retire_if_unheld(&s("doc.bin"), &idx);
    assert_eq!(d.lookup(&s("doc.bin")), Some(s("abc")));
    assert!(idx.holds_file(&s("doc.bin")));
    idx.unregister_file(&s("a"), &s("doc.bin")).unwrap();
    assert!(!idx.holds_file(&s("doc.bin")));
    d.retire_if_unheld(&s("doc.bin"), &idx);
    assert_eq!(d.lookup(&s("doc.bin")), None);
}
