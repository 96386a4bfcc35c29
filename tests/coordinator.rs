use p2p_share::checksum::compute_file_checksum;
use p2p_share::download::{fetchable_refs, random_port, verify_assembled, Download, DownloadError, RoundOutcome};
use p2p_share::fanout::{accept_parallelism, determine_max_connections};
use p2p_share::tracker::ChunkRef;

fn r(peer: &str, file: &str, i: usize, data: &[u8], addr: &str) -> ChunkRef {
    ChunkRef {
        peer: peer.to_string(),
        file_name: file.to_string(),
        chunk_name: format!("{}.chunk{}", file, i),
        checksum: compute_file_checksum(data),
        peer_address: addr.to_string(),
    }
}

fn bytes(i: usize) -> Vec<u8> {
    vec![i as u8; 16 + i]
}

#[test]
fn fanout_table() {
    let cases = [(0, 1), (4, 1), (5, 2), (9, 2), (10, 3), (14, 3), (15, 4), (1000, 4)];
    for (held, cap) in cases {
        assert_eq!(determine_max_connections(held), cap);
    }
    assert!(accept_parallelism(2, 2));
    assert!(!accept_parallelism(3, 2));
    assert!(!accept_parallelism(0, 4));
}

#[test]
fn no_chunks_available() {
    let res = Download::new(&Vec::new(), "127.0.0.1:8002".to_string(), &Vec::new());
    assert!(matches!(res, Err(DownloadError::NoChunksAvailable)));
}

#[test]
fn own_address_and_local_chunks_are_excluded() {
    let refs = vec![
        r("a", "doc.bin", 0, &bytes(0), "127.0.0.1:8001"),
        r("b", "doc.bin", 0, &bytes(0), "127.0.0.1:8002"),
        r("b", "doc.bin", 1, &bytes(1), "127.0.0.1:8002"),
        r("a", "doc.bin", 2, &bytes(2), "127.0.0.1:8001"),
    ];
    let local = vec!["doc.bin.chunk2".to_string()];
    let kept = fetchable_refs(&refs, &"127.0.0.1:8002".to_string(), &local);
    assert_eq!(kept.len(), 1);
    assert_eq!(kept[0].chunk_name, "doc.bin.chunk0");
    let d = Download::new(&refs, "127.0.0.1:8002".to_string(), &local).unwrap();
    assert_eq!(d.job_count(), 1);
    let plan = d.plan_random_round(4);
    assert_eq!(plan.len(), 1);
    assert_eq!(plan[0].address, "127.0.0.1:8001");
}

#[test]
fn all_chunks_local_is_complete_at_once() {
    let refs = vec![r("a", "doc.bin", 0, &bytes(0), "A")];
    let local = vec!["doc.bin.chunk0".to_string()];
    let mut d = Download::new(&refs, "B".to_string(), &local).unwrap();
    assert!(d.is_complete());
    assert_eq!(d.end_round(), RoundOutcome::Complete);
}

#[test]
fn two_peer_download_one_fetch_per_round() {
    let refs: Vec<ChunkRef> = (0..3).map(|i| r("a", "doc.bin", i, &bytes(i), "127.0.0.1:8001")).collect();
    let mut d = Download::new(&refs, "127.0.0.1:8002".to_string(), &Vec::new()).unwrap();
    let cap = determine_max_connections(0);
    let mut gets = 0;
    loop {
        let plan = d.plan_random_round(cap);
        assert!(plan.len() <= 1);
        for q in &plan {
            gets += 1;
            assert_eq!(q.address, "127.0.0.1:8001");
            let idx: usize = q.chunk_name.trim_start_matches("doc.bin.chunk").parse().unwrap();
            assert!(d.record_result(q, Some(&bytes(idx))));
        }
        match d.end_round() {
            RoundOutcome::Complete => break,
            RoundOutcome::Retry => {}
            RoundOutcome::InsufficientSources => panic!("download gave up"),
        }
    }
    assert_eq!(gets, 3);
    assert!(d.missing_chunk_names().is_empty());
    assert_eq!(d.downloaded_bytes(), (16 + 17 + 18) as u64);
}

#[test]
fn parallel_round_schedules_exactly_two() {
    let refs: Vec<ChunkRef> = (0..6).map(|i| r("a", "big.bin", i, &bytes(i), "127.0.0.1:8001")).collect();
    let d = Download::new(&refs, "127.0.0.1:8003".to_string(), &Vec::new()).unwrap();
    let cap = determine_max_connections(5);
    assert_eq!(cap, 2);
    let plan = d.plan_round(cap, &vec![0; 6]);
    assert_eq!(plan.len(), 2);
    assert_eq!(plan[0].chunk_name, "big.bin.chunk0");
    assert_eq!(plan[1].chunk_name, "big.bin.chunk1");
    assert_eq!(d.plan_round(99, &Vec::new()).len(), 4);
    assert_eq!(d.plan_round(0, &Vec::new()).len(), 1);
}

#[test]
fn picks_choose_the_owner() {
    let refs = vec![
        r("a", "doc.bin", 0, &bytes(0), "A"),
        r("x", "doc.bin", 0, &bytes(0), "X"),
    ];
    let d = Download::new(&refs, "B".to_string(), &Vec::new()).unwrap();
    assert_eq!(d.plan_round(1, &vec![0])[0].address, "A");
    assert_eq!(d.plan_round(1, &vec![1])[0].address, "X");
    assert_eq!(d.plan_round(1, &vec![3])[0].address, "X");
}

#[test]
fn corrupt_owner_is_dropped_and_other_owner_used() {
    let refs = vec![
        r("x", "doc.bin", 1, &bytes(1), "X"),
        r("a", "doc.bin", 1, &bytes(1), "A"),
    ];
    let mut d = Download::new(&refs, "B".to_string(), &Vec::new()).unwrap();
    let plan = d.plan_round(1, &vec![0]);
    assert_eq!(plan[0].address, "X");
    let mut flipped = bytes(1);
    flipped[0] ^= 0xff;
    assert!(!d.record_result(&plan[0], Some(&flipped)));
    assert_eq!(d.end_round(), RoundOutcome::Retry);
    for pick in 0..4 {
        let again = d.plan_round(1, &vec![pick]);
        assert_eq!(again[0].address, "A");
    }
    let again = d.plan_round(1, &vec![0]);
    assert!(d.record_result(&again[0], Some(&bytes(1))));
    assert_eq!(d.end_round(), RoundOutcome::Complete);
}

#[test]
fn failover_gives_up_after_three_idle_rounds() {
    let refs: Vec<ChunkRef> = (0..3).map(|i| r("a", "doc.bin", i, &bytes(i), "A")).collect();
    let mut d = Download::new(&refs, "B".to_string(), &Vec::new()).unwrap();
    let plan = d.plan_round(1, &Vec::new());
    assert!(d.record_result(&plan[0], Some(&bytes(0))));
    assert_eq!(d.end_round(), RoundOutcome::Retry);
    let mut outcomes = Vec::new();
    for _ in 0..3 {
        let plan = d.plan_round(1, &Vec::new());
        assert_eq!(plan.len(), 1);
        assert_eq!(plan[0].address, "A");
        assert!(!d.record_result(&plan[0], None));
        outcomes.push(d.end_round());
    }
    assert_eq!(
        outcomes,
        vec![RoundOutcome::Retry, RoundOutcome::Retry, RoundOutcome::InsufficientSources]
    );
}

#[test]
fn restored_owner_resets_the_stall_count() {
    let refs: Vec<ChunkRef> = (0..2).map(|i| r("a", "doc.bin", i, &bytes(i), "A")).collect();
    let mut d = Download::new(&refs, "B".to_string(), &Vec::new()).unwrap();
    for _ in 0..2 {
        let plan = d.plan_round(1, &Vec::new());
        d.record_result(&plan[0], None);
        assert_eq!(d.end_round(), RoundOutcome::Retry);
    }
    let plan = d.plan_round(2, &Vec::new());
    assert_eq!(plan.len(), 2);
    assert!(d.record_result(&plan[0], Some(&bytes(0))));
    assert!(d.record_result(&plan[1], Some(&bytes(1))));
    assert_eq!(d.end_round(), RoundOutcome::Complete);
}

#[test]
fn random_port_in_range() {
    for _ in 0..100 {
        let p = random_port();
        assert!((8000..9000).contains(&p));
    }
}

#[test]
fn assembled_file_checked_against_published_checksum() {
    let data = b"whole file".to_vec();
    let good = compute_file_checksum(&data);
    assert!(verify_assembled(&data, Some(&good)));
    assert!(!verify_assembled(b"whole fila", Some(&good)));
    assert!(verify_assembled(&data, None));
}
