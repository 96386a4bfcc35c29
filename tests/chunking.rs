use p2p_share::checksum::{checksum_matches, compute_file_checksum, to_hex};
use p2p_share::chunker::{assemble_file, split_file, CHUNK_SIZE};
use p2p_share::naming::chunk_name;

fn sample(len: usize) -> Vec<u8> {
    (0..len).map(|i| (i * 31 % 251) as u8).collect()
}

#[test]
fn sha256_of_abc() {
    assert_eq!(
        compute_file_checksum(b"abc"),
        "ba7816bf8f01cfea414140de5dae2223b00361a396177a9cb410ff61f20015ad"
    );
}

#[test]
fn sha256_of_empty_input() {
    assert_eq!(
        compute_file_checksum(b""),
        "e3b0c44298fc1c149afbf4c8996fb92427ae41e4649b934ca495991b7852b855"
    );
}

#[test]
fn hex_encoding_is_lowercase_two_digits_per_byte() {
    assert_eq!(to_hex(&[0x00, 0xff, 0x1a, 0x09]), "00ff1a09");
    assert_eq!(to_hex(&[]), "");
}

#[test]
fn checksum_match_and_mismatch() {
    let good = compute_file_checksum(b"chunk bytes");
    assert!(checksum_matches(b"chunk bytes", &good));
    assert!(!checksum_matches(b"chunk bytez", &good));
    assert!(!checksum_matches(b"chunk bytes", &String::new()));
}

#[test]
fn chunk_names_use_plain_decimal_index() {
    assert_eq!(chunk_name("doc.bin", 0), "doc.bin.chunk0");
    assert_eq!(chunk_name("doc.bin", 12), "doc.bin.chunk12");
    assert_eq!(chunk_name("a", 1234567), "a.chunk1234567");
}

#[test]
fn single_peer_split_of_2500000_bytes() {
    let data = sample(2_500_000);
    let pieces = split_file("doc.bin", &data);
    assert_eq!(pieces.len(), 3);
    let sizes: Vec<usize> = pieces.iter().map(|p| p.data.len()).collect();
    assert_eq!(sizes, vec![1_048_576, 1_048_576, 402_848]);
    let bounds = [(0, 1_048_576), (1_048_576, 2_097_152), (2_097_152, 2_500_000)];
    for (i, p) in pieces.iter().enumerate() {
        assert_eq!(p.index, i);
        assert_eq!(p.chunk_name, format!("doc.bin.chunk{}", i));
        let (a, b) = bounds[i];
        assert_eq!(p.data, data[a..b].to_vec());
        assert_eq!(p.checksum, compute_file_checksum(&data[a..b]));
    }
}

#[test]
fn split_edge_sizes() {
    assert!(split_file("e", &[]).is_empty());
    let one = split_file("one", &[7u8]);
    assert_eq!(one.len(), 1);
    assert_eq!(one[0].data, vec![7u8]);
    let exact = split_file("x", &sample(CHUNK_SIZE));
    assert_eq!(exact.len(), 1);
    let over = split_file("y", &sample(CHUNK_SIZE + 1));
    assert_eq!(over.len(), 2);
    assert_eq!(over[1].data.len(), 1);
}

#[test]
fn split_then_assemble_round_trip() {
    for len in [1usize, 10, CHUNK_SIZE, CHUNK_SIZE + 5, 5_500_000] {
        let data = sample(len);
        let pieces = split_file("f.bin", &data);
        let chunks: Vec<Vec<u8>> = pieces.into_iter().map(|p| p.data).collect();
        assert_eq!(assemble_file(&chunks), data);
    }
}

#[test]
fn assemble_concatenates_in_order() {
    let chunks = vec![vec![1u8, 2], vec![], vec![3u8]];
    assert_eq!(assemble_file(&chunks), vec![1u8, 2, 3]);
    assert!(assemble_file(&Vec::new()).is_empty());
}
