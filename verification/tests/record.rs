use trustless_file_server::file_merkle_tree::FileMerkleTree;
use trustless_file_server::Error;

fn sample_bytes(n: usize) -> Vec<u8> {
    let mut out = Vec::with_capacity(n);
    for i in 0..n {
        out.push(((i * 13 + 5) % 241) as u8);
    }
    out
}

#[test]
fn record_round_trips_with_boundary() {
    let content = sample_bytes(5000);
    let tree = FileMerkleTree::new(&content).unwrap();
    assert!(tree.boundary_hash.is_some());
    let encoded = tree.encode();
    // 4 size bytes, 32 boundary bytes, 15 nodes of 32 bytes (8 leaves).
    assert_eq!(encoded.len(), 4 + 32 + 32 * 15);
    assert_eq!(&encoded[..4], &[0x88, 0x13, 0x00, 0x00]);
    let decoded = FileMerkleTree::decode(&encoded).unwrap();
    assert_eq!(decoded.file_size, tree.file_size);
    assert_eq!(decoded.merkle_tree, tree.merkle_tree);
    assert_eq!(decoded.boundary_hash, tree.boundary_hash);
    assert!(decoded.is_well_formed());
    assert_eq!(decoded.encode(), encoded);
}

#[test]
fn record_round_trips_without_boundary() {
    let content = sample_bytes(12 * 1024);
    let tree = FileMerkleTree::new(&content).unwrap();
    assert!(tree.boundary_hash.is_none());
    let encoded = tree.encode();
    // 4 size bytes, no boundary, 31 nodes of 32 bytes (16 leaves).
    assert_eq!(encoded.len(), 4 + 32 * 31);
    let decoded = FileMerkleTree::decode(&encoded).unwrap();
    assert_eq!(decoded.file_size, tree.file_size);
    assert_eq!(decoded.merkle_tree, tree.merkle_tree);
    assert!(decoded.boundary_hash.is_none());
    assert_eq!(decoded.encode(), encoded);
}

#[test]
fn decode_rejects_missing_boundary_bytes() {
    // A declared file size of 1 implies a boundary hash and a 32-byte tree,
    // but too few bytes follow the header: the record must be rejected, not
    // misread.
    let mut bytes = vec![1u8, 0, 0, 0];
    bytes.extend_from_slice(&[0u8; 10]);
    assert_eq!(FileMerkleTree::decode(&bytes).unwrap_err(), Error::DecodeError);
}

#[test]
fn decode_rejects_truncated_records() {
    let content = sample_bytes(3000);
    let tree = FileMerkleTree::new(&content).unwrap();
    let encoded = tree.encode();
    assert!(FileMerkleTree::decode(&encoded[..encoded.len() - 1]).is_err());
    assert!(FileMerkleTree::decode(&encoded[..3]).is_err());
    assert!(FileMerkleTree::decode(&[]).is_err());
    // Extra trailing bytes are a length mismatch too.
    let mut padded = encoded.clone();
    padded.push(0);
    assert!(FileMerkleTree::decode(&padded).is_err());
}

#[test]
fn decode_rejects_empty_and_oversized_files() {
    // A declared file size of zero is invalid whatever follows.
    let mut bytes = vec![0u8, 0, 0, 0];
    bytes.extend_from_slice(&[0u8; 32]);
    assert_eq!(FileMerkleTree::decode(&bytes).unwrap_err(), Error::DecodeError);

    // A declared size of 65537 bytes would need 65 pieces: over budget.
    let bytes = vec![0x01u8, 0x00, 0x01, 0x00];
    assert_eq!(FileMerkleTree::decode(&bytes).unwrap_err(), Error::DecodeError);
}
