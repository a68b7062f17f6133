use sha2::{Digest, Sha256};
use trustless_file_server::file_merkle_tree::{
    calculate_chunk_size, calculate_has_boundary, calculate_pieces, verify, FileMerkleTree,
};
use trustless_file_server::Error;

/// Deterministic sample contents so every run sees the same file.
fn sample_bytes(n: usize) -> Vec<u8> {
    let mut out = Vec::with_capacity(n);
    for i in 0..n {
        out.push(((i * 31 + 7) % 251) as u8);
    }
    out
}

fn sha(data: &[u8]) -> [u8; 32] {
    let mut out = [0u8; 32];
    out.copy_from_slice(&Sha256::digest(data));
    out
}

#[test]
fn test_merkle_tree_should_work() {
    let content = sample_bytes(11700);
    let tree = FileMerkleTree::new(&content).unwrap();

    // check sizes
    let chunk_size = tree.chunk_size();
    assert_eq!(chunk_size, 1024);
    assert_eq!(tree.pieces(), 12);

    // check hashes
    for (index, chunk) in content.chunks(chunk_size).enumerate() {
        assert_eq!(tree.file_chunk_hash_at(index as u32), Some(sha(chunk)));
    }
    assert_eq!(tree.file_chunk_hash_at(12), None);

    // check proof
    let merkle_root = tree.merkle_root().to_vec();
    let proof = match tree.merkle_proof(0) {
        None => panic!("Could not get the proof"),
        Some(p) => p,
    };
    assert_eq!(proof.len(), 4);
    let first_chunk = &content[..chunk_size];
    let mut current = sha(first_chunk).to_vec();
    for hash in proof {
        let mut buf = current.clone();
        buf.extend_from_slice(&hash);
        current = sha(&buf).to_vec();
    }
    assert_eq!(current, merkle_root);
}

#[test]
fn twelve_exact_chunks_match_manual_tree() {
    // A file of exactly 12 chunks of 1024 bytes: no boundary chunk.
    let content = sample_bytes(12 * 1024);
    let tree = FileMerkleTree::new(&content).unwrap();
    assert_eq!(tree.chunk_size(), 1024);
    assert_eq!(tree.pieces(), 12);
    assert!(tree.boundary_hash.is_none());
    assert!(!calculate_has_boundary(content.len()));

    // Build the tree by hand: 12 chunk hashes, 4 zero fillers, 4 levels up.
    let mut level: Vec<[u8; 32]> = content.chunks(1024).map(sha).collect();
    while level.len() < 16 {
        level.push([0u8; 32]);
    }
    let mut levels = 0;
    while level.len() > 1 {
        let mut next = Vec::new();
        for pair in level.chunks(2) {
            let mut buf = pair[0].to_vec();
            buf.extend_from_slice(&pair[1]);
            next.push(sha(&buf));
        }
        level = next;
        levels += 1;
    }
    assert_eq!(levels, 4);
    assert_eq!(tree.merkle_root(), &level[0][..]);

    // Every leaf's proof has one sibling per level walked.
    for pos in 0..12u32 {
        let proof = tree.merkle_proof(pos).unwrap();
        assert_eq!(proof.len(), 4);
    }
}

#[test]
fn verify_round_trips_for_every_full_chunk() {
    let content = sample_bytes(12 * 1024);
    let tree = FileMerkleTree::new(&content).unwrap();
    let root = tree.merkle_root().to_vec();
    for pos in 0..tree.pieces() {
        let hash = tree.file_chunk_hash_at(pos).unwrap();
        let proof = tree.merkle_proof(pos).unwrap();
        assert!(verify(&hash, pos, &proof, &root));
    }
}

#[test]
fn verify_rejects_tampered_proofs() {
    let content = sample_bytes(5000);
    let tree = FileMerkleTree::new(&content).unwrap();
    let root = tree.merkle_root().to_vec();
    let hash = tree.file_chunk_hash_at(0).unwrap();
    let mut proof = tree.merkle_proof(0).unwrap();
    assert!(verify(&hash, 0, &proof, &root));
    proof[0][0] ^= 1;
    assert!(!verify(&hash, 0, &proof, &root));
    // A wrong position fails as well.
    let proof = tree.merkle_proof(0).unwrap();
    assert!(!verify(&hash, 1, &proof, &root));
}

#[test]
fn one_byte_file() {
    // chunk_size 1024, one piece, a boundary chunk of one byte.
    let content = vec![0xABu8];
    let tree = FileMerkleTree::new(&content).unwrap();
    assert_eq!(tree.chunk_size(), 1024);
    assert_eq!(tree.pieces(), 1);
    assert!(calculate_has_boundary(1));
    assert_eq!(tree.boundary_hash, Some(sha(&content).to_vec()));

    // The single tree leaf hashes the zero-padded chunk, and is the root.
    let mut padded = vec![0u8; 1024];
    padded[0] = 0xAB;
    let leaf = sha(&padded);
    assert_eq!(tree.merkle_tree, leaf.to_vec());
    assert_eq!(tree.merkle_root(), &leaf[..]);

    // A single-leaf tree has an empty proof.
    let proof = tree.merkle_proof(0).unwrap();
    assert!(proof.is_empty());

    // The served chunk hash is of the unpadded byte, so it differs from the
    // tree leaf: walking the proof from it does not reproduce the root,
    // while the padded-chunk hash does.
    let served = tree.file_chunk_hash_at(0).unwrap();
    assert_eq!(served, sha(&content));
    let root = tree.merkle_root().to_vec();
    assert!(!verify(&served, 0, &proof, &root));
    assert!(verify(&leaf, 0, &proof, &root));
}

#[test]
fn build_is_deterministic() {
    let content = sample_bytes(9000);
    let t1 = FileMerkleTree::new(&content).unwrap();
    let t2 = FileMerkleTree::new(&content).unwrap();
    assert_eq!(t1.merkle_tree, t2.merkle_tree);
    assert_eq!(t1.merkle_root(), t2.merkle_root());
    assert_eq!(t1.boundary_hash, t2.boundary_hash);
}

#[test]
fn changing_one_byte_changes_the_root() {
    let content = sample_bytes(9000);
    let t1 = FileMerkleTree::new(&content).unwrap();
    let mut altered = content.clone();
    altered[4321] ^= 0x40;
    let t2 = FileMerkleTree::new(&altered).unwrap();
    assert_ne!(t1.merkle_root(), t2.merkle_root());
}

#[test]
fn positions_out_of_range_get_nothing() {
    let content = sample_bytes(3000);
    let tree = FileMerkleTree::new(&content).unwrap();
    let pieces = tree.pieces();
    assert!(tree.merkle_proof(pieces).is_none());
    assert!(tree.merkle_proof(pieces + 10).is_none());
    assert!(tree.file_chunk_hash_at(pieces).is_none());

    // A degenerate tree with no pieces never yields a proof.
    let empty = FileMerkleTree { merkle_tree: Vec::new(), file_size: 0, boundary_hash: None };
    assert_eq!(calculate_pieces(0), 0);
    assert!(empty.merkle_proof(0).is_none());
    assert!(empty.file_chunk_hash_at(0).is_none());
    assert!(!empty.is_well_formed());
}

#[test]
fn construction_rejects_invalid_input() {
    assert!(matches!(FileMerkleTree::new(&[]), Err(Error::InvalidInput)));
}

#[test]
fn construction_rejects_too_many_pieces() {
    // 65537 bytes need 65 chunks of 1024 bytes: over the leaf budget.
    let content = sample_bytes(65537);
    assert_eq!(calculate_chunk_size(65537), 1024);
    assert_eq!(calculate_pieces(65537), 65);
    assert!(matches!(FileMerkleTree::new(&content), Err(Error::InvalidInput)));

    // 65536 bytes split into exactly 64 chunks and are accepted.
    let content = sample_bytes(65536);
    assert_eq!(calculate_pieces(65536), 64);
    let tree = FileMerkleTree::new(&content).unwrap();
    assert_eq!(tree.pieces(), 64);
    assert!(tree.is_well_formed());
}

#[test]
fn large_files_get_larger_chunks() {
    // Above 64 KiB the chunk size grows with the file.
    assert_eq!(calculate_chunk_size(128 * 1024), 2048);
    assert_eq!(calculate_pieces(128 * 1024), 64);
    assert_eq!(calculate_chunk_size(1000), 1024);
    assert_eq!(calculate_pieces(1000), 1);
    assert!(calculate_has_boundary(1000));
    assert!(!calculate_has_boundary(2048));
}

#[test]
fn file_chunk_at_serves_raw_chunks() {
    let content = sample_bytes(5000);
    let pieces = calculate_pieces(content.len());
    assert_eq!(pieces, 5);
    for (index, chunk) in content.chunks(1024).enumerate() {
        let served = FileMerkleTree::file_chunk_at(&content, index as u32).unwrap();
        assert_eq!(served, chunk.to_vec());
    }
    // The final chunk is served unpadded.
    let last = FileMerkleTree::file_chunk_at(&content, 4).unwrap();
    assert_eq!(last.len(), 5000 - 4 * 1024);
    assert!(FileMerkleTree::file_chunk_at(&content, 5).is_none());
}
