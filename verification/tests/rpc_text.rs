use std::sync::Arc;

use sha2::{Digest, Sha256};
use trustless_file_server::file_merkle_tree::FileMerkleTree;
use trustless_file_server::ipfs::ipfs_get_hash_from_sha256;
use trustless_file_server::rpc::{
    files_to_hash_items, get_proof, hex_to_bytes, to_merkle_proof_response, vec_to_hex_string,
    TrustlessFileServerPallet,
};

fn sha(data: &[u8]) -> [u8; 32] {
    let mut out = [0u8; 32];
    out.copy_from_slice(&Sha256::digest(data));
    out
}

fn sample_bytes(n: usize) -> Vec<u8> {
    let mut out = Vec::with_capacity(n);
    for i in 0..n {
        out.push(((i * 17 + 3) % 253) as u8);
    }
    out
}

/// An independent CIDv1 rendering: the 4-byte raw/SHA-256 multihash prefix,
/// base-32 (RFC 4648) with a lower-case alphabet and no padding, behind the
/// multibase tag `b`.
fn reference_cid(hash: &[u8; 32]) -> String {
    let mut data = vec![0x01u8, 0x55, 0x12, 0x20];
    data.extend_from_slice(hash);
    let alphabet = b"abcdefghijklmnopqrstuvwxyz234567";
    let mut out = String::from("b");
    let mut bits: u32 = 0;
    let mut nbits: u32 = 0;
    for &byte in &data {
        bits = (bits << 8) | byte as u32;
        nbits += 8;
        while nbits >= 5 {
            nbits -= 5;
            out.push(alphabet[((bits >> nbits) & 31) as usize] as char);
        }
    }
    if nbits > 0 {
        out.push(alphabet[((bits << (5 - nbits)) & 31) as usize] as char);
    }
    out
}

#[test]
fn hex_encoding_known_values() {
    assert_eq!(vec_to_hex_string(&[]), "");
    assert_eq!(vec_to_hex_string(&[0x00, 0xff, 0x1a]), "00ff1a");
    assert_eq!(vec_to_hex_string(&[0xde, 0xad, 0xbe, 0xef]), "deadbeef");
}

#[test]
fn hex_decoding_known_values() {
    assert_eq!(hex_to_bytes("00ff1a"), Some(vec![0x00, 0xff, 0x1a]));
    assert_eq!(hex_to_bytes("00FF1A"), Some(vec![0x00, 0xff, 0x1a]));
    assert_eq!(hex_to_bytes(""), Some(Vec::new()));
    assert_eq!(hex_to_bytes("0"), None);
    assert_eq!(hex_to_bytes("zz"), None);
    assert_eq!(hex_to_bytes("0g"), None);
}

#[test]
fn hex_round_trips() {
    let data = sample_bytes(100);
    let rendered = vec_to_hex_string(&data);
    assert_eq!(hex_to_bytes(&rendered), Some(data));
}

#[test]
fn content_address_matches_reference_encoding() {
    let hashes = [sha(b"alpha"), sha(b"beta"), [0u8; 32], [0xffu8; 32]];
    for hash in &hashes {
        let address = ipfs_get_hash_from_sha256(hash);
        assert_eq!(address, reference_cid(hash));
        assert_eq!(address.len(), 59);
        assert!(address.starts_with('b'));
    }
}

#[test]
fn content_address_is_stable_and_injective_on_samples() {
    let mut addresses = Vec::new();
    for i in 0..20u8 {
        let hash = sha(&[i]);
        let a1 = ipfs_get_hash_from_sha256(&hash);
        let a2 = ipfs_get_hash_from_sha256(&hash);
        assert_eq!(a1, a2);
        addresses.push(a1);
    }
    for i in 0..addresses.len() {
        for j in 0..i {
            assert_ne!(addresses[i], addresses[j]);
        }
    }
}

#[test]
fn pallet_handle_construction() {
    let client = Arc::new(7u32);
    let _pallet: TrustlessFileServerPallet<u32, ()> = TrustlessFileServerPallet::new(client);
}

#[test]
fn listing_renders_roots_as_hex() {
    let files = vec![(vec![0xde, 0xad], 2u32), (vec![0x00, 0x01], 12u32)];
    let items = files_to_hash_items(&files);
    assert_eq!(items.len(), 2);
    assert_eq!(items[0].hash, "dead");
    assert_eq!(items[0].pieces, 2);
    assert_eq!(items[1].hash, "0001");
    assert_eq!(items[1].pieces, 12);
}

#[test]
fn proof_response_renders_siblings_as_hex() {
    let siblings = vec![vec![0x01, 0x02], vec![0xff]];
    let response = to_merkle_proof_response(String::from("baddr"), &siblings);
    assert_eq!(response.content, "baddr");
    assert_eq!(response.proof_hashes, vec!["0102", "ff"]);
}

#[test]
fn get_proof_serves_address_and_siblings() {
    let content = sample_bytes(5000);
    let tree = FileMerkleTree::new(&content).unwrap();
    let (address, siblings) = get_proof(&tree, 0).unwrap();
    assert_eq!(address, reference_cid(&tree.file_chunk_hash_at(0).unwrap()));
    assert_eq!(siblings, tree.merkle_proof(0).unwrap());
    assert!(get_proof(&tree, tree.pieces()).is_none());
}
