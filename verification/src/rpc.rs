use vstd::prelude::*;

use core::marker::PhantomData;
use std::sync::Arc;

use crate::ascii::{ascii_chars, ascii_to_string};
use crate::file_merkle_tree::FileMerkleTree;
use crate::ipfs::{cid_spec, ipfs_get_hash_from_sha256};
use crate::tree::{sibling_path, stored_path, views_of};
use vstd::string::StringSliceAdditionalSpecFns;

verus! {

/// One lower-case hex digit for a value below 16.
pub open spec fn hex_digit(n: u8) -> u8 {
    if n < 10 {
        (48 + n) as u8
    } else {
        (87 + n) as u8
    }
}

/// The lower-case hex bytes of a byte sequence, two digits per byte, high
/// digit first.
pub open spec fn hex_bytes(s: Seq<u8>) -> Seq<u8> {
    Seq::new(
        2 * s.len(),
        |i: int|
            if i % 2 == 0 {
                hex_digit(s[i / 2] / 16)
            } else {
                hex_digit(s[i / 2] % 16)
            },
    )
}

/// True of the bytes of a parsable hex string: even length, hex digits of
/// either case throughout.
pub open spec fn hex_decode_ok(s: Seq<u8>) -> bool {
    &&& s.len() % 2 == 0
    &&& forall|i: int| 0 <= i < s.len() ==> is_hex_digit(#[trigger] s[i])
}

/// True of ASCII bytes for `0`-`9`, `a`-`f` and `A`-`F`.
pub open spec fn is_hex_digit(b: u8) -> bool {
    (48 <= b <= 57) || (97 <= b <= 102) || (65 <= b <= 70)
}

/// The value of one hex digit byte.
pub open spec fn hex_val(b: u8) -> u8 {
    if 48 <= b <= 57 {
        (b - 48) as u8
    } else if 97 <= b <= 102 {
        (b - 87) as u8
    } else if 65 <= b <= 70 {
        (b - 55) as u8
    } else {
        0
    }
}

/// The bytes denoted by a sequence of hex digit bytes, two per byte.
pub open spec fn hex_decode_spec(s: Seq<u8>) -> Seq<u8> {
    Seq::new(s.len() / 2, |i: int| (16 * hex_val(s[2 * i]) + hex_val(s[2 * i + 1])) as u8)
}

fn hex_digit_exec(n: u8) -> (r: u8)
    requires
        n < 16,
    ensures
        r == hex_digit(n),
        r < 128,
{
    if n < 10 {
        48 + n
    } else {
        87 + n
    }
}

fn hex_val_exec(b: u8) -> (r: Option<u8>)
    ensures
        r is Some <==> is_hex_digit(b),
        r matches Some(v) ==> v == hex_val(b) && v < 16,
{
    if 48 <= b && b <= 57 {
        Some(b - 48)
    } else if 97 <= b && b <= 102 {
        Some(b - 87)
    } else if 65 <= b && b <= 70 {
        Some(b - 55)
    } else {
        None
    }
}

/// Renders bytes as their lower-case hex string, two digits per byte.
pub fn vec_to_hex_string(data: &[u8]) -> (r: String)
    ensures
        r@ == ascii_chars(hex_bytes(data@)),
{
    let mut out: Vec<u8> = Vec::new();
    let mut i: usize = 0;
    proof {
        assert(out@ =~= hex_bytes(data@.take(0)));
    }
    while i < data.len()
        invariant
            0 <= i <= data@.len(),
            out@ == hex_bytes(data@.take(i as int)),
            forall|j: int| 0 <= j < out@.len() ==> out@[j] < 128,
        decreases data@.len() - i,
    {
        let b = *vstd::slice::slice_index_get(data, i);
        out.push(hex_digit_exec(b / 16));
        out.push(hex_digit_exec(b % 16));
        proof {
            assert(out@ =~= hex_bytes(data@.take(i + 1)));
        }
        i = i + 1;
    }
    proof {
        assert(data@.take(data@.len() as int) =~= data@);
    }
    ascii_to_string(out)
}

/// Parses a hex string, two digits (of either case) per byte, into bytes;
/// nothing when the length is odd or a byte is no hex digit.
pub fn hex_to_bytes(s: &str) -> (r: Option<Vec<u8>>)
    ensures
        r is Some <==> hex_decode_ok(s.spec_bytes()),
        r matches Some(v) ==> v@ == hex_decode_spec(s.spec_bytes()),
{
    let bytes = s.as_bytes();
    if bytes.len() % 2 != 0 {
        return None;
    }
    let mut out: Vec<u8> = Vec::new();
    let mut i: usize = 0;
    proof {
        assert(out@ =~= hex_decode_spec(bytes@.take(0)));
    }
    while i < bytes.len()
        invariant
            0 <= i <= bytes@.len(),
            i % 2 == 0,
            bytes@.len() % 2 == 0,
            bytes@ == s.spec_bytes(),
            forall|j: int| 0 <= j < i ==> is_hex_digit(#[trigger] bytes@[j]),
            out@ == hex_decode_spec(bytes@.take(i as int)),
        decreases bytes@.len() - i,
    {
        let c1 = *vstd::slice::slice_index_get(bytes, i);
        let c2 = *vstd::slice::slice_index_get(bytes, i + 1);
        let v1 = match hex_val_exec(c1) {
            None => {
                return None;
            },
            Some(v) => v,
        };
        let v2 = match hex_val_exec(c2) {
            None => {
                return None;
            },
            Some(v) => v,
        };
        out.push(16 * v1 + v2);
        proof {
            assert(out@ =~= hex_decode_spec(bytes@.take(i + 2)));
        }
        i = i + 2;
    }
    proof {
        assert(bytes@.take(bytes@.len() as int) =~= bytes@);
    }
    Some(out)
}

/// Hex encoding then decoding gives back the bytes: the wire encoding of
/// roots and sibling hashes is exactly invertible.
pub proof fn lemma_hex_round_trip(data: Seq<u8>)
    ensures
        hex_decode_ok(hex_bytes(data)),
        hex_decode_spec(hex_bytes(data)) == data,
{
    let h = hex_bytes(data);
    assert forall|i: int| 0 <= i < h.len() implies is_hex_digit(#[trigger] h[i]) by {
        assert(0 <= i / 2 < data.len());
    }
    assert forall|i: int| 0 <= i < data.len() implies hex_decode_spec(h)[i] == data[i] by {
        assert(h[2 * i] == hex_digit(data[i] / 16));
        assert(h[2 * i + 1] == hex_digit(data[i] % 16));
        assert(16 * (data[i] / 16) + data[i] % 16 == data[i]);
    }
    assert(hex_decode_spec(h) =~= data);
}

/// One stored file as listed over the query interface: the hex-encoded
/// merkle root next to the piece count.
pub struct HashItem {
    pub hash: String,
    pub pieces: u32,
}

/// One piece's proof as served over the query interface: the piece's
/// content address and the hex-encoded sibling hashes, bottom-to-top.
pub struct MerkleProof {
    pub content: String,
    pub proof_hashes: Vec<String>,
}

/// Handle through which the query interface reaches a backing client.
pub struct TrustlessFileServerPallet<C, Block> {
    client: Arc<C>,
    _marker: PhantomData<Block>,
}

impl<C, Block> TrustlessFileServerPallet<C, Block> {
    /// The backing client this handle was created with.
    pub closed spec fn client_spec(&self) -> Arc<C> {
        self.client
    }

    /// Create new `TrustlessFileServerPallet` instance with the given
    /// reference to the client.
    pub fn new(client: Arc<C>) -> (r: Self)
        ensures
            r.client_spec() == client,
    {
        TrustlessFileServerPallet { client, _marker: PhantomData }
    }
}

/// The query listing built from stored roots and piece counts: each root
/// hex-encoded next to its piece count, in the given order.
pub fn files_to_hash_items(files: &Vec<(Vec<u8>, u32)>) -> (r: Vec<HashItem>)
    ensures
        r@.len() == files@.len(),
        forall|i: int|
            0 <= i < files@.len() ==> {
                &&& (#[trigger] r@[i]).hash@ == ascii_chars(hex_bytes(files@[i].0@))
                &&& r@[i].pieces == files@[i].1
            },
{
    let mut items: Vec<HashItem> = Vec::new();
    let mut i: usize = 0;
    while i < files.len()
        invariant
            0 <= i <= files@.len(),
            items@.len() == i,
            forall|j: int|
                0 <= j < i ==> {
                    &&& (#[trigger] items@[j]).hash@ == ascii_chars(hex_bytes(files@[j].0@))
                    &&& items@[j].pieces == files@[j].1
                },
        decreases files@.len() - i,
    {
        let entry = &files[i];
        let hash = vec_to_hex_string(entry.0.as_slice());
        items.push(HashItem { hash, pieces: entry.1 });
        i = i + 1;
    }
    items
}

/// The query response for one proof: the content address kept as it is,
/// each sibling hash hex-encoded, in the given order.
pub fn to_merkle_proof_response(content: String, siblings: &Vec<Vec<u8>>) -> (r: MerkleProof)
    ensures
        r.content == content,
        r.proof_hashes@.len() == siblings@.len(),
        forall|i: int|
            0 <= i < siblings@.len() ==> (#[trigger] r.proof_hashes@[i])@ == ascii_chars(
                hex_bytes(siblings@[i]@),
            ),
{
    let mut rendered: Vec<String> = Vec::new();
    let mut i: usize = 0;
    while i < siblings.len()
        invariant
            0 <= i <= siblings@.len(),
            rendered@.len() == i,
            forall|j: int|
                0 <= j < i ==> (#[trigger] rendered@[j])@ == ascii_chars(
                    hex_bytes(siblings@[j]@),
                ),
        decreases siblings@.len() - i,
    {
        let s = vec_to_hex_string(siblings[i].as_slice());
        rendered.push(s);
        i = i + 1;
    }
    MerkleProof { content, proof_hashes: rendered }
}

/// The proof payload served for one piece of a stored tree: the piece's
/// content address and its sibling path; nothing when the position is out
/// of range.
pub fn get_proof(tree: &FileMerkleTree, position: u32) -> (r: Option<(String, Vec<Vec<u8>>)>)
    requires
        position < tree.num_pieces() ==> tree.wf(),
    ensures
        r is Some <==> position < tree.num_pieces(),
        r matches Some(p) ==> {
            &&& p.0@ == cid_spec(tree.chunk_hash_spec(position as int))
            &&& views_of(p.1@) == stored_path(tree.nodes(), 0, tree.num_leaves(), position as int)
            &&& tree.merkle_consistent() ==> views_of(p.1@) == sibling_path(
                tree.leaf_level(),
                position as int,
            )
        },
{
    let siblings = match tree.merkle_proof(position) {
        None => {
            return None;
        },
        Some(s) => s,
    };
    let hash = match tree.file_chunk_hash_at(position) {
        None => {
            return None;
        },
        Some(h) => h,
    };
    let address = ipfs_get_hash_from_sha256(&hash);
    Some((address, siblings))
}

} // verus!
