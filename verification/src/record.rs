use vstd::prelude::*;

use crate::file_merkle_tree::{
    calculate_has_boundary, calculate_pieces, lemma_plan, push_bytes, spec_has_boundary,
    spec_leaves, spec_pieces, FileMerkleTree, MAX_PIECES,
};
use crate::Error;

verus! {

/// The little-endian bytes of a 32-bit length, least significant first.
pub open spec fn le4_bytes(n: u32) -> Seq<u8> {
    seq![n as u8, (n >> 8) as u8, (n >> 16) as u8, (n >> 24) as u8]
}

/// The 32-bit value read from four little-endian bytes.
pub open spec fn le4_val(b0: u8, b1: u8, b2: u8, b3: u8) -> u32 {
    (b0 as u32) | ((b1 as u32) << 8) | ((b2 as u32) << 16) | ((b3 as u32) << 24)
}

pub proof fn lemma_le4_val_of_bytes(n: u32)
    ensures
        le4_val(n as u8, (n >> 8) as u8, (n >> 16) as u8, (n >> 24) as u8) == n,
{
    assert(((n as u8) as u32) | ((((n >> 8) as u8) as u32) << 8) | ((((n >> 16) as u8) as u32)
        << 16) | ((((n >> 24) as u8) as u32) << 24) == n) by (bit_vector);
}

pub proof fn lemma_le4_bytes_of_val(b0: u8, b1: u8, b2: u8, b3: u8)
    ensures
        le4_bytes(le4_val(b0, b1, b2, b3)) == seq![b0, b1, b2, b3],
{
    let n = le4_val(b0, b1, b2, b3);
    assert(((b0 as u32) | ((b1 as u32) << 8) | ((b2 as u32) << 16) | ((b3 as u32) << 24)) as u8
        == b0) by (bit_vector);
    assert((((b0 as u32) | ((b1 as u32) << 8) | ((b2 as u32) << 16) | ((b3 as u32) << 24)) >> 8)
        as u8 == b1) by (bit_vector);
    assert((((b0 as u32) | ((b1 as u32) << 8) | ((b2 as u32) << 16) | ((b3 as u32) << 24)) >> 16)
        as u8 == b2) by (bit_vector);
    assert((((b0 as u32) | ((b1 as u32) << 8) | ((b2 as u32) << 16) | ((b3 as u32) << 24)) >> 24)
        as u8 == b3) by (bit_vector);
    assert(le4_bytes(n) =~= seq![b0, b1, b2, b3]);
}

/// Length of the boundary-hash part of a persisted record.
pub open spec fn boundary_len(file_size: nat) -> nat {
    if spec_has_boundary(file_size) {
        32
    } else {
        0
    }
}

/// The persisted shape of a tree: the 4-byte little-endian file size, the
/// boundary hash only when the file size implies one, then the whole node
/// buffer.
pub open spec fn encode_spec(t: FileMerkleTree) -> Seq<u8> {
    le4_bytes(t.file_size as u32) + (if t.boundary_hash is Some {
        t.boundary_hash.unwrap()@
    } else {
        Seq::<u8>::empty()
    }) + t.merkle_tree@
}

/// The file size declared by a persisted record.
pub open spec fn record_file_size(b: Seq<u8>) -> nat {
    le4_val(b[0], b[1], b[2], b[3]) as nat
}

/// Whether a persisted record is well-formed: long enough for its header,
/// declaring a representable tree, and of exactly the length its declared
/// file size implies.
pub open spec fn record_valid(b: Seq<u8>) -> bool {
    &&& b.len() >= 4
    &&& record_file_size(b) >= 1
    &&& spec_pieces(record_file_size(b)) <= MAX_PIECES
    &&& b.len() == 4 + boundary_len(record_file_size(b)) + 32 * (2 * spec_leaves(
        record_file_size(b),
    ) - 1)
}

impl FileMerkleTree {
    /// Encodes this tree into its persisted record shape.
    pub fn encode(&self) -> (r: Vec<u8>)
        requires
            self.wf(),
        ensures
            r@ == encode_spec(*self),
    {
        let n = self.file_size as u32;
        let mut out: Vec<u8> = Vec::new();
        out.push(#[verifier::truncate] (n as u8));
        out.push(#[verifier::truncate] ((n >> 8) as u8));
        out.push(#[verifier::truncate] ((n >> 16) as u8));
        out.push(#[verifier::truncate] ((n >> 24) as u8));
        proof {
            assert(out@ =~= le4_bytes(n));
        }
        if let Some(boundary) = &self.boundary_hash {
            push_bytes(&mut out, boundary.as_slice());
        }
        push_bytes(&mut out, self.merkle_tree.as_slice());
        proof {
            assert(out@ =~= encode_spec(*self));
        }
        out
    }

    /// Decodes a persisted record, recomputing the boundary presence from
    /// the declared file size and checking every length, so that malformed
    /// or truncated bytes are rejected rather than misread.
    pub fn decode(bytes: &[u8]) -> (r: Result<FileMerkleTree, Error>)
        ensures
            r is Ok <==> record_valid(bytes@),
            r matches Ok(t) ==> {
                &&& t.wf()
                &&& t.file_size == record_file_size(bytes@)
                &&& t.merkle_tree@ == bytes@.subrange(
                    4 + boundary_len(record_file_size(bytes@)) as int,
                    bytes@.len() as int,
                )
                &&& (spec_has_boundary(record_file_size(bytes@)) ==> t.boundary_hash is Some
                    && t.boundary_hash.unwrap()@ == bytes@.subrange(4, 36))
                &&& (!spec_has_boundary(record_file_size(bytes@)) ==> t.boundary_hash is None)
            },
            r is Err ==> r == Err::<FileMerkleTree, Error>(Error::DecodeError),
    {
        if bytes.len() < 4 {
            return Err(Error::DecodeError);
        }
        let b0 = *vstd::slice::slice_index_get(bytes, 0);
        let b1 = *vstd::slice::slice_index_get(bytes, 1);
        let b2 = *vstd::slice::slice_index_get(bytes, 2);
        let b3 = *vstd::slice::slice_index_get(bytes, 3);
        let fs_u32 = (b0 as u32) | ((b1 as u32) << 8) | ((b2 as u32) << 16) | ((b3 as u32) << 24);
        proof {
            assert(fs_u32 == le4_val(bytes@[0], bytes@[1], bytes@[2], bytes@[3]));
        }
        let fs = fs_u32 as usize;
        if fs == 0 {
            return Err(Error::DecodeError);
        }
        proof {
            lemma_plan(fs as nat);
        }
        let pieces = calculate_pieces(fs);
        if pieces > MAX_PIECES {
            return Err(Error::DecodeError);
        }
        let has_boundary = calculate_has_boundary(fs);
        let b_len: usize = if has_boundary {
            32
        } else {
            0
        };
        let leaves = crate::file_merkle_tree::next_power_of_two(pieces) as usize;
        let expected: usize = 4 + b_len + 32 * (2 * leaves - 1);
        if bytes.len() != expected {
            return Err(Error::DecodeError);
        }
        let boundary_hash: Option<Vec<u8>> = if has_boundary {
            Some(vstd::slice::slice_to_vec(vstd::slice::slice_subrange(bytes, 4, 36)))
        } else {
            None
        };
        let tree = vstd::slice::slice_to_vec(
            vstd::slice::slice_subrange(bytes, 4 + b_len, bytes.len()),
        );
        Ok(FileMerkleTree { merkle_tree: tree, file_size: fs, boundary_hash })
    }
}

/// Encoding then decoding gives back every field: the record is exactly
/// invertible for every well-formed tree.
pub proof fn lemma_record_round_trip(t: FileMerkleTree)
    requires
        t.wf(),
    ensures
        record_valid(encode_spec(t)),
        record_file_size(encode_spec(t)) == t.file_size,
        encode_spec(t).subrange(
            4 + boundary_len(t.file_size as nat) as int,
            encode_spec(t).len() as int,
        ) == t.merkle_tree@,
        spec_has_boundary(t.file_size as nat) ==> encode_spec(t).subrange(4, 36)
            == t.boundary_hash.unwrap()@,
{
    let b = encode_spec(t);
    let n = t.file_size as u32;
    lemma_le4_val_of_bytes(n);
    assert(b[0] == n as u8 && b[1] == (n >> 8) as u8 && b[2] == (n >> 16) as u8 && b[3] == (n
        >> 24) as u8);
    assert(record_file_size(b) == t.file_size);
    assert(b.len() == 4 + boundary_len(t.file_size as nat) + t.merkle_tree@.len());
    assert(b.subrange(4 + boundary_len(t.file_size as nat) as int, b.len() as int)
        =~= t.merkle_tree@);
    if spec_has_boundary(t.file_size as nat) {
        assert(b.subrange(4, 36) =~= t.boundary_hash.unwrap()@);
    }
}

} // verus!
