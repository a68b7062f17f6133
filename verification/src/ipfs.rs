use vstd::prelude::*;

use crate::ascii::{ascii_chars, ascii_to_string};
use crate::file_merkle_tree::push_bytes;

verus! {

/// What `binascii::b32encode` returns: the RFC 4648 base-32 encoding of the
/// input bytes, a pure function of them.
pub uninterp spec fn base32_of(data: Seq<u8>) -> Seq<u8>;

/// Relies on `binascii::b32encode`: writes the RFC 4648 base-32 encoding of
/// `data` (upper-case letters, digits `2`-`7`, trailing `=` padding), which
/// depends on the input bytes alone; 36 input bytes give 64 ASCII bytes.
#[verifier::external_body]
fn base32_encode(data: &[u8]) -> (r: Vec<u8>)
    requires
        data@.len() == 36,
    ensures
        r@ == base32_of(data@),
        r@.len() == 64,
        forall|i: int| 0 <= i < r@.len() ==> r@[i] < 128,
{
    let mut buf = [0u8; 256];
    match binascii::b32encode(data, &mut buf) {
        Ok(s) => s.to_vec(),
        Err(_) => Vec::new(),
    }
}

/// Lower-cases an upper-case ASCII letter byte, leaving other bytes as
/// they are.
pub open spec fn to_lower(b: u8) -> u8 {
    if 65 <= b <= 90 {
        (b + 32) as u8
    } else {
        b
    }
}

/// Drops every `=` padding byte and lower-cases what remains.
pub open spec fn strip_pad_lower(s: Seq<u8>) -> Seq<u8>
    decreases s.len(),
{
    if s.len() == 0 {
        Seq::<u8>::empty()
    } else {
        let rest = strip_pad_lower(s.drop_last());
        if s.last() == 61 {
            rest
        } else {
            rest.push(to_lower(s.last()))
        }
    }
}

/// The multicodec / multihash prefix declaring a raw binary block hashed
/// with SHA-256 to a 32-byte digest.
pub open spec fn cid_prefix() -> Seq<u8> {
    seq![0x01u8, 0x55u8, 0x12u8, 0x20u8]
}

/// The content address of a 32-byte hash: the multibase tag `b` followed by
/// the base-32 digits (lower-case, no padding) of the prefixed hash.
pub open spec fn cid_spec(hash: Seq<u8>) -> Seq<char> {
    ascii_chars(seq![98u8] + strip_pad_lower(base32_of(cid_prefix() + hash)))
}

/// Maps a 32-byte hash to the content-address string under which a chunk
/// with that hash can be looked up in a content-addressed object store.
/// The mapping is a pure function of the hash bytes.
pub fn ipfs_get_hash_from_sha256(hash: &[u8; 32]) -> (r: String)
    ensures
        r@ == cid_spec(hash@),
{
    let mut data: Vec<u8> = Vec::new();
    data.push(0x01);
    data.push(0x55);
    data.push(0x12);
    data.push(0x20);
    push_bytes(&mut data, hash.as_slice());
    proof {
        assert(data@ =~= cid_prefix() + hash@);
    }
    let encoded = base32_encode(data.as_slice());
    let mut out: Vec<u8> = Vec::new();
    out.push(98);
    proof {
        assert(strip_pad_lower(encoded@.take(0)) =~= Seq::<u8>::empty());
        assert(out@ =~= seq![98u8] + strip_pad_lower(encoded@.take(0)));
    }
    let mut i: usize = 0;
    while i < encoded.len()
        invariant
            0 <= i <= encoded@.len(),
            forall|j: int| 0 <= j < encoded@.len() ==> encoded@[j] < 128,
            out@ == seq![98u8] + strip_pad_lower(encoded@.take(i as int)),
            forall|j: int| 0 <= j < out@.len() ==> out@[j] < 128,
        decreases encoded@.len() - i,
    {
        let b = encoded[i];
        proof {
            assert(encoded@.take(i + 1).drop_last() =~= encoded@.take(i as int));
            assert(encoded@.take(i + 1).last() == encoded@[i as int]);
        }
        if b != 61 {
            let lowered = if 65 <= b && b <= 90 {
                b + 32
            } else {
                b
            };
            out.push(lowered);
            proof {
                assert(lowered == to_lower(encoded@[i as int]));
                assert(out@ =~= seq![98u8] + strip_pad_lower(encoded@.take(i + 1)));
            }
        } else {
            proof {
                assert(out@ =~= seq![98u8] + strip_pad_lower(encoded@.take(i + 1)));
            }
        }
        i = i + 1;
    }
    proof {
        assert(encoded@.take(encoded@.len() as int) =~= encoded@);
    }
    ascii_to_string(out)
}

/// The content address is stable across calls: it is a pure function of
/// the hash bytes, so any two addresses computed for the same hash agree.
pub proof fn lemma_content_address_deterministic(hash: Seq<u8>, s1: Seq<char>, s2: Seq<char>)
    requires
        s1 == cid_spec(hash),
        s2 == cid_spec(hash),
    ensures
        s1 == s2,
{
}

} // verus!
