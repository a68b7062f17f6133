use vstd::prelude::*;

use vstd::arithmetic::div_mod::{lemma_fundamental_div_mod, lemma_mod_bound};
use vstd::arithmetic::mul::lemma_mul_inequality;

use crate::hashing::{sha256, sha256_seq};
use crate::tree::{
    climb, hashes_of, is_pow2, lemma_climb_root, lemma_hashes_of_injective, lemma_hashes_of_push,
    lemma_next_pow2_props, lemma_next_pow2_unique, lemma_root_is_last, lemma_stored_path_equiv,
    lemma_tree_nodes_len, lemma_tree_nodes_split, level_up, log2, next_pow2, sibling_path,
    stored_path, tree_nodes, views_of,
};
use crate::Error;

verus! {

/// Number of pieces a file is aimed to be split into when it is large.
pub const TARGET_PIECES: usize = 64;

/// Chunks are never shorter than 1 KiB.
pub const MIN_CHUNK_SIZE: usize = 1024;

/// Most pieces a tree may hold; construction rejects files needing more.
pub const MAX_PIECES: u32 = 64;

/// Chunk size for a file of `file_size` bytes: a 64th of the file, with a
/// floor of 1 KiB.
pub open spec fn spec_chunk_size(file_size: nat) -> nat {
    if file_size / (TARGET_PIECES as nat) < (MIN_CHUNK_SIZE as nat) {
        MIN_CHUNK_SIZE as nat
    } else {
        file_size / (TARGET_PIECES as nat)
    }
}

/// Number of chunks the file splits into, the last possibly shorter.
pub open spec fn spec_pieces(file_size: nat) -> nat {
    let cs = spec_chunk_size(file_size);
    if file_size % cs == 0 {
        file_size / cs
    } else {
        file_size / cs + 1
    }
}

/// Whether the final chunk is shorter than the chunk size.
pub open spec fn spec_has_boundary(file_size: nat) -> bool {
    file_size % spec_chunk_size(file_size) != 0
}

/// Number of leaves of the balanced tree: the piece count rounded up to a
/// power of two.
pub open spec fn spec_leaves(file_size: nat) -> nat {
    next_pow2(spec_pieces(file_size))
}

/// The `i`-th chunk of the file, unpadded.
pub open spec fn chunk_of(f: Seq<u8>, i: int) -> Seq<u8> {
    let cs = spec_chunk_size(f.len()) as int;
    let end = if (i + 1) * cs <= f.len() {
        (i + 1) * cs
    } else {
        f.len() as int
    };
    f.subrange(i * cs, end)
}

/// The `i`-th chunk of the file, zero-padded up to the chunk size.
pub open spec fn padded_chunk(f: Seq<u8>, i: int) -> Seq<u8> {
    let cs = spec_chunk_size(f.len());
    chunk_of(f, i) + Seq::new((cs - chunk_of(f, i).len()) as nat, |j: int| 0u8)
}

/// The all-zero filler hash used to pad the leaf level to a power of two.
pub open spec fn zero_hash() -> Seq<u8> {
    Seq::new(32, |j: int| 0u8)
}

/// The leaf level for a file: one SHA-256 hash per (padded) chunk, then
/// all-zero filler hashes up to the next power of two.
pub open spec fn file_leaves(f: Seq<u8>) -> Seq<Seq<u8>> {
    Seq::new(
        spec_leaves(f.len()),
        |i: int|
            if i < spec_pieces(f.len()) {
                sha256_seq(padded_chunk(f, i))
            } else {
                zero_hash()
            },
    )
}

/// Basic facts about the chunk plan of a non-empty file.
pub proof fn lemma_plan(fs: nat)
    requires
        fs >= 1,
    ensures
        spec_chunk_size(fs) >= 1024,
        1 <= spec_pieces(fs) <= 65,
        (spec_pieces(fs) - 1) * spec_chunk_size(fs) < fs,
        fs <= spec_pieces(fs) * spec_chunk_size(fs),
        spec_has_boundary(fs) <==> fs < spec_pieces(fs) * spec_chunk_size(fs),
{
    let cs = spec_chunk_size(fs) as int;
    let q = fs as int / cs;
    let r = fs as int % cs;
    let p = spec_pieces(fs) as int;
    lemma_fundamental_div_mod(fs as int, cs);
    lemma_mod_bound(fs as int, cs);
    assert(fs == cs * q + r);
    assert(0 <= r < cs);
    assert(q >= 1 || r >= 1) by (nonlinear_arith)
        requires
            fs == cs * q + r,
            fs >= 1,
            q >= 0,
            r >= 0,
    ;
    if r == 0 {
        assert(p == q);
        assert(p * cs == fs) by (nonlinear_arith)
            requires
                fs == cs * q + r,
                r == 0,
                p == q,
        ;
        assert((p - 1) * cs == fs - cs) by (nonlinear_arith)
            requires
                fs == cs * q + r,
                r == 0,
                p == q,
        ;
    } else {
        assert(p == q + 1);
        assert((p - 1) * cs == fs - r) by (nonlinear_arith)
            requires
                fs == cs * q + r,
                p == q + 1,
        ;
        assert(p * cs == fs - r + cs) by (nonlinear_arith)
            requires
                fs == cs * q + r,
                p == q + 1,
        ;
    }
    // The piece count never exceeds 65.
    if fs / 64 < 1024 {
        assert(cs == 1024);
        assert(fs < 64 * 1024) by (nonlinear_arith)
            requires
                fs as int / 64 < 1024,
                fs >= 1,
        ;
        assert(q <= 63) by (nonlinear_arith)
            requires
                fs == cs * q + r,
                0 <= r < cs,
                cs == 1024,
                fs < 64 * 1024,
        ;
    } else {
        assert(cs == fs / 64);
        lemma_fundamental_div_mod(fs as int, 64);
        lemma_mod_bound(fs as int, 64);
        let r2 = fs as int % 64;
        assert(fs == 64 * cs + r2);
        assert(0 <= r2 < 64);
        assert(q == 64) by (nonlinear_arith)
            requires
                fs == cs * q + r,
                0 <= r < cs,
                fs == 64 * cs + r2,
                0 <= r2 < 64,
                cs >= 1024,
        ;
    }
}

/// Length facts about the chunks of a non-empty file.
pub proof fn lemma_chunk_len(f: Seq<u8>, i: int)
    requires
        f.len() >= 1,
        0 <= i < spec_pieces(f.len()),
    ensures
        i * spec_chunk_size(f.len()) < f.len(),
        chunk_of(f, i).len() >= 1,
        chunk_of(f, i).len() <= spec_chunk_size(f.len()),
        i < spec_pieces(f.len()) - 1 ==> chunk_of(f, i).len() == spec_chunk_size(f.len()),
        i == spec_pieces(f.len()) - 1 ==> (chunk_of(f, i).len() == spec_chunk_size(f.len())
            <==> !spec_has_boundary(f.len())),
        padded_chunk(f, i).len() == spec_chunk_size(f.len()),
{
    let fs = f.len() as int;
    let cs = spec_chunk_size(f.len()) as int;
    let p = spec_pieces(f.len()) as int;
    lemma_plan(f.len());
    lemma_mul_inequality(i, p - 1, cs);
    assert(i * cs <= (p - 1) * cs);
    assert(i * cs < fs);
    if i < p - 1 {
        lemma_mul_inequality(i + 1, p - 1, cs);
        assert((i + 1) * cs <= (p - 1) * cs);
        assert((i + 1) * cs - i * cs == cs) by (nonlinear_arith);
    } else {
        assert(i == p - 1);
        assert((i + 1) * cs == p * cs);
        assert(fs <= (i + 1) * cs);
        assert((i + 1) * cs - i * cs == cs) by (nonlinear_arith);
    }
}

/// A Merkle tree over the fixed-size chunks of one file.
///
/// `merkle_tree` holds every node hash in level order, leaves first; the
/// root is its last 32 bytes. `boundary_hash` is present exactly when the
/// file size is not a multiple of the chunk size, and holds the hash of the
/// unpadded final chunk.
#[derive(Clone, Debug)]
pub struct FileMerkleTree {
    pub merkle_tree: Vec<u8>,
    pub file_size: usize,
    pub boundary_hash: Option<Vec<u8>>,
}

impl FileMerkleTree {
    /// The stored node hashes, as a sequence of 32-byte hashes.
    pub open spec fn nodes(&self) -> Seq<Seq<u8>> {
        hashes_of(self.merkle_tree@)
    }

    /// Piece count derived from the stored file size.
    pub open spec fn num_pieces(&self) -> nat {
        spec_pieces(self.file_size as nat)
    }

    /// Leaf count derived from the stored file size.
    pub open spec fn num_leaves(&self) -> nat {
        spec_leaves(self.file_size as nat)
    }

    /// The leaf level: the first `num_leaves` stored nodes.
    pub open spec fn leaf_level(&self) -> Seq<Seq<u8>> {
        self.nodes().take(self.num_leaves() as int)
    }

    /// Shape well-formedness: sizes and boundary presence match the file
    /// size. This is checkable without hashing.
    pub open spec fn wf(&self) -> bool {
        &&& self.file_size >= 1
        &&& self.file_size <= u32::MAX
        &&& self.num_pieces() <= MAX_PIECES
        &&& self.merkle_tree@.len() == 32 * (2 * self.num_leaves() - 1)
        &&& (self.boundary_hash is Some <==> spec_has_boundary(self.file_size as nat))
        &&& (self.boundary_hash is Some ==> self.boundary_hash.unwrap()@.len() == 32)
    }

    /// Hash consistency: every stored inner node is the hash of its two
    /// children, i.e. the buffer is the tree built over its own leaf level.
    pub open spec fn merkle_consistent(&self) -> bool {
        self.nodes() == tree_nodes(self.leaf_level())
    }

    /// The root: the last 32 bytes of the stored buffer.
    pub open spec fn root_spec(&self) -> Seq<u8> {
        self.merkle_tree@.subrange(
            self.merkle_tree@.len() - 32,
            self.merkle_tree@.len() as int,
        )
    }

    /// The hash served for piece `pos`: the boundary hash for a shorter
    /// final chunk, otherwise the stored leaf hash.
    pub open spec fn chunk_hash_spec(&self, pos: int) -> Seq<u8> {
        if self.boundary_hash is Some && pos == self.num_pieces() - 1 {
            self.boundary_hash.unwrap()@
        } else {
            self.nodes()[pos]
        }
    }

    /// The tree a build over file contents `f` must produce: every field is
    /// a function of `f`.
    pub open spec fn built_from(&self, f: Seq<u8>) -> bool {
        &&& self.file_size == f.len()
        &&& 1 <= f.len() <= u32::MAX
        &&& spec_pieces(f.len()) <= MAX_PIECES
        &&& self.merkle_tree@.len() == 32 * (2 * spec_leaves(f.len()) - 1)
        &&& self.nodes() == tree_nodes(file_leaves(f))
        &&& if spec_has_boundary(f.len()) {
            self.boundary_hash is Some && self.boundary_hash.unwrap()@ == sha256_seq(
                chunk_of(f, spec_pieces(f.len()) - 1),
            )
        } else {
            self.boundary_hash is None
        }
    }
}

/// Returns the chunk size used for a file of `file_size` bytes.
pub fn calculate_chunk_size(file_size: usize) -> (r: usize)
    ensures
        r == spec_chunk_size(file_size as nat),
{
    let mut chunk_size = file_size / TARGET_PIECES;
    if chunk_size < MIN_CHUNK_SIZE {
        chunk_size = MIN_CHUNK_SIZE;
    }
    chunk_size
}

/// Returns whether a file of `file_size` bytes ends in a shorter chunk.
pub fn calculate_has_boundary(file_size: usize) -> (r: bool)
    ensures
        r == spec_has_boundary(file_size as nat),
{
    file_size % calculate_chunk_size(file_size) != 0
}

/// Returns the number of chunks a file of `file_size` bytes splits into.
pub fn calculate_pieces(file_size: usize) -> (r: u32)
    ensures
        r == spec_pieces(file_size as nat),
{
    proof {
        if file_size >= 1 {
            lemma_plan(file_size as nat);
        }
    }
    let chunk_size = calculate_chunk_size(file_size);
    let mut pieces = file_size / chunk_size;
    if file_size % chunk_size != 0 {
        pieces = pieces + 1;
    }
    pieces as u32
}

/// Smallest power of two that is at least `n`.
pub(crate) fn next_power_of_two(n: u32) -> (r: u32)
    requires
        1 <= n <= 64,
    ensures
        r == next_pow2(n as nat),
        is_pow2(r as nat),
        r >= n,
        r <= 128,
{
    let mut p: u32 = 1;
    while p < n
        invariant
            1 <= p <= 128,
            n <= 64,
            is_pow2(p as nat),
            p == 1 || p / 2 < n,
        decreases 2 * n - p,
    {
        p = p * 2;
    }
    proof {
        lemma_next_pow2_unique(n as nat, p as nat);
        lemma_next_pow2_props(n as nat);
    }
    p
}

/// Appends all of `src` to `dst`.
pub(crate) fn push_bytes(dst: &mut Vec<u8>, src: &[u8])
    ensures
        final(dst)@ == old(dst)@ + src@,
{
    let mut i: usize = 0;
    while i < src.len()
        invariant
            0 <= i <= src@.len(),
            dst@ == old(dst)@ + src@.take(i as int),
        decreases src@.len() - i,
    {
        let b = *vstd::slice::slice_index_get(src, i);
        dst.push(b);
        proof {
            assert(old(dst)@ + src@.take(i + 1) =~= (old(dst)@ + src@.take(i as int)).push(
                src@[i as int],
            ));
        }
        i = i + 1;
    }
    proof {
        assert(src@.take(src@.len() as int) =~= src@);
    }
}

/// Byte-for-byte equality of two slices.
pub(crate) fn bytes_eq(a: &[u8], b: &[u8]) -> (r: bool)
    ensures
        r == (a@ == b@),
{
    if a.len() != b.len() {
        proof {
            assert(a@.len() != b@.len());
        }
        return false;
    }
    let mut i: usize = 0;
    while i < a.len()
        invariant
            0 <= i <= a@.len(),
            a@.len() == b@.len(),
            forall|j: int| 0 <= j < i ==> a@[j] == b@[j],
        decreases a@.len() - i,
    {
        if *vstd::slice::slice_index_get(a, i) != *vstd::slice::slice_index_get(b, i) {
            return false;
        }
        i = i + 1;
    }
    proof {
        assert(a@ =~= b@);
    }
    true
}

} // verus!

verus! {

impl FileMerkleTree {
    /// Constructs a `FileMerkleTree` out of the provided file bytes,
    /// building the whole tree: one hash per chunk (the final shorter chunk
    /// zero-padded, its unpadded hash kept aside), all-zero filler hashes up
    /// to a power of two, then each combined level up to the root.
    ///
    /// Fails on an empty file, on a file needing more than `MAX_PIECES`
    /// pieces, and on a file too large for the persisted record format.
    pub fn new(file_bytes: &[u8]) -> (r: Result<FileMerkleTree, Error>)
        ensures
            r is Ok <==> (1 <= file_bytes@.len() <= u32::MAX && spec_pieces(file_bytes@.len())
                <= MAX_PIECES),
            r matches Ok(t) ==> t.built_from(file_bytes@),
            r is Err ==> r == Err::<FileMerkleTree, Error>(Error::InvalidInput),
    {
        let ghost f = file_bytes@;
        let len = file_bytes.len();
        if len == 0 {
            return Err(Error::InvalidInput);
        }
        proof {
            lemma_plan(len as nat);
        }
        let chunk_size = calculate_chunk_size(len);
        let pieces_u32 = calculate_pieces(len);
        if pieces_u32 > MAX_PIECES {
            return Err(Error::InvalidInput);
        }
        if len > u32::MAX as usize {
            return Err(Error::InvalidInput);
        }
        let pieces = pieces_u32 as usize;
        let leaves = next_power_of_two(pieces_u32) as usize;
        proof {
            assert(leaves == spec_leaves(len as nat));
            assert(file_leaves(f).len() == leaves);
        }

        // Leaf level: one hash per chunk.
        let mut tree: Vec<u8> = Vec::new();
        let mut boundary_hash: Option<Vec<u8>> = None;
        let mut i: usize = 0;
        while i < pieces
            invariant
                f == file_bytes@,
                len == f.len(),
                1 <= len <= u32::MAX,
                chunk_size == spec_chunk_size(len as nat),
                pieces == spec_pieces(len as nat),
                1 <= pieces <= 64,
                pieces <= file_leaves(f).len(),
                0 <= i <= pieces,
                tree@.len() == 32 * i,
                hashes_of(tree@) == file_leaves(f).take(i as int),
                if i == pieces && spec_has_boundary(len as nat) {
                    boundary_hash is Some && boundary_hash.unwrap()@ == sha256_seq(
                        chunk_of(f, pieces - 1),
                    )
                } else {
                    boundary_hash is None
                },
            decreases pieces - i,
        {
            proof {
                lemma_chunk_len(f, i as int);
                assert((i + 1) * (chunk_size as int) == i * (chunk_size as int) + chunk_size)
                    by (nonlinear_arith);
            }
            let start = i * chunk_size;
            let tail = len - start;
            let h: [u8; 32];
            if tail >= chunk_size {
                let chunk = vstd::slice::slice_subrange(file_bytes, start, start + chunk_size);
                h = sha256(chunk);
                proof {
                    assert(chunk@ =~= chunk_of(f, i as int));
                    assert(padded_chunk(f, i as int) =~= chunk_of(f, i as int));
                    assert(h@ == sha256_seq(padded_chunk(f, i as int)));
                }
            } else {
                // The final, shorter chunk: keep its unpadded hash aside and
                // hash the zero-padded chunk as the leaf value.
                proof {
                    assert(i == pieces - 1);
                    assert(chunk_of(f, i as int).len() < spec_chunk_size(len as nat));
                    assert(spec_has_boundary(len as nat));
                }
                let chunk = vstd::slice::slice_subrange(file_bytes, start, len);
                proof {
                    assert(chunk@ =~= chunk_of(f, i as int));
                }
                let bh = sha256(chunk);
                let mut bh_vec: Vec<u8> = Vec::new();
                push_bytes(&mut bh_vec, bh.as_slice());
                proof {
                    assert(bh_vec@ =~= bh@);
                }
                boundary_hash = Some(bh_vec);
                let mut padded: Vec<u8> = Vec::new();
                push_bytes(&mut padded, chunk);
                proof {
                    assert(padded@ =~= chunk@);
                }
                while padded.len() < chunk_size
                    invariant
                        chunk@.len() <= padded@.len() <= chunk_size,
                        padded@.take(chunk@.len() as int) == chunk@,
                        forall|j: int| chunk@.len() <= j < padded@.len() ==> padded@[j] == 0u8,
                    decreases chunk_size - padded@.len(),
                {
                    padded.push(0u8);
                    proof {
                        assert(padded@.take(chunk@.len() as int) =~= padded@.drop_last().take(
                            chunk@.len() as int,
                        ));
                    }
                }
                proof {
                    assert(padded@ =~= padded_chunk(f, i as int));
                }
                h = sha256(padded.as_slice());
            }
            let ghost pre = tree@;
            push_bytes(&mut tree, h.as_slice());
            proof {
                lemma_hashes_of_push(pre, h@);
                assert(file_leaves(f)[i as int] == sha256_seq(padded_chunk(f, i as int)));
                assert(file_leaves(f).take(i + 1) =~= file_leaves(f).take(i as int).push(
                    file_leaves(f)[i as int],
                ));
                assert(hashes_of(tree@) == file_leaves(f).take(i + 1));
            }
            i = i + 1;
        }

        // Filler hashes up to the next power of two.
        let mut zero_vec: Vec<u8> = Vec::new();
        let mut z: usize = 0;
        while z < 32
            invariant
                zero_vec@.len() == z <= 32,
                forall|j: int| 0 <= j < z ==> zero_vec@[j] == 0u8,
            decreases 32 - z,
        {
            zero_vec.push(0u8);
            z = z + 1;
        }
        proof {
            assert(zero_vec@ =~= zero_hash());
        }
        let mut j: usize = pieces;
        while j < leaves
            invariant
                f == file_bytes@,
                len == f.len(),
                pieces == spec_pieces(len as nat),
                leaves == spec_leaves(len as nat),
                file_leaves(f).len() == leaves,
                pieces <= j <= leaves,
                zero_vec@ == zero_hash(),
                tree@.len() == 32 * j,
                hashes_of(tree@) == file_leaves(f).take(j as int),
            decreases leaves - j,
        {
            let ghost pre = tree@;
            push_bytes(&mut tree, zero_vec.as_slice());
            proof {
                lemma_hashes_of_push(pre, zero_vec@);
                assert(file_leaves(f)[j as int] == zero_hash());
                assert(file_leaves(f).take(j + 1) =~= file_leaves(f).take(j as int).push(
                    file_leaves(f)[j as int],
                ));
            }
            j = j + 1;
        }
        proof {
            assert(file_leaves(f).take(leaves as int) =~= file_leaves(f));
            assert(hashes_of(tree@) == file_leaves(f));
        }

        // Combine adjacent pairs, level by level, up to the root.
        let mut pos: usize = 0;
        let mut num_items: usize = leaves;
        proof {
            lemma_next_pow2_props(pieces as nat);
            assert(hashes_of(tree@).take(0) + tree_nodes(hashes_of(tree@).skip(0))
                =~= tree_nodes(file_leaves(f)));
        }
        while num_items > 1
            invariant
                f == file_bytes@,
                is_pow2(num_items as nat),
                1 <= num_items <= leaves,
                leaves <= 128,
                pos + 2 * num_items == 2 * leaves,
                tree@.len() == 32 * (pos + num_items),
                tree_nodes(file_leaves(f)) == hashes_of(tree@).take(pos as int) + tree_nodes(
                    hashes_of(tree@).skip(pos as int),
                ),
            decreases num_items,
        {
            let ghost pre = tree@;
            let ghost cur = hashes_of(pre).skip(pos as int);
            proof {
                assert(cur.len() == num_items);
                assert(num_items % 2 == 0);
            }
            let mut k: usize = pos;
            while k < pos + num_items
                invariant
                    f == file_bytes@,
                    pos <= k <= pos + num_items,
                    (k - pos) % 2 == 0,
                    num_items % 2 == 0,
                    2 <= num_items,
                    pos + 2 * num_items == 2 * leaves,
                    leaves <= 128,
                    pre.len() == 32 * (pos + num_items),
                    cur == hashes_of(pre).skip(pos as int),
                    cur.len() == num_items,
                    tree@.len() == pre.len() + 32 * ((k - pos) / 2),
                    tree@.take(pre.len() as int) == pre,
                    hashes_of(tree@) == hashes_of(pre) + level_up(cur).take(((k - pos) / 2) as int),
                decreases pos + num_items - k,
            {
                let pair = vstd::slice::slice_subrange(tree.as_slice(), k * 32, k * 32 + 64);
                let h = sha256(pair);
                let ghost before = tree@;
                push_bytes(&mut tree, h.as_slice());
                proof {
                    let rel = k - pos;
                    assert(pair@ =~= pre.subrange(32 * k, 32 * k + 64));
                    assert(pre.subrange(32 * k, 32 * k + 64) =~= pre.subrange(32 * k, 32 * k + 32)
                        + pre.subrange(32 * k + 32, 32 * k + 64));
                    assert(hashes_of(pre)[k as int] == pre.subrange(32 * k, 32 * k + 32));
                    assert(hashes_of(pre)[k + 1] == pre.subrange(32 * k + 32, 32 * k + 64));
                    assert(cur[rel as int] == hashes_of(pre)[k as int]);
                    assert(cur[rel + 1] == hashes_of(pre)[k + 1]);
                    assert(h@ == crate::tree::hash_pair(cur[rel as int], cur[rel + 1]));
                    assert(level_up(cur)[(rel / 2) as int] == crate::tree::hash_pair(
                        cur[2 * ((rel / 2) as int)],
                        cur[2 * ((rel / 2) as int) + 1],
                    ));
                    assert(2 * ((rel / 2) as int) == rel as int);
                    lemma_hashes_of_push(before, h@);
                    assert(level_up(cur).take((rel / 2) + 1) =~= level_up(cur).take(
                        (rel / 2) as int,
                    ).push(level_up(cur)[(rel / 2) as int]));
                    assert(tree@.take(pre.len() as int) =~= before.take(pre.len() as int));
                }
                k = k + 2;
            }
            proof {
                assert(level_up(cur).take(((num_items / 2)) as int) =~= level_up(cur));
                assert(hashes_of(tree@) == hashes_of(pre) + level_up(cur));
                // The structural equation carries to the next level.
                assert(hashes_of(pre).take(pos as int) =~= hashes_of(tree@).take(pos as int));
                assert(tree_nodes(cur) == cur + tree_nodes(level_up(cur)));
                assert(hashes_of(tree@).take(pos + num_items) =~= hashes_of(pre).take(pos as int)
                    + cur);
                assert(hashes_of(tree@).skip(pos + num_items) =~= level_up(cur));
                assert(hashes_of(pre).take(pos as int) + tree_nodes(cur) =~= hashes_of(
                    tree@,
                ).take(pos + num_items) + tree_nodes(hashes_of(tree@).skip(pos + num_items)));
            }
            pos = pos + num_items;
            num_items = num_items / 2;
        }
        proof {
            let nodes = hashes_of(tree@);
            assert(nodes.skip(pos as int).len() == 1);
            assert(tree_nodes(nodes.skip(pos as int)) == nodes.skip(pos as int));
            assert(nodes.take(pos as int) + nodes.skip(pos as int) =~= nodes);
            assert(nodes == tree_nodes(file_leaves(f)));
            lemma_tree_nodes_len(file_leaves(f));
            assert(pos + 1 == 2 * leaves - 1);
            assert(tree@.len() == 32 * (2 * spec_leaves(len as nat) - 1));
        }
        Ok(FileMerkleTree { merkle_tree: tree, file_size: len, boundary_hash })
    }
}

} // verus!

verus! {

/// Copies a 32-byte slice into a hash array.
pub(crate) fn bytes_to_hash(src: &[u8]) -> (r: [u8; 32])
    requires
        src@.len() == 32,
    ensures
        r@ == src@,
{
    let mut out: [u8; 32] = [0u8; 32];
    let mut i: usize = 0;
    while i < 32
        invariant
            0 <= i <= 32,
            src@.len() == 32,
            forall|j: int| 0 <= j < i ==> out@[j] == src@[j],
        decreases 32 - i,
    {
        out[i] = *vstd::slice::slice_index_get(src, i);
        i = i + 1;
    }
    proof {
        assert(out@ =~= src@);
    }
    out
}

impl FileMerkleTree {
    /// The chunk size this tree's file was split with.
    pub fn chunk_size(&self) -> (r: usize)
        ensures
            r == spec_chunk_size(self.file_size as nat),
    {
        calculate_chunk_size(self.file_size)
    }

    /// The number of pieces this tree's file was split into.
    pub fn pieces(&self) -> (r: u32)
        ensures
            r == self.num_pieces(),
    {
        calculate_pieces(self.file_size)
    }

    /// The merkle root of this file: the last 32 bytes of the stored buffer.
    pub fn merkle_root(&self) -> (r: &[u8])
        requires
            self.merkle_tree@.len() >= 32,
        ensures
            r@ == self.root_spec(),
    {
        vstd::slice::slice_subrange(
            self.merkle_tree.as_slice(),
            self.merkle_tree.len() - 32,
            self.merkle_tree.len(),
        )
    }

    /// The hash to serve for piece `position`: the boundary hash if the last
    /// chunk is shorter, else the stored leaf hash; nothing when the
    /// position is out of range.
    pub fn file_chunk_hash_at(&self, position: u32) -> (r: Option<[u8; 32]>)
        requires
            position < self.num_pieces() ==> self.wf(),
        ensures
            r is Some <==> position < self.num_pieces(),
            r matches Some(h) ==> h@ == self.chunk_hash_spec(position as int),
    {
        let pieces = calculate_pieces(self.file_size);
        if position >= pieces {
            return None;
        }
        proof {
            lemma_plan(self.file_size as nat);
            lemma_next_pow2_props(self.num_pieces());
        }
        if position == pieces - 1 {
            if let Some(boundary) = &self.boundary_hash {
                return Some(bytes_to_hash(boundary.as_slice()));
            }
        }
        let pos = (position as usize) * 32;
        let h = vstd::slice::slice_subrange(self.merkle_tree.as_slice(), pos, pos + 32);
        proof {
            assert(self.nodes()[position as int] == self.merkle_tree@.subrange(
                32 * (position as int),
                32 * (position as int) + 32,
            ));
        }
        Some(bytes_to_hash(h))
    }

    /// The sibling path for piece `piece`, bottom-to-top, read out of the
    /// stored nodes; nothing when the position is out of range (in
    /// particular, always nothing on a tree with no pieces).
    pub fn merkle_proof(&self, piece: u32) -> (r: Option<Vec<Vec<u8>>>)
        requires
            piece < self.num_pieces() ==> self.wf(),
        ensures
            r is Some <==> piece < self.num_pieces(),
            r matches Some(path) ==> {
                &&& views_of(path@) == stored_path(self.nodes(), 0, self.num_leaves(), piece as int)
                &&& path@.len() == log2(self.num_leaves())
                &&& self.merkle_consistent() ==> views_of(path@) == sibling_path(
                    self.leaf_level(),
                    piece as int,
                )
            },
    {
        let pieces = calculate_pieces(self.file_size);
        if piece >= pieces {
            return None;
        }
        proof {
            lemma_plan(self.file_size as nat);
        }
        let leaves_u32 = next_power_of_two(pieces);
        let leaves = leaves_u32 as usize;
        let mut siblings: Vec<Vec<u8>> = Vec::new();
        let mut first: usize = 0;
        let mut width: usize = leaves;
        let mut rel: usize = piece as usize;
        proof {
            assert(self.nodes().len() == 2 * leaves - 1);
            assert(views_of(siblings@) =~= Seq::<Seq<u8>>::empty());
            assert(stored_path(self.nodes(), 0, leaves as nat, piece as int)
                == views_of(siblings@) + stored_path(
                self.nodes(),
                first as int,
                width as nat,
                rel as int,
            ));
        }
        while width > 1
            invariant
                is_pow2(width as nat),
                1 <= width <= leaves,
                leaves <= 128,
                first + 2 * width == 2 * leaves,
                0 <= rel < width,
                self.nodes().len() == 2 * leaves - 1,
                self.merkle_tree@.len() == 32 * (2 * leaves - 1),
                siblings@.len() + log2(width as nat) == log2(leaves as nat),
                stored_path(self.nodes(), 0, leaves as nat, piece as int) == views_of(siblings@)
                    + stored_path(self.nodes(), first as int, width as nat, rel as int),
            decreases width,
        {
            let sib = if rel % 2 == 0 {
                rel + 1
            } else {
                rel - 1
            };
            let idx = first + sib;
            let ghost pre = views_of(siblings@);
            let hash_slice = vstd::slice::slice_subrange(
                self.merkle_tree.as_slice(),
                idx * 32,
                idx * 32 + 32,
            );
            let hash = vstd::slice::slice_to_vec(hash_slice);
            siblings.push(hash);
            proof {
                assert(self.nodes()[idx as int] == self.merkle_tree@.subrange(
                    32 * (idx as int),
                    32 * (idx as int) + 32,
                ));
                assert(hash@ == self.nodes()[idx as int]);
                assert(views_of(siblings@) =~= pre.push(self.nodes()[idx as int]));
                assert(stored_path(self.nodes(), first as int, width as nat, rel as int)
                    == seq![self.nodes()[idx as int]] + stored_path(
                    self.nodes(),
                    first + width,
                    (width / 2) as nat,
                    rel as int / 2,
                ));
                assert(views_of(siblings@) + stored_path(
                    self.nodes(),
                    first + width,
                    (width / 2) as nat,
                    rel as int / 2,
                ) =~= pre + stored_path(self.nodes(), first as int, width as nat, rel as int));
            }
            rel = rel / 2;
            first = first + width;
            width = width / 2;
        }
        proof {
            assert(stored_path(self.nodes(), first as int, width as nat, rel as int)
                =~= Seq::<Seq<u8>>::empty());
            assert(views_of(siblings@) =~= stored_path(
                self.nodes(),
                0,
                leaves as nat,
                piece as int,
            ));
            if self.merkle_consistent() {
                lemma_next_pow2_props(self.num_pieces());
                lemma_tree_nodes_len(self.leaf_level());
                assert(self.nodes().skip(0) =~= self.nodes());
                lemma_stored_path_equiv(self.nodes(), 0, self.leaf_level(), piece as int);
            }
        }
        Some(siblings)
    }

    /// Serves the raw (unpadded) bytes of the chunk at `position`, as handed
    /// to an external object store; nothing when the position is out of
    /// range.
    pub fn file_chunk_at(file_bytes: &[u8], position: u32) -> (r: Option<Vec<u8>>)
        ensures
            r is Some <==> position < spec_pieces(file_bytes@.len()),
            r matches Some(c) ==> c@ == chunk_of(file_bytes@, position as int),
    {
        let len = file_bytes.len();
        let pieces = calculate_pieces(len);
        proof {
            if len == 0 {
                assert(spec_chunk_size(0) == 1024);
                assert(0nat % 1024nat == 0) by (nonlinear_arith);
                assert(0nat / 1024nat == 0) by (nonlinear_arith);
                assert(spec_pieces(0) == 0);
            }
        }
        if position >= pieces {
            return None;
        }
        proof {
            assert(len >= 1);
            lemma_plan(len as nat);
            lemma_chunk_len(file_bytes@, position as int);
            assert((position + 1) * (spec_chunk_size(len as nat) as int) == position
                * (spec_chunk_size(len as nat) as int) + spec_chunk_size(len as nat))
                by (nonlinear_arith);
        }
        let chunk_size = calculate_chunk_size(len);
        let start = (position as usize) * chunk_size;
        let end = if len - start >= chunk_size {
            start + chunk_size
        } else {
            len
        };
        let chunk = vstd::slice::slice_subrange(file_bytes, start, end);
        proof {
            assert(chunk@ =~= chunk_of(file_bytes@, position as int));
        }
        Some(vstd::slice::slice_to_vec(chunk))
    }
}

/// Recomputes the root from `leaf_hash` and the sibling path `siblings`
/// starting at `position`, and compares it with `expected_root`. At each
/// step the parity of the current index picks the operand order.
///
/// The climb always consumes every sibling; the final comparison, though,
/// stops at the first differing byte, so the check is not constant-time in
/// the compared root bytes.
pub fn verify(leaf_hash: &[u8; 32], position: u32, siblings: &Vec<Vec<u8>>, expected_root: &[u8])
    -> (r: bool)
    ensures
        r == (climb(leaf_hash@, position as int, views_of(siblings@)) == expected_root@),
{
    let mut current: Vec<u8> = Vec::new();
    push_bytes(&mut current, leaf_hash.as_slice());
    proof {
        assert(current@ =~= leaf_hash@);
    }
    let mut idx = position;
    let mut i: usize = 0;
    proof {
        assert(views_of(siblings@).skip(0) =~= views_of(siblings@));
    }
    while i < siblings.len()
        invariant
            0 <= i <= siblings@.len(),
            climb(leaf_hash@, position as int, views_of(siblings@)) == climb(
                current@,
                idx as int,
                views_of(siblings@).skip(i as int),
            ),
        decreases siblings@.len() - i,
    {
        let sib = &siblings[i];
        let mut buf: Vec<u8> = Vec::new();
        if idx % 2 == 0 {
            push_bytes(&mut buf, current.as_slice());
            push_bytes(&mut buf, sib.as_slice());
        } else {
            push_bytes(&mut buf, sib.as_slice());
            push_bytes(&mut buf, current.as_slice());
        }
        let h = sha256(buf.as_slice());
        let mut next: Vec<u8> = Vec::new();
        push_bytes(&mut next, h.as_slice());
        proof {
            let rest = views_of(siblings@).skip(i as int);
            assert(rest[0] == views_of(siblings@)[i as int]);
            assert(views_of(siblings@)[i as int] == sib@);
            assert(rest.drop_first() =~= views_of(siblings@).skip(i + 1));
            if idx % 2 == 0 {
                assert(buf@ == current@ + sib@);
            } else {
                assert(buf@ == sib@ + current@);
            }
            assert(next@ =~= h@);
            assert(climb(current@, idx as int, rest) == climb(
                next@,
                idx as int / 2,
                rest.drop_first(),
            ));
        }
        current = next;
        idx = idx / 2;
        i = i + 1;
    }
    proof {
        assert(views_of(siblings@).skip(siblings@.len() as int)
            =~= Seq::<Seq<u8>>::empty());
    }
    bytes_eq(current.as_slice(), expected_root)
}

/// A tree built from file contents is well-formed and hash-consistent.
pub proof fn lemma_built_wf(t: FileMerkleTree, f: Seq<u8>)
    requires
        t.built_from(f),
    ensures
        t.wf(),
        t.merkle_consistent(),
{
    lemma_plan(f.len());
    lemma_next_pow2_props(spec_pieces(f.len()));
    let leaves = spec_leaves(f.len()) as int;
    assert(file_leaves(f).len() == leaves);
    if leaves >= 2 {
        lemma_tree_nodes_split(file_leaves(f));
        assert(t.leaf_level() =~= file_leaves(f));
    } else {
        assert(tree_nodes(file_leaves(f)) == file_leaves(f));
        assert(t.leaf_level() =~= file_leaves(f));
    }
}

/// Building is deterministic: every stored byte of a tree built from file
/// contents `f` is a function of `f` alone, so two independent builds from
/// identical contents agree, in particular on the root.
pub proof fn lemma_build_deterministic(f: Seq<u8>, t1: FileMerkleTree, t2: FileMerkleTree)
    requires
        t1.built_from(f),
        t2.built_from(f),
    ensures
        t1.merkle_tree@ == t2.merkle_tree@,
        t1.file_size == t2.file_size,
        t1.root_spec() == t2.root_spec(),
        t1.boundary_hash is Some <==> t2.boundary_hash is Some,
        t1.boundary_hash is Some ==> t1.boundary_hash.unwrap()@ == t2.boundary_hash.unwrap()@,
{
    lemma_hashes_of_injective(t1.merkle_tree@, t2.merkle_tree@);
}

/// Round-trip correctness at the leaf level: for a well-formed,
/// hash-consistent tree, climbing from any stored leaf hash along its
/// sibling path reproduces the stored root.
pub proof fn lemma_leaf_round_trip(t: FileMerkleTree, position: int)
    requires
        t.wf(),
        t.merkle_consistent(),
        0 <= position < t.num_leaves(),
    ensures
        climb(t.leaf_level()[position], position, sibling_path(t.leaf_level(), position))
            == t.root_spec(),
{
    lemma_plan(t.file_size as nat);
    lemma_next_pow2_props(t.num_pieces());
    lemma_climb_root(t.leaf_level(), position);
    lemma_root_is_last(t.leaf_level());
    let n = t.nodes().len() as int;
    assert(t.nodes().last() == t.merkle_tree@.subrange(32 * (n - 1), 32 * (n - 1) + 32));
    assert(t.root_spec() =~= t.merkle_tree@.subrange(32 * (n - 1), 32 * (n - 1) + 32));
}

/// Round-trip correctness for served chunk hashes: for every in-range
/// position whose served hash is the stored leaf hash (every position except
/// a shorter final chunk, whose served hash is of the unpadded bytes),
/// `verify` accepts the served hash, the proof path, and the root.
pub proof fn lemma_proof_round_trip(t: FileMerkleTree, position: int)
    requires
        t.wf(),
        t.merkle_consistent(),
        0 <= position < t.num_pieces(),
        !(t.boundary_hash is Some && position == t.num_pieces() - 1),
    ensures
        climb(t.chunk_hash_spec(position), position, sibling_path(t.leaf_level(), position))
            == t.root_spec(),
{
    lemma_plan(t.file_size as nat);
    lemma_next_pow2_props(t.num_pieces());
    assert(t.chunk_hash_spec(position) == t.leaf_level()[position]);
    lemma_leaf_round_trip(t, position);
}

} // verus!

verus! {

impl FileMerkleTree {
    /// Runtime check of shape well-formedness, for callers holding a tree
    /// of unknown provenance.
    pub fn is_well_formed(&self) -> (r: bool)
        ensures
            r == self.wf(),
    {
        if self.file_size == 0 {
            return false;
        }
        if self.file_size > u32::MAX as usize {
            return false;
        }
        proof {
            lemma_plan(self.file_size as nat);
        }
        let pieces = calculate_pieces(self.file_size);
        if pieces > MAX_PIECES {
            return false;
        }
        let leaves = next_power_of_two(pieces) as usize;
        if self.merkle_tree.len() != 32 * (2 * leaves - 1) {
            return false;
        }
        let has_boundary = calculate_has_boundary(self.file_size);
        match &self.boundary_hash {
            Some(b) => has_boundary && b.len() == 32,
            None => !has_boundary,
        }
    }
}

} // verus!
