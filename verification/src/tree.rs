use vstd::prelude::*;

use crate::hashing::sha256_seq;

verus! {

/// Length of a SHA-256 hash, in bytes.
pub const HASH_SIZE: usize = 32;

/// Hash of an inner node: SHA-256 of the left child followed by the right
/// child, byte-exact and without separators.
pub open spec fn hash_pair(left: Seq<u8>, right: Seq<u8>) -> Seq<u8> {
    sha256_seq(left + right)
}

/// True iff `n` is a power of two.
pub open spec fn is_pow2(n: nat) -> bool
    decreases n,
{
    if n == 0 {
        false
    } else if n == 1 {
        true
    } else {
        n % 2 == 0 && is_pow2(n / 2)
    }
}

/// The smallest power of two that is at least `n` (and at least 1).
pub open spec fn next_pow2(n: nat) -> nat
    decreases n,
{
    if n <= 1 {
        1
    } else {
        2 * next_pow2((n + 1) / 2)
    }
}

/// Base-two logarithm, rounded down.
pub open spec fn log2(n: nat) -> nat
    decreases n,
{
    if n <= 1 {
        0
    } else {
        1 + log2(n / 2)
    }
}

/// The level above `level`: adjacent pairs combined left-then-right.
pub open spec fn level_up(level: Seq<Seq<u8>>) -> Seq<Seq<u8>> {
    Seq::new(level.len() / 2, |i: int| hash_pair(level[2 * i], level[2 * i + 1]))
}

/// The root obtained by combining adjacent pairs until one hash remains.
pub open spec fn root_of(level: Seq<Seq<u8>>) -> Seq<u8>
    decreases level.len(),
{
    if level.len() <= 1 {
        if level.len() == 1 {
            level[0]
        } else {
            Seq::<u8>::empty()
        }
    } else {
        root_of(level_up(level))
    }
}

/// Every node of the balanced tree over `level`, in level order: the given
/// level first, then each combined level up to and including the root.
pub open spec fn tree_nodes(level: Seq<Seq<u8>>) -> Seq<Seq<u8>>
    decreases level.len(),
{
    if level.len() <= 1 {
        level
    } else {
        level + tree_nodes(level_up(level))
    }
}

/// The sibling path for position `pos` of `level`, ordered bottom-to-top,
/// with every upper level recomputed from `level`. The root is not included.
pub open spec fn sibling_path(level: Seq<Seq<u8>>, pos: int) -> Seq<Seq<u8>>
    decreases level.len(),
{
    if level.len() <= 1 {
        Seq::<Seq<u8>>::empty()
    } else {
        let sib = if pos % 2 == 0 {
            pos + 1
        } else {
            pos - 1
        };
        seq![level[sib]] + sibling_path(level_up(level), pos / 2)
    }
}

/// The sibling path read out of a flat node sequence that holds the levels
/// back to back: the current level starts at `first` and is `width` nodes
/// wide, and `pos` is the position within it.
pub open spec fn stored_path(nodes: Seq<Seq<u8>>, first: int, width: nat, pos: int) -> Seq<Seq<u8>>
    decreases width,
{
    if width <= 1 {
        Seq::<Seq<u8>>::empty()
    } else {
        let sib = if pos % 2 == 0 {
            pos + 1
        } else {
            pos - 1
        };
        seq![nodes[first + sib]] + stored_path(nodes, first + width, width / 2, pos / 2)
    }
}

/// Recomputing a root from one hash and a sibling path: at each step the
/// parity of the current position picks the operand order, then the position
/// is halved.
pub open spec fn climb(cur: Seq<u8>, pos: int, siblings: Seq<Seq<u8>>) -> Seq<u8>
    decreases siblings.len(),
{
    if siblings.len() == 0 {
        cur
    } else {
        let next = if pos % 2 == 0 {
            hash_pair(cur, siblings[0])
        } else {
            hash_pair(siblings[0], cur)
        };
        climb(next, pos / 2, siblings.drop_first())
    }
}

/// A flat byte buffer split into consecutive 32-byte hashes.
pub open spec fn hashes_of(buf: Seq<u8>) -> Seq<Seq<u8>> {
    Seq::new(buf.len() / 32, |i: int| buf.subrange(32 * i, 32 * i + 32))
}

/// The byte sequences held by a sequence of byte vectors.
pub open spec fn views_of(v: Seq<Vec<u8>>) -> Seq<Seq<u8>> {
    Seq::new(v.len(), |i: int| v[i]@)
}

pub proof fn lemma_next_pow2_props(n: nat)
    ensures
        is_pow2(next_pow2(n)),
        next_pow2(n) >= n,
        next_pow2(n) >= 1,
        n >= 2 ==> next_pow2(n) <= 2 * n - 2,
        n >= 1 ==> next_pow2(n) <= 2 * n,
    decreases n,
{
    if n > 1 {
        lemma_next_pow2_props((n + 1) / 2);
    }
}

/// A power of two that is at least `n`, and whose half is below `n`, is the
/// smallest such power.
pub proof fn lemma_next_pow2_unique(n: nat, p: nat)
    requires
        n >= 1,
        is_pow2(p),
        p >= n,
        p == 1 || p / 2 < n,
    ensures
        p == next_pow2(n),
    decreases n,
{
    if n == 1 {
        assert(p == 1 || p / 2 < 1);
        if p != 1 {
            assert(p / 2 == 0);
            assert(!is_pow2(0));
            assert(p % 2 == 0 && is_pow2(p / 2));
        }
    } else {
        let m = (n + 1) / 2;
        assert(p >= 2);
        assert(p % 2 == 0 && is_pow2(p / 2));
        assert(p / 2 >= m);
        assert(p / 2 == 1 || p / 4 < m);
        lemma_next_pow2_unique(m, p / 2);
    }
}

pub proof fn lemma_tree_nodes_len(level: Seq<Seq<u8>>)
    requires
        is_pow2(level.len()),
    ensures
        tree_nodes(level).len() == 2 * level.len() - 1,
    decreases level.len(),
{
    if level.len() > 1 {
        lemma_tree_nodes_len(level_up(level));
    }
}

/// The flat node sequence starts with the level it was built from, and what
/// follows is the flat node sequence of the combined level.
pub proof fn lemma_tree_nodes_split(level: Seq<Seq<u8>>)
    requires
        level.len() >= 2,
    ensures
        tree_nodes(level).skip(level.len() as int) == tree_nodes(level_up(level)),
        tree_nodes(level).take(level.len() as int) == level,
{
    assert(tree_nodes(level).skip(level.len() as int) =~= tree_nodes(level_up(level)));
    assert(tree_nodes(level).take(level.len() as int) =~= level);
}

/// The last node of the flat node sequence is the root.
pub proof fn lemma_root_is_last(level: Seq<Seq<u8>>)
    requires
        is_pow2(level.len()),
    ensures
        tree_nodes(level).len() >= 1,
        tree_nodes(level).last() == root_of(level),
    decreases level.len(),
{
    if level.len() == 1 {
    } else {
        let up = level_up(level);
        lemma_root_is_last(up);
        assert(tree_nodes(level).last() == tree_nodes(up).last());
    }
}

/// Climbing from the hash at `pos` along its sibling path reproduces the
/// root of the level.
pub proof fn lemma_climb_root(level: Seq<Seq<u8>>, pos: int)
    requires
        is_pow2(level.len()),
        0 <= pos < level.len(),
    ensures
        climb(level[pos], pos, sibling_path(level, pos)) == root_of(level),
    decreases level.len(),
{
    if level.len() == 1 {
    } else {
        let up = level_up(level);
        let sib = if pos % 2 == 0 {
            pos + 1
        } else {
            pos - 1
        };
        let path = sibling_path(level, pos);
        assert(path == seq![level[sib]] + sibling_path(up, pos / 2));
        assert(path.drop_first() =~= sibling_path(up, pos / 2));
        let first_step = if pos % 2 == 0 {
            hash_pair(level[pos], level[sib])
        } else {
            hash_pair(level[sib], level[pos])
        };
        assert(up[pos / 2] == hash_pair(level[2 * (pos / 2)], level[2 * (pos / 2) + 1]));
        if pos % 2 == 0 {
            assert(2 * (pos / 2) == pos);
        } else {
            assert(2 * (pos / 2) == pos - 1);
        }
        assert(first_step == up[pos / 2]);
        assert(climb(level[pos], pos, path) == climb(up[pos / 2], pos / 2, sibling_path(up, pos / 2)));
        assert(0 <= pos / 2 < up.len());
        lemma_climb_root(up, pos / 2);
    }
}

/// When the flat node sequence from `first` on is exactly the tree built
/// over `level`, the path read out of the stored nodes equals the path
/// recomputed from `level`.
pub proof fn lemma_stored_path_equiv(nodes: Seq<Seq<u8>>, first: int, level: Seq<Seq<u8>>, pos: int)
    requires
        is_pow2(level.len()),
        0 <= first,
        0 <= pos < level.len(),
        nodes.skip(first) == tree_nodes(level),
        first + tree_nodes(level).len() <= nodes.len(),
    ensures
        stored_path(nodes, first, level.len(), pos) == sibling_path(level, pos),
    decreases level.len(),
{
    lemma_tree_nodes_len(level);
    if level.len() == 1 {
    } else {
        let up = level_up(level);
        let width = level.len() as int;
        let sib = if pos % 2 == 0 {
            pos + 1
        } else {
            pos - 1
        };
        lemma_tree_nodes_split(level);
        assert(nodes[first + sib] == nodes.skip(first)[sib]);
        assert(nodes.skip(first)[sib] == level[sib]);
        assert(nodes.skip(first + width) =~= nodes.skip(first).skip(width));
        assert(nodes.skip(first).skip(width) =~= tree_nodes(level).skip(width));
        lemma_tree_nodes_len(up);
        lemma_stored_path_equiv(nodes, first + width, up, pos / 2);
        assert(stored_path(nodes, first, level.len(), pos) =~= sibling_path(level, pos));
    }
}

/// Two byte buffers of the same 32-divisible length that split into the same
/// hashes are equal.
pub proof fn lemma_hashes_of_injective(a: Seq<u8>, b: Seq<u8>)
    requires
        a.len() == b.len(),
        a.len() % 32 == 0,
        hashes_of(a) == hashes_of(b),
    ensures
        a == b,
{
    assert forall|j: int| 0 <= j < a.len() implies a[j] == b[j] by {
        let i = j / 32;
        assert(0 <= i < a.len() as int / 32);
        assert(hashes_of(a)[i] == hashes_of(b)[i]);
        assert(a[j] == a.subrange(32 * i, 32 * i + 32)[j - 32 * i]);
        assert(b[j] == b.subrange(32 * i, 32 * i + 32)[j - 32 * i]);
    }
    assert(a =~= b);
}

/// Appending one 32-byte hash to a 32-divisible buffer appends one node.
pub proof fn lemma_hashes_of_push(buf: Seq<u8>, h: Seq<u8>)
    requires
        buf.len() % 32 == 0,
        h.len() == 32,
    ensures
        hashes_of(buf + h) == hashes_of(buf).push(h),
{
    let joined = buf + h;
    let n = buf.len() as int / 32;
    assert(joined.len() as int / 32 == n + 1);
    assert forall|i: int| 0 <= i < n + 1 implies hashes_of(joined)[i] == hashes_of(buf).push(h)[i] by {
        if i < n {
            assert(joined.subrange(32 * i, 32 * i + 32) =~= buf.subrange(32 * i, 32 * i + 32));
        } else {
            assert(joined.subrange(32 * i, 32 * i + 32) =~= h);
        }
    }
    assert(hashes_of(joined) =~= hashes_of(buf).push(h));
}

} // verus!
