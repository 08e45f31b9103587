//! The mathematical model of source blocks: the source cut into blocks of a
//! fixed size, the last one padded with zeros, and XOR combinations of blocks.
use vstd::prelude::*;
use vstd::arithmetic::div_mod::lemma_fundamental_div_mod;
use crate::occ::{lemma_occ_contains, lemma_occ_drop_last, lemma_occ_remove, occ};

verus! {

/// Number of blocks of `bs` bytes needed to hold `len` bytes. Blocks of no
/// bytes are only ever asked to hold nothing, in no blocks.
pub open spec fn block_count(len: nat, bs: nat) -> nat {
    if bs == 0 {
        0
    } else if len % bs == 0 {
        len / bs
    } else {
        len / bs + 1
    }
}

/// Byte `i` of `source` padded with zeros without end.
pub open spec fn padded_byte(source: Seq<u8>, i: int) -> u8 {
    if 0 <= i < source.len() {
        source[i]
    } else {
        0
    }
}

/// Block `k` of `source`: the `bs` bytes starting at `k * bs`, zero-padded.
pub open spec fn source_block(source: Seq<u8>, bs: nat, k: int) -> Seq<u8> {
    Seq::new(bs, |j: int| padded_byte(source, k * bs + j))
}

/// Byte-wise XOR of `a` and `b`, as long as `a`.
pub open spec fn xor_bytes(a: Seq<u8>, b: Seq<u8>) -> Seq<u8> {
    Seq::new(a.len(), |i: int| a[i] ^ b[i])
}

/// `bs` zero bytes.
pub open spec fn zero_block(bs: nat) -> Seq<u8> {
    Seq::new(bs, |i: int| 0u8)
}

/// XOR of the source blocks named by `edges`, in order (each occurrence counts).
pub open spec fn xor_of_blocks(source: Seq<u8>, bs: nat, edges: Seq<usize>) -> Seq<u8>
    decreases edges.len(),
{
    if edges.len() == 0 {
        zero_block(bs)
    } else {
        xor_bytes(
            xor_of_blocks(source, bs, edges.drop_last()),
            source_block(source, bs, edges.last() as int),
        )
    }
}

pub proof fn lemma_xor_of_blocks_len(source: Seq<u8>, bs: nat, edges: Seq<usize>)
    ensures
        xor_of_blocks(source, bs, edges).len() == bs,
    decreases edges.len(),
{
    if edges.len() > 0 {
        lemma_xor_of_blocks_len(source, bs, edges.drop_last());
    }
}

proof fn lemma_xor_swap(x: u8, a: u8, b: u8)
    ensures
        (x ^ a) ^ b == (x ^ b) ^ a,
{
    assert((x ^ a) ^ b == (x ^ b) ^ a) by (bit_vector);
}

pub proof fn lemma_xor_zero(x: u8)
    ensures
        x ^ 0u8 == x,
        0u8 ^ x == x,
{
    assert(x ^ 0u8 == x && 0u8 ^ x == x) by (bit_vector);
}

pub proof fn lemma_xor_cancel(x: u8, a: u8)
    ensures
        (x ^ a) ^ a == x,
{
    assert((x ^ a) ^ a == x) by (bit_vector);
}

/// The XOR of a single block is that block.
pub proof fn lemma_xor_of_one_block(source: Seq<u8>, bs: nat, k: usize)
    ensures
        xor_of_blocks(source, bs, seq![k]) == source_block(source, bs, k as int),
{
    let s = seq![k];
    assert(s.drop_last() =~= Seq::<usize>::empty());
    let b = source_block(source, bs, k as int);
    let z = xor_of_blocks(source, bs, s.drop_last());
    assert(z == zero_block(bs));
    assert(s.last() == k);
    let x = xor_of_blocks(source, bs, s);
    assert(x == xor_bytes(z, b));
    assert forall|i: int| 0 <= i < bs implies #[trigger] x[i] == b[i] by {
        lemma_xor_zero(b[i]);
        assert(z[i] == 0u8);
    }
    assert(xor_of_blocks(source, bs, s) =~= b);
}

/// Taking one occurrence out of the list XORs its block out of the combination.
pub proof fn lemma_xor_of_blocks_remove(source: Seq<u8>, bs: nat, edges: Seq<usize>, p: int)
    requires
        0 <= p < edges.len(),
    ensures
        xor_of_blocks(source, bs, edges) == xor_bytes(
            xor_of_blocks(source, bs, edges.remove(p)),
            source_block(source, bs, edges[p] as int),
        ),
    decreases edges.len(),
{
    let n = edges.len() - 1;
    let init = edges.drop_last();
    lemma_xor_of_blocks_len(source, bs, edges);
    lemma_xor_of_blocks_len(source, bs, edges.remove(p));
    if p == n {
        assert(edges.remove(p) =~= init);
    } else {
        lemma_xor_of_blocks_remove(source, bs, init, p);
        assert(edges.remove(p).drop_last() =~= init.remove(p));
        assert(edges.remove(p).last() == edges.last());
        lemma_xor_of_blocks_len(source, bs, init.remove(p));
        let x = xor_of_blocks(source, bs, init.remove(p));
        let bp = source_block(source, bs, edges[p] as int);
        let bl = source_block(source, bs, edges.last() as int);
        let lhs = xor_of_blocks(source, bs, edges);
        let rhs = xor_bytes(xor_of_blocks(source, bs, edges.remove(p)), bp);
        assert forall|i: int| 0 <= i < bs implies #[trigger] lhs[i] == rhs[i] by {
            lemma_xor_swap(x[i], bp[i], bl[i]);
        }
        assert(lhs =~= rhs);
    }
}

/// Where block `k` starts and ends inside a source of `len` bytes.
pub proof fn lemma_block_bounds(len: nat, bs: nat, k: nat)
    requires
        bs > 0,
        k < block_count(len, bs),
    ensures
        k * bs < len,
        (k + 1) * bs <= len + bs - 1,
        block_count(len, bs) * bs <= len + bs - 1,
        block_count(len, bs) * bs >= len,
{
    lemma_fundamental_div_mod(len as int, bs as int);
    let q = len / bs;
    let r = len % bs;
    let c = block_count(len, bs);
    assert(len == bs * q + r);
    assert(0 <= r < bs);
    if r == 0 {
        assert(c == q);
        assert(k + 1 <= q);
        assert((k + 1) * bs <= q * bs) by (nonlinear_arith)
            requires
                k + 1 <= q,
        ;
        assert(q * bs == bs * q) by (nonlinear_arith);
        assert(k * bs + bs == (k + 1) * bs) by (nonlinear_arith);
    } else {
        assert(c == q + 1);
        assert(k <= q);
        assert(k * bs <= q * bs) by (nonlinear_arith)
            requires
                k <= q,
        ;
        assert(q * bs == bs * q) by (nonlinear_arith);
        assert(k * bs + bs == (k + 1) * bs) by (nonlinear_arith);
        assert((q + 1) * bs == q * bs + bs) by (nonlinear_arith);
    }
}

/// The number of blocks times the block size covers the source and wastes
/// less than one block.
pub proof fn lemma_block_count_bounds(len: nat, bs: nat)
    requires
        bs > 0,
    ensures
        block_count(len, bs) * bs >= len,
        block_count(len, bs) * bs <= len + bs - 1,
        len == 0 ==> block_count(len, bs) == 0,
        len > 0 ==> block_count(len, bs) > 0,
{
    lemma_fundamental_div_mod(len as int, bs as int);
    let q = len / bs;
    if len > 0 {
        if len % bs == 0 {
            assert(q > 0) by (nonlinear_arith)
                requires
                    len == bs * q,
                    len > 0,
                    bs > 0,
            ;
        }
        lemma_block_bounds(len, bs, 0);
    } else {
        assert(q == 0) by (nonlinear_arith)
            requires
                0 == bs * q + len % bs,
                0 <= len % bs,
                bs > 0,
        ;
        let c = block_count(len, bs);
        assert(c == 0);
        assert(c * bs == 0) by (nonlinear_arith)
            requires
                c == 0,
        ;
    }
}

/// Byte `i` of the source is byte `i % bs` of block `i / bs`.
pub proof fn lemma_byte_in_block(source: Seq<u8>, bs: nat, i: int)
    requires
        bs > 0,
        0 <= i < source.len(),
    ensures
        0 <= i / (bs as int) < block_count(source.len(), bs),
        0 <= i % (bs as int) < bs,
        (i / (bs as int)) * bs + i % (bs as int) == i,
        source_block(source, bs, i / (bs as int))[i % (bs as int)] == source[i],
{
    let b = bs as int;
    lemma_fundamental_div_mod(i, b);
    lemma_fundamental_div_mod(source.len() as int, b);
    let q = i / b;
    let n = source.len() as int;
    assert(q * b == b * q) by (nonlinear_arith);
    assert(q >= 0) by (nonlinear_arith)
        requires
            i == b * q + i % b,
            0 <= i % b < b,
            i >= 0,
            b > 0,
    ;
    assert(q <= n / b) by (nonlinear_arith)
        requires
            i == b * q + i % b,
            n == b * (n / b) + n % b,
            0 <= i % b < b,
            0 <= n % b < b,
            i < n,
            b > 0,
    ;
    if n % b == 0 {
        assert(q < n / b) by (nonlinear_arith)
            requires
                i == b * q + i % b,
                n == b * (n / b),
                0 <= i % b < b,
                i < n,
                b > 0,
        ;
    }
}

/// A block that lies inside `source` needs no padding.
pub proof fn lemma_source_block_inside(source: Seq<u8>, bs: nat, k: int)
    requires
        0 <= k * bs,
        k * bs + bs <= source.len(),
    ensures
        source_block(source, bs, k) == source.subrange(k * bs, k * bs + bs),
{
    assert(source_block(source, bs, k) =~= source.subrange(k * bs, k * bs + bs));
}

/// The combination depends only on the blocks it names.
pub proof fn lemma_xor_of_blocks_same_blocks(a: Seq<u8>, b: Seq<u8>, bs: nat, edges: Seq<usize>)
    requires
        forall|j: int|
            0 <= j < edges.len() ==> source_block(a, bs, #[trigger] edges[j] as int) == source_block(
                b,
                bs,
                edges[j] as int,
            ),
    ensures
        xor_of_blocks(a, bs, edges) == xor_of_blocks(b, bs, edges),
    decreases edges.len(),
{
    if edges.len() > 0 {
        let init = edges.drop_last();
        assert forall|j: int| 0 <= j < init.len() implies source_block(
            a,
            bs,
            #[trigger] init[j] as int,
        ) == source_block(b, bs, init[j] as int) by {
            assert(init[j] == edges[j]);
        }
        lemma_xor_of_blocks_same_blocks(a, b, bs, init);
        assert(edges.last() == edges[edges.len() - 1]);
    }
}

/// The combination does not depend on the order of the blocks it names.
pub proof fn lemma_xor_of_blocks_reorder(source: Seq<u8>, bs: nat, s: Seq<usize>, t: Seq<usize>)
    requires
        forall|z: usize| #[trigger] occ(s, z) == occ(t, z),
    ensures
        xor_of_blocks(source, bs, s) == xor_of_blocks(source, bs, t),
    decreases s.len(),
{
    if s.len() == 0 {
        if t.len() > 0 {
            lemma_occ_contains(t, t[0]);
            lemma_occ_contains(s, t[0]);
            assert(t.contains(t[0]));
        }
        assert(t =~= s);
    } else {
        let x = s.last();
        lemma_occ_contains(s, x);
        assert(s.contains(x)) by {
            assert(s[s.len() - 1] == x);
        }
        lemma_occ_contains(t, x);
        let p = choose|p: int| 0 <= p < t.len() && t[p] == x;
        let t2 = t.remove(p);
        let s2 = s.drop_last();
        assert forall|z: usize| #[trigger] occ(s2, z) == occ(t2, z) by {
            lemma_occ_drop_last(s, z);
            lemma_occ_remove(t, p, z);
        }
        lemma_xor_of_blocks_reorder(source, bs, s2, t2);
        lemma_xor_of_blocks_remove(source, bs, t, p);
    }
}

/// XORing `r` into `a` XORed with `r` gives `a` back.
pub proof fn lemma_xor_undo(a: Seq<u8>, r: Seq<u8>)
    requires
        r.len() >= a.len(),
    ensures
        xor_bytes(xor_bytes(a, r), r) == a,
{
    assert forall|i: int| 0 <= i < a.len() implies #[trigger] xor_bytes(xor_bytes(a, r), r)[i]
        == a[i] by {
        lemma_xor_cancel(a[i], r[i]);
    }
    assert(xor_bytes(xor_bytes(a, r), r) =~= a);
}

/// XOR of bytes regroups: `(a ^ r) ^ b == a ^ (r ^ b)`.
pub proof fn lemma_xor_bytes_assoc(a: Seq<u8>, r: Seq<u8>, b: Seq<u8>)
    requires
        r.len() >= a.len(),
        b.len() >= a.len(),
    ensures
        xor_bytes(xor_bytes(a, r), b) == xor_bytes(a, xor_bytes(r, b)),
{
    assert forall|i: int| 0 <= i < a.len() implies #[trigger] xor_bytes(xor_bytes(a, r), b)[i]
        == xor_bytes(a, xor_bytes(r, b))[i] by {
        let (x, y, z) = (a[i], r[i], b[i]);
        assert((x ^ y) ^ z == x ^ (y ^ z)) by (bit_vector);
    }
    assert(xor_bytes(xor_bytes(a, r), b) =~= xor_bytes(a, xor_bytes(r, b)));
}

} // verus!
