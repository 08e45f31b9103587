//! The peeling decoder for LT codes.
use vstd::prelude::*;
use vstd::arithmetic::div_mod::lemma_fundamental_div_mod;
use crate::blocks::{
    block_count, lemma_block_count_bounds, lemma_byte_in_block, lemma_source_block_inside,
    lemma_xor_bytes_assoc, lemma_xor_cancel, lemma_xor_of_blocks_len, lemma_xor_of_blocks_remove,
    lemma_xor_of_blocks_reorder, lemma_xor_of_blocks_same_blocks, lemma_xor_of_one_block,
    lemma_xor_undo, lemma_xor_zero, source_block, xor_bytes, xor_of_blocks, zero_block,
};
use crate::droptype::{DropType, DropTypeView};
use crate::encoder::{count_blocks, droplet_blocks, named_count, Droplet, DropletView};
use crate::occ::{lemma_occ_empty, lemma_occ_concat, lemma_occ_contains, lemma_occ_drop_last, lemma_occ_push, lemma_occ_remove, occ};
use crate::rng::get_sample_from_rng_by_seed;

verus! {

/// Counters describing the state of a [`Decoder`].
#[derive(Debug)]
pub struct Statistics {
    pub cnt_droplets: usize,
    pub cnt_chunks: usize,
    pub unknown_chunks: usize,
}

/// What [`Decoder::catch`] answers.
#[derive(Debug)]
pub enum CatchResult {
    Finished(Vec<u8>, Statistics),
    Missing(Statistics),
}

/// A received droplet, reduced by the blocks already known.
struct RxDroplet {
    edges_idx: Vec<usize>,
    data: Vec<u8>,
}

/// A source block: whether it is known, and the received droplets that still
/// wait for it (by their index in the decoder's list of droplets).
struct Block {
    idx: usize,
    edges: Vec<usize>,
    begin_at: usize,
    is_known: bool,
}

/// Decoder for the Luby transform
pub struct Decoder {
    total_length: usize,
    blocksize: usize,
    unknown_chunks: usize,
    number_of_chunks: usize,
    cnt_received_drops: usize,
    blocks: Vec<Block>,
    data: Vec<u8>,
    droplets: Vec<RxDroplet>,
    /// The blocks each received droplet named when it arrived.
    arrived: Ghost<Seq<Seq<usize>>>,
    /// The known blocks, in the order they became known.
    learnt: Ghost<Seq<usize>>,
    /// The data each received droplet brought, cut to the block size.
    arrived_data: Ghost<Seq<Seq<u8>>>,
    /// The known blocks XORed out of each received droplet so far.
    removed: Ghost<Seq<Seq<usize>>>,
}

/// Number of `false` entries in `s`.
pub open spec fn count_false(s: Seq<bool>) -> nat
    decreases s.len(),
{
    if s.len() == 0 {
        0
    } else {
        count_false(s.drop_last()) + if s.last() {
            0nat
        } else {
            1nat
        }
    }
}

proof fn lemma_count_false_update(s: Seq<bool>, i: int)
    requires
        0 <= i < s.len(),
        !s[i],
    ensures
        count_false(s.update(i, true)) + 1 == count_false(s),
    decreases s.len(),
{
    let t = s.update(i, true);
    if i < s.len() - 1 {
        assert(t.drop_last() =~= s.drop_last().update(i, true));
        lemma_count_false_update(s.drop_last(), i);
    } else {
        assert(t.drop_last() =~= s.drop_last());
    }
}

proof fn lemma_count_false_zero(s: Seq<bool>)
    ensures
        count_false(s) == 0 <==> forall|i: int| 0 <= i < s.len() ==> #[trigger] s[i],
    decreases s.len(),
{
    if s.len() > 0 {
        lemma_count_false_zero(s.drop_last());
        if count_false(s) == 0 {
            assert forall|i: int| 0 <= i < s.len() implies #[trigger] s[i] by {
                if i < s.len() - 1 {
                    assert(s.drop_last()[i] == s[i]);
                }
            }
        } else if count_false(s.drop_last()) > 0 {
            let j = choose|j: int| 0 <= j < s.drop_last().len() && !#[trigger] s.drop_last()[j];
            assert(!s[j]);
        }
    }
}

proof fn lemma_count_false_all(n: nat)
    ensures
        count_false(Seq::new(n, |i: int| false)) == n,
    decreases n,
{
    if n > 0 {
        assert(Seq::new(n, |i: int| false).drop_last() =~= Seq::new((n - 1) as nat, |i: int| false));
        lemma_count_false_all((n - 1) as nat);
    }
}

/// The entries of `s` whose block is not known (`known[i]` tells whether
/// block `i` is), in order.
pub open spec fn keep_unknown(s: Seq<usize>, known: Seq<bool>) -> Seq<usize>
    decreases s.len(),
{
    if s.len() == 0 {
        seq![]
    } else {
        let p = keep_unknown(s.drop_last(), known);
        if known[s.last() as int] {
            p
        } else {
            p.push(s.last())
        }
    }
}

proof fn lemma_keep_unknown_unknown(s: Seq<usize>, known: Seq<bool>)
    ensures
        forall|j: int|
            0 <= j < keep_unknown(s, known).len() ==> !known[#[trigger] keep_unknown(
                s,
                known,
            )[j] as int],
        forall|j: int|
            0 <= j < keep_unknown(s, known).len() ==> s.contains(#[trigger] keep_unknown(s, known)[j]),
    decreases s.len(),
{
    if s.len() > 0 {
        lemma_keep_unknown_unknown(s.drop_last(), known);
        let p = keep_unknown(s.drop_last(), known);
        let k = keep_unknown(s, known);
        assert forall|j: int| 0 <= j < k.len() implies s.contains(#[trigger] k[j]) by {
            if j < p.len() {
                assert(k[j] == p[j]);
                assert(s.drop_last().contains(p[j]));
                let t = choose|t: int| 0 <= t < s.drop_last().len() && s.drop_last()[t] == p[j];
                assert(s[t] == p[j]);
            } else {
                assert(s[s.len() - 1] == k[j]);
            }
        }
    }
}

proof fn lemma_keep_unknown_occ(s: Seq<usize>, known: Seq<bool>, z: usize)
    requires
        forall|j: int| 0 <= j < s.len() ==> #[trigger] s[j] < known.len(),
    ensures
        occ(keep_unknown(s, known), z) == if z < known.len() && !known[z as int] {
            occ(s, z)
        } else {
            0
        },
    decreases s.len(),
{
    if s.len() == 0 {
        lemma_occ_empty(z);
        assert(keep_unknown(s, known) =~= Seq::<usize>::empty());
        assert(s =~= Seq::<usize>::empty());
    } else {
        let init = s.drop_last();
        lemma_keep_unknown_occ(init, known, z);
        assert(s =~= init.push(s.last()));
        lemma_occ_push(init, s.last(), z);
        let a = s.last();
        assert(a < known.len());
        if !known[a as int] {
            lemma_occ_push(keep_unknown(init, known), a, z);
            assert(keep_unknown(s, known) == keep_unknown(init, known).push(a));
        } else {
            assert(keep_unknown(s, known) == keep_unknown(init, known));
            if a == z {
                assert(known[z as int]);
            }
        }
    }
}

proof fn lemma_keep_unknown_all(s: Seq<usize>, known: Seq<bool>)
    requires
        forall|j: int| 0 <= j < s.len() ==> !known[#[trigger] s[j] as int],
    ensures
        keep_unknown(s, known) == s,
    decreases s.len(),
{
    if s.len() > 0 {
        lemma_keep_unknown_all(s.drop_last(), known);
        assert(!known[s[s.len() - 1] as int]);
        assert(s.drop_last().push(s.last()) =~= s);
    }
}

proof fn lemma_keep_unknown_none(s: Seq<usize>, known: Seq<bool>)
    requires
        forall|j: int| 0 <= j < s.len() ==> known[#[trigger] s[j] as int],
    ensures
        keep_unknown(s, known).len() == 0,
    decreases s.len(),
{
    if s.len() > 0 {
        lemma_keep_unknown_none(s.drop_last(), known);
        assert(known[s[s.len() - 1] as int]);
    }
}

/// Two lists that name every unknown block equally often name equally many
/// unknown blocks.
proof fn lemma_keep_unknown_len_eq(s: Seq<usize>, t: Seq<usize>, known: Seq<bool>)
    requires
        forall|j: int| 0 <= j < s.len() ==> #[trigger] s[j] < known.len(),
        forall|j: int| 0 <= j < t.len() ==> #[trigger] t[j] < known.len(),
        forall|z: usize| z < known.len() && !known[z as int] ==> #[trigger] occ(s, z) == occ(t, z),
    ensures
        keep_unknown(s, known).len() == keep_unknown(t, known).len(),
{
    broadcast use vstd::seq_lib::group_to_multiset_ensures;

    let ks = keep_unknown(s, known);
    let kt = keep_unknown(t, known);
    assert forall|z: usize| ks.to_multiset().count(z) == kt.to_multiset().count(z) by {
        lemma_keep_unknown_occ(s, known, z);
        lemma_keep_unknown_occ(t, known, z);
    }
    assert(ks.to_multiset() =~= kt.to_multiset());
    assert(ks.to_multiset().len() == ks.len());
    assert(kt.to_multiset().len() == kt.len());
}

/// Whether each block is known.
spec fn flags(blocks: Seq<Block>) -> Seq<bool> {
    Seq::new(blocks.len(), |i: int| blocks[i].is_known)
}

/// What the decoder keeps of a droplet's data: its first `bs` bytes, or all
/// of them where there are fewer.
pub open spec fn payload(data: Seq<u8>, bs: nat) -> Seq<u8> {
    if bs <= data.len() {
        data.subrange(0, bs as int)
    } else {
        data
    }
}

/// `edges` gives block `x` away once the blocks in `before` are known: it
/// names `x` exactly once, and every other entry is a block of `before`.
pub open spec fn reveals(edges: Seq<usize>, x: usize, before: Seq<usize>) -> bool {
    &&& occ(edges, x) == 1
    &&& forall|j: int| 0 <= j < edges.len() ==> #[trigger] edges[j] == x || before.contains(edges[j])
}

/// XORs the `bs` bytes of `src` that start at `begin` into `dst`.
fn xor_into(dst: &mut Vec<u8>, src: &Vec<u8>, begin: usize, bs: usize)
    requires
        old(dst)@.len() == bs,
        begin + bs <= src@.len(),
    ensures
        final(dst)@ == xor_bytes(old(dst)@, src@.subrange(begin as int, begin + bs)),
{
    // The block lies inside `src`, whose length is a `usize`.
    assert(begin + bs <= src.len());
    let mut i: usize = 0;
    while i < bs
        invariant
            i <= bs,
            begin + bs <= src@.len(),
            begin + bs <= usize::MAX,
            dst@.len() == bs,
            forall|q: int| 0 <= q < i ==> #[trigger] dst@[q] == old(dst)@[q] ^ src@[begin + q],
            forall|q: int| i <= q < bs ==> #[trigger] dst@[q] == old(dst)@[q],
        decreases bs - i,
    {
        let v = dst[i] ^ src[begin + i];
        dst[i] = v;
        i = i + 1;
    }
    assert(dst@ =~= xor_bytes(old(dst)@, src@.subrange(begin as int, begin + bs)));
}

/// Copies the first `bs` bytes of `src` into `dst` from position `begin` on.
fn copy_into(dst: &mut Vec<u8>, src: &Vec<u8>, begin: usize, bs: usize)
    requires
        bs <= src@.len(),
        begin + bs <= old(dst)@.len(),
    ensures
        final(dst)@.len() == old(dst)@.len(),
        final(dst)@.subrange(begin as int, begin + bs) == src@.subrange(0, bs as int),
        forall|q: int|
            0 <= q < old(dst)@.len() && !(begin <= q < begin + bs) ==> #[trigger] final(dst)@[q]
                == old(dst)@[q],
{
    // The block lies inside `dst`, whose length is a `usize`.
    assert(begin + bs <= dst.len());
    let mut i: usize = 0;
    while i < bs
        invariant
            i <= bs,
            bs <= src@.len(),
            begin + bs <= dst@.len(),
            begin + bs <= usize::MAX,
            dst@.len() == old(dst)@.len(),
            forall|q: int| 0 <= q < i ==> #[trigger] dst@[begin + q] == src@[q],
            forall|q: int|
                0 <= q < dst@.len() && !(begin <= q < begin + i) ==> #[trigger] dst@[q]
                    == old(dst)@[q],
        decreases bs - i,
    {
        dst[begin + i] = src[i];
        i = i + 1;
    }
    assert forall|q: int| 0 <= q < bs implies #[trigger] dst@.subrange(begin as int, begin + bs)[q]
        == src@[q] by {
        assert(dst@[begin + q] == src@[q]);
    }
    assert(dst@.subrange(begin as int, begin + bs) =~= src@.subrange(0, bs as int));
}

/// The first index at which `x` occurs in `v`.
fn position(v: &Vec<usize>, x: usize) -> (p: usize)
    requires
        v@.contains(x),
    ensures
        p < v@.len(),
        v@[p as int] == x,
        forall|j: int| 0 <= j < p ==> v@[j] != x,
{
    let mut i: usize = 0;
    while i < v.len()
        invariant
            i <= v@.len(),
            v@.contains(x),
            forall|j: int| 0 <= j < i ==> v@[j] != x,
        decreases v@.len() - i,
    {
        if v[i] == x {
            return i;
        }
        i = i + 1;
    }
    proof {
        let j = choose|j: int| 0 <= j < v@.len() && v@[j] == x;
        assert(v@[j] == x);
    }
    i
}

/// Blocks `i` and `x` of size `bs` do not overlap when `i != x`.
proof fn lemma_blocks_disjoint(i: int, x: int, bs: int)
    requires
        0 <= i,
        0 <= x,
        i != x,
        bs > 0,
    ensures
        i * bs + bs <= x * bs || x * bs + bs <= i * bs,
{
    if i < x {
        assert(i * bs + bs <= x * bs) by (nonlinear_arith)
            requires
                i < x,
                bs > 0,
        ;
    } else {
        assert(x * bs + bs <= i * bs) by (nonlinear_arith)
            requires
                x < i,
                bs > 0,
        ;
    }
}

/// Block `x` lies inside a buffer of `k` blocks.
proof fn lemma_block_inside(x: int, k: int, bs: int)
    requires
        0 <= x < k,
        bs > 0,
    ensures
        0 <= x * bs,
        x * bs + bs <= k * bs,
{
    assert(0 <= x * bs && x * bs + bs <= k * bs) by (nonlinear_arith)
        requires
            0 <= x < k,
            bs > 0,
    ;
}

/// Two buffers of `k` blocks of `bs` bytes that agree block by block are
/// equal.
proof fn lemma_buffer_from_blocks(a: Seq<u8>, b: Seq<u8>, k: int, bs: int)
    requires
        k >= 0,
        bs >= 0,
        a.len() == k * bs,
        b.len() == k * bs,
        forall|i: int|
            0 <= i < k ==> #[trigger] a.subrange(i * bs, i * bs + bs) == b.subrange(i * bs, i * bs + bs),
    ensures
        a == b,
{
    if bs > 0 {
        assert forall|q: int| 0 <= q < a.len() implies a[q] == b[q] by {
            lemma_fundamental_div_mod(q, bs);
            let i = q / bs;
            let r = q % bs;
            assert(0 <= i < k && i * bs + r == q && 0 <= r < bs) by (nonlinear_arith)
                requires
                    q == bs * i + r,
                    0 <= r < bs,
                    0 <= q < k * bs,
            ;
            lemma_block_inside(i, k, bs);
            assert(a.subrange(i * bs, i * bs + bs)[r] == a[q]);
            assert(b.subrange(i * bs, i * bs + bs)[r] == b[q]);
        }
    } else {
        assert(k * bs == 0) by (nonlinear_arith)
            requires
                bs == 0,
        ;
    }
    assert(a =~= b);
}

/// A decoder whose buffer is that of `a` keeps the bytes of `a`'s known
/// blocks.
proof fn lemma_bytes_kept_same_data(a: &Decoder, b: &Decoder)
    requires
        a.data@ == b.data@,
    ensures
        b.bytes_kept(a),
{
}

/// Keeping the known bytes carries over a step that knows more.
proof fn lemma_bytes_kept_trans(a: &Decoder, b: &Decoder, c: &Decoder)
    requires
        b.bytes_kept(a),
        c.bytes_kept(b),
        b.knows_more(a),
        b.blocksize == a.blocksize,
    ensures
        c.bytes_kept(a),
{
    let bs = a.blocksize as int;
    assert forall|i: int|
        0 <= i < a.blocks@.len() && (#[trigger] a.blocks@[i]).is_known implies c.data@.subrange(
        i * bs,
        i * bs + bs,
    ) == a.data@.subrange(i * bs, i * bs + bs) by {
        assert(b.blocks@[i].is_known);
    }
}

impl Decoder {
    /// The decoder's fields agree with each other.
    pub closed spec fn wf(&self) -> bool {
        &&& self.shape_ok()
        &&& self.regs_ok()
        &&& self.full_regs()
        &&& self.reduced_but(-1)
        &&& self.waiting_in(seq![], -1)
        &&& self.all_counts_kept()
        &&& self.peeled()
        &&& self.traced()
    }

    /// Each received droplet's data are the data it brought XORed with the
    /// known blocks taken out of it, and it names, each as often as when it
    /// arrived, the blocks it still names and those taken out.
    spec fn traced(&self) -> bool {
        let bs = self.blocksize as nat;
        &&& self.arrived_data@.len() == self.droplets@.len()
        &&& self.removed@.len() == self.droplets@.len()
        &&& forall|r: int, j: int|
            0 <= r < self.removed@.len() && 0 <= j < self.removed@[r].len() ==> #[trigger] self.removed@[r][j]
                < self.number_of_chunks && self.blocks@[self.removed@[r][j] as int].is_known
        &&& forall|r: int, z: usize|
            0 <= r < self.droplets@.len() ==> #[trigger] occ(self.arrived@[r], z) == occ(
                self.droplets@[r].edges_idx@,
                z,
            ) + occ(self.removed@[r], z)
        &&& forall|r: int|
            0 <= r < self.droplets@.len() && (#[trigger] self.droplets@[r]).edges_idx@.len() > 0
                ==> self.arrived_data@[r].len() == bs && self.droplets@[r].data@ == xor_bytes(
                self.arrived_data@[r],
                xor_of_blocks(self.data@, bs, self.removed@[r]),
            )
    }

    /// The `p`-th learnt block was given away by a caught droplet once the
    /// blocks learnt before it were known.
    spec fn justified(&self, p: int) -> bool {
        exists|r: int|
            0 <= r < self.arrived@.len() && #[trigger] reveals(
                self.arrived@[r],
                self.learnt@[p],
                self.learnt@.take(p),
            ) && xor_of_blocks(self.data@, self.blocksize as nat, self.arrived@[r])
                == self.arrived_data@[r]
    }

    /// The known blocks are those learnt, each once, and each was learnt by
    /// peeling.
    spec fn peeled(&self) -> bool {
        &&& self.learnt@.no_duplicates()
        &&& forall|p: int| 0 <= p < self.learnt@.len() ==> #[trigger] self.learnt@[p] < self.number_of_chunks
        &&& forall|i: int|
            0 <= i < self.blocks@.len() ==> (#[trigger] self.blocks@[i]).is_known
                == self.learnt@.contains(i as usize)
        &&& forall|p: int| 0 <= p < self.learnt@.len() ==> #[trigger] self.justified(p)
    }

    /// The bytes of every block known in `other` are the same here.
    spec fn bytes_kept(&self, other: &Decoder) -> bool {
        let bs = other.blocksize as int;
        &&& self.data@.len() == other.data@.len()
        &&& forall|i: int|
            0 <= i < other.blocks@.len() && (#[trigger] other.blocks@[i]).is_known
                ==> self.data@.subrange(i * bs, i * bs + bs) == other.data@.subrange(i * bs, i * bs + bs)
    }

    /// Sizes, block records and counters agree.
    spec fn shape_ok(&self) -> bool {
        let k = self.number_of_chunks;
        let bs = self.blocksize;
        &&& bs > 0 || self.total_length == 0
        &&& k == block_count(self.total_length as nat, bs as nat)
        &&& self.blocks@.len() == k
        &&& self.data@.len() == k * bs
        &&& forall|i: int|
            0 <= i < k ==> (#[trigger] self.blocks@[i]).idx == i && self.blocks@[i].begin_at == i
                * bs
        &&& self.unknown_chunks == count_false(flags(self.blocks@))
        &&& self.cnt_received_drops == self.droplets@.len()
        &&& self.arrived@.len() == self.droplets@.len()
        &&& forall|r: int, j: int|
            0 <= r < self.arrived@.len() && 0 <= j < self.arrived@[r].len()
                ==> #[trigger] self.arrived@[r][j] < k
        &&& forall|r: int|
            0 <= r < self.droplets@.len() && (#[trigger] self.droplets@[r]).edges_idx@.len() > 0
                ==> self.droplets@[r].data@.len() == bs
        &&& forall|r: int, j: int|
            0 <= r < self.droplets@.len() && 0 <= j < self.droplets@[r].edges_idx@.len()
                ==> #[trigger] self.droplets@[r].edges_idx@[j] < k
        &&& forall|i: int, j: int|
            0 <= i < k && 0 <= j < self.blocks@[i].edges@.len() ==> #[trigger] self.blocks@[
                i
            ].edges@[j] < self.droplets@.len()
    }

    /// A droplet waiting in the list of an unknown block still names that
    /// block, and a droplet naming two or more blocks waits in the list of an
    /// unknown block at most as often as it names it.
    spec fn regs_ok(&self) -> bool {
        forall|x: int, e: int|
            0 <= x < self.number_of_chunks && 0 <= e < self.droplets@.len()
                && !self.blocks@[x].is_known ==> self.reg_ok(x, e)
    }

    /// Droplet `e` still names each unknown block as often as when it arrived.
    spec fn counts_kept(&self, e: int) -> bool {
        forall|z: usize|
            z < self.number_of_chunks && !self.blocks@[z as int].is_known ==> #[trigger] occ(
                self.droplets@[e].edges_idx@,
                z,
            ) == occ(self.arrived@[e], z)
    }

    spec fn all_counts_kept(&self) -> bool {
        forall|e: int| 0 <= e < self.droplets@.len() ==> #[trigger] self.counts_kept(e)
    }

    /// A droplet naming two or more blocks waits in the list of unknown
    /// block `x` at least as often as it names it.
    spec fn full_reg(&self, x: int, e: int) -> bool {
        self.droplets@[e].edges_idx@.len() >= 2 ==> occ(self.droplets@[e].edges_idx@, x as usize)
            <= occ(self.blocks@[x].edges@, e as usize)
    }

    spec fn full_regs(&self) -> bool {
        forall|x: int, e: int|
            0 <= x < self.number_of_chunks && 0 <= e < self.droplets@.len()
                && !self.blocks@[x].is_known ==> self.full_reg(x, e)
    }

    /// Droplet `e`, if it names two or more blocks, names only unknown
    /// blocks and perhaps block `x`.
    spec fn unknown_only_but(&self, e: int, x: int) -> bool {
        self.droplets@[e].edges_idx@.len() >= 2 ==> forall|j: int|
            0 <= j < self.droplets@[e].edges_idx@.len() ==> #[trigger] self.droplets@[e].edges_idx@[j]
                == x || !self.blocks@[self.droplets@[e].edges_idx@[j] as int].is_known
    }

    spec fn reduced_but(&self, x: int) -> bool {
        forall|e: int| 0 <= e < self.droplets@.len() ==> #[trigger] self.unknown_only_but(e, x)
    }

    /// Droplet `e` names a single block, and that block is unknown.
    spec fn waiting(&self, e: int) -> bool {
        &&& self.droplets@[e].edges_idx@.len() == 1
        &&& !self.blocks@[self.droplets@[e].edges_idx@[0] as int].is_known
    }

    /// Every waiting droplet but `except` is on `drops`.
    spec fn waiting_in(&self, drops: Seq<usize>, except: int) -> bool {
        forall|e: int|
            0 <= e < self.droplets@.len() && e != except && #[trigger] self.waiting(e)
                ==> drops.contains(e as usize)
    }

    spec fn reg_ok(&self, x: int, e: int) -> bool {
        &&& occ(self.blocks@[x].edges@, e as usize) > 0 ==> occ(
            self.droplets@[e].edges_idx@,
            x as usize,
        ) > 0
        &&& self.droplets@[e].edges_idx@.len() >= 2 ==> occ(self.blocks@[x].edges@, e as usize)
            <= occ(self.droplets@[e].edges_idx@, x as usize)
    }

    /// What the decoder holds is right for `source`: its length is the
    /// expected one, each known block holds the source block, and each
    /// received droplet that still names a block holds the XOR of the source
    /// blocks it still names.
    pub closed spec fn sound_for(&self, source: Seq<u8>) -> bool {
        let bs = self.blocksize as nat;
        &&& source.len() == self.total_length
        &&& forall|i: int|
            0 <= i < self.number_of_chunks && (#[trigger] self.blocks@[i]).is_known
                ==> self.data@.subrange(i * bs, i * bs + bs) == source_block(source, bs, i)
        &&& forall|r: int|
            0 <= r < self.droplets@.len() && (#[trigger] self.droplets@[r]).edges_idx@.len() > 0
                ==> self.droplets@[r].data@ == xor_of_blocks(source, bs, self.droplets@[r].edges_idx@)
    }

    /// The length of the data being decoded.
    pub closed spec fn total_len(&self) -> nat {
        self.total_length as nat
    }

    /// The size of a block.
    pub closed spec fn block_size(&self) -> nat {
        self.blocksize as nat
    }

    /// The number of blocks.
    pub closed spec fn num_chunks(&self) -> nat {
        self.number_of_chunks as nat
    }

    /// The number of droplets caught so far.
    pub closed spec fn received(&self) -> nat {
        self.cnt_received_drops as nat
    }

    /// Whether block `i` is known.
    pub closed spec fn is_known(&self, i: int) -> bool {
        self.blocks@[i].is_known
    }

    /// Whether each block is known, block by block.
    pub closed spec fn known_flags(&self) -> Seq<bool> {
        flags(self.blocks@)
    }

    /// The buffer that holds the blocks, one after the other.
    pub closed spec fn buffer(&self) -> Seq<u8> {
        self.data@
    }

    /// Where block `i` starts in the buffer.
    pub closed spec fn block_start(&self, i: int) -> nat {
        self.blocks@[i].begin_at as nat
    }

    /// The bytes of block `i` in the buffer.
    pub open spec fn block_bytes(&self, i: int) -> Seq<u8> {
        self.buffer().subrange(i * self.block_size(), i * self.block_size() + self.block_size())
    }

    /// The known blocks, in the order in which they became known.
    pub closed spec fn learnt_order(&self) -> Seq<usize> {
        self.learnt@
    }

    /// The data each caught droplet brought, cut to the block size.
    pub closed spec fn arrived_data(&self) -> Seq<Seq<u8>> {
        self.arrived_data@
    }

    /// The `p`-th block of the learnt order was given away by a caught
    /// droplet once the blocks learnt before it were known, and its bytes are
    /// those that make the XOR of all the blocks that droplet names equal to
    /// the data it brought.
    pub open spec fn peeled_at(&self, p: int) -> bool {
        exists|r: int|
            0 <= r < self.arrived_edges().len() && #[trigger] reveals(
                self.arrived_edges()[r],
                self.learnt_order()[p],
                self.learnt_order().take(p),
            ) && xor_of_blocks(self.buffer(), self.block_size(), self.arrived_edges()[r])
                == self.arrived_data()[r]
    }

    /// The number of blocks not known yet.
    pub closed spec fn unknown_count(&self) -> nat {
        self.unknown_chunks as nat
    }

    /// The blocks each caught droplet named when it was caught, in order.
    pub closed spec fn arrived_edges(&self) -> Seq<Seq<usize>> {
        self.arrived@
    }

    /// How many entries of `edges` name a block that is not known (each
    /// occurrence counts).
    pub open spec fn unknown_among(&self, edges: Seq<usize>) -> nat {
        keep_unknown(edges, self.known_flags()).len()
    }

    /// Some caught droplet named block `i` and no other.
    pub open spec fn arrived_alone(&self, i: usize) -> bool {
        exists|r: int| 0 <= r < self.arrived_edges().len() && #[trigger] self.arrived_edges()[r] == seq![i]
    }

    /// The first `total_len()` bytes of the block buffer.
    pub open spec fn recovered(&self) -> Seq<u8> {
        self.buffer().subrange(0, self.total_len() as int)
    }

    /// Creates a new Decoder for LT codes: every block unknown, the buffer
    /// zeroed, block `i` starting at `i * blocksize`. Nothing of `len` bytes
    /// may be cut into blocks of no bytes.
    pub fn new(len: usize, blocksize: usize) -> (dec: Decoder)
        requires
            blocksize > 0 || len == 0,
            block_count(len as nat, blocksize as nat) * blocksize <= usize::MAX,
        ensures
            dec.wf(),
            dec.total_len() == len,
            dec.block_size() == blocksize,
            dec.num_chunks() == block_count(len as nat, blocksize as nat),
            dec.received() == 0,
            dec.unknown_count() == dec.num_chunks(),
            dec.arrived_edges() == Seq::<Seq<usize>>::empty(),
            dec.arrived_data() == Seq::<Seq<u8>>::empty(),
            dec.learnt_order() == Seq::<usize>::empty(),
            dec.buffer() == Seq::new((dec.num_chunks() * blocksize) as nat, |i: int| 0u8),
            forall|i: int|
                0 <= i < dec.num_chunks() ==> !dec.is_known(i) && dec.block_start(i) == i * blocksize,
            forall|source: Seq<u8>| source.len() == len ==> #[trigger] dec.sound_for(source),
    {
        let number_of_chunks = count_blocks(len, blocksize);
        let data: Vec<u8> = vec![0; number_of_chunks * blocksize];
        let mut edges: Vec<Block> = Vec::with_capacity(number_of_chunks);
        let mut i: usize = 0;
        while i < number_of_chunks
            invariant
                i <= number_of_chunks,
                number_of_chunks * blocksize <= usize::MAX,
                edges@.len() == i,
                forall|j: int|
                    0 <= j < i ==> (#[trigger] edges@[j]).idx == j && edges@[j].begin_at == j
                        * blocksize && !edges@[j].is_known && edges@[j].edges@.len() == 0,
            decreases number_of_chunks - i,
        {
            proof {
                assert(i * blocksize <= number_of_chunks * blocksize) by (nonlinear_arith)
                    requires
                        i <= number_of_chunks,
                ;
            }
            let blk = Block { idx: i, edges: Vec::new(), begin_at: i * blocksize, is_known: false };
            edges.push(blk);
            i = i + 1;
        }
        proof {
            assert(flags(edges@) =~= Seq::new(number_of_chunks as nat, |j: int| false));
            lemma_count_false_all(number_of_chunks as nat);
        }
        Decoder {
            total_length: len,
            number_of_chunks: number_of_chunks,
            unknown_chunks: number_of_chunks,
            cnt_received_drops: 0,
            blocks: edges,
            data: data,
            blocksize: blocksize,
            droplets: Vec::new(),
            arrived: Ghost(Seq::empty()),
            learnt: Ghost(Seq::empty()),
            arrived_data: Ghost(Seq::empty()),
            removed: Ghost(Seq::empty()),
        }
    }

    /// The number of blocks.
    pub fn chunk_count(&self) -> (n: usize)
        ensures
            n == self.num_chunks(),
    {
        self.number_of_chunks
    }

    /// The size of a block.
    pub fn bytes_per_block(&self) -> (n: usize)
        ensures
            n == self.block_size(),
    {
        self.blocksize
    }

    /// The number of droplets caught so far.
    pub fn received_count(&self) -> (n: usize)
        ensures
            n == self.received(),
    {
        self.cnt_received_drops
    }

    /// The fields that a step of the peeling leaves alone.
    spec fn same_params(&self, other: &Decoder) -> bool {
        &&& self.total_length == other.total_length
        &&& self.blocksize == other.blocksize
        &&& self.number_of_chunks == other.number_of_chunks
        &&& self.cnt_received_drops == other.cnt_received_drops
    }

    /// XORs known block `x` out of droplet `r` and strikes the first
    /// occurrence of `x` from the droplet's list; returns where it stood.
    fn reduce(&mut self, r: usize, x: usize) -> (p: usize)
        requires
            old(self).shape_ok(),
            old(self).traced(),
            x < old(self).number_of_chunks,
            old(self).blocks@[x as int].is_known,
            r < old(self).droplets@.len(),
            occ(old(self).droplets@[r as int].edges_idx@, x) > 0,
        ensures
            final(self).shape_ok(),
            final(self).same_params(old(self)),
            final(self).unknown_chunks == old(self).unknown_chunks,
            final(self).blocks@ == old(self).blocks@,
            final(self).data@ == old(self).data@,
            final(self).droplets@.len() == old(self).droplets@.len(),
            forall|r2: int|
                0 <= r2 < old(self).droplets@.len() && r2 != r ==> #[trigger] final(self).droplets@[r2]
                    == old(self).droplets@[r2],
            p < old(self).droplets@[r as int].edges_idx@.len(),
            old(self).droplets@[r as int].edges_idx@[p as int] == x,
            forall|j: int| 0 <= j < p ==> old(self).droplets@[r as int].edges_idx@[j] != x,
            final(self).droplets@[r as int].edges_idx@ == old(self).droplets@[r as int].edges_idx@.remove(
                p as int,
            ),
            old(self).regs_ok() ==> final(self).regs_ok(),
            final(self).arrived == old(self).arrived,
            final(self).learnt == old(self).learnt,
            final(self).arrived_data == old(self).arrived_data,
            final(self).traced(),
            old(self).all_counts_kept() ==> final(self).all_counts_kept(),
            forall|x2: int, e: int|
                0 <= x2 < old(self).number_of_chunks && 0 <= e < old(self).droplets@.len()
                    && !old(self).blocks@[x2].is_known && old(self).full_reg(x2, e)
                    ==> #[trigger] final(self).full_reg(x2, e),
            forall|e: int, y: int|
                0 <= e < old(self).droplets@.len() && old(self).unknown_only_but(e, y)
                    ==> #[trigger] final(self).unknown_only_but(e, y),
            forall|e: int|
                0 <= e < old(self).droplets@.len() && e != r ==> #[trigger] final(self).waiting(e)
                    == old(self).waiting(e),
            forall|src: Seq<u8>| old(self).sound_for(src) ==> final(self).sound_for(src),
    {
        let ghost k = self.number_of_chunks as int;
        let ghost bs = self.blocksize as int;
        let begin = self.blocks[x].begin_at;
        proof {
            lemma_block_inside(x as int, k, bs);
            lemma_occ_contains(self.droplets@[r as int].edges_idx@, x);
        }
        xor_into(&mut self.droplets[r].data, &self.data, begin, self.blocksize);
        let pos = position(&self.droplets[r].edges_idx, x);
        self.droplets[r].edges_idx.remove(pos);
        let ghost old_rem = self.removed@[r as int];
        self.removed = Ghost(self.removed@.update(r as int, old_rem.push(x)));
        proof {
            let old_e = old(self).droplets@[r as int].edges_idx@;
            let new_e = self.droplets@[r as int].edges_idx@;
            let b = bs as nat;
            assert forall|r2: int, j: int|
                0 <= r2 < self.removed@.len() && 0 <= j < self.removed@[r2].len()
                    implies #[trigger] self.removed@[r2][j] < self.number_of_chunks
                    && self.blocks@[self.removed@[r2][j] as int].is_known by {
                if r2 == r && j < old_rem.len() {
                    assert(self.removed@[r2][j] == old_rem[j]);
                }
            }
            assert forall|r2: int, z: usize| 0 <= r2 < self.droplets@.len() implies #[trigger] occ(
                self.arrived@[r2],
                z,
            ) == occ(self.droplets@[r2].edges_idx@, z) + occ(self.removed@[r2], z) by {
                assert(occ(old(self).arrived@[r2], z) == occ(
                    old(self).droplets@[r2].edges_idx@,
                    z,
                ) + occ(old(self).removed@[r2], z));
                if r2 == r {
                    lemma_occ_remove(old_e, pos as int, z);
                    lemma_occ_push(old_rem, x, z);
                } else {
                    assert(self.droplets@[r2] == old(self).droplets@[r2]);
                }
            }
            let arr = self.arrived_data@[r as int];
            let rr = xor_of_blocks(self.data@, b, old_rem);
            let blk = self.data@.subrange(begin as int, begin + bs);
            lemma_xor_of_blocks_len(self.data@, b, old_rem);
            assert(old(self).droplets@[r as int].edges_idx@.len() > 0);
            assert(old(self).droplets@[r as int].data@ == xor_bytes(arr, rr));
            lemma_source_block_inside(self.data@, b, x as int);
            assert(old_rem.push(x).drop_last() =~= old_rem);
            assert(xor_of_blocks(self.data@, b, old_rem.push(x)) == xor_bytes(rr, blk));
            lemma_xor_bytes_assoc(arr, rr, blk);
            assert forall|r2: int|
                0 <= r2 < self.droplets@.len() && (#[trigger] self.droplets@[r2]).edges_idx@.len()
                    > 0 implies self.arrived_data@[r2].len() == b && self.droplets@[r2].data@
                    == xor_bytes(
                    self.arrived_data@[r2],
                    xor_of_blocks(self.data@, b, self.removed@[r2]),
                ) by {
                if r2 != r {
                    assert(self.droplets@[r2] == old(self).droplets@[r2]);
                }
            }

            let old_e = old(self).droplets@[r as int].edges_idx@;
            let new_e = self.droplets@[r as int].edges_idx@;
            assert forall|r2: int, j: int|
                0 <= r2 < self.droplets@.len() && 0 <= j < self.droplets@[r2].edges_idx@.len()
                    implies #[trigger] self.droplets@[r2].edges_idx@[j] < k by {
                if r2 == r {
                    if j < pos {
                        assert(new_e[j] == old_e[j]);
                    } else {
                        assert(new_e[j] == old_e[j + 1]);
                    }
                } else {
                    assert(self.droplets@[r2] == old(self).droplets@[r2]);
                }
            }
            assert forall|r2: int|
                0 <= r2 < self.droplets@.len() && (#[trigger] self.droplets@[r2]).edges_idx@.len()
                    > 0 implies self.droplets@[r2].data@.len() == bs by {
                if r2 != r {
                    assert(self.droplets@[r2] == old(self).droplets@[r2]);
                }
            }
            assert(flags(self.blocks@) == flags(old(self).blocks@));
            if old(self).regs_ok() {
                assert forall|z: int, e: int|
                    0 <= z < self.number_of_chunks && 0 <= e < self.droplets@.len()
                        && !self.blocks@[z].is_known implies self.reg_ok(z, e) by {
                    assert(old(self).reg_ok(z, e));
                    if e == r {
                        lemma_occ_remove(old_e, pos as int, z as usize);
                    } else {
                        assert(self.droplets@[e] == old(self).droplets@[e]);
                    }
                }
            }
            assert forall|x2: int, e: int|
                0 <= x2 < old(self).number_of_chunks && 0 <= e < old(self).droplets@.len()
                    && !old(self).blocks@[x2].is_known && old(self).full_reg(x2, e)
                    implies #[trigger] self.full_reg(x2, e) by {
                if e == r {
                    lemma_occ_remove(old_e, pos as int, x2 as usize);
                } else {
                    assert(self.droplets@[e] == old(self).droplets@[e]);
                }
            }
            assert forall|e: int, y: int|
                0 <= e < old(self).droplets@.len() && old(self).unknown_only_but(e, y)
                    implies #[trigger] self.unknown_only_but(e, y) by {
                if e == r {
                    if new_e.len() >= 2 {
                        assert forall|j: int| 0 <= j < new_e.len() implies #[trigger] new_e[j] == y
                            || !self.blocks@[new_e[j] as int].is_known by {
                            if j < pos {
                                assert(new_e[j] == old_e[j]);
                            } else {
                                assert(new_e[j] == old_e[j + 1]);
                            }
                        }
                    }
                } else {
                    assert(self.droplets@[e] == old(self).droplets@[e]);
                }
            }
            assert forall|e: int|
                0 <= e < old(self).droplets@.len() && e != r implies #[trigger] self.waiting(e)
                == old(self).waiting(e) by {
                assert(self.droplets@[e] == old(self).droplets@[e]);
            }
            if old(self).all_counts_kept() {
                assert forall|e: int| 0 <= e < self.droplets@.len() implies #[trigger] self.counts_kept(
                    e,
                ) by {
                    assert(old(self).counts_kept(e));
                    if e == r {
                        assert forall|z: usize|
                            z < self.number_of_chunks && !self.blocks@[z as int].is_known implies #[trigger] occ(
                            self.droplets@[e].edges_idx@,
                            z,
                        ) == occ(self.arrived@[e], z) by {
                            lemma_occ_remove(old_e, pos as int, z);
                            assert(occ(old_e, z) == occ(self.arrived@[e], z));
                        }
                    } else {
                        assert(self.droplets@[e] == old(self).droplets@[e]);
                    }
                }
            }
            assert forall|src: Seq<u8>| old(self).sound_for(src) implies self.sound_for(src) by {
                let b = bs as nat;
                let blk = source_block(src, b, x as int);
                let old_d = old(self).droplets@[r as int].data@;
                assert(old(self).data@.subrange(x * bs, x * bs + bs) == blk);
                assert(self.data@.subrange(begin as int, begin + bs) == blk);
                lemma_xor_of_blocks_remove(src, b, old_e, pos as int);
                lemma_xor_of_blocks_len(src, b, new_e);
                let rest = xor_of_blocks(src, b, new_e);
                assert(old_d == xor_bytes(rest, blk));
                let new_d = self.droplets@[r as int].data@;
                assert(new_d == xor_bytes(old_d, blk));
                assert forall|q: int| 0 <= q < b implies #[trigger] new_d[q] == rest[q] by {
                    lemma_xor_cancel(rest[q], blk[q]);
                }
                assert(new_d =~= rest);
                assert forall|r2: int|
                    0 <= r2 < self.droplets@.len() && (#[trigger] self.droplets@[r2]).edges_idx@.len()
                        > 0 implies self.droplets@[r2].data@ == xor_of_blocks(
                    src,
                    b,
                    self.droplets@[r2].edges_idx@,
                ) by {
                    if r2 != r {
                        assert(self.droplets@[r2] == old(self).droplets@[r2]);
                    }
                }
            }
        }
        pos
    }

    /// `peeled` looks only at which blocks are known, the learnt order and
    /// the arrived droplets.
    proof fn lemma_peeled_frame(a: &Decoder, b: &Decoder)
        requires
            a.peeled(),
            flags(a.blocks@) == flags(b.blocks@),
            a.learnt == b.learnt,
            a.arrived == b.arrived,
            a.arrived_data == b.arrived_data,
            a.data@ == b.data@,
            a.blocksize == b.blocksize,
            a.number_of_chunks == b.number_of_chunks,
        ensures
            b.peeled(),
    {
        assert(a.blocks@.len() == flags(a.blocks@).len());
        assert(b.blocks@.len() == flags(b.blocks@).len());
        assert forall|i: int| 0 <= i < b.blocks@.len() implies (#[trigger] b.blocks@[i]).is_known
            == b.learnt@.contains(i as usize) by {
            assert(flags(a.blocks@)[i] == flags(b.blocks@)[i]);
            assert(flags(b.blocks@)[i] == b.blocks@[i].is_known);
            assert(flags(a.blocks@)[i] == a.blocks@[i].is_known);
            assert(a.learnt@ == b.learnt@);
            assert(a.blocks@[i].is_known == a.learnt@.contains(i as usize));
        }
        assert forall|p: int| 0 <= p < b.learnt@.len() implies #[trigger] b.justified(p) by {
            assert(a.justified(p));
        }
    }

    /// Learning block `x` from droplet `d`, which names it alone, extends
    /// the learnt order by a block that peeling gives away.
    proof fn lemma_learn_peeled(&self, old: &Decoder, d: usize, x: usize)
        requires
            old.shape_ok(),
            old.peeled(),
            x < old.number_of_chunks,
            !old.blocks@[x as int].is_known,
            d < old.droplets@.len(),
            old.droplets@[d as int].edges_idx@ == seq![x],
            old.counts_kept(d as int),
            self.number_of_chunks == old.number_of_chunks,
            self.arrived == old.arrived,
            self.learnt@ == old.learnt@.push(x),
            self.blocks@.len() == old.blocks@.len(),
            self.blocks@[x as int].is_known,
            forall|i: int|
                0 <= i < old.blocks@.len() && i != x ==> #[trigger] self.blocks@[i] == old.blocks@[i],
            old.traced(),
            self.blocksize == old.blocksize,
            self.arrived_data == old.arrived_data,
            self.removed == old.removed,
            self.droplets@ == old.droplets@,
            self.data@.len() == old.data@.len(),
            forall|i: int|
                0 <= i < old.number_of_chunks && i != x ==> #[trigger] self.data@.subrange(
                    i * old.blocksize,
                    i * old.blocksize + old.blocksize,
                ) == old.data@.subrange(i * old.blocksize, i * old.blocksize + old.blocksize),
            self.data@.subrange(
                x * old.blocksize,
                x * old.blocksize + old.blocksize,
            ) == old.droplets@[d as int].data@,
        ensures
            self.peeled(),
            self.traced(),
    {
        let bs = old.blocksize as int;
        let b = bs as nat;
        let k = old.number_of_chunks as int;
        assert(bs > 0);
        assert forall|i: int| 0 <= i < k && i != x implies #[trigger] source_block(self.data@, b, i)
            == source_block(old.data@, b, i) by {
            lemma_block_inside(i, k, bs);
            lemma_source_block_inside(self.data@, b, i);
            lemma_source_block_inside(old.data@, b, i);
        }
        let ol = old.learnt@;
        let nl = self.learnt@;
        let n = ol.len() as int;
        assert(!ol.contains(x)) by {
            assert(old.blocks@[x as int].is_known == ol.contains(x));
        }
        assert(nl[n] == x);
        assert forall|i: int, j: int| 0 <= i < nl.len() && 0 <= j < nl.len() && i != j implies nl[i]
            != nl[j] by {
            if i < n && j < n {
                assert(ol[i] != ol[j]);
            } else if i < n {
                assert(ol[i] == nl[i]);
            } else if j < n {
                assert(ol[j] == nl[j]);
            }
        }
        assert forall|p: int| 0 <= p < nl.len() implies #[trigger] nl[p] < self.number_of_chunks by {
            if p < n {
                assert(nl[p] == ol[p]);
            }
        }
        assert forall|i: int| 0 <= i < self.blocks@.len() implies (#[trigger] self.blocks@[i]).is_known
            == nl.contains(i as usize) by {
            if i == x {
                assert(nl.contains(x));
            } else {
                assert(old.blocks@[i].is_known == ol.contains(i as usize));
                if ol.contains(i as usize) {
                    let j = choose|j: int| 0 <= j < ol.len() && ol[j] == i as usize;
                    assert(nl[j] == ol[j]);
                }
                if nl.contains(i as usize) {
                    let j = choose|j: int| 0 <= j < nl.len() && nl[j] == i as usize;
                    assert(j < n);
                    assert(ol[j] == nl[j]);
                }
            }
        }
        let ad = old.arrived@[d as int];
        assert(ad.len() >= 0);
        lemma_occ_empty(x);
        assert(seq![x] =~= Seq::<usize>::empty().push(x));
        assert forall|z: usize| #[trigger] occ(seq![x], z) == if z == x {
            1nat
        } else {
            0nat
        } by {
            lemma_occ_empty(z);
            lemma_occ_push(Seq::<usize>::empty(), x, z);
        }
        assert(occ(old.droplets@[d as int].edges_idx@, x) == occ(ad, x));
        assert forall|j: int| 0 <= j < ad.len() implies #[trigger] ad[j] == x || ol.contains(
            ad[j],
        ) by {
            let z = ad[j];
            assert(z < old.number_of_chunks);
            if z != x && !old.blocks@[z as int].is_known {
                assert(occ(old.droplets@[d as int].edges_idx@, z) == occ(ad, z));
                assert(occ(seq![x], z) == 0);
                assert(ad.contains(z));
                lemma_occ_contains(ad, z);
            }
            if z != x {
                assert(old.blocks@[z as int].is_known == ol.contains(z));
            }
        }
        assert(nl.take(n) =~= ol);
        assert(reveals(self.arrived@[d as int], nl[n], nl.take(n)));
        // The removed blocks of every droplet are known, so not `x`.
        assert forall|r: int|
            0 <= r < old.droplets@.len() implies #[trigger] xor_of_blocks(self.data@, b, old.removed@[r])
            == xor_of_blocks(old.data@, b, old.removed@[r]) by {
            let rem = old.removed@[r];
            assert forall|j: int| 0 <= j < rem.len() implies source_block(
                self.data@,
                b,
                #[trigger] rem[j] as int,
            ) == source_block(old.data@, b, rem[j] as int) by {
                assert(old.removed@[r][j] < old.number_of_chunks);
                assert(old.blocks@[rem[j] as int].is_known);
            }
            lemma_xor_of_blocks_same_blocks(self.data@, old.data@, b, rem);
        }
        // The droplet that gives `x` away: its blocks XOR to its data.
        let rem = old.removed@[d as int];
        let arr = old.arrived_data@[d as int];
        let rr = xor_of_blocks(old.data@, b, rem);
        assert(old.droplets@[d as int].data@ == xor_bytes(arr, rr));
        assert(arr.len() == b);
        lemma_xor_of_blocks_len(old.data@, b, rem);
        assert forall|z: usize| #[trigger] occ(ad, z) == occ(rem.push(x), z) by {
            lemma_occ_push(rem, x, z);
        }
        lemma_xor_of_blocks_reorder(self.data@, b, ad, rem.push(x));
        assert(rem.push(x).drop_last() =~= rem);
        lemma_block_inside(x as int, k, bs);
        lemma_source_block_inside(self.data@, b, x as int);
        assert(xor_of_blocks(self.data@, b, rem) == rr);
        assert(xor_of_blocks(self.data@, b, ad) == xor_bytes(rr, xor_bytes(arr, rr)));
        assert forall|q: int| 0 <= q < b implies #[trigger] xor_bytes(rr, xor_bytes(arr, rr))[q]
            == arr[q] by {
            let (u, v) = (rr[q], arr[q]);
            assert(u ^ (v ^ u) == v) by (bit_vector);
        }
        assert(xor_of_blocks(self.data@, b, ad) =~= arr);
        assert forall|p: int| 0 <= p < nl.len() implies #[trigger] self.justified(p) by {
            if p < n {
                assert(old.justified(p));
                let r = choose|r: int|
                    0 <= r < old.arrived@.len() && #[trigger] reveals(old.arrived@[r], ol[p], ol.take(p))
                        && xor_of_blocks(old.data@, b, old.arrived@[r]) == old.arrived_data@[r];
                assert(nl.take(p) =~= ol.take(p));
                assert(nl[p] == ol[p]);
                assert(reveals(self.arrived@[r], nl[p], nl.take(p)));
                let ar = old.arrived@[r];
                assert forall|j: int| 0 <= j < ar.len() implies source_block(
                    self.data@,
                    b,
                    #[trigger] ar[j] as int,
                ) == source_block(old.data@, b, ar[j] as int) by {
                    let e = ar[j];
                    assert(e == ol[p] || ol.take(p).contains(e));
                    if e == ol[p] {
                        assert(ol.contains(e));
                    } else {
                        let t = choose|t: int| 0 <= t < ol.take(p).len() && ol.take(p)[t] == e;
                        assert(ol[t] == e);
                        assert(ol.contains(e));
                    }
                    assert(e < old.number_of_chunks);
                    assert(old.blocks@[e as int].is_known == ol.contains(e));
                }
                lemma_xor_of_blocks_same_blocks(self.data@, old.data@, b, ar);
            } else {
                assert(reveals(self.arrived@[d as int], nl[p], nl.take(p)));
            }
        }
        assert forall|r: int, j: int|
            0 <= r < self.removed@.len() && 0 <= j < self.removed@[r].len() implies #[trigger] self.removed@[r][j]
            < self.number_of_chunks && self.blocks@[self.removed@[r][j] as int].is_known by {
            let e = self.removed@[r][j];
            assert(old.blocks@[e as int].is_known);
            if e != x {
                assert(self.blocks@[e as int] == old.blocks@[e as int]);
            }
        }
        assert forall|r: int|
            0 <= r < self.droplets@.len() && (#[trigger] self.droplets@[r]).edges_idx@.len() > 0
                implies self.arrived_data@[r].len() == b && self.droplets@[r].data@ == xor_bytes(
            self.arrived_data@[r],
            xor_of_blocks(self.data@, b, self.removed@[r]),
        ) by {
            assert(xor_of_blocks(self.data@, b, old.removed@[r]) == xor_of_blocks(
                old.data@,
                b,
                old.removed@[r],
            ));
        }
        assert forall|r: int, z: usize| 0 <= r < self.droplets@.len() implies #[trigger] occ(
            self.arrived@[r],
            z,
        ) == occ(self.droplets@[r].edges_idx@, z) + occ(self.removed@[r], z) by {
            assert(occ(old.arrived@[r], z) == occ(old.droplets@[r].edges_idx@, z) + occ(
                old.removed@[r],
                z,
            ));
        }
    }

    /// Block `x`, unknown so far, is learnt from droplet `d`, which names `x`
    /// alone: the droplet's data become the block's data.
    fn learn(&mut self, d: usize, x: usize)
        requires
            old(self).shape_ok(),
            old(self).peeled(),
            x < old(self).number_of_chunks,
            !old(self).blocks@[x as int].is_known,
            d < old(self).droplets@.len(),
            old(self).droplets@[d as int].edges_idx@ == seq![x],
            old(self).counts_kept(d as int),
            old(self).traced(),
        ensures
            final(self).shape_ok(),
            final(self).peeled(),
            final(self).traced(),
            final(self).arrived_data == old(self).arrived_data,
            final(self).learnt@ == old(self).learnt@.push(x),
            final(self).bytes_kept(old(self)),
            final(self).same_params(old(self)),
            final(self).unknown_chunks + 1 == old(self).unknown_chunks,
            final(self).droplets@ == old(self).droplets@,
            final(self).blocks@.len() == old(self).blocks@.len(),
            final(self).blocks@[x as int].is_known,
            final(self).blocks@[x as int].edges@ == old(self).blocks@[x as int].edges@,
            forall|i: int|
                0 <= i < old(self).blocks@.len() && i != x ==> #[trigger] final(self).blocks@[i]
                    == old(self).blocks@[i],
            old(self).regs_ok() ==> final(self).regs_ok(),
            final(self).arrived == old(self).arrived,
            old(self).all_counts_kept() ==> final(self).all_counts_kept(),
            forall|x2: int, e: int|
                0 <= x2 < old(self).number_of_chunks && 0 <= e < old(self).droplets@.len()
                    ==> #[trigger] final(self).full_reg(x2, e) == old(self).full_reg(x2, e),
            forall|e: int|
                0 <= e < old(self).droplets@.len() && old(self).unknown_only_but(e, -1)
                    ==> #[trigger] final(self).unknown_only_but(e, x as int),
            forall|e: int|
                0 <= e < old(self).droplets@.len() && #[trigger] final(self).waiting(e)
                    ==> old(self).waiting(e),
            forall|src: Seq<u8>| old(self).sound_for(src) ==> final(self).sound_for(src),
    {
        let ghost k = self.number_of_chunks as int;
        let ghost bs = self.blocksize as int;
        let begin = self.blocks[x].begin_at;
        proof {
            lemma_block_inside(x as int, k, bs);
            lemma_count_false_update(flags(self.blocks@), x as int);
        }
        copy_into(&mut self.data, &self.droplets[d].data, begin, self.blocksize);
        self.blocks[x].is_known = true;
        self.unknown_chunks = self.unknown_chunks - 1;
        self.learnt = Ghost(self.learnt@.push(x));
        proof {
            assert forall|i: int|
                0 <= i < k && i != x implies #[trigger] self.data@.subrange(i * bs, i * bs + bs)
                == old(self).data@.subrange(i * bs, i * bs + bs) by {
                lemma_blocks_disjoint(i, x as int, bs);
                lemma_block_inside(i, k, bs);
                assert(self.data@.subrange(i * bs, i * bs + bs) =~= old(self).data@.subrange(
                    i * bs,
                    i * bs + bs,
                ));
            }
            assert forall|i: int|
                0 <= i < old(self).blocks@.len() && (#[trigger] old(self).blocks@[i]).is_known
                    implies self.data@.subrange(i * bs, i * bs + bs) == old(self).data@.subrange(
                    i * bs,
                    i * bs + bs,
                ) by {
                assert(i != x);
            }
            assert(self.droplets@[d as int].data@.len() == bs);
            assert(self.data@.subrange(x * bs, x * bs + bs) =~= self.droplets@[d as int].data@);
            self.lemma_learn_peeled(old(self), d, x);

            assert(flags(self.blocks@) =~= flags(old(self).blocks@).update(x as int, true));
            assert forall|i: int| 0 <= i < k implies (#[trigger] self.blocks@[i]).idx == i
                && self.blocks@[i].begin_at == i * bs by {
                assert(old(self).blocks@[i].idx == i);
            }
            if old(self).regs_ok() {
                assert forall|z: int, e: int|
                    0 <= z < self.number_of_chunks && 0 <= e < self.droplets@.len()
                        && !self.blocks@[z].is_known implies self.reg_ok(z, e) by {
                    assert(old(self).reg_ok(z, e));
                }
            }
            if old(self).all_counts_kept() {
                assert forall|e: int| 0 <= e < self.droplets@.len() implies #[trigger] self.counts_kept(
                    e,
                ) by {
                    assert(old(self).counts_kept(e));
                    assert forall|z: usize|
                        z < self.number_of_chunks && !self.blocks@[z as int].is_known implies #[trigger] occ(
                        self.droplets@[e].edges_idx@,
                        z,
                    ) == occ(self.arrived@[e], z) by {
                        assert(!old(self).blocks@[z as int].is_known);
                    }
                }
            }
            assert forall|x2: int, e: int|
                0 <= x2 < old(self).number_of_chunks && 0 <= e < old(self).droplets@.len()
                    implies #[trigger] self.full_reg(x2, e) == old(self).full_reg(x2, e) by {
                if x2 != x {
                    assert(self.blocks@[x2] == old(self).blocks@[x2]);
                }
            }
            assert forall|e: int|
                0 <= e < old(self).droplets@.len() && old(self).unknown_only_but(e, -1)
                    implies #[trigger] self.unknown_only_but(e, x as int) by {
                let ed = self.droplets@[e].edges_idx@;
                if ed.len() >= 2 {
                    assert forall|j: int| 0 <= j < ed.len() implies #[trigger] ed[j] == x
                        || !self.blocks@[ed[j] as int].is_known by {
                        assert(!old(self).blocks@[ed[j] as int].is_known);
                        if ed[j] != x {
                            assert(self.blocks@[ed[j] as int] == old(self).blocks@[ed[j] as int]);
                        }
                    }
                }
            }
            assert forall|e: int|
                0 <= e < old(self).droplets@.len() && #[trigger] self.waiting(e)
                    implies old(self).waiting(e) by {
                let ed = self.droplets@[e].edges_idx@;
                if ed[0] != x {
                    assert(self.blocks@[ed[0] as int] == old(self).blocks@[ed[0] as int]);
                }
            }
            assert forall|src: Seq<u8>| old(self).sound_for(src) implies self.sound_for(src) by {
                let b = bs as nat;
                lemma_xor_of_one_block(src, b, x);
                assert(self.droplets@[d as int].data@ == source_block(src, b, x as int));
                assert forall|i: int|
                    0 <= i < k && (#[trigger] self.blocks@[i]).is_known implies self.data@.subrange(
                    i * bs,
                    i * bs + bs,
                ) == source_block(src, b, i) by {
                    if i == x {
                        assert(self.data@.subrange(i * bs, i * bs + bs)
                            =~= self.droplets@[d as int].data@);
                    } else {
                        assert(old(self).blocks@[i].is_known);
                    }
                }
            }
        }
    }

    /// No received droplet names more blocks than it did in `other`.
    spec fn lens_le(&self, other: &Decoder) -> bool {
        &&& self.droplets@.len() == other.droplets@.len()
        &&& forall|r: int|
            0 <= r < self.droplets@.len() ==> (#[trigger] self.droplets@[r]).edges_idx@.len()
                <= other.droplets@[r].edges_idx@.len()
    }

    /// Every block known in `other` is known here.
    spec fn knows_more(&self, other: &Decoder) -> bool {
        &&& self.blocks@.len() == other.blocks@.len()
        &&& forall|i: int|
            0 <= i < self.blocks@.len() && (#[trigger] other.blocks@[i]).is_known
                ==> self.blocks@[i].is_known
    }

    /// Block `x` has just been learnt: every droplet waiting for it is
    /// reduced by it, and those left naming a single block are put on `drops`.
    fn drain(&mut self, x: usize, drops: &mut Vec<usize>)
        requires
            old(self).shape_ok(),
            old(self).regs_ok(),
            x < old(self).number_of_chunks,
            old(self).blocks@[x as int].is_known,
            forall|e: int| 0 <= e < old(self).droplets@.len() ==> old(self).reg_ok(x as int, e),
            old(self).all_counts_kept(),
            old(self).full_regs(),
            old(self).reduced_but(x as int),
            forall|e: int| 0 <= e < old(self).droplets@.len() ==> old(self).full_reg(x as int, e),
            old(self).waiting_in(old(drops)@, -1),
            old(self).traced(),
        ensures
            final(self).traced(),
            final(self).arrived_data == old(self).arrived_data,
            final(self).shape_ok(),
            final(self).regs_ok(),
            final(self).full_regs(),
            final(self).reduced_but(-1),
            final(self).waiting_in(final(drops)@, -1),
            final(self).all_counts_kept(),
            final(self).arrived == old(self).arrived,
            final(self).learnt == old(self).learnt,
            final(self).data@ == old(self).data@,
            final(self).same_params(old(self)),
            final(self).unknown_chunks == old(self).unknown_chunks,
            final(self).lens_le(old(self)),
            flags(final(self).blocks@) == flags(old(self).blocks@),
            final(drops)@.len() >= old(drops)@.len(),
            final(drops)@.subrange(0, old(drops)@.len() as int) == old(drops)@,
            forall|j: int|
                old(drops)@.len() <= j < final(drops)@.len() ==> #[trigger] final(drops)@[j]
                    < final(self).droplets@.len() && final(self).droplets@[final(drops)@[j] as int].edges_idx@.len()
                    == 1,
            forall|src: Seq<u8>| old(self).sound_for(src) ==> final(self).sound_for(src),
    {
        while self.blocks[x].edges.len() > 0
            invariant
                self.shape_ok(),
                self.regs_ok(),
                x < self.number_of_chunks,
                self.blocks@[x as int].is_known,
                forall|e: int| 0 <= e < self.droplets@.len() ==> self.reg_ok(x as int, e),
                self.all_counts_kept(),
                self.full_regs(),
                self.reduced_but(x as int),
                forall|e: int| 0 <= e < self.droplets@.len() ==> self.full_reg(x as int, e),
                self.waiting_in(drops@, -1),
                self.arrived == old(self).arrived,
                self.learnt == old(self).learnt,
                self.data@ == old(self).data@,
                self.traced(),
                self.arrived_data == old(self).arrived_data,
                self.same_params(old(self)),
                self.unknown_chunks == old(self).unknown_chunks,
                self.lens_le(old(self)),
                flags(self.blocks@) == flags(old(self).blocks@),
                drops@.len() >= old(drops)@.len(),
                drops@.subrange(0, old(drops)@.len() as int) == old(drops)@,
                forall|j: int|
                    old(drops)@.len() <= j < drops@.len() ==> #[trigger] drops@[j]
                        < self.droplets@.len() && self.droplets@[drops@[j] as int].edges_idx@.len()
                        == 1,
                forall|src: Seq<u8>| old(self).sound_for(src) ==> self.sound_for(src),
            decreases self.blocks@[x as int].edges@.len(),
        {
            let ghost before = *self;
            let ghost xe = self.blocks@[x as int].edges@;
            let e = match self.blocks[x].edges.pop() {
                Some(e) => e,
                None => { return; },
            };
            proof {
                lemma_occ_drop_last(xe, e);
                assert(e < self.droplets@.len());
                assert(before.reg_ok(x as int, e as int));
                assert(flags(self.blocks@) =~= flags(before.blocks@));
                assert forall|i: int, j: int|
                    0 <= i < self.number_of_chunks && 0 <= j < self.blocks@[i].edges@.len()
                        implies #[trigger] self.blocks@[i].edges@[j] < self.droplets@.len() by {
                    if i == x {
                        assert(self.blocks@[i].edges@[j] == xe[j]);
                    }
                }
                assert forall|i: int| 0 <= i < self.number_of_chunks implies (
                #[trigger] self.blocks@[i]).idx == i && self.blocks@[i].begin_at == i
                    * self.blocksize by {
                    assert(before.blocks@[i].idx == i);
                }
                assert forall|z: int, e2: int|
                    0 <= z < self.number_of_chunks && 0 <= e2 < self.droplets@.len()
                        && !self.blocks@[z].is_known implies self.reg_ok(z, e2) by {
                    assert(before.reg_ok(z, e2));
                    assert(z != x);
                }
                assert forall|e2: int| 0 <= e2 < self.droplets@.len() implies self.reg_ok(
                    x as int,
                    e2,
                ) by {
                    assert(before.reg_ok(x as int, e2));
                    lemma_occ_drop_last(xe, e2 as usize);
                }
                assert forall|e2: int| 0 <= e2 < self.droplets@.len() implies #[trigger] self.counts_kept(
                    e2,
                ) by {
                    assert(before.counts_kept(e2));
                    assert forall|z: usize|
                        z < self.number_of_chunks && !self.blocks@[z as int].is_known implies #[trigger] occ(
                        self.droplets@[e2].edges_idx@,
                        z,
                    ) == occ(self.arrived@[e2], z) by {
                        assert(!before.blocks@[z as int].is_known);
                    }
                }
                assert forall|src: Seq<u8>| before.sound_for(src) implies self.sound_for(src) by {
                    assert forall|i: int|
                        0 <= i < self.number_of_chunks && (#[trigger] self.blocks@[i]).is_known
                            implies self.data@.subrange(
                            i * self.blocksize,
                            i * self.blocksize + self.blocksize,
                        ) == source_block(src, self.blocksize as nat, i) by {
                        assert(before.blocks@[i].is_known);
                    }
                }
                assert forall|z: int, e2: int|
                    0 <= z < self.number_of_chunks && 0 <= e2 < self.droplets@.len()
                        && !self.blocks@[z].is_known implies self.full_reg(z, e2) by {
                    assert(before.full_reg(z, e2));
                    assert(z != x);
                }
                assert forall|e2: int| 0 <= e2 < self.droplets@.len() implies #[trigger] self.unknown_only_but(
                    e2,
                    x as int,
                ) by {
                    assert(before.unknown_only_but(e2, x as int));
                    let ed = self.droplets@[e2].edges_idx@;
                    if ed.len() >= 2 {
                        assert forall|j: int| 0 <= j < ed.len() implies #[trigger] ed[j] == x
                            || !self.blocks@[ed[j] as int].is_known by {
                            assert(ed[j] == x || !before.blocks@[ed[j] as int].is_known);
                        }
                    }
                }
                assert forall|e2: int| 0 <= e2 < self.droplets@.len() && e2 != e implies self.full_reg(
                    x as int,
                    e2,
                ) by {
                    assert(before.full_reg(x as int, e2));
                    lemma_occ_drop_last(xe, e2 as usize);
                }
                assert forall|e2: int|
                    0 <= e2 < self.droplets@.len() && -1 != e2 && #[trigger] self.waiting(e2)
                        implies drops@.contains(e2 as usize) by {
                    let ed = self.droplets@[e2].edges_idx@;
                    assert(self.blocks@[ed[0] as int].is_known == before.blocks@[ed[0] as int].is_known);
                    assert(before.waiting(e2));
                }
            }
            let ghost dr0 = drops@;
            if self.droplets[e].edges_idx.len() == 1 {
                drops.push(e);
                proof {
                    assert(self.full_reg(x as int, e as int));
                    assert forall|e2: int|
                        0 <= e2 < self.droplets@.len() && -1 != e2 && #[trigger] self.waiting(e2)
                            implies drops@.contains(e2 as usize) by {
                        assert(dr0.contains(e2 as usize));
                        let j = choose|j: int| 0 <= j < dr0.len() && dr0[j] == e2 as usize;
                        assert(drops@[j] == dr0[j]);
                    }
                }
            } else {
                let ghost mid = *self;
                let ghost old_e = self.droplets@[e as int].edges_idx@;
                proof {
                    lemma_occ_contains(xe, e);
                    assert(xe.contains(e)) by {
                        assert(xe[xe.len() - 1] == e);
                    }
                }
                let pos = self.reduce(e, x);
                proof {
                    lemma_occ_remove(old_e, pos as int, x);
                    assert forall|e2: int| 0 <= e2 < self.droplets@.len() implies self.reg_ok(
                        x as int,
                        e2,
                    ) by {
                        assert(mid.reg_ok(x as int, e2));
                        if e2 != e {
                            assert(self.droplets@[e2] == mid.droplets@[e2]);
                        }
                    }
                    assert forall|e2: int| 0 <= e2 < self.droplets@.len() implies self.full_reg(
                        x as int,
                        e2,
                    ) by {
                        if e2 != e {
                            assert(mid.full_reg(x as int, e2));
                            assert(self.droplets@[e2] == mid.droplets@[e2]);
                        } else {
                            assert(before.full_reg(x as int, e2));
                            lemma_occ_drop_last(xe, e);
                        }
                    }
                    assert forall|z: int, e2: int|
                        0 <= z < self.number_of_chunks && 0 <= e2 < self.droplets@.len()
                            && !self.blocks@[z].is_known implies self.full_reg(z, e2) by {
                        assert(mid.full_reg(z, e2));
                    }
                    assert forall|e2: int| 0 <= e2 < self.droplets@.len() implies #[trigger] self.unknown_only_but(
                        e2,
                        x as int,
                    ) by {
                        assert(mid.unknown_only_but(e2, x as int));
                    }
                }
                let ghost dr1 = drops@;
                if self.droplets[e].edges_idx.len() == 1 {
                    drops.push(e);
                }
                proof {
                    assert forall|e2: int|
                        0 <= e2 < self.droplets@.len() && -1 != e2 && #[trigger] self.waiting(e2)
                            implies drops@.contains(e2 as usize) by {
                        if e2 == e {
                            assert(drops@[drops@.len() - 1] == e);
                        } else {
                            assert(self.waiting(e2) == mid.waiting(e2));
                            assert(mid.waiting(e2));
                            assert(dr1.contains(e2 as usize));
                            let j = choose|j: int| 0 <= j < dr1.len() && dr1[j] == e2 as usize;
                            assert(drops@[j] == dr1[j]);
                        }
                    }
                }
            }
        }
        proof {
            assert forall|e2: int| 0 <= e2 < self.droplets@.len() implies #[trigger] self.unknown_only_but(
                e2,
                -1,
            ) by {
                assert(self.unknown_only_but(e2, x as int));
                assert(self.full_reg(x as int, e2));
                let ed = self.droplets@[e2].edges_idx@;
                if ed.len() >= 2 {
                    lemma_occ_empty(e2 as usize);
                    assert(self.blocks@[x as int].edges@ =~= Seq::<usize>::empty());
                    lemma_occ_contains(ed, x);
                    assert forall|j: int| 0 <= j < ed.len() implies #[trigger] ed[j] == -1
                        || !self.blocks@[ed[j] as int].is_known by {
                        if ed[j] == x {
                            assert(ed.contains(x));
                        }
                    }
                }
            }
        }
    }

    /// Processes droplet `d`: reduces it by every known block it names,
    /// registers it with every unknown one, and if a single block is left,
    /// learns that block and drains it.
    fn process_one(&mut self, d: usize, drops: &mut Vec<usize>)
        requires
            old(self).shape_ok(),
            old(self).regs_ok(),
            d < old(self).droplets@.len(),
            old(self).droplets@[d as int].edges_idx@.len() <= 1 || forall|z: int|
                0 <= z < old(self).number_of_chunks ==> occ(
                    #[trigger] old(self).blocks@[z].edges@,
                    d,
                ) == 0,
            old(self).all_counts_kept(),
            forall|x2: int, e: int|
                0 <= x2 < old(self).number_of_chunks && 0 <= e < old(self).droplets@.len() && e
                    != d && !old(self).blocks@[x2].is_known ==> old(self).full_reg(x2, e),
            forall|e: int|
                0 <= e < old(self).droplets@.len() && e != d
                    ==> #[trigger] old(self).unknown_only_but(e, -1),
            old(self).waiting_in(old(drops)@, d as int),
            old(self).peeled(),
            old(self).traced(),
        ensures
            final(self).traced(),
            final(self).arrived_data == old(self).arrived_data,
            final(self).shape_ok(),
            final(self).regs_ok(),
            final(self).full_regs(),
            final(self).reduced_but(-1),
            final(self).waiting_in(final(drops)@, -1),
            final(self).all_counts_kept(),
            final(self).peeled(),
            old(self).learnt@.is_prefix_of(final(self).learnt@),
            final(self).bytes_kept(old(self)),
            final(self).arrived == old(self).arrived,
            final(self).same_params(old(self)),
            final(self).lens_le(old(self)),
            final(self).knows_more(old(self)),
            final(self).unknown_chunks < old(self).unknown_chunks || final(drops)@ == old(drops)@,
            final(self).unknown_chunks <= old(self).unknown_chunks,
            final(drops)@.len() >= old(drops)@.len(),
            final(drops)@.subrange(0, old(drops)@.len() as int) == old(drops)@,
            forall|j: int|
                old(drops)@.len() <= j < final(drops)@.len() ==> #[trigger] final(drops)@[j]
                    < final(self).droplets@.len() && final(self).droplets@[final(drops)@[j] as int].edges_idx@.len()
                    == 1,
            forall|src: Seq<u8>| old(self).sound_for(src) ==> final(self).sound_for(src),
    {
        let ghost known = flags(self.blocks@);
        let ghost fresh = self.droplets@[d as int].edges_idx@.len() >= 2;
        let edges = self.droplets[d].edges_idx.clone();
        assert(edges@ =~= self.droplets@[d as int].edges_idx@);
        proof {
            assert(edges@.take(0) =~= Seq::<usize>::empty());
            assert(edges@.skip(0) =~= edges@);
            assert(keep_unknown(edges@.take(0), known) =~= Seq::<usize>::empty());
            if fresh {
                assert forall|z: int| 0 <= z < self.number_of_chunks implies occ(
                    #[trigger] self.blocks@[z].edges@,
                    d,
                ) == occ(keep_unknown(edges@.take(0), known), z as usize) by {
                    lemma_occ_empty(z as usize);
                }
            }
        }
        let mut i: usize = 0;
        while i < edges.len()
            invariant
                self.shape_ok(),
                self.regs_ok(),
                self.all_counts_kept(),
                forall|x2: int, e: int|
                    0 <= x2 < self.number_of_chunks && 0 <= e < self.droplets@.len() && e != d
                        && !self.blocks@[x2].is_known ==> self.full_reg(x2, e),
                forall|e: int|
                    0 <= e < self.droplets@.len() && e != d ==> #[trigger] self.unknown_only_but(
                        e,
                        -1,
                    ),
                self.waiting_in(drops@, d as int),
                drops@ == old(drops)@,
                self.arrived == old(self).arrived,
                self.learnt == old(self).learnt,
                self.data@ == old(self).data@,
                self.traced(),
                self.arrived_data == old(self).arrived_data,
                d < self.droplets@.len(),
                self.same_params(old(self)),
                self.unknown_chunks == old(self).unknown_chunks,
                self.lens_le(old(self)),
                flags(self.blocks@) == known,
                self.blocks@.len() == old(self).blocks@.len(),
                known == flags(old(self).blocks@),
                edges@ == old(self).droplets@[d as int].edges_idx@,
                i <= edges@.len(),
                self.droplets@[d as int].edges_idx@ == keep_unknown(edges@.take(i as int), known)
                    + edges@.skip(i as int),
                fresh == (edges@.len() >= 2),
                fresh ==> forall|z: int|
                    0 <= z < self.number_of_chunks ==> occ(#[trigger] self.blocks@[z].edges@, d)
                        == occ(keep_unknown(edges@.take(i as int), known), z as usize),
                forall|src: Seq<u8>| old(self).sound_for(src) ==> self.sound_for(src),
            decreases edges@.len() - i,
        {
            let ed = edges[i];
            let ghost kp = keep_unknown(edges@.take(i as int), known);
            let ghost sk = edges@.skip(i as int);
            proof {
                assert(edges@.take(i + 1).drop_last() =~= edges@.take(i as int));
                assert(edges@.take(i + 1).last() == ed);
                assert(edges@.skip(i as int) =~= seq![ed] + edges@.skip(i + 1));
                assert(self.droplets@[d as int].edges_idx@[kp.len() as int] == ed);
                assert(ed < self.number_of_chunks);
                lemma_keep_unknown_unknown(edges@.take(i as int), known);
            }
            let ghost step0 = *self;
            if self.blocks[ed].is_known {
                let ghost cur = self.droplets@[d as int].edges_idx@;
                proof {
                    assert(cur.contains(ed));
                    lemma_occ_contains(cur, ed);
                }
                let pos = self.reduce(d, ed);
                proof {
                    assert forall|x2: int, e: int|
                        0 <= x2 < self.number_of_chunks && 0 <= e < self.droplets@.len() && e != d
                            && !self.blocks@[x2].is_known implies self.full_reg(x2, e) by {
                        assert(step0.full_reg(x2, e));
                    }
                    assert forall|e: int|
                        0 <= e < self.droplets@.len() && e != d implies #[trigger] self.unknown_only_but(
                            e,
                            -1,
                        ) by {
                        assert(step0.unknown_only_but(e, -1));
                    }
                    assert forall|e: int|
                        0 <= e < self.droplets@.len() && e != d && #[trigger] self.waiting(e)
                            implies drops@.contains(e as usize) by {
                        assert(step0.waiting(e));
                    }
                    assert(known[ed as int]);
                    assert(pos == kp.len()) by {
                        if pos < kp.len() {
                            assert(cur[pos as int] == kp[pos as int]);
                        }
                        if pos > kp.len() {
                            assert(cur[kp.len() as int] == ed);
                        }
                    }
                    assert(keep_unknown(edges@.take(i + 1), known) == kp);
                    assert(cur.remove(pos as int) =~= kp + edges@.skip(i + 1));
                    if fresh {
                        assert forall|z: int| 0 <= z < self.number_of_chunks implies occ(
                            #[trigger] self.blocks@[z].edges@,
                            d,
                        ) == occ(keep_unknown(edges@.take(i + 1), known), z as usize) by {
                            assert(self.blocks@[z] == step0.blocks@[z]);
                        }
                    }
                }
            } else {
                let ghost before = *self;
                self.blocks[ed].edges.push(d);
                proof {
                    assert forall|x2: int, e: int|
                        0 <= x2 < self.number_of_chunks && 0 <= e < self.droplets@.len() && e != d
                            && !self.blocks@[x2].is_known implies self.full_reg(x2, e) by {
                        assert(step0.full_reg(x2, e));
                        if x2 == ed {
                            lemma_occ_push(step0.blocks@[x2].edges@, d, e as usize);
                        }
                    }
                    assert forall|e: int|
                        0 <= e < self.droplets@.len() && e != d implies #[trigger] self.unknown_only_but(
                            e,
                            -1,
                        ) by {
                        assert(step0.unknown_only_but(e, -1));
                        let eds = self.droplets@[e].edges_idx@;
                        if eds.len() >= 2 {
                            assert forall|j: int| 0 <= j < eds.len() implies #[trigger] eds[j] == -1
                                || !self.blocks@[eds[j] as int].is_known by {
                                assert(!step0.blocks@[eds[j] as int].is_known);
                            }
                        }
                    }
                    assert forall|e: int|
                        0 <= e < self.droplets@.len() && e != d && #[trigger] self.waiting(e)
                            implies drops@.contains(e as usize) by {
                        let eds = self.droplets@[e].edges_idx@;
                        assert(self.blocks@[eds[0] as int].is_known == step0.blocks@[eds[0] as int].is_known);
                        assert(step0.waiting(e));
                    }
                    let kp2 = keep_unknown(edges@.take(i + 1), known);
                    assert(kp2 == kp.push(ed));
                    assert(self.droplets@[d as int].edges_idx@ =~= kp2 + edges@.skip(i + 1));
                    assert(flags(self.blocks@) =~= flags(before.blocks@));
                    assert forall|z: int| 0 <= z < self.number_of_chunks implies (
                    #[trigger] self.blocks@[z]).idx == z && self.blocks@[z].begin_at == z
                        * self.blocksize by {
                        assert(before.blocks@[z].idx == z);
                    }
                    assert forall|z: int, j: int|
                        0 <= z < self.number_of_chunks && 0 <= j < self.blocks@[z].edges@.len()
                            implies #[trigger] self.blocks@[z].edges@[j] < self.droplets@.len() by {
                        if z == ed && j < before.blocks@[z].edges@.len() {
                            assert(self.blocks@[z].edges@[j] == before.blocks@[z].edges@[j]);
                        }
                    }
                    let cur = self.droplets@[d as int].edges_idx@;
                    lemma_occ_concat(kp, sk, ed);
                    assert(sk[0] == ed);
                    lemma_occ_contains(sk, ed);
                    assert forall|z: int, e2: int|
                        0 <= z < self.number_of_chunks && 0 <= e2 < self.droplets@.len()
                            && !self.blocks@[z].is_known implies self.reg_ok(z, e2) by {
                        assert(before.reg_ok(z, e2));
                        if z == ed {
                            lemma_occ_push(before.blocks@[z].edges@, d, e2 as usize);
                            if e2 == d {
                                lemma_occ_concat(kp, sk, z as usize);
                                if fresh {
                                    lemma_occ_push(kp, ed, z as usize);
                                }
                            }
                        }
                    }
                    if fresh {
                        assert forall|z: int| 0 <= z < self.number_of_chunks implies occ(
                            #[trigger] self.blocks@[z].edges@,
                            d,
                        ) == occ(kp2, z as usize) by {
                            lemma_occ_push(kp, ed, z as usize);
                            if z == ed {
                                lemma_occ_push(before.blocks@[z].edges@, d, d);
                            }
                        }
                    }
                    assert forall|e2: int| 0 <= e2 < self.droplets@.len() implies #[trigger] self.counts_kept(
                        e2,
                    ) by {
                        assert(before.counts_kept(e2));
                        assert forall|z: usize|
                            z < self.number_of_chunks && !self.blocks@[z as int].is_known implies #[trigger] occ(
                            self.droplets@[e2].edges_idx@,
                            z,
                        ) == occ(self.arrived@[e2], z) by {
                            assert(!before.blocks@[z as int].is_known);
                        }
                    }
                    assert forall|src: Seq<u8>| before.sound_for(src) implies self.sound_for(src) by {
                        assert forall|z: int|
                            0 <= z < self.number_of_chunks && (#[trigger] self.blocks@[z]).is_known
                                implies self.data@.subrange(
                                z * self.blocksize,
                                z * self.blocksize + self.blocksize,
                            ) == source_block(src, self.blocksize as nat, z) by {
                            assert(before.blocks@[z].is_known);
                        }
                    }
                }
            }
            i = i + 1;
        }
        proof {
            assert(edges@.take(i as int) =~= edges@);
            assert(edges@.skip(i as int) =~= Seq::<usize>::empty());
            assert(self.droplets@[d as int].edges_idx@ =~= keep_unknown(edges@, known));
            lemma_keep_unknown_unknown(edges@, known);
        }
        assert(self.knows_more(old(self))) by {
            assert forall|i: int|
                0 <= i < self.blocks@.len() && (#[trigger] old(self).blocks@[i]).is_known
                    implies self.blocks@[i].is_known by {
                assert(flags(self.blocks@)[i] == flags(old(self).blocks@)[i]);
            }
        }
        proof {
            Self::lemma_peeled_frame(old(self), self);
            lemma_bytes_kept_same_data(old(self), self);
            assert(old(self).learnt@ =~= self.learnt@.subrange(0, old(self).learnt@.len() as int));
        }
        if self.droplets[d].edges_idx.len() == 1 {
            let first_idx = self.droplets[d].edges_idx[0];
            if !self.blocks[first_idx].is_known {
                let ghost before = *self;
                assert(self.droplets@[d as int].edges_idx@ =~= seq![first_idx]);
                self.learn(d, first_idx);
                assert(self.knows_more(old(self))) by {
                    assert forall|i: int|
                        0 <= i < self.blocks@.len() && (#[trigger] old(self).blocks@[i]).is_known
                            implies self.blocks@[i].is_known by {
                        assert(before.blocks@[i].is_known);
                    }
                }
                let ghost after_learn = *self;
                proof {
                    assert forall|e: int| 0 <= e < self.droplets@.len() implies self.reg_ok(
                        first_idx as int,
                        e,
                    ) by {
                        assert(before.reg_ok(first_idx as int, e));
                    }
                }
                self.drain(first_idx, drops);
                assert(self.knows_more(old(self))) by {
                    assert forall|i: int|
                        0 <= i < self.blocks@.len() && (#[trigger] old(self).blocks@[i]).is_known
                            implies self.blocks@[i].is_known by {
                        assert(after_learn.blocks@[i].is_known);
                        assert(flags(self.blocks@)[i] == flags(after_learn.blocks@)[i]);
                    }
                }
                proof {
                    Self::lemma_peeled_frame(&after_learn, self);
                    lemma_bytes_kept_same_data(&after_learn, self);
                    lemma_bytes_kept_trans(old(self), &before, &after_learn);
                    lemma_bytes_kept_trans(old(self), &after_learn, self);
                    assert(old(self).learnt@ =~= self.learnt@.subrange(
                        0,
                        old(self).learnt@.len() as int,
                    ));
                }
            }
        }
    }

    /// Adds a received droplet and peels: every block that can be learnt
    /// from it and from the droplets waiting before it is learnt.
    fn process_droplet(&mut self, droplet: RxDroplet)
        requires
            old(self).wf(),
            old(self).cnt_received_drops < usize::MAX,
            droplet.edges_idx@.len() > 0 ==> droplet.data@.len() == old(self).blocksize,
            forall|j: int|
                0 <= j < droplet.edges_idx@.len() ==> #[trigger] droplet.edges_idx@[j]
                    < old(self).number_of_chunks,
            old(self).all_counts_kept(),
        ensures
            final(self).wf(),
            final(self).all_counts_kept(),
            final(self).arrived@ == old(self).arrived@.push(droplet.edges_idx@),
            final(self).arrived_data@ == old(self).arrived_data@.push(droplet.data@),
            final(self).total_length == old(self).total_length,
            final(self).blocksize == old(self).blocksize,
            final(self).number_of_chunks == old(self).number_of_chunks,
            final(self).cnt_received_drops == old(self).cnt_received_drops + 1,
            final(self).knows_more(old(self)),
            final(self).bytes_kept(old(self)),
            old(self).learnt@.is_prefix_of(final(self).learnt@),
            final(self).unknown_chunks <= old(self).unknown_chunks,
            forall|src: Seq<u8>|
                old(self).sound_for(src) && (droplet.edges_idx@.len() > 0 ==> droplet.data@
                    == xor_of_blocks(src, old(self).blocksize as nat, droplet.edges_idx@))
                    ==> final(self).sound_for(src),
    {
        let ghost start = *self;
        let ghost new_edges = droplet.edges_idx@;
        let ghost new_data = droplet.data@;
        self.cnt_received_drops = self.cnt_received_drops + 1;
        let id = self.droplets.len();
        self.droplets.push(droplet);
        self.arrived = Ghost(self.arrived@.push(new_edges));
        self.arrived_data = Ghost(self.arrived_data@.push(new_data));
        self.removed = Ghost(self.removed@.push(Seq::<usize>::empty()));
        proof {
            let b = self.blocksize as nat;
            assert forall|r: int, j: int|
                0 <= r < self.removed@.len() && 0 <= j < self.removed@[r].len() implies #[trigger] self.removed@[r][j]
                < self.number_of_chunks && self.blocks@[self.removed@[r][j] as int].is_known by {
                assert(r < id);
                assert(self.removed@[r] == start.removed@[r]);
            }
            assert forall|r: int, z: usize| 0 <= r < self.droplets@.len() implies #[trigger] occ(
                self.arrived@[r],
                z,
            ) == occ(self.droplets@[r].edges_idx@, z) + occ(self.removed@[r], z) by {
                if r < id {
                    assert(self.droplets@[r] == start.droplets@[r]);
                    assert(occ(start.arrived@[r], z) == occ(start.droplets@[r].edges_idx@, z) + occ(
                        start.removed@[r],
                        z,
                    ));
                } else {
                    lemma_occ_empty(z);
                }
            }
            assert forall|r: int|
                0 <= r < self.droplets@.len() && (#[trigger] self.droplets@[r]).edges_idx@.len() > 0
                    implies self.arrived_data@[r].len() == b && self.droplets@[r].data@ == xor_bytes(
                self.arrived_data@[r],
                xor_of_blocks(self.data@, b, self.removed@[r]),
            ) by {
                if r < id {
                    assert(self.droplets@[r] == start.droplets@[r]);
                } else {
                    assert(xor_of_blocks(self.data@, b, Seq::<usize>::empty()) == zero_block(b));
                    assert forall|q: int| 0 <= q < b implies #[trigger] xor_bytes(
                        new_data,
                        zero_block(b),
                    )[q] == new_data[q] by {
                        lemma_xor_zero(new_data[q]);
                    }
                    assert(xor_bytes(new_data, zero_block(b)) =~= new_data);
                }
            }
            assert(self.traced());
            assert forall|r: int|
                0 <= r < self.droplets@.len() && (#[trigger] self.droplets@[r]).edges_idx@.len() > 0
                    implies self.droplets@[r].data@.len() == self.blocksize by {
                if r < id {
                    assert(self.droplets@[r] == start.droplets@[r]);
                }
            }
            assert forall|r: int, j: int|
                0 <= r < self.droplets@.len() && 0 <= j < self.droplets@[r].edges_idx@.len()
                    implies #[trigger] self.droplets@[r].edges_idx@[j] < self.number_of_chunks by {
                if r < id {
                    assert(self.droplets@[r] == start.droplets@[r]);
                }
            }
            assert forall|z: int|
                0 <= z < self.number_of_chunks implies occ(#[trigger] self.blocks@[z].edges@, id)
                == 0 by {
                lemma_occ_contains(self.blocks@[z].edges@, id);
                if self.blocks@[z].edges@.contains(id) {
                    let j = choose|j: int|
                        0 <= j < self.blocks@[z].edges@.len() && self.blocks@[z].edges@[j] == id;
                    assert(self.blocks@[z].edges@[j] < start.droplets@.len());
                }
            }
            assert forall|z: int, e: int|
                0 <= z < self.number_of_chunks && 0 <= e < self.droplets@.len()
                    && !self.blocks@[z].is_known implies self.reg_ok(z, e) by {
                if e < id {
                    assert(start.reg_ok(z, e));
                    assert(self.droplets@[e] == start.droplets@[e]);
                }
            }
            assert forall|e: int| 0 <= e < self.droplets@.len() implies #[trigger] self.counts_kept(
                e,
            ) by {
                if e < id {
                    assert(start.counts_kept(e));
                    assert(self.droplets@[e] == start.droplets@[e]);
                    assert(self.arrived@[e] == start.arrived@[e]);
                }
            }
            assert forall|src: Seq<u8>|
                start.sound_for(src) && (self.droplets@[id as int].edges_idx@.len() > 0
                    ==> self.droplets@[id as int].data@ == xor_of_blocks(
                    src,
                    self.blocksize as nat,
                    self.droplets@[id as int].edges_idx@,
                )) implies self.sound_for(src) by {
                assert forall|r: int|
                    0 <= r < self.droplets@.len() && (#[trigger] self.droplets@[r]).edges_idx@.len()
                        > 0 implies self.droplets@[r].data@ == xor_of_blocks(
                    src,
                    self.blocksize as nat,
                    self.droplets@[r].edges_idx@,
                ) by {
                    if r < id {
                        assert(self.droplets@[r] == start.droplets@[r]);
                    }
                }
            }
            assert(self.blocks@.len() == start.blocks@.len());
            assert forall|i: int| 0 <= i < self.blocks@.len() implies (#[trigger] self.blocks@[i]).is_known
                == self.learnt@.contains(i as usize) by {
                assert(start.blocks@[i].is_known == start.learnt@.contains(i as usize));
            }
            assert forall|p: int| 0 <= p < self.learnt@.len() implies #[trigger] self.justified(p) by {
                assert(start.justified(p));
                let r = choose|r: int|
                    0 <= r < start.arrived@.len() && #[trigger] reveals(
                        start.arrived@[r],
                        start.learnt@[p],
                        start.learnt@.take(p),
                    ) && xor_of_blocks(start.data@, start.blocksize as nat, start.arrived@[r])
                        == start.arrived_data@[r];
                assert(self.arrived@[r] == start.arrived@[r]);
                assert(self.arrived_data@[r] == start.arrived_data@[r]);
                assert(reveals(self.arrived@[r], self.learnt@[p], self.learnt@.take(p)));
            }
            assert(self.peeled());
        }
        proof {
            assert forall|x2: int, e: int|
                0 <= x2 < self.number_of_chunks && 0 <= e < self.droplets@.len() && e != id
                    && !self.blocks@[x2].is_known implies self.full_reg(x2, e) by {
                assert(start.full_reg(x2, e));
                assert(self.droplets@[e] == start.droplets@[e]);
            }
            assert forall|e: int|
                0 <= e < self.droplets@.len() && e != id implies #[trigger] self.unknown_only_but(
                    e,
                    -1,
                ) by {
                assert(start.unknown_only_but(e, -1));
                assert(self.droplets@[e] == start.droplets@[e]);
            }
            assert forall|e: int|
                0 <= e < self.droplets@.len() && e != id && #[trigger] self.waiting(e)
                    implies Seq::<usize>::empty().contains(e as usize) by {
                assert(self.droplets@[e] == start.droplets@[e]);
                assert(start.waiting(e));
            }
        }
        let ghost pushed = *self;
        let mut drops: Vec<usize> = Vec::new();
        assert(drops@ =~= Seq::<usize>::empty());
        self.process_one(id, &mut drops);
        while drops.len() > 0
            invariant
                self.shape_ok(),
                self.regs_ok(),
                self.all_counts_kept(),
                self.full_regs(),
                self.reduced_but(-1),
                self.waiting_in(drops@, -1),
                self.arrived == pushed.arrived,
                self.same_params(&pushed),
                self.droplets@.len() == pushed.droplets@.len(),
                self.knows_more(&pushed),
                self.peeled(),
                self.traced(),
                self.arrived_data == pushed.arrived_data,
                pushed.learnt@.is_prefix_of(self.learnt@),
                self.bytes_kept(&pushed),
                self.unknown_chunks <= pushed.unknown_chunks,
                forall|j: int|
                    0 <= j < drops@.len() ==> #[trigger] drops@[j] < self.droplets@.len()
                        && self.droplets@[drops@[j] as int].edges_idx@.len() <= 1,
                forall|src: Seq<u8>| pushed.sound_for(src) ==> self.sound_for(src),
            decreases self.unknown_chunks, drops@.len(),
        {
            let ghost pre = drops@;
            let d = drops.pop().unwrap();
            let ghost before = *self;
            let ghost rest = drops@;
            proof {
                assert forall|e: int|
                    0 <= e < self.droplets@.len() && e != d && #[trigger] self.waiting(e)
                        implies rest.contains(e as usize) by {
                    assert(pre.contains(e as usize));
                    let j = choose|j: int| 0 <= j < pre.len() && pre[j] == e as usize;
                    assert(j < rest.len());
                    assert(rest[j] == e as usize);
                }
            }
            self.process_one(d, &mut drops);
            proof {
                assert forall|j: int| 0 <= j < drops@.len() implies #[trigger] drops@[j]
                    < self.droplets@.len() && self.droplets@[drops@[j] as int].edges_idx@.len()
                    <= 1 by {
                    if j < rest.len() {
                        assert(drops@[j] == rest[j]);
                        assert(before.droplets@[drops@[j] as int].edges_idx@.len() <= 1);
                    }
                }
                assert forall|i: int|
                    0 <= i < self.blocks@.len() && (#[trigger] pushed.blocks@[i]).is_known
                        implies self.blocks@[i].is_known by {
                    assert(before.blocks@[i].is_known);
                }
                lemma_bytes_kept_trans(&pushed, &before, self);
                assert(pushed.learnt@ =~= self.learnt@.subrange(0, pushed.learnt@.len() as int)) by {
                    assert(pushed.learnt@ =~= before.learnt@.subrange(0, pushed.learnt@.len() as int));
                    assert(before.learnt@ =~= self.learnt@.subrange(0, before.learnt@.len() as int));
                }
            }
        }
        proof {
            assert(pushed.blocks@ == start.blocks@);
            assert(pushed.data@ == start.data@);
            assert(pushed.learnt@ == start.learnt@);
            assert forall|i: int|
                0 <= i < self.blocks@.len() && (#[trigger] start.blocks@[i]).is_known
                    implies self.blocks@[i].is_known by {
                assert(pushed.blocks@[i] == start.blocks@[i]);
            }
            assert(drops@ =~= seq![]);
        }
    }

    /// The counters of `st` are those of this decoder.
    pub open spec fn reports(&self, st: &Statistics) -> bool {
        &&& st.cnt_droplets == self.received()
        &&& st.cnt_chunks == self.num_chunks()
        &&& st.unknown_chunks == self.unknown_count()
    }

    /// Catches a droplet given by the blocks it combines, `edges`, and its
    /// data; bytes past the block size are ignored, and so are the data of a
    /// droplet that names no block. When it is possible to reconstruct the
    /// data, the bytes are returned. Blocks already known keep their bytes,
    /// and a block becomes known only by peeling (see
    /// [`law_known_only_by_peeling`]).
    pub fn catch_edges(&mut self, edges: Vec<usize>, data: Vec<u8>) -> (res: CatchResult)
        requires
            old(self).wf(),
            old(self).received() < usize::MAX,
            edges@.len() > 0 ==> data@.len() >= old(self).block_size(),
            forall|j: int| 0 <= j < edges@.len() ==> #[trigger] edges@[j] < old(self).num_chunks(),
        ensures
            final(self).wf(),
            final(self).total_len() == old(self).total_len(),
            final(self).block_size() == old(self).block_size(),
            final(self).num_chunks() == old(self).num_chunks(),
            final(self).received() == old(self).received() + 1,
            forall|i: int|
                0 <= i < old(self).num_chunks() && old(self).is_known(i) ==> final(self).is_known(i),
            final(self).unknown_count() <= old(self).unknown_count(),
            final(self).arrived_edges() == old(self).arrived_edges().push(edges@),
            final(self).arrived_data() == old(self).arrived_data().push(
                payload(data@, old(self).block_size()),
            ),
            forall|i: int|
                0 <= i < old(self).num_chunks() && old(self).is_known(i) ==> final(self).block_bytes(i)
                    == old(self).block_bytes(i),
            old(self).unknown_count() == 0 ==> final(self).recovered() == old(self).recovered(),
            old(self).learnt_order().is_prefix_of(final(self).learnt_order()),
            forall|r: int|
                0 <= r < final(self).arrived_edges().len() ==> #[trigger] final(self).unknown_among(
                    final(self).arrived_edges()[r],
                ) != 1,
            forall|src: Seq<u8>|
                old(self).sound_for(src) && (edges@.len() > 0 ==> data@.subrange(
                    0,
                    old(self).block_size() as int,
                ) == xor_of_blocks(src, old(self).block_size(), edges@)) ==> #[trigger] final(self).sound_for(src),
            match res {
                CatchResult::Finished(v, st) => final(self).unknown_count() == 0
                    && v@ == final(self).recovered() && final(self).reports(&st),
                CatchResult::Missing(st) => final(self).unknown_count() > 0 && final(self).reports(&st),
            },
    {
        let ghost start = *self;
        let mut data = data;
        data.truncate(self.blocksize);
        let rxdrop = RxDroplet { edges_idx: edges, data: data };
        self.process_droplet(rxdrop);
        proof {
            law_peeling_is_complete(self);
            if start.unknown_chunks == 0 {
                lemma_unknown_count_zero(&start);
                let bs = self.blocksize as int;
                assert forall|i: int| 0 <= i < start.number_of_chunks implies #[trigger] self.data@.subrange(
                    i * bs,
                    i * bs + bs,
                ) == start.data@.subrange(i * bs, i * bs + bs) by {
                    assert(start.is_known(i));
                    assert(start.blocks@[i].is_known);
                }
                lemma_buffer_from_blocks(self.data@, start.data@, start.number_of_chunks as int, bs);
            }
        }
        let stats = Statistics {
            cnt_droplets: self.cnt_received_drops,
            cnt_chunks: self.number_of_chunks,
            unknown_chunks: self.unknown_chunks,
        };
        if self.unknown_chunks == 0 {
            proof {
                if self.blocksize > 0 {
                    lemma_block_count_bounds(self.total_length as nat, self.blocksize as nat);
                }
            }
            let mut result: Vec<u8> = Vec::with_capacity(self.total_length);
            let mut i: usize = 0;
            while i < self.total_length
                invariant
                    self.total_length <= self.data@.len(),
                    i <= self.total_length,
                    result@ == self.data@.subrange(0, i as int),
                decreases self.total_length - i,
            {
                result.push(self.data[i]);
                i = i + 1;
                assert(result@ =~= self.data@.subrange(0, i as int));
            }
            CatchResult::Finished(result, stats)
        } else {
            CatchResult::Missing(stats)
        }
    }

    /// Catches a Droplet
    /// When it is possible to reconstruct a set, the bytes are returned.
    /// A seeded droplet names the sample its seed draws; the data of a
    /// droplet that names no block are not read. Blocks already known keep
    /// their bytes, and a block becomes known only by peeling (see
    /// [`law_known_only_by_peeling`]).
    pub fn catch(&mut self, drop: Droplet) -> (res: CatchResult)
        requires
            old(self).wf(),
            old(self).received() < usize::MAX,
            named_count(drop.droptype@, old(self).num_chunks() as usize) > 0 ==> drop.data@.len()
                >= old(self).block_size(),
            drop.droptype@ matches DropTypeView::Edges(edges) ==> forall|j: int|
                0 <= j < edges.len() ==> #[trigger] edges[j] < old(self).num_chunks(),
        ensures
            final(self).wf(),
            final(self).total_len() == old(self).total_len(),
            final(self).block_size() == old(self).block_size(),
            final(self).num_chunks() == old(self).num_chunks(),
            final(self).received() == old(self).received() + 1,
            forall|i: int|
                0 <= i < old(self).num_chunks() && old(self).is_known(i) ==> final(self).is_known(i),
            final(self).unknown_count() <= old(self).unknown_count(),
            final(self).arrived_edges() == old(self).arrived_edges().push(
                droplet_blocks(drop@.droptype, old(self).num_chunks() as usize),
            ),
            final(self).arrived_data() == old(self).arrived_data().push(
                payload(drop@.data, old(self).block_size()),
            ),
            droplet_blocks(drop@.droptype, old(self).num_chunks() as usize).len() == named_count(
                drop@.droptype,
                old(self).num_chunks() as usize,
            ),
            forall|i: int|
                0 <= i < old(self).num_chunks() && old(self).is_known(i) ==> final(self).block_bytes(i)
                    == old(self).block_bytes(i),
            old(self).unknown_count() == 0 ==> final(self).recovered() == old(self).recovered(),
            old(self).learnt_order().is_prefix_of(final(self).learnt_order()),
            forall|r: int|
                0 <= r < final(self).arrived_edges().len() ==> #[trigger] final(self).unknown_among(
                    final(self).arrived_edges()[r],
                ) != 1,
            forall|src: Seq<u8>|
                old(self).sound_for(src) && (named_count(
                    drop@.droptype,
                    old(self).num_chunks() as usize,
                ) > 0 ==> drop@.data.subrange(0, old(self).block_size() as int) == xor_of_blocks(
                    src,
                    old(self).block_size(),
                    droplet_blocks(drop@.droptype, old(self).num_chunks() as usize),
                )) ==> #[trigger] final(self).sound_for(src),
            match res {
                CatchResult::Finished(v, st) => final(self).unknown_count() == 0
                    && v@ == final(self).recovered() && final(self).reports(&st),
                CatchResult::Missing(st) => final(self).unknown_count() > 0 && final(self).reports(&st),
            },
    {
        let ghost dv = drop@;
        let sample: Vec<usize> = match drop.droptype {
            DropType::Seeded(seed, degree) => {
                let amount = if degree < self.number_of_chunks {
                    degree
                } else {
                    self.number_of_chunks
                };
                get_sample_from_rng_by_seed(seed, self.number_of_chunks, amount)
            },
            DropType::Edges(edges) => edges,
        };
        assert(sample@ == droplet_blocks(dv.droptype, self.number_of_chunks));
        assert(sample@.len() == named_count(dv.droptype, self.number_of_chunks));
        self.catch_edges(sample, drop.data)
    }
}


/// What a well-formed decoder's counters and layout are: as many blocks as
/// the data needs, a buffer of that many blocks with block `i` at
/// `i * block_size()`, and as many unknown blocks as `known_flags()` has
/// `false` entries.
pub proof fn lemma_decoder_layout(dec: &Decoder)
    requires
        dec.wf(),
    ensures
        dec.block_size() > 0 || dec.total_len() == 0,
        dec.num_chunks() == block_count(dec.total_len(), dec.block_size()),
        dec.buffer().len() == dec.num_chunks() * dec.block_size(),
        dec.total_len() <= dec.buffer().len(),
        dec.known_flags().len() == dec.num_chunks(),
        forall|i: int|
            0 <= i < dec.num_chunks() ==> #[trigger] dec.known_flags()[i] == dec.is_known(i)
                && dec.block_start(i) == i * dec.block_size(),
        dec.unknown_count() == count_false(dec.known_flags()),
{
    if dec.blocksize > 0 {
        lemma_block_count_bounds(dec.total_length as nat, dec.blocksize as nat);
    }
}

/// A block is known only once peeling reaches it: the known blocks are those
/// of `learnt_order()`, each listed once, and each was given away by a caught
/// droplet all of whose other entries name blocks learnt before it. Its bytes
/// are the ones peeling gives, whatever source the droplets fit or not: the
/// XOR of the blocks that droplet names, as the buffer holds them, is the
/// data the droplet brought.
pub proof fn law_known_only_by_peeling(dec: &Decoder)
    requires
        dec.wf(),
    ensures
        dec.learnt_order().no_duplicates(),
        forall|p: int|
            0 <= p < dec.learnt_order().len() ==> #[trigger] dec.learnt_order()[p] < dec.num_chunks(),
        forall|i: int|
            0 <= i < dec.num_chunks() ==> (#[trigger] dec.is_known(i)
                <==> dec.learnt_order().contains(i as usize)),
        forall|p: int| 0 <= p < dec.learnt_order().len() ==> #[trigger] dec.peeled_at(p),
{
    assert forall|p: int| 0 <= p < dec.learnt_order().len() implies #[trigger] dec.peeled_at(p) by {
        assert(dec.justified(p));
        let r = choose|r: int|
            0 <= r < dec.arrived@.len() && #[trigger] reveals(
                dec.arrived@[r],
                dec.learnt@[p],
                dec.learnt@.take(p),
            );
        assert(dec.arrived_edges()[r] == dec.arrived@[r]);
        assert(dec.learnt_order().take(p) == dec.learnt@.take(p));
        assert(reveals(dec.arrived_edges()[r], dec.learnt_order()[p], dec.learnt_order().take(p)));
    }
    assert forall|i: int| 0 <= i < dec.num_chunks() implies (#[trigger] dec.is_known(i)
        <==> dec.learnt_order().contains(i as usize)) by {
        assert(dec.blocks@[i].is_known == dec.learnt@.contains(i as usize));
    }
}

/// No block is left unknown exactly when every block is known.
pub proof fn lemma_unknown_count_zero(dec: &Decoder)
    requires
        dec.wf(),
    ensures
        dec.unknown_count() == 0 <==> forall|i: int| 0 <= i < dec.num_chunks() ==> dec.is_known(i),
{
    lemma_count_false_zero(flags(dec.blocks@));
    if dec.unknown_count() == 0 {
        assert forall|i: int| 0 <= i < dec.num_chunks() implies dec.is_known(i) by {
            assert(flags(dec.blocks@)[i]);
        }
    } else {
        let i = choose|i: int| 0 <= i < flags(dec.blocks@).len() && !#[trigger] flags(dec.blocks@)[i];
        assert(!dec.is_known(i));
    }
}

/// A decoder that is right for `source` and knows every block holds
/// `source`: what [`Decoder::catch`] returns as finished is the source.
pub proof fn law_recovered_is_source(dec: &Decoder, source: Seq<u8>)
    requires
        dec.wf(),
        dec.sound_for(source),
        dec.unknown_count() == 0,
    ensures
        dec.recovered() == source,
{
    lemma_unknown_count_zero(dec);
    let bs = dec.blocksize as nat;
    let n = dec.total_length as int;
    if bs > 0 {
        lemma_block_count_bounds(n as nat, bs);
    }
    assert forall|i: int| 0 <= i < n implies #[trigger] dec.recovered()[i] == source[i] by {
        lemma_byte_in_block(source, bs, i);
        let b = i / (bs as int);
        let q = i % (bs as int);
        assert(dec.is_known(b));
        assert(dec.blocks@[b].is_known);
        lemma_block_inside(b, dec.number_of_chunks as int, bs as int);
        assert(dec.data@.subrange(b * bs, b * bs + bs) == source_block(source, bs, b));
        assert(dec.data@.subrange(b * bs, b * bs + bs)[q] == dec.data@[i]);
    }
    assert(dec.recovered() =~= source);
}

/// A droplet that the encoder made from `source` is accepted by a decoder
/// for a source of that length and block size as carrying the blocks it
/// names: this is the condition under which [`Decoder::catch`] keeps the
/// decoder right for `source`.
pub proof fn law_encoded_droplet_fits_decoder(d: DropletView, source: Seq<u8>, dec: &Decoder)
    requires
        dec.wf(),
        crate::encoder::is_droplet_of(d, source, dec.block_size()),
        dec.total_len() == source.len(),
    ensures
        d.data.len() == dec.block_size(),
        d.data.subrange(0, dec.block_size() as int) == xor_of_blocks(
            source,
            dec.block_size(),
            droplet_blocks(d.droptype, dec.num_chunks() as usize),
        ),
{
    lemma_xor_of_blocks_len(
        source,
        dec.block_size(),
        droplet_blocks(d.droptype, dec.num_chunks() as usize),
    );
    assert(d.data.subrange(0, dec.block_size() as int) =~= d.data);
}


/// Nothing is left to peel: no caught droplet names exactly one block that is
/// not known (each occurrence counting), so every block that the droplets
/// caught so far give away one at a time has been learnt.
pub proof fn law_peeling_is_complete(dec: &Decoder)
    requires
        dec.wf(),
    ensures
        forall|r: int|
            0 <= r < dec.arrived_edges().len() ==> #[trigger] dec.unknown_among(
                dec.arrived_edges()[r],
            ) != 1,
{
    let known = flags(dec.blocks@);
    assert forall|r: int| 0 <= r < dec.arrived_edges().len() implies #[trigger] dec.unknown_among(
        dec.arrived_edges()[r],
    ) != 1 by {
        let cur = dec.droplets@[r].edges_idx@;
        let orig = dec.arrived@[r];
        assert(dec.counts_kept(r));
        assert forall|z: usize| z < known.len() && !known[z as int] implies #[trigger] occ(cur, z)
            == occ(orig, z) by {
            assert(!dec.blocks@[z as int].is_known);
        }
        assert forall|j: int| 0 <= j < cur.len() implies #[trigger] cur[j] < known.len() by {
            assert(dec.droplets@[r].edges_idx@[j] < dec.number_of_chunks);
        }
        assert forall|j: int| 0 <= j < orig.len() implies #[trigger] orig[j] < known.len() by {
            assert(dec.arrived@[r][j] < dec.number_of_chunks);
        }
        lemma_keep_unknown_len_eq(cur, orig, known);
        assert(dec.unknown_only_but(r, -1));
        if cur.len() >= 2 {
            assert forall|j: int| 0 <= j < cur.len() implies !known[#[trigger] cur[j] as int] by {
                assert(cur[j] == -1 || !dec.blocks@[cur[j] as int].is_known);
            }
            lemma_keep_unknown_all(cur, known);
        } else if cur.len() == 1 {
            assert(!dec.waiting(r)) by {
                if dec.waiting(r) {
                    assert(Seq::<usize>::empty().contains(r as usize));
                }
            }
            assert forall|j: int| 0 <= j < cur.len() implies known[#[trigger] cur[j] as int] by {
                assert(j == 0);
            }
            lemma_keep_unknown_none(cur, known);
        } else {
            lemma_keep_unknown_none(cur, known);
        }
    }
}


/// A caught droplet that names a single block makes that block known. So
/// once every block has arrived on its own, as the first droplets of a
/// systematic encoder do on a channel without loss, the data is decoded.
pub proof fn law_single_block_droplets_decode(dec: &Decoder)
    requires
        dec.wf(),
    ensures
        forall|r: int, i: usize|
            0 <= r < dec.arrived_edges().len() && #[trigger] dec.arrived_edges()[r] == seq![i]
                && i < dec.num_chunks() ==> #[trigger] dec.is_known(i as int),
        (forall|i: usize| i < dec.num_chunks() ==> #[trigger] dec.arrived_alone(i))
            ==> dec.unknown_count() == 0,
{
    law_peeling_is_complete(dec);
    let known = flags(dec.blocks@);
    assert forall|r: int, i: usize|
        0 <= r < dec.arrived_edges().len() && #[trigger] dec.arrived_edges()[r] == seq![i] && i
            < dec.num_chunks() implies #[trigger] dec.is_known(i as int) by {
        assert(dec.unknown_among(dec.arrived_edges()[r]) != 1);
        let s = seq![i];
        assert(s.drop_last() =~= Seq::<usize>::empty());
        assert(keep_unknown(s.drop_last(), known) =~= Seq::<usize>::empty());
        if !known[i as int] {
            assert(keep_unknown(s, known) == keep_unknown(s.drop_last(), known).push(i));
            assert(keep_unknown(s, known).len() == 1);
        }
    }
    if forall|i: usize| i < dec.num_chunks() ==> #[trigger] dec.arrived_alone(i) {
        lemma_unknown_count_zero(dec);
        assert forall|i: int| 0 <= i < dec.num_chunks() implies dec.is_known(i) by {
            let u = i as usize;
            assert(dec.arrived_alone(u));
            let r = choose|r: int|
                0 <= r < dec.arrived_edges().len() && #[trigger] dec.arrived_edges()[r] == seq![u];
            assert(dec.is_known(u as int));
        }
    }
}

} // verus!
