//! The LT encoder and the droplets it produces.
use vstd::prelude::*;
use rand::rngs::StdRng;
use crate::blocks::{
    block_count, lemma_block_bounds, lemma_block_count_bounds, lemma_xor_of_blocks_len,
    lemma_xor_of_one_block, lemma_xor_zero, source_block, xor_bytes, xor_of_blocks,
};
use crate::droptype::{DropType, DropTypeView};
use crate::rng::{gen_u32, get_sample_from_rng_by_seed, os_seeded_rng, spec_sample};

verus! {

/// Which droplets an [`Encoder`] produces first.
#[derive(Clone, Copy, Debug)]
pub enum EncoderType {
    /// The first k symbols of a systematic Encoder correspond to the first k source symbols
    /// In case there is no loss, no repair needed. After the first k symbols are sent, it continous
    /// like in the Random case.
    Systematic,
    /// Begins immediately with random encoding.
    /// This may be a better choice when used with high-loss channels.
    Random,
}

/// A Droplet is created by the Encoder.
#[derive(Debug)]
pub struct Droplet {
    pub droptype: DropType,
    pub data: Vec<u8>,
    pub total: usize,
}

/// The mathematical value of a [`Droplet`].
pub struct DropletView {
    pub droptype: DropTypeView,
    pub data: Seq<u8>,
    pub total: usize,
}

impl View for Droplet {
    type V = DropletView;

    open spec fn view(&self) -> DropletView {
        DropletView { droptype: self.droptype@, data: self.data@, total: self.total }
    }
}

/// The smaller of `a` and `b`.
pub open spec fn min_usize(a: usize, b: usize) -> usize {
    if a < b {
        a
    } else {
        b
    }
}

/// The source blocks that a droplet of type `dt` combines, in a source of `n`
/// blocks. A seeded droplet asks for its degree, but never more than `n`.
pub open spec fn droplet_blocks(dt: DropTypeView, n: usize) -> Seq<usize> {
    match dt {
        DropTypeView::Seeded(seed, degree) => spec_sample(seed, n, min_usize(degree, n)),
        DropTypeView::Edges(edges) => edges,
    }
}

/// How many entries the list of blocks of a droplet of type `dt` has, in a
/// source of `n` blocks: its degree but at most `n`, or the length of its
/// list.
pub open spec fn named_count(dt: DropTypeView, n: usize) -> nat {
    match dt {
        DropTypeView::Seeded(_, degree) => min_usize(degree, n) as nat,
        DropTypeView::Edges(edges) => edges.len(),
    }
}

/// `d` is a correct droplet of `source` cut into blocks of `bs` bytes: its
/// data is the XOR of the blocks it names, and it carries the source length.
pub open spec fn is_droplet_of(d: DropletView, source: Seq<u8>, bs: nat) -> bool {
    &&& d.total == source.len()
    &&& d.data == xor_of_blocks(
        source,
        bs,
        droplet_blocks(d.droptype, block_count(source.len(), bs) as usize),
    )
}

impl Droplet {
    fn new(droptype: DropType, data: Vec<u8>, len: usize) -> (d: Droplet)
        ensures
            d@ == (DropletView { droptype: droptype@, data: data@, total: len }),
    {
        Droplet { droptype: droptype, data: data, total: len }
    }
}

/// Encoder for Luby transform codes
pub struct Encoder {
    data: Vec<u8>,
    len: usize,
    blocksize: usize,
    rng: StdRng,
    cnt_blocks: usize,
    cnt: usize,
    encodertype: EncoderType,
}

impl Encoder {
    /// The encoder's fields agree with each other.
    pub closed spec fn wf(&self) -> bool {
        &&& self.len == self.data@.len()
        &&& self.blocksize > 0 || self.len == 0
        &&& self.cnt_blocks == block_count(self.len as nat, self.blocksize as nat)
        &&& self.len + self.blocksize <= usize::MAX + 1
        &&& (self.encodertype is Systematic ==> self.cnt < self.cnt_blocks)
    }

    /// The bytes being encoded.
    pub closed spec fn source(&self) -> Seq<u8> {
        self.data@
    }

    /// The size of a block and of each droplet's data.
    pub closed spec fn block_size(&self) -> nat {
        self.blocksize as nat
    }

    /// The number of source blocks.
    pub closed spec fn num_blocks(&self) -> nat {
        self.cnt_blocks as nat
    }

    /// The number of droplets produced so far.
    pub closed spec fn sent(&self) -> nat {
        self.cnt as nat
    }

    /// The kind of droplet the encoder produces next.
    pub closed spec fn mode(&self) -> EncoderType {
        self.encodertype
    }

    /// Constructs a new encoder for Luby transform codes, drawing its
    /// seeds from `rng`.
    /// In case you send the packages over UDP, the blocksize
    /// should be the MTU size.
    ///
    /// There are two versions of the 'Encoder', Systematic and Random.
    /// The Systematic encoder first produces a set of the source symbols. After each
    /// symbol is sent once, it switches to Random; with no source symbol at
    /// all it starts as Random. An empty source may have blocks of no bytes.
    pub fn with_rng(data: Vec<u8>, blocksize: usize, encodertype: EncoderType, rng: StdRng) -> (enc:
        Encoder)
        requires
            blocksize > 0 || data@.len() == 0,
            data@.len() + blocksize <= usize::MAX + 1,
        ensures
            enc.wf(),
            enc.source() == data@,
            enc.block_size() == blocksize,
            enc.num_blocks() == block_count(data@.len(), blocksize as nat),
            enc.sent() == 0,
            enc.mode() == if enc.num_blocks() == 0 {
                EncoderType::Random
            } else {
                encodertype
            },
    {
        let len = data.len();
        let cnt_blocks = count_blocks(len, blocksize);
        let encodertype = if cnt_blocks == 0 {
            EncoderType::Random
        } else {
            encodertype
        };
        Encoder {
            data: data,
            len: len,
            blocksize: blocksize,
            rng: rng,
            cnt_blocks: cnt_blocks,
            cnt: 0,
            encodertype: encodertype,
        }
    }

    /// Constructs a new encoder as [`Encoder::with_rng`] does, with a
    /// generator seeded from the operating system; `None` where the system
    /// gives no random bytes.
    pub fn new(data: Vec<u8>, blocksize: usize, encodertype: EncoderType) -> (enc: Option<Encoder>)
        requires
            blocksize > 0 || data@.len() == 0,
            data@.len() + blocksize <= usize::MAX + 1,
        ensures
            enc matches Some(e) ==> {
                &&& e.wf()
                &&& e.source() == data@
                &&& e.block_size() == blocksize
                &&& e.num_blocks() == block_count(data@.len(), blocksize as nat)
                &&& e.sent() == 0
                &&& e.mode() == if e.num_blocks() == 0 {
                    EncoderType::Random
                } else {
                    encodertype
                }
            },
    {
        match os_seeded_rng() {
            Some(rng) => Some(Encoder::with_rng(data, blocksize, encodertype, rng)),
            None => None,
        }
    }

    /// The number of source blocks.
    pub fn cnt_blocks(&self) -> (n: usize)
        ensures
            n == self.num_blocks(),
    {
        self.cnt_blocks
    }

    /// The number of droplets produced so far.
    pub fn sent_count(&self) -> (n: usize)
        ensures
            n == self.sent(),
    {
        self.cnt
    }

    /// Copies block `k` of the source, zero-padded, into a fresh buffer.
    fn copy_block(&self, k: usize) -> (r: Vec<u8>)
        requires
            self.wf(),
            k < self.cnt_blocks,
        ensures
            r@ == source_block(self.data@, self.blocksize as nat, k as int),
    {
        let bs = self.blocksize;
        let mut r: Vec<u8> = vec![0; bs];
        let ghost blk = source_block(self.data@, bs as nat, k as int);
        proof {
            lemma_block_count_bounds(self.len as nat, bs as nat);
            lemma_block_bounds(self.len as nat, bs as nat, k as nat);
        }
        let begin = k * bs;
        let end = if begin + bs < self.len { begin + bs } else { self.len };
        let mut i = begin;
        while i < end
            invariant
                self.wf(),
                bs == self.blocksize,
                blk == source_block(self.data@, bs as nat, k as int),
                begin == k * bs,
                begin <= i <= end,
                end <= self.len,
                end <= begin + bs,
                r@.len() == bs,
                forall|q: int| 0 <= q < i - begin ==> #[trigger] r@[q] == blk[q],
                forall|q: int| i - begin <= q < bs ==> #[trigger] r@[q] == 0u8,
            decreases end - i,
        {
            r[i - begin] = self.data[i];
            i = i + 1;
        }
        assert forall|q: int| 0 <= q < bs implies #[trigger] r@[q] == blk[q] by {
            if q >= end - begin {
                assert(begin + q >= self.len);
            }
        }
        assert(r@ =~= blk);
        r
    }

    /// XOR of the source blocks listed in `sample`, each zero-padded to the
    /// block size.
    pub fn combine_blocks(&self, sample: &Vec<usize>) -> (r: Vec<u8>)
        requires
            self.wf(),
            forall|i: int| 0 <= i < sample@.len() ==> #[trigger] sample@[i] < self.num_blocks(),
        ensures
            r@ == xor_of_blocks(self.source(), self.block_size(), sample@),
    {
        let bs = self.blocksize;
        let mut r: Vec<u8> = vec![0; bs];
        assert(sample@.take(0) =~= Seq::<usize>::empty());
        assert(r@ =~= xor_of_blocks(self.data@, bs as nat, sample@.take(0)));
        let mut t: usize = 0;
        while t < sample.len()
            invariant
                self.wf(),
                bs == self.blocksize,
                forall|i: int| 0 <= i < sample@.len() ==> #[trigger] sample@[i] < self.cnt_blocks,
                t <= sample@.len(),
                r@ == xor_of_blocks(self.data@, bs as nat, sample@.take(t as int)),
            decreases sample@.len() - t,
        {
            let k = sample[t];
            proof {
                lemma_block_bounds(self.len as nat, bs as nat, k as nat);
                lemma_xor_of_blocks_len(self.data@, bs as nat, sample@.take(t as int));
                assert(sample@.take(t + 1).drop_last() =~= sample@.take(t as int));
            }
            let ghost prev = r@;
            let ghost blk = source_block(self.data@, bs as nat, k as int);
            let begin = k * bs;
            let end = if begin + bs < self.len { begin + bs } else { self.len };
            let mut i = begin;
            while i < end
                invariant
                    self.wf(),
                    bs == self.blocksize,
                    blk == source_block(self.data@, bs as nat, k as int),
                    begin == k * bs,
                    begin <= i <= end,
                    end <= self.len,
                    end <= begin + bs,
                    prev.len() == bs,
                    r@.len() == bs,
                    forall|q: int| 0 <= q < i - begin ==> #[trigger] r@[q] == prev[q] ^ blk[q],
                    forall|q: int| i - begin <= q < bs ==> #[trigger] r@[q] == prev[q],
                decreases end - i,
            {
                let x = r[i - begin] ^ self.data[i];
                r[i - begin] = x;
                i = i + 1;
            }
            assert forall|q: int| 0 <= q < bs implies #[trigger] r@[q] == prev[q] ^ blk[q] by {
                if q >= end - begin {
                    assert(begin + q >= self.len);
                    lemma_xor_zero(prev[q]);
                }
            }
            assert(r@ =~= xor_bytes(prev, blk));
            t = t + 1;
        }
        assert(sample@.take(t as int) =~= sample@);
        r
    }

    /// Produces the next droplet. A random droplet names `degree` blocks
    /// (at most all of them) drawn with a fresh random seed; a systematic one
    /// is the next source block.
    pub fn next(&mut self, degree: usize) -> (drop: Option<Droplet>)
        requires
            old(self).wf(),
            old(self).sent() < usize::MAX,
        ensures
            final(self).wf(),
            final(self).source() == old(self).source(),
            final(self).block_size() == old(self).block_size(),
            final(self).num_blocks() == old(self).num_blocks(),
            final(self).sent() == old(self).sent() + 1,
            final(self).mode() == (match old(self).mode() {
                EncoderType::Systematic => if old(self).sent() + 2 > old(self).num_blocks() {
                    EncoderType::Random
                } else {
                    EncoderType::Systematic
                },
                EncoderType::Random => EncoderType::Random,
            }),
            drop matches Some(d) && is_droplet_of(d@, old(self).source(), old(self).block_size())
                && match old(self).mode() {
                EncoderType::Systematic => d@.droptype == DropTypeView::Edges(
                    seq![old(self).sent() as usize],
                ) && d@.data == source_block(
                    old(self).source(),
                    old(self).block_size(),
                    old(self).sent() as int,
                ),
                EncoderType::Random => d@.droptype matches DropTypeView::Seeded(seed, deg)
                    && deg == degree && seed <= u32::MAX,
            },
    {
        let drop = match self.encodertype {
            EncoderType::Random => {
                let seed = gen_u32(&mut self.rng) as usize;
                let amount = if degree < self.cnt_blocks {
                    degree
                } else {
                    self.cnt_blocks
                };
                let sample = get_sample_from_rng_by_seed(seed, self.cnt_blocks, amount);
                let r = self.combine_blocks(&sample);
                assert(amount == min_usize(degree, self.cnt_blocks));
                let d = Droplet::new(DropType::Seeded(seed, degree), r, self.len);
                assert(droplet_blocks(d@.droptype, self.cnt_blocks) == sample@);
                d
            },
            EncoderType::Systematic => {
                let r = self.copy_block(self.cnt);
                if self.cnt + 1 >= self.cnt_blocks {
                    self.encodertype = EncoderType::Random;
                }
                proof {
                    lemma_xor_of_one_block(self.data@, self.blocksize as nat, self.cnt);
                }
                let edges = vec![self.cnt];
                assert(edges@ =~= seq![self.cnt]);
                Droplet::new(DropType::Edges(edges), r, self.len)
            },
        };
        self.cnt = self.cnt + 1;
        Some(drop)
    }
}

/// What a well-formed encoder's fields say: as many blocks as the source
/// needs, blocks of some bytes unless the source is empty, and a
/// systematic encoder still short of its last source block.
pub proof fn lemma_encoder_layout(enc: &Encoder)
    requires
        enc.wf(),
    ensures
        enc.block_size() > 0 || enc.source().len() == 0,
        enc.num_blocks() == block_count(enc.source().len(), enc.block_size()),
        enc.source().len() + enc.block_size() <= usize::MAX + 1,
        enc.mode() is Systematic ==> enc.sent() < enc.num_blocks(),
{
}

/// The number of blocks of `bs` bytes needed to hold `len` bytes (none
/// where blocks hold no bytes).
pub(crate) fn count_blocks(len: usize, bs: usize) -> (n: usize)
    ensures
        n == block_count(len as nat, bs as nat),
{
    if bs == 0 {
        return 0;
    }
    let q = len / bs;
    if len % bs == 0 {
        q
    } else {
        assert(q < len) by (nonlinear_arith)
            requires
                q == len / bs,
                len % bs != 0,
                bs > 0,
        ;
        q + 1
    }
}

} // verus!
