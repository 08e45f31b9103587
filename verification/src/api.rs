//! Entry points in the shape a host environment calls them: an encoder over
//! text, and a decoder kept between calls, both with the packet size chosen
//! by the caller.
use vstd::prelude::*;
use vstd::string::StringSliceAdditionalSpecFns;
use crate::blocks::{block_count, xor_of_blocks};
use crate::decoder::{payload, CatchResult, Decoder};
use crate::droptype::DropTypeView;
use crate::encoder::{droplet_blocks, named_count, Droplet, Encoder, EncoderType};

verus! {

/// Starts a random encoder over the UTF-8 bytes of `data`, cut into blocks
/// of `blocksize` bytes, the size of each packet's payload, with a generator
/// seeded from the operating system; `None` where the system gives no random
/// bytes.
#[allow(non_snake_case)]
pub fn initEncode(blocksize: usize, data: &str) -> (enc: Option<Encoder>)
    requires
        blocksize > 0 || data.spec_bytes().len() == 0,
        data.spec_bytes().len() + blocksize <= usize::MAX + 1,
    ensures
        enc matches Some(e) ==> {
            &&& e.wf()
            &&& e.source() == data.spec_bytes()
            &&& e.block_size() == blocksize
            &&& e.num_blocks() == block_count(data.spec_bytes().len(), blocksize as nat)
            &&& e.sent() == 0
            &&& e.mode() == EncoderType::Random
        },
{
    let buf = vstd::slice::slice_to_vec(data.as_bytes());
    Encoder::new(buf, blocksize, EncoderType::Random)
}

/// The blocks of `blocksize` bytes in a source of `total` bytes.
pub open spec fn chunks_for(total: usize, blocksize: usize) -> nat {
    block_count(total as nat, blocksize as nat)
}

/// Feeds `drop` to the decoder kept in `decoder`, making one for the
/// droplet's total length and blocks of `blocksize` bytes first if there is
/// none (a kept decoder keeps its own block size). Returns the decoded bytes
/// once every block is known, and nothing before.
pub fn decode(blocksize: usize, decoder: &mut Option<Decoder>, drop: Droplet) -> (out: Option<
    Vec<u8>,
>)
    requires
        match *old(decoder) {
            Some(dec) => {
                &&& dec.wf()
                &&& dec.received() < usize::MAX
                &&& drop.droptype@ matches DropTypeView::Edges(edges) ==> forall|j: int|
                    0 <= j < edges.len() ==> #[trigger] edges[j] < dec.num_chunks()
                &&& named_count(drop.droptype@, dec.num_chunks() as usize) > 0 ==> drop.data@.len()
                    >= dec.block_size()
            },
            None => {
                &&& blocksize > 0 || drop.total == 0
                &&& chunks_for(drop.total, blocksize) * blocksize <= usize::MAX
                &&& drop.droptype@ matches DropTypeView::Edges(edges) ==> forall|j: int|
                    0 <= j < edges.len() ==> #[trigger] edges[j] < chunks_for(drop.total, blocksize)
                &&& named_count(drop.droptype@, chunks_for(drop.total, blocksize) as usize) > 0
                    ==> drop.data@.len() >= blocksize
            },
        },
    ensures
        match *final(decoder) {
            Some(dec) => {
                &&& dec.wf()
                &&& (out is Some) == (dec.unknown_count() == 0)
                &&& out matches Some(v) ==> v@ == dec.recovered()
                &&& match *old(decoder) {
                    Some(prev) => {
                        &&& dec.total_len() == prev.total_len()
                        &&& dec.block_size() == prev.block_size()
                        &&& dec.num_chunks() == prev.num_chunks()
                        &&& dec.received() == prev.received() + 1
                        &&& dec.arrived_edges() == prev.arrived_edges().push(
                            droplet_blocks(drop@.droptype, prev.num_chunks() as usize),
                        )
                        &&& dec.arrived_data() == prev.arrived_data().push(
                            payload(drop@.data, prev.block_size()),
                        )
                        &&& forall|i: int|
                            0 <= i < prev.num_chunks() && prev.is_known(i) ==> dec.is_known(i)
                                && dec.block_bytes(i) == prev.block_bytes(i)
                        &&& prev.unknown_count() == 0 ==> dec.recovered() == prev.recovered()
                        &&& prev.learnt_order().is_prefix_of(dec.learnt_order())
                        &&& forall|src: Seq<u8>|
                            prev.sound_for(src) && (named_count(
                                drop@.droptype,
                                prev.num_chunks() as usize,
                            ) > 0 ==> drop@.data.subrange(0, prev.block_size() as int)
                                == xor_of_blocks(
                                src,
                                prev.block_size(),
                                droplet_blocks(drop@.droptype, prev.num_chunks() as usize),
                            )) ==> #[trigger] dec.sound_for(src)
                    },
                    None => {
                        &&& dec.total_len() == drop.total
                        &&& dec.block_size() == blocksize
                        &&& dec.num_chunks() == chunks_for(drop.total, blocksize)
                        &&& dec.received() == 1
                        &&& dec.arrived_edges() == seq![
                            droplet_blocks(drop@.droptype, chunks_for(drop.total, blocksize) as usize),
                        ]
                        &&& dec.arrived_data() == seq![payload(drop@.data, blocksize as nat)]
                        &&& forall|src: Seq<u8>|
                            src.len() == drop.total && (named_count(
                                drop@.droptype,
                                chunks_for(drop.total, blocksize) as usize,
                            ) > 0 ==> drop@.data.subrange(0, blocksize as int) == xor_of_blocks(
                                src,
                                blocksize as nat,
                                droplet_blocks(
                                    drop@.droptype,
                                    chunks_for(drop.total, blocksize) as usize,
                                ),
                            )) ==> #[trigger] dec.sound_for(src)
                    },
                }
                &&& forall|r: int|
                    0 <= r < dec.arrived_edges().len() ==> #[trigger] dec.unknown_among(
                        dec.arrived_edges()[r],
                    ) != 1
            },
            None => false,
        },
{
    let mut dec = match decoder.take() {
        Some(dec) => dec,
        None => Decoder::new(drop.total, blocksize),
    };
    let result = dec.catch(drop);
    *decoder = Some(dec);
    match result {
        CatchResult::Missing(_) => None,
        CatchResult::Finished(result, _) => Some(result),
    }
}

} // verus!
