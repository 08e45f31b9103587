//! How a droplet names the source blocks it combines, and the wire format of
//! that description.
use vstd::prelude::*;
use crate::be_bytes::{
    lemma_be_u32_bytes_of_value, lemma_be_u32_value_of_bytes, lemma_be_u64_bytes_of_value,
    lemma_be_u64_value_of_bytes, be_u32_bytes, be_u32_value, be_u64_bytes, be_u64_value,
    be_usize_bytes, push_u32_be, push_usize_be, read_u32_be, read_u64_be,
};

verus! {

/// How the source blocks that a droplet combines are described.
#[derive(Debug)]
pub enum DropType {
    /// The blocks are the sample drawn from a generator seeded with the first
    /// value; the second value is the number of blocks asked for (the degree).
    Seeded(usize, usize),
    /// The block indices are listed.
    Edges(Vec<usize>),
}

/// The mathematical value of a [`DropType`].
pub enum DropTypeView {
    Seeded(usize, usize),
    Edges(Seq<usize>),
}

impl View for DropType {
    type V = DropTypeView;

    open spec fn view(&self) -> DropTypeView {
        match self {
            DropType::Seeded(seed, degree) => DropTypeView::Seeded(*seed, *degree),
            DropType::Edges(edges) => DropTypeView::Edges(edges@),
        }
    }
}

/// Marker byte that opens a seeded description.
pub const SEEDED_TAG: u8 = 0;

/// Marker byte that opens a list of edges.
pub const EDGES_TAG: u8 = 1;

/// Each edge in big-endian bytes, as many as a `usize` holds, in order.
pub open spec fn edges_bytes(edges: Seq<usize>) -> Seq<u8>
    decreases edges.len(),
{
    if edges.len() == 0 {
        seq![]
    } else {
        edges_bytes(edges.drop_last()) + be_usize_bytes(edges.last())
    }
}

/// The bytes that `serialize` writes for `d`: a marker byte, then for a seeded
/// description the seed and the degree in big-endian bytes, as many as a
/// `usize` holds, and for a list the number of edges as four big-endian bytes
/// (reduced modulo 2^32) followed by each edge in big-endian bytes, as many
/// as a `usize` holds.
pub open spec fn spec_serialize(d: DropTypeView) -> Seq<u8> {
    match d {
        DropTypeView::Seeded(seed, degree) => seq![SEEDED_TAG] + be_usize_bytes(seed)
            + be_usize_bytes(degree),
        DropTypeView::Edges(edges) => seq![EDGES_TAG] + be_u32_bytes(edges.len() as u32)
            + edges_bytes(edges),
    }
}

/// The `i`-th eight-byte value after the five-byte header of a list.
pub open spec fn edge_value_at(b: Seq<u8>, i: int) -> u64 {
    be_u64_value(b.subrange(5 + 8 * i, 13 + 8 * i))
}

/// What `deserialize` makes of `b`. Seeds, degrees and edges are read as
/// eight big-endian bytes each, into a `usize`; where a `usize` is not 64
/// bits wide no such value is read, and only a list without edges is
/// accepted. Bytes after the description are ignored.
pub open spec fn spec_deserialize(b: Seq<u8>) -> Option<DropTypeView> {
    if b.len() == 0 {
        None
    } else if b[0] == SEEDED_TAG {
        if b.len() < 17 || usize::BITS != 64 {
            None
        } else {
            Some(
                DropTypeView::Seeded(
                    be_u64_value(b.subrange(1, 9)) as usize,
                    be_u64_value(b.subrange(9, 17)) as usize,
                ),
            )
        }
    } else if b[0] == EDGES_TAG {
        if b.len() < 5 {
            None
        } else {
            let count = be_u32_value(b.subrange(1, 5));
            if b.len() < 5 + 8 * count || (count > 0 && usize::BITS != 64) {
                None
            } else {
                Some(
                    DropTypeView::Edges(
                        Seq::new(count as nat, |i: int| edge_value_at(b, i) as usize),
                    ),
                )
            }
        }
    } else {
        None
    }
}

/// Length of the edge bytes, and where each edge stands in them.
proof fn lemma_edges_bytes_layout(edges: Seq<usize>)
    requires
        usize::BITS == 64,
    ensures
        edges_bytes(edges).len() == 8 * edges.len(),
        forall|i: int|
            0 <= i < edges.len() ==> #[trigger] edges_bytes(edges).subrange(8 * i, 8 * i + 8)
                == be_u64_bytes(edges[i] as u64),
    decreases edges.len(),
{
    if edges.len() > 0 {
        let init = edges.drop_last();
        lemma_edges_bytes_layout(init);
        lemma_be_u64_value_of_bytes(edges.last() as u64);
        let b = edges_bytes(edges);
        assert forall|i: int| 0 <= i < edges.len() implies #[trigger] b.subrange(8 * i, 8 * i + 8)
            == be_u64_bytes(edges[i] as u64) by {
            if i < init.len() {
                assert(b.subrange(8 * i, 8 * i + 8) =~= edges_bytes(init).subrange(8 * i, 8 * i + 8));
            } else {
                assert(b.subrange(8 * i, 8 * i + 8) =~= be_u64_bytes(edges.last() as u64));
            }
        }
    }
}

/// A byte string made of eight-byte chunks, chunk `i` encoding `edges[i]`,
/// is the edge bytes of `edges`.
proof fn lemma_edges_bytes_from_chunks(b: Seq<u8>, edges: Seq<usize>)
    requires
        usize::BITS == 64,
        b.len() == 8 * edges.len(),
        forall|i: int|
            0 <= i < edges.len() ==> #[trigger] b.subrange(8 * i, 8 * i + 8) == be_u64_bytes(
                edges[i] as u64,
            ),
    ensures
        b == edges_bytes(edges),
    decreases edges.len(),
{
    if edges.len() > 0 {
        let n = edges.len() - 1;
        let init = edges.drop_last();
        let head = b.subrange(0, 8 * n);
        assert forall|i: int| 0 <= i < init.len() implies #[trigger] head.subrange(8 * i, 8 * i + 8)
            == be_u64_bytes(init[i] as u64) by {
            assert(head.subrange(8 * i, 8 * i + 8) =~= b.subrange(8 * i, 8 * i + 8));
        }
        lemma_edges_bytes_from_chunks(head, init);
        assert(b.subrange(8 * n, 8 * n + 8) == be_u64_bytes(edges[n] as u64));
        assert(b =~= head + b.subrange(8 * n, 8 * n + 8));
    }
}

/// Reading back what `serialize` writes, with any bytes after it, gives the
/// description that was written. A list must have fewer than 2^32 edges, since
/// its length is written in four bytes; and where a `usize` is not 64 bits
/// wide, only a list without edges is read back.
pub proof fn law_deserialize_after_serialize(d: DropTypeView, rest: Seq<u8>)
    requires
        d matches DropTypeView::Edges(edges) ==> edges.len() <= u32::MAX,
        usize::BITS == 64 || (d matches DropTypeView::Edges(edges) && edges.len() == 0),
    ensures
        spec_deserialize(spec_serialize(d) + rest) == Some(d),
{
    let b = spec_serialize(d) + rest;
    match d {
        DropTypeView::Seeded(seed, degree) => {
            lemma_be_u64_value_of_bytes(seed as u64);
            lemma_be_u64_value_of_bytes(degree as u64);
            assert(b.subrange(1, 9) =~= be_u64_bytes(seed as u64));
            assert(b.subrange(9, 17) =~= be_u64_bytes(degree as u64));
        },
        DropTypeView::Edges(edges) => {
            lemma_be_u32_value_of_bytes(edges.len() as u32);
            if edges.len() == 0 {
                assert(b.subrange(1, 5) =~= be_u32_bytes(edges.len() as u32));
                assert(Seq::new(0, |i: int| edge_value_at(b, i) as usize) =~= edges);
                return;
            }
            lemma_edges_bytes_layout(edges);
            assert(b.subrange(1, 5) =~= be_u32_bytes(edges.len() as u32));
            let count = be_u32_value(b.subrange(1, 5));
            assert(count == edges.len());
            let eb = edges_bytes(edges);
            assert forall|i: int| 0 <= i < count implies edge_value_at(b, i) == edges[i] as u64 by {
                assert(b.subrange(5 + 8 * i, 13 + 8 * i) =~= eb.subrange(8 * i, 8 * i + 8));
                lemma_be_u64_value_of_bytes(edges[i] as u64);
            }
            assert(Seq::new(count as nat, |i: int| edge_value_at(b, i) as usize) =~= edges);
        },
    }
}

/// What `deserialize` accepts starts with exactly what `serialize` writes for
/// the description it returns.
pub proof fn law_serialize_after_deserialize(b: Seq<u8>)
    ensures
        spec_deserialize(b) matches Some(d) ==> spec_serialize(d).len() <= b.len()
            && b.subrange(0, spec_serialize(d).len() as int) == spec_serialize(d),
{
    if let Some(d) = spec_deserialize(b) {
        match d {
            DropTypeView::Seeded(seed, degree) => {
                lemma_be_u64_bytes_of_value(b.subrange(1, 9));
                lemma_be_u64_bytes_of_value(b.subrange(9, 17));
                assert(b.subrange(0, 17) =~= spec_serialize(d));
            },
            DropTypeView::Edges(edges) => {
                let count = be_u32_value(b.subrange(1, 5));
                lemma_be_u32_bytes_of_value(b.subrange(1, 5));
                if count == 0 {
                    assert(edges =~= Seq::<usize>::empty());
                    assert(b.subrange(0, 5) =~= spec_serialize(d));
                    return;
                }
                let body = b.subrange(5, 5 + 8 * count);
                assert forall|i: int| 0 <= i < edges.len() implies #[trigger] body.subrange(
                    8 * i,
                    8 * i + 8,
                ) == be_u64_bytes(edges[i] as u64) by {
                    assert(body.subrange(8 * i, 8 * i + 8) =~= b.subrange(5 + 8 * i, 13 + 8 * i));
                    lemma_be_u64_bytes_of_value(b.subrange(5 + 8 * i, 13 + 8 * i));
                }
                lemma_edges_bytes_from_chunks(body, edges);
                assert(b.subrange(0, 5 + 8 * count) =~= spec_serialize(d));
            },
        }
    }
}

impl DropType {
    /// Writes the description in the wire format of [`spec_serialize`].
    pub fn serialize(&self) -> (buf: Vec<u8>)
        ensures
            buf@ == spec_serialize(self@),
    {
        let mut buf: Vec<u8> = Vec::new();
        match self {
            DropType::Seeded(seed, degree) => {
                buf.push(SEEDED_TAG);
                push_usize_be(&mut buf, *seed);
                push_usize_be(&mut buf, *degree);
                assert(buf@ =~= spec_serialize(self@));
            },
            DropType::Edges(edges) => {
                buf.push(EDGES_TAG);
                push_u32_be(&mut buf, edges.len() as u32);
                let ghost head = buf@;
                let mut i: usize = 0;
                while i < edges.len()
                    invariant
                        i <= edges@.len(),
                        buf@ == head + edges_bytes(edges@.take(i as int)),
                    decreases edges@.len() - i,
                {
                    proof {
                        assert(edges@.take(i + 1).drop_last() =~= edges@.take(i as int));
                    }
                    push_usize_be(&mut buf, edges[i]);
                    i = i + 1;
                    assert(buf@ =~= head + edges_bytes(edges@.take(i as int)));
                }
                assert(edges@.take(i as int) =~= edges@);
                assert(buf@ =~= spec_serialize(self@));
            },
        }
        buf
    }

    /// Reads a description written in the wire format; `None` where `data`
    /// holds none (see [`spec_deserialize`]).
    pub fn deserialize(data: &[u8]) -> (r: Option<DropType>)
        ensures
            match r {
                Some(d) => spec_deserialize(data@) == Some(d@),
                None => spec_deserialize(data@) is None,
            },
    {
        if data.len() == 0 {
            return None;
        }
        if data[0] == SEEDED_TAG {
            if data.len() < 17 {
                return None;
            }
            if usize::BITS != 64 {
                return None;
            }
            let seed = read_u64_be(data, 1);
            let degree = read_u64_be(data, 9);
            Some(DropType::Seeded(seed as usize, degree as usize))
        } else if data[0] == EDGES_TAG {
            if data.len() < 5 {
                return None;
            }
            let count = read_u32_be(data, 1) as usize;
            let mut edges: Vec<usize> = Vec::new();
            let mut pos: usize = 5;
            let mut i: usize = 0;
            while i < count
                invariant
                    data@.len() > 0,
                    data@[0] == EDGES_TAG,
                    data@.len() >= 5,
                    count == be_u32_value(data@.subrange(1, 5)),
                    i <= count,
                    pos == 5 + 8 * i,
                    pos <= data@.len(),
                    edges@.len() == i,
                    i > 0 ==> usize::BITS == 64,
                    forall|j: int| 0 <= j < i ==> #[trigger] edges@[j] == edge_value_at(data@, j) as usize,
                decreases count - i,
            {
                if data.len() - pos < 8 {
                    assert(data@.len() < 5 + 8 * count);
                    return None;
                }
                if usize::BITS != 64 {
                    return None;
                }
                let v = read_u64_be(data, pos);
                assert(v == edge_value_at(data@, i as int));
                let ghost old_edges = edges@;
                edges.push(v as usize);
                pos = pos + 8;
                i = i + 1;
                assert forall|j: int| 0 <= j < i implies #[trigger] edges@[j] == edge_value_at(data@, j) as usize by {
                    if j < i - 1 {
                        assert(edges@[j] == old_edges[j]);
                    }
                }
            }
            assert(edges@ =~= Seq::new(count as nat, |j: int| edge_value_at(data@, j) as usize));
            Some(DropType::Edges(edges))
        } else {
            None
        }
    }
}

} // verus!
