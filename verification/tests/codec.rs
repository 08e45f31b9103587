use rand::rngs::StdRng;
use rand::seq::IteratorRandom;
use rand::SeedableRng;
use fountain::decoder::{CatchResult, Decoder};
use fountain::droptype::DropType;
use fountain::encoder::{Droplet, Encoder, EncoderType};

fn sample_data(len: usize) -> Vec<u8> {
    (0..len).map(|i| ((i * 7 + 3) % 251) as u8).collect()
}

fn block(data: &[u8], bs: usize, k: usize) -> Vec<u8> {
    let mut r = vec![0u8; bs];
    for j in 0..bs {
        if k * bs + j < data.len() {
            r[j] = data[k * bs + j];
        }
    }
    r
}

fn xor_all(data: &[u8], bs: usize, ks: &[usize]) -> Vec<u8> {
    let mut r = vec![0u8; bs];
    for &k in ks {
        let b = block(data, bs, k);
        for j in 0..bs {
            r[j] ^= b[j];
        }
    }
    r
}

fn edges_of(d: &Droplet) -> Option<Vec<usize>> {
    match &d.droptype {
        DropType::Edges(e) => Some(e.clone()),
        DropType::Seeded(_, _) => None,
    }
}

#[test]
fn block_counts() {
    assert_eq!(Encoder::new(vec![0; 130], 64, EncoderType::Random).unwrap().cnt_blocks(), 3);
    assert_eq!(Encoder::new(vec![0; 128], 64, EncoderType::Random).unwrap().cnt_blocks(), 2);
    assert_eq!(Encoder::new(vec![], 64, EncoderType::Random).unwrap().cnt_blocks(), 0);
    assert_eq!(Encoder::new(vec![1], 64, EncoderType::Random).unwrap().cnt_blocks(), 1);
    assert_eq!(Decoder::new(130, 64).chunk_count(), 3);
    assert_eq!(Decoder::new(0, 64).chunk_count(), 0);
}

#[test]
fn systematic_then_random() {
    let data = sample_data(150);
    let mut enc = Encoder::new(data.clone(), 64, EncoderType::Systematic).unwrap();
    for k in 0..3 {
        let d = enc.next(1).unwrap();
        assert_eq!(edges_of(&d), Some(vec![k]));
        assert_eq!(d.data, block(&data, 64, k));
        assert_eq!(d.total, 150);
    }
    let d = enc.next(2).unwrap();
    match d.droptype {
        DropType::Seeded(seed, degree) => {
            assert_eq!(degree, 2);
            assert!(seed <= u32::MAX as usize);
        }
        DropType::Edges(_) => panic!("expected a seeded droplet"),
    }
    assert_eq!(d.data.len(), 64);
}

#[test]
fn last_block_is_zero_padded() {
    let data = sample_data(70);
    let mut enc = Encoder::new(data.clone(), 64, EncoderType::Systematic).unwrap();
    let _ = enc.next(1).unwrap();
    let d = enc.next(1).unwrap();
    let mut expected = vec![0u8; 64];
    expected[..6].copy_from_slice(&data[64..70]);
    assert_eq!(d.data, expected);
}

#[test]
fn combine_blocks_xors_padded_blocks() {
    let data = vec![1u8, 2, 3, 4, 5, 6, 7];
    let enc = Encoder::new(data, 3, EncoderType::Random).unwrap();
    assert_eq!(enc.combine_blocks(&vec![0, 2]), vec![1 ^ 7, 2, 3]);
    assert_eq!(enc.combine_blocks(&vec![]), vec![0, 0, 0]);
    assert_eq!(enc.combine_blocks(&vec![1, 1]), vec![0, 0, 0]);
}

#[test]
fn full_degree_droplet_combines_every_block() {
    let data = sample_data(200);
    let mut enc = Encoder::new(data.clone(), 64, EncoderType::Random).unwrap();
    let d = enc.next(1000).unwrap();
    assert_eq!(d.data, xor_all(&data, 64, &[0, 1, 2, 3]));
}

#[test]
fn systematic_stream_without_loss_decodes() {
    let data = sample_data(300);
    let mut enc = Encoder::new(data.clone(), 64, EncoderType::Systematic).unwrap();
    let mut dec = Decoder::new(300, 64);
    for k in 0..5 {
        match dec.catch(enc.next(1).unwrap()) {
            CatchResult::Missing(st) => {
                assert!(k < 4);
                assert_eq!(st.cnt_droplets, k + 1);
                assert_eq!(st.cnt_chunks, 5);
                assert_eq!(st.unknown_chunks, 4 - k);
            }
            CatchResult::Finished(out, st) => {
                assert_eq!(k, 4);
                assert_eq!(out, data);
                assert_eq!(st.unknown_chunks, 0);
                assert_eq!(st.cnt_droplets, 5);
            }
        }
    }
}

#[test]
fn random_stream_decodes_to_source() {
    let data = sample_data(1024);
    let mut enc = Encoder::new(data.clone(), 64, EncoderType::Random).unwrap();
    let mut dec = Decoder::new(data.len(), 64);
    let degrees = [1usize, 2, 2, 3, 1, 4, 2, 8];
    let mut done = None;
    for i in 0..20000 {
        let d = enc.next(degrees[i % degrees.len()]).unwrap();
        if let CatchResult::Finished(out, _) = dec.catch(d) {
            done = Some(out);
            break;
        }
    }
    assert_eq!(done, Some(data));
}

#[test]
fn peeling_cascades() {
    let data = sample_data(192);
    let mut dec = Decoder::new(192, 64);
    let d1 = Droplet { droptype: DropType::Edges(vec![0, 1, 2]), data: xor_all(&data, 64, &[0, 1, 2]), total: 192 };
    let d2 = Droplet { droptype: DropType::Edges(vec![1, 2]), data: xor_all(&data, 64, &[1, 2]), total: 192 };
    let d3 = Droplet { droptype: DropType::Edges(vec![2]), data: block(&data, 64, 2), total: 192 };
    assert!(matches!(dec.catch(d1), CatchResult::Missing(_)));
    assert!(matches!(dec.catch(d2), CatchResult::Missing(_)));
    match dec.catch(d3) {
        CatchResult::Finished(out, st) => {
            assert_eq!(out, data);
            assert_eq!(st.cnt_droplets, 3);
        }
        CatchResult::Missing(_) => panic!("every block can be peeled"),
    }
}

#[test]
fn known_blocks_reduce_new_droplets() {
    let data = sample_data(128);
    let mut dec = Decoder::new(128, 64);
    let d1 = Droplet { droptype: DropType::Edges(vec![0]), data: block(&data, 64, 0), total: 128 };
    assert!(matches!(dec.catch(d1), CatchResult::Missing(_)));
    let d2 = Droplet { droptype: DropType::Edges(vec![0, 1, 0, 0]), data: xor_all(&data, 64, &[0, 1, 0, 0]), total: 128 };
    match dec.catch(d2) {
        CatchResult::Finished(out, _) => assert_eq!(out, data),
        CatchResult::Missing(_) => panic!("the second block is named alone after reduction"),
    }
}

#[test]
fn repeated_unknown_block_stays_pending() {
    let data = sample_data(128);
    let mut dec = Decoder::new(128, 64);
    let d = Droplet { droptype: DropType::Edges(vec![1, 1]), data: vec![0; 64], total: 128 };
    match dec.catch(d) {
        CatchResult::Missing(st) => assert_eq!(st.unknown_chunks, 2),
        CatchResult::Finished(_, _) => panic!("a block named twice gives nothing"),
    }
    let d = Droplet { droptype: DropType::Edges(vec![0]), data: block(&data, 64, 0), total: 128 };
    match dec.catch(d) {
        CatchResult::Missing(st) => assert_eq!(st.unknown_chunks, 1),
        CatchResult::Finished(_, _) => panic!("block 1 is still unknown"),
    }
}

#[test]
fn longer_droplet_data_is_truncated() {
    let data = sample_data(64);
    let mut dec = Decoder::new(64, 64);
    let mut bytes = block(&data, 64, 0);
    bytes.extend_from_slice(&[1, 2, 3]);
    let d = Droplet { droptype: DropType::Edges(vec![0]), data: bytes, total: 64 };
    match dec.catch(d) {
        CatchResult::Finished(out, _) => assert_eq!(out, data),
        CatchResult::Missing(_) => panic!("one block, given"),
    }
}

#[test]
fn empty_source_finishes_at_once() {
    let mut dec = Decoder::new(0, 64);
    let d = Droplet { droptype: DropType::Seeded(5, 3), data: vec![0; 64], total: 0 };
    match dec.catch(d) {
        CatchResult::Finished(out, st) => {
            assert!(out.is_empty());
            assert_eq!(st.cnt_chunks, 0);
        }
        CatchResult::Missing(_) => panic!("nothing to decode"),
    }
}

#[test]
fn seeded_droplets_agree_between_encoder_and_decoder() {
    let data = sample_data(256);
    let mut enc = Encoder::new(data.clone(), 64, EncoderType::Random).unwrap();
    let mut dec = Decoder::new(256, 64);
    // Four droplets of full degree all combine every block: nothing peels.
    for _ in 0..4 {
        match dec.catch(enc.next(4).unwrap()) {
            CatchResult::Missing(st) => assert_eq!(st.unknown_chunks, 4),
            CatchResult::Finished(_, _) => panic!("no droplet names a single block"),
        }
    }
    // Then three source blocks alone: the fourth follows from the XOR of all.
    for k in 0..3 {
        let d = Droplet { droptype: DropType::Edges(vec![k]), data: block(&data, 64, k), total: 256 };
        let r = dec.catch(d);
        if k == 2 {
            match r {
                CatchResult::Finished(out, _) => assert_eq!(out, data),
                CatchResult::Missing(_) => panic!("the last block peels from a full-degree droplet"),
            }
        }
    }
}

#[test]
fn seeded_droplet_is_xor_of_rand_sample() {
    let data = sample_data(640);
    let mut enc = Encoder::new(data.clone(), 64, EncoderType::Random).unwrap();
    for degree in [1usize, 3, 5, 10, 12] {
        let d = enc.next(degree).unwrap();
        let seed = match d.droptype {
            DropType::Seeded(seed, deg) => {
                assert_eq!(deg, degree);
                seed
            }
            DropType::Edges(_) => panic!("random encoder"),
        };
        let mut rng = StdRng::seed_from_u64(seed as u64);
        let sample = (0..10usize).choose_multiple(&mut rng, degree);
        assert_eq!(d.data, xor_all(&data, 64, &sample));
        assert_eq!(enc.combine_blocks(&sample), d.data);
    }
    assert_eq!(enc.sent_count(), 5);
}

#[test]
fn systematic_empty_source_starts_random() {
    let mut enc = Encoder::new(vec![], 64, EncoderType::Systematic).unwrap();
    let d = enc.next(1).unwrap();
    assert!(matches!(d.droptype, DropType::Seeded(_, 1)));
    assert_eq!(d.data, vec![0u8; 64]);
    assert_eq!(d.total, 0);
    assert_eq!(enc.sent_count(), 1);
}

#[test]
fn empty_source_with_blocks_of_no_bytes() {
    let mut enc = Encoder::new(vec![], 0, EncoderType::Random).unwrap();
    assert_eq!(enc.cnt_blocks(), 0);
    let d = enc.next(3).unwrap();
    assert!(d.data.is_empty());
    let mut dec = Decoder::new(0, 0);
    assert_eq!(dec.chunk_count(), 0);
    match dec.catch(d) {
        CatchResult::Finished(out, st) => {
            assert!(out.is_empty());
            assert_eq!(st.cnt_droplets, 1);
        }
        CatchResult::Missing(_) => panic!("nothing is missing"),
    }
}

#[test]
fn droplet_naming_no_block_may_have_short_data() {
    let mut dec = Decoder::new(0, 64);
    let d = Droplet { droptype: DropType::Edges(vec![]), data: vec![], total: 0 };
    match dec.catch(d) {
        CatchResult::Finished(out, st) => {
            assert_eq!(out, Vec::<u8>::new());
            assert_eq!(st.cnt_droplets, 1);
            assert_eq!(st.cnt_chunks, 0);
            assert_eq!(st.unknown_chunks, 0);
        }
        CatchResult::Missing(_) => panic!("nothing is missing"),
    }
    let mut dec = Decoder::new(100, 64);
    let d = Droplet { droptype: DropType::Seeded(9, 0), data: vec![1, 2], total: 100 };
    match dec.catch(d) {
        CatchResult::Missing(st) => {
            assert_eq!(st.cnt_droplets, 1);
            assert_eq!(st.unknown_chunks, 2);
        }
        CatchResult::Finished(_, _) => panic!("blocks are missing"),
    }
}

#[test]
fn known_block_keeps_its_bytes() {
    let data = sample_data(100);
    let mut dec = Decoder::new(100, 64);
    let _ = dec.catch(Droplet { droptype: DropType::Edges(vec![0]), data: block(&data, 64, 0), total: 100 });
    let first = match dec.catch(Droplet { droptype: DropType::Edges(vec![1]), data: block(&data, 64, 1), total: 100 }) {
        CatchResult::Finished(out, _) => out,
        CatchResult::Missing(_) => panic!("both blocks arrived"),
    };
    assert_eq!(first, data);
    match dec.catch(Droplet { droptype: DropType::Edges(vec![0]), data: vec![0xff; 64], total: 100 }) {
        CatchResult::Finished(out, st) => {
            assert_eq!(out, data);
            assert_eq!(st.cnt_droplets, 3);
        }
        CatchResult::Missing(_) => panic!("nothing is missing"),
    }
}

#[test]
fn encoder_with_seeded_rng_is_reproducible() {
    let data = sample_data(300);
    let mut a = Encoder::with_rng(data.clone(), 64, EncoderType::Random, StdRng::seed_from_u64(5));
    let mut b = Encoder::with_rng(data.clone(), 64, EncoderType::Random, StdRng::seed_from_u64(5));
    for deg in 1..6 {
        let x = a.next(deg).unwrap();
        let y = b.next(deg).unwrap();
        assert_eq!(x.data, y.data);
        match (x.droptype, y.droptype) {
            (DropType::Seeded(s1, d1), DropType::Seeded(s2, d2)) => {
                assert_eq!((s1, d1), (s2, d2));
                assert_eq!(d1, deg);
            }
            _ => panic!("expected seeded droplets"),
        }
    }
}

#[test]
fn learnt_bytes_follow_inconsistent_droplets() {
    // The droplets fit no common source; peeling still fixes each block.
    let mut dec = Decoder::new(4, 2);
    let _ = dec.catch(Droplet { droptype: DropType::Edges(vec![0, 1]), data: vec![1, 1], total: 4 });
    match dec.catch(Droplet { droptype: DropType::Edges(vec![0]), data: vec![7, 8, 9], total: 4 }) {
        CatchResult::Finished(out, st) => {
            assert_eq!(out, vec![7, 8, 7 ^ 1, 8 ^ 1]);
            assert_eq!(st.cnt_droplets, 2);
        }
        CatchResult::Missing(_) => panic!("both blocks are given away"),
    }
}
