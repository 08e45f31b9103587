use fountain::api::{decode, initEncode};
use fountain::decoder::Decoder;
use fountain::droptype::DropType;
use fountain::encoder::Droplet;

#[test]
fn init_encode_uses_text_bytes() {
    let enc = initEncode(64, "hello, fountain").unwrap();
    assert_eq!(enc.cnt_blocks(), 1);
}

#[test]
fn init_encode_takes_the_packet_size() {
    let text = "x".repeat(1024);
    let mut enc = initEncode(512, &text).unwrap();
    assert_eq!(enc.cnt_blocks(), 2);
    let d = enc.next(1).unwrap();
    assert_eq!(d.data.len(), 512);
    assert_eq!(d.total, 1024);
    assert!(matches!(d.droptype, DropType::Seeded(_, 1)));
}

#[test]
fn decode_round_trip_through_entry_points() {
    let text: String = (0..1000).map(|i| (b'a' + (i % 26) as u8) as char).collect();
    let mut enc = initEncode(512, &text).unwrap();
    let mut state: Option<Decoder> = None;
    let mut out = None;
    for i in 0..20000 {
        let d = enc.next(1 + i % 3).unwrap();
        out = decode(512, &mut state, d);
        if out.is_some() {
            break;
        }
    }
    assert_eq!(out, Some(text.as_bytes().to_vec()));
    assert_eq!(state.as_ref().unwrap().bytes_per_block(), 512);
}

#[test]
fn decode_keeps_decoder_between_calls() {
    let mut state: Option<Decoder> = None;
    let d = Droplet { droptype: DropType::Edges(vec![1]), data: vec![7; 64], total: 100 };
    assert_eq!(decode(64, &mut state, d), None);
    assert_eq!(state.as_ref().unwrap().chunk_count(), 2);
    assert_eq!(state.as_ref().unwrap().received_count(), 1);
    let d = Droplet { droptype: DropType::Edges(vec![0]), data: vec![5; 64], total: 100 };
    let out = decode(64, &mut state, d);
    let mut expected = vec![5u8; 64];
    expected.extend_from_slice(&[7u8; 36]);
    assert_eq!(out, Some(expected));
}

#[test]
fn decode_ignores_block_size_once_a_decoder_is_kept() {
    let mut state: Option<Decoder> = None;
    let d = Droplet { droptype: DropType::Edges(vec![0]), data: vec![1; 8], total: 16 };
    assert_eq!(decode(8, &mut state, d), None);
    let d = Droplet { droptype: DropType::Edges(vec![1]), data: vec![2; 8], total: 16 };
    let out = decode(512, &mut state, d);
    let mut expected = vec![1u8; 8];
    expected.extend_from_slice(&[2u8; 8]);
    assert_eq!(out, Some(expected));
    assert_eq!(state.as_ref().unwrap().bytes_per_block(), 8);
}

#[test]
fn decode_takes_a_droplet_naming_no_block_with_short_data() {
    let mut state: Option<Decoder> = None;
    let d = Droplet { droptype: DropType::Edges(vec![]), data: vec![], total: 0 };
    assert_eq!(decode(64, &mut state, d), Some(vec![]));
}
