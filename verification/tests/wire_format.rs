use fountain::droptype::DropType;

fn seeded_parts(d: &DropType) -> Option<(usize, usize)> {
    match d {
        DropType::Seeded(s, g) => Some((*s, *g)),
        DropType::Edges(_) => None,
    }
}

fn edge_list(d: &DropType) -> Option<Vec<usize>> {
    match d {
        DropType::Seeded(_, _) => None,
        DropType::Edges(e) => Some(e.clone()),
    }
}

#[test]
fn serialize_seeded_bytes() {
    let d = DropType::Seeded(0x0102, 3);
    assert_eq!(
        d.serialize(),
        vec![0, 0, 0, 0, 0, 0, 0, 1, 2, 0, 0, 0, 0, 0, 0, 0, 3]
    );
}

#[test]
fn serialize_edges_bytes() {
    let d = DropType::Edges(vec![1, 258]);
    assert_eq!(
        d.serialize(),
        vec![1, 0, 0, 0, 2, 0, 0, 0, 0, 0, 0, 0, 1, 0, 0, 0, 0, 0, 0, 1, 2]
    );
}

#[test]
fn serialize_empty_edges() {
    assert_eq!(DropType::Edges(vec![]).serialize(), vec![1, 0, 0, 0, 0]);
}

#[test]
fn seeded_round_trip() {
    let d = DropType::Seeded(4_000_000_000, 17);
    let back = DropType::deserialize(&d.serialize()).unwrap();
    assert_eq!(seeded_parts(&back), Some((4_000_000_000, 17)));
}

#[test]
fn edges_round_trip_with_trailing_bytes() {
    let d = DropType::Edges(vec![5, 0, usize::MAX, 7]);
    let mut bytes = d.serialize();
    bytes.extend_from_slice(&[9, 9, 9]);
    let back = DropType::deserialize(&bytes).unwrap();
    assert_eq!(edge_list(&back), Some(vec![5, 0, usize::MAX, 7]));
}

#[test]
fn deserialize_then_serialize_is_prefix() {
    let bytes = vec![1, 0, 0, 0, 1, 0, 0, 0, 0, 0, 0, 0, 42, 0xff, 0xee];
    let d = DropType::deserialize(&bytes).unwrap();
    assert_eq!(edge_list(&d), Some(vec![42]));
    let again = d.serialize();
    assert_eq!(&bytes[..again.len()], &again[..]);
}

#[test]
fn deserialize_empty_is_none() {
    assert!(DropType::deserialize(&[]).is_none());
}

#[test]
fn deserialize_short_seeded_is_none() {
    let bytes = vec![0u8; 16];
    assert!(DropType::deserialize(&bytes).is_none());
    let bytes = vec![0u8; 17];
    assert_eq!(seeded_parts(&DropType::deserialize(&bytes).unwrap()), Some((0, 0)));
}

#[test]
fn deserialize_short_edge_header_is_none() {
    assert!(DropType::deserialize(&[1, 0, 0, 0]).is_none());
}

#[test]
fn deserialize_missing_edge_is_none() {
    let mut bytes = vec![1, 0, 0, 0, 2];
    bytes.extend_from_slice(&[0, 0, 0, 0, 0, 0, 0, 3]);
    bytes.extend_from_slice(&[0, 0, 0, 0, 0, 0, 0]);
    assert!(DropType::deserialize(&bytes).is_none());
}

#[test]
fn deserialize_unknown_tag_is_none() {
    assert!(DropType::deserialize(&[7, 0, 0, 0, 0]).is_none());
}

#[test]
fn serialized_width_follows_usize() {
    let w = std::mem::size_of::<usize>();
    assert_eq!(DropType::Seeded(1, 2).serialize().len(), 1 + 2 * w);
    assert_eq!(DropType::Edges(vec![1, 2, 3]).serialize().len(), 5 + 3 * w);
}
