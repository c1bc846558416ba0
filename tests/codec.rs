use playset::codec::{decode, encode_entry};
use playset::hash::EntryHash;
use playset::pieces::{EmojiGroup, MarkerPiece, PieceKind, PlaysetEntry, Space, SvgMarker, Template};

fn template(name: &str, surface: &str) -> Template {
    Template { name: name.to_string(), surface: surface.to_string() }
}

#[test]
fn template_encoding_is_exact() {
    let bytes = encode_entry(&PlaysetEntry::Template(template("a", "")));
    let mut expected = vec![0u8];
    expected.extend_from_slice(&[1, 0, 0, 0, 0, 0, 0, 0]);
    expected.push(b'a');
    expected.extend_from_slice(&[0, 0, 0, 0, 0, 0, 0, 0]);
    assert_eq!(bytes, expected);
}

#[test]
fn marker_encoding_is_exact() {
    let space = Space {
        name: String::new(),
        origin: EntryHash::from_raw(vec![7]),
        surface: String::new(),
        maybe_marker_piece: Some(MarkerPiece::EmojiGroup(EntryHash::from_raw(vec![9, 9]))),
        meta: vec![],
    };
    let bytes = encode_entry(&PlaysetEntry::Space(space));
    let expected: Vec<u8> = vec![
        3, // kind
        0, 0, 0, 0, 0, 0, 0, 0, // name
        1, 0, 0, 0, 0, 0, 0, 0, 7, // origin
        0, 0, 0, 0, 0, 0, 0, 0, // surface
        2, 2, 0, 0, 0, 0, 0, 0, 0, 9, 9, // marker
        0, 0, 0, 0, 0, 0, 0, 0, // meta
    ];
    assert_eq!(bytes, expected);
}

#[test]
fn decode_round_trips_every_kind() {
    let group = EmojiGroup {
        name: "faces".to_string(),
        description: "smileys ☺".to_string(),
        unicodes: vec!["😀".to_string(), "😎".to_string()],
    };
    let bytes = encode_entry(&PlaysetEntry::EmojiGroup(group));
    match decode(&bytes) {
        Some(PlaysetEntry::EmojiGroup(g)) => {
            assert_eq!(g.name, "faces");
            assert_eq!(g.description, "smileys ☺");
            assert_eq!(g.unicodes, vec!["😀".to_string(), "😎".to_string()]);
        }
        other => panic!("unexpected {:?}", other),
    }
    let space = Space {
        name: "board".to_string(),
        origin: EntryHash::from_raw(vec![1, 2, 3]),
        surface: "{\"w\":10}".to_string(),
        maybe_marker_piece: Some(MarkerPiece::Svg(EntryHash::from_raw(vec![4]))),
        meta: vec![("k".to_string(), "v".to_string())],
    };
    let bytes = encode_entry(&PlaysetEntry::Space(space));
    match decode(&bytes) {
        Some(PlaysetEntry::Space(s)) => {
            assert_eq!(s.name, "board");
            assert_eq!(s.origin, EntryHash::from_raw(vec![1, 2, 3]));
            assert_eq!(s.surface, "{\"w\":10}");
            match s.maybe_marker_piece {
                Some(MarkerPiece::Svg(h)) => assert_eq!(h.bytes, vec![4]),
                other => panic!("unexpected marker {:?}", other),
            }
            assert_eq!(s.meta, vec![("k".to_string(), "v".to_string())]);
        }
        other => panic!("unexpected {:?}", other),
    }
}

#[test]
fn decode_rejects_non_canonical_bytes() {
    let mut bytes = encode_entry(&PlaysetEntry::SvgMarker(SvgMarker {
        name: "dot".to_string(),
        value: "<svg/>".to_string(),
    }));
    assert!(decode(&bytes).is_some());
    bytes.push(0);
    assert!(decode(&bytes).is_none());
    assert!(decode(&vec![]).is_none());
    assert!(decode(&vec![9]).is_none());
    assert!(decode(&vec![0, 1, 0]).is_none());
}

#[test]
fn decode_rejects_invalid_utf8() {
    let bytes: Vec<u8> = vec![
        1, // svg marker
        1, 0, 0, 0, 0, 0, 0, 0, 0xff, // name: not UTF-8
        0, 0, 0, 0, 0, 0, 0, 0,
    ];
    assert!(decode(&bytes).is_none());
}

#[test]
fn tags_are_case_sensitive() {
    assert_eq!(PieceKind::from_tag("Template"), Some(PieceKind::Template));
    assert_eq!(PieceKind::from_tag("SvgMarker"), Some(PieceKind::SvgMarker));
    assert_eq!(PieceKind::from_tag("EmojiGroup"), Some(PieceKind::EmojiGroup));
    assert_eq!(PieceKind::from_tag("Space"), Some(PieceKind::Space));
    assert_eq!(PieceKind::from_tag("template"), None);
    assert_eq!(PieceKind::from_tag("space"), None);
    assert_eq!(PieceKind::from_tag("Bogus"), None);
    for k in [PieceKind::Template, PieceKind::SvgMarker, PieceKind::EmojiGroup, PieceKind::Space] {
        assert_eq!(PieceKind::from_tag(k.tag()), Some(k));
    }
}

#[test]
fn marker_piece_reports_its_target() {
    let m = MarkerPiece::EmojiGroup(EntryHash::from_raw(vec![5, 6]));
    assert_eq!(m.type_tag(), "EmojiGroup");
    assert_eq!(m.kind(), PieceKind::EmojiGroup);
    assert_eq!(m.eh(), EntryHash::from_raw(vec![5, 6]));
    let s = MarkerPiece::Svg(EntryHash::from_raw(vec![1]));
    assert_eq!(s.type_tag(), "SvgMarker");
}

#[test]
fn digest_is_blake2b_256_of_the_bytes() {
    let data = b"abc".to_vec();
    let h = EntryHash::of_bytes(&data);
    assert_eq!(h.bytes.len(), 32);
    assert_ne!(h.bytes, data);
    assert_eq!(h, EntryHash::of_bytes(&data));
    assert_ne!(h, EntryHash::of_bytes(&b"abd".to_vec()));
}

#[test]
fn digest_matches_known_blake2b_256_vector() {
    let h = EntryHash::of_bytes(&b"abc".to_vec());
    let hex: String = h.bytes.iter().map(|b| format!("{:02x}", b)).collect();
    assert_eq!(hex, "bddd813c634239723171ef3fee98579b94964e3bb1cb3e427262c8c068d52319");
}
