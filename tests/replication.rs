use playset::error::PlaysetError;
use playset::hash::EntryHash;
use playset::pieces::{EmojiGroup, MarkerPiece, PieceKind, Playset, Space, SvgMarker, Template};
use playset::replication::{
    export_piece, export_playset, export_space, export_targets, ExportSession, ExportStep,
};
use playset::codec::encode_entry;
use playset::pieces::{Category, PlaysetEntry};
use playset::store::Store;
use std::collections::BTreeSet;

fn template(name: &str) -> Template {
    Template { name: name.to_string(), surface: "{\"grid\":true}".to_string() }
}

fn svg(name: &str) -> SvgMarker {
    SvgMarker { name: name.to_string(), value: "<svg><circle r=\"1\"/></svg>".to_string() }
}

fn group(name: &str) -> EmojiGroup {
    EmojiGroup {
        name: name.to_string(),
        description: "a few".to_string(),
        unicodes: vec!["🙂".to_string(), "🎲".to_string()],
    }
}

fn space(name: &str, origin: &EntryHash, marker: Option<MarkerPiece>) -> Space {
    Space {
        name: name.to_string(),
        origin: origin.clone(),
        surface: "{\"w\":3}".to_string(),
        maybe_marker_piece: marker,
        meta: vec![],
    }
}

fn hash_set(v: &[EntryHash]) -> BTreeSet<Vec<u8>> {
    v.iter().map(|h| h.bytes.clone()).collect()
}

#[test]
fn export_space_sends_origin_marker_then_space() {
    let mut a = Store::new();
    let t1 = a.create_template(template("grid"));
    let s1 = a.create_svg_marker(svg("dot"));
    let sp1 = a.create_space(space("board", &t1, Some(MarkerPiece::Svg(s1.clone()))));
    let mut b = Store::new();
    let sent = export_space(&a, &sp1, &mut b).unwrap();
    assert_eq!(sent, vec![t1.clone(), s1.clone(), sp1.clone()]);
    assert_eq!(b.get_template(&t1).unwrap().name, "grid");
    assert_eq!(b.get_svg_marker(&s1).unwrap().name, "dot");
    assert_eq!(b.get_space(&sp1).unwrap().name, "board");
}

#[test]
fn export_space_without_marker_sends_two() {
    let mut a = Store::new();
    let t1 = a.create_template(template("grid"));
    let sp1 = a.create_space(space("plain", &t1, None));
    let mut b = Store::new();
    let sent = export_space(&a, &sp1, &mut b).unwrap();
    assert_eq!(sent, vec![t1, sp1]);
}

#[test]
fn export_space_with_emoji_group_marker() {
    let mut a = Store::new();
    let t1 = a.create_template(template("grid"));
    let g1 = a.create_emoji_group(group("faces"));
    let sp1 = a.create_space(space("board", &t1, Some(MarkerPiece::EmojiGroup(g1.clone()))));
    let mut b = Store::new();
    let sent = export_space(&a, &sp1, &mut b).unwrap();
    assert_eq!(sent, vec![t1, g1.clone(), sp1]);
    assert_eq!(b.get_emoji_group(&g1).unwrap().unicodes.len(), 2);
}

#[test]
fn export_space_missing_pieces_is_not_found() {
    let mut a = Store::new();
    let t1 = a.create_template(template("grid"));
    let mut b = Store::new();
    let missing = EntryHash::from_raw(vec![1; 32]);
    assert_eq!(export_space(&a, &missing, &mut b), Err(PlaysetError::NotFound));
    // a template is not a space
    assert_eq!(export_space(&a, &t1, &mut b), Err(PlaysetError::NotFound));
    // a space whose origin is absent: nothing is sent
    let sp = a.create_space(space("orphan", &missing, None));
    assert_eq!(export_space(&a, &sp, &mut b), Err(PlaysetError::NotFound));
    assert!(b.get_templates().is_empty());
    // a space whose marker is absent: the origin was sent first and stays
    let sp2 = a.create_space(space("lost", &t1, Some(MarkerPiece::Svg(missing.clone()))));
    assert_eq!(export_space(&a, &sp2, &mut b), Err(PlaysetError::NotFound));
    assert!(b.get_template(&t1).is_some());
    assert!(b.get_space(&sp2).is_none());
}

#[test]
fn import_twice_changes_nothing() {
    let payload = encode_entry(&PlaysetEntry::Template(template("grid")));
    let mut b = Store::new();
    assert_eq!(b.import_piece("Template", &payload), Ok(()));
    assert_eq!(b.get_templates().len(), 1);
    assert_eq!(b.import_piece("Template", &payload), Ok(()));
    let listed = b.get_templates();
    assert_eq!(listed.len(), 1);
    assert_eq!(listed[0].hash, EntryHash::of_bytes(&payload));
    assert_eq!(b.get_inventory().templates.len(), 1);
}

#[test]
fn import_unknown_tag_is_rejected() {
    let payload = encode_entry(&PlaysetEntry::Template(template("grid")));
    let mut b = Store::new();
    assert_eq!(b.import_piece("Bogus", &payload), Err(PlaysetError::UnknownOrMismatchedType));
    assert_eq!(b.import_piece("template", &payload), Err(PlaysetError::UnknownOrMismatchedType));
    assert!(b.get_templates().is_empty());
    assert!(!b.contains(&EntryHash::of_bytes(&payload)));
}

#[test]
fn import_mismatched_payload_is_rejected() {
    let payload = encode_entry(&PlaysetEntry::SvgMarker(svg("dot")));
    let mut b = Store::new();
    assert_eq!(b.import_piece("Template", &payload), Err(PlaysetError::UnknownOrMismatchedType));
    assert_eq!(b.import_piece("Space", &vec![1, 2, 3]), Err(PlaysetError::UnknownOrMismatchedType));
    assert!(b.get_templates().is_empty());
    assert!(b.get_svg_markers().is_empty());
    assert_eq!(b.import_piece("SvgMarker", &payload), Ok(()));
    assert_eq!(b.get_svg_markers().len(), 1);
}

#[test]
fn hashes_are_deterministic_and_distinct() {
    let mut a = Store::new();
    let t1 = a.create_template(template("grid"));
    let t2 = a.create_template(template("grid"));
    assert_eq!(t1, t2);
    let payload = encode_entry(&PlaysetEntry::Template(template("grid")));
    assert_eq!(t1, EntryHash::of_bytes(&payload));
    assert_ne!(t1.bytes, payload);
    let mut s1 = space("board", &t1, None);
    s1.meta = vec![("colour".to_string(), "red".to_string())];
    let mut s2 = space("board", &t1, None);
    s2.meta = vec![("colour".to_string(), "blue".to_string())];
    let h1 = a.create_space(s1);
    let h2 = a.create_space(s2);
    assert_ne!(h1, h2);
    // same fields, different kinds
    let tm = a.create_template(Template { name: "x".to_string(), surface: "y".to_string() });
    let sv = a.create_svg_marker(SvgMarker { name: "x".to_string(), value: "y".to_string() });
    assert_ne!(tm, sv);
}

#[test]
fn create_lists_duplicates_but_stores_once() {
    let mut a = Store::new();
    let t1 = a.create_template(template("grid"));
    a.create_template(template("grid"));
    let listed = a.get_templates();
    assert_eq!(listed.len(), 2);
    assert_eq!(listed[0].hash, t1);
    assert_eq!(listed[1].hash, t1);
    assert_eq!(listed[0].content.name, "grid");
}

#[test]
fn retry_after_partial_failure_does_not_duplicate() {
    let mut a = Store::new();
    let t1 = a.create_template(template("grid"));
    let s1 = a.create_svg_marker(svg("dot"));
    let sp1 = a.create_space(space("board", &t1, Some(MarkerPiece::Svg(s1.clone()))));
    let targets = a.space_targets(&sp1).unwrap();
    assert_eq!(targets.len(), 3);
    // the destination takes the first piece, then the channel fails on the second
    let mut b = Store::new();
    let first: Vec<_> = targets.into_iter().take(1).collect();
    assert_eq!(export_targets(&a, &first, &mut b), Ok(()));
    assert_eq!(b.get_inventory().templates, vec![t1.clone()]);
    // retrying the whole export succeeds
    let sent = export_space(&a, &sp1, &mut b).unwrap();
    assert_eq!(sent, vec![t1.clone(), s1.clone(), sp1.clone()]);
    let inv = b.get_inventory();
    assert_eq!(inv.templates, vec![t1]);
    assert_eq!(inv.svg_markers, vec![s1]);
    assert_eq!(inv.spaces, vec![sp1]);
}

#[test]
fn playset_round_trip_to_empty_store() {
    let mut a = Store::new();
    let t1 = a.create_template(template("grid"));
    let t2 = a.create_template(template("hex"));
    let s1 = a.create_svg_marker(svg("dot"));
    let g1 = a.create_emoji_group(group("faces"));
    let sp1 = a.create_space(space("one", &t1, Some(MarkerPiece::Svg(s1.clone()))));
    let sp2 = a.create_space(space("two", &t2, Some(MarkerPiece::EmojiGroup(g1.clone()))));
    let sp3 = a.create_space(space("three", &t1, None));
    let ps = a.create_playset(Playset {
        name: "games".to_string(),
        description: "a bundle".to_string(),
        templates: vec![t1.clone(), t2.clone()],
        svg_markers: vec![s1.clone()],
        emoji_groups: vec![g1.clone()],
        spaces: vec![sp1.clone(), sp2.clone(), sp3.clone()],
    });
    assert_eq!(a.get_all_playsets().len(), 1);
    assert_eq!(a.get_playset(&ps).unwrap().spaces.len(), 3);
    let mut b = Store::new();
    assert_eq!(export_playset(&a, &ps, &mut b), Ok(()));
    let got_t: Vec<EntryHash> = b.get_templates().into_iter().map(|o| o.hash).collect();
    let got_s: Vec<EntryHash> = b.get_spaces().into_iter().map(|o| o.hash).collect();
    assert_eq!(hash_set(&got_t), hash_set(&[t1, t2]));
    assert_eq!(hash_set(&got_s), hash_set(&[sp1, sp2, sp3]));
    assert_eq!(b.get_svg_markers().len(), 1);
    assert_eq!(b.get_all_emoji_groups().len(), 1);
    // the playset itself is not replicated
    assert!(b.get_all_playsets().is_empty());
    // running it again adds nothing
    assert_eq!(export_playset(&a, &ps, &mut b), Ok(()));
    assert_eq!(b.get_templates().len(), 2);
    assert_eq!(b.get_spaces().len(), 3);
}

#[test]
fn playset_with_missing_member_is_not_found() {
    let mut a = Store::new();
    let t1 = a.create_template(template("grid"));
    let ps = a.create_playset(Playset {
        name: "broken".to_string(),
        description: String::new(),
        templates: vec![t1.clone()],
        svg_markers: vec![EntryHash::from_raw(vec![3; 32])],
        emoji_groups: vec![],
        spaces: vec![],
    });
    let mut b = Store::new();
    assert_eq!(export_playset(&a, &ps, &mut b), Err(PlaysetError::NotFound));
    // the template listed before the missing marker was sent and stays
    assert!(b.get_template(&t1).is_some());
    assert_eq!(b.get_inventory().templates, vec![t1]);
    assert_eq!(export_playset(&a, &EntryHash::from_raw(vec![0]), &mut b), Err(PlaysetError::NotFound));
}

#[test]
fn export_piece_sends_payload_and_lets_destination_decide() {
    let mut a = Store::new();
    let t1 = a.create_template(template("grid"));
    let mut b = Store::new();
    assert_eq!(export_piece(&a, "Bogus", &t1, &mut b), Err(PlaysetError::UnknownOrMismatchedType));
    assert_eq!(export_piece(&a, "SvgMarker", &t1, &mut b), Err(PlaysetError::UnknownOrMismatchedType));
    assert_eq!(export_piece(&a, "Template", &EntryHash::from_raw(vec![2]), &mut b), Err(PlaysetError::NotFound));
    assert_eq!(export_piece(&a, "Template", &t1, &mut b), Ok(()));
    assert!(b.get_template(&t1).is_some());
    // already held: accepted whatever the tag
    assert_eq!(export_piece(&a, "SvgMarker", &t1, &mut b), Ok(()));
    assert_eq!(b.get_templates().len(), 1);
}

#[test]
fn get_of_absent_or_other_kind_is_none() {
    let mut a = Store::new();
    let t1 = a.create_template(template("grid"));
    assert!(a.get_template(&t1).is_some());
    assert!(a.get_space(&t1).is_none());
    assert!(a.get_svg_marker(&EntryHash::from_raw(vec![8])).is_none());
    assert!(a.get_entry(&t1).is_some());
    assert_eq!(a.get_bytes(&t1), Some(encode_entry(&PlaysetEntry::Template(template("grid")))));
}

#[test]
fn destination_failing_second_call_then_retry() {
    let mut a = Store::new();
    let t1 = a.create_template(template("grid"));
    let s1 = a.create_svg_marker(svg("dot"));
    let sp1 = a.create_space(space("board", &t1, Some(MarkerPiece::Svg(s1.clone()))));
    let mut b = Store::new();
    let mut calls = 0;
    let mut session = ExportSession::new(a.space_targets(&sp1).unwrap());
    let outcome = loop {
        match session.next_step(&a) {
            ExportStep::Send(item) => {
                calls += 1;
                let reply = if calls == 2 {
                    Err(PlaysetError::RemoteInvocationFailure)
                } else {
                    b.import_piece(item.kind.tag(), &item.payload)
                };
                session.record(&a, reply);
            }
            ExportStep::Done => break Ok(()),
            ExportStep::Failed(e) => break Err(e),
        }
    };
    assert_eq!(outcome, Err(PlaysetError::RemoteInvocationFailure));
    assert_eq!(calls, 2);
    assert_eq!(session.calls, 1);
    assert_eq!(b.get_inventory().templates, vec![t1.clone()]);
    assert!(b.get_space(&sp1).is_none());
    let sent = export_space(&a, &sp1, &mut b).unwrap();
    assert_eq!(sent, vec![t1.clone(), s1.clone(), sp1.clone()]);
    let inv = b.get_inventory();
    assert_eq!(inv.templates, vec![t1]);
    assert_eq!(inv.svg_markers, vec![s1]);
    assert_eq!(inv.spaces, vec![sp1]);
}

#[test]
fn session_stops_at_missing_member() {
    let mut a = Store::new();
    let t1 = a.create_template(template("grid"));
    let missing = EntryHash::from_raw(vec![4; 32]);
    let targets = vec![
        (PieceKind::Template, t1.clone()),
        (PieceKind::SvgMarker, missing),
        (PieceKind::Template, t1.clone()),
    ];
    let mut session = ExportSession::new(targets);
    match session.next_step(&a) {
        ExportStep::Send(item) => {
            assert_eq!(item.hash, t1);
            assert_eq!(item.kind, PieceKind::Template);
            session.record(&a, Ok(()));
        }
        other => panic!("unexpected {:?}", other),
    }
    assert_eq!(session.next_step(&a), ExportStep::Failed(PlaysetError::NotFound));
    assert_eq!(session.next_step(&a), ExportStep::Failed(PlaysetError::NotFound));
    assert_eq!(session.calls, 1);
    let mut empty = ExportSession::new(vec![]);
    assert_eq!(empty.next_step(&a), ExportStep::Done);
}
#[test]
fn list_entries_follows_the_index() {
    let mut a = Store::new();
    let t1 = a.create_template(template("grid"));
    let sp1 = a.create_space(space("one", &t1, None));
    let t2 = a.create_template(template("hex"));
    let listed = a.list_entries(Category::Templates);
    assert_eq!(listed.len(), 2);
    assert_eq!(listed[0].0, t1);
    assert_eq!(listed[1].0, t2);
    match &listed[1].1 {
        PlaysetEntry::Template(t) => assert_eq!(t.name, "hex"),
        other => panic!("unexpected {:?}", other),
    }
    let spaces = a.list_entries(Category::Spaces);
    assert_eq!(spaces.len(), 1);
    assert_eq!(spaces[0].0, sp1);
    assert!(a.list_entries(Category::Playsets).is_empty());
    let inv = a.get_inventory();
    assert_eq!(inv.templates, vec![t1, t2]);
    assert_eq!(inv.spaces, vec![sp1]);
    assert!(inv.svg_markers.is_empty() && inv.emoji_groups.is_empty());
}

#[test]
fn retried_playset_export_matches_uninterrupted() {
    let mut a = Store::new();
    let t1 = a.create_template(template("grid"));
    let t2 = a.create_template(template("hex"));
    let s1 = a.create_svg_marker(svg("dot"));
    let sp1 = a.create_space(space("one", &t1, Some(MarkerPiece::Svg(s1.clone()))));
    let ps = a.create_playset(Playset {
        name: "games".to_string(),
        description: String::new(),
        templates: vec![t1, t2],
        svg_markers: vec![s1],
        emoji_groups: vec![],
        spaces: vec![sp1],
    });
    let mut whole = Store::new();
    assert_eq!(export_playset(&a, &ps, &mut whole), Ok(()));
    let mut retried = Store::new();
    let first: Vec<_> = a.playset_targets(&ps).unwrap().into_iter().take(2).collect();
    assert_eq!(export_targets(&a, &first, &mut retried), Ok(()));
    assert_eq!(export_playset(&a, &ps, &mut retried), Ok(()));
    let (x, y) = (whole.get_inventory(), retried.get_inventory());
    assert_eq!(x.templates, y.templates);
    assert_eq!(x.svg_markers, y.svg_markers);
    assert_eq!(x.emoji_groups, y.emoji_groups);
    assert_eq!(x.spaces, y.spaces);
}
