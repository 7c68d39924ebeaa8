use manual_assembler::{assemble_manual, ItemEntry, ManualEvent, ManualItem, SectionEntry};
use manual_assembler::text::{decode_item_name, decode_kind, try_decode_section_name};

fn item(path: &str, stem: &str) -> ItemEntry {
    ItemEntry { path: path.to_owned(), stem: stem.to_owned() }
}

fn section(path: &str, stem: &str, items: Vec<ItemEntry>) -> SectionEntry {
    SectionEntry { path: path.to_owned(), stem: stem.to_owned(), items }
}

#[test]
fn kind_decoding() {
    assert_eq!(decode_kind("Sfoo"), ManualItem::Tool);
    assert_eq!(decode_kind("Tbar"), ManualItem::Tool);
    assert_eq!(decode_kind("Xtex"), ManualItem::Texture);
    assert_eq!(decode_kind("normal_name"), ManualItem::Regular);
    // The classification character is read case-insensitively.
    assert_eq!(decode_kind("sfoo"), ManualItem::Tool);
    assert_eq!(decode_kind("xtex"), ManualItem::Texture);
    assert_eq!(ManualItem::from('S'), ManualItem::Tool);
    assert_eq!(ManualItem::from('T'), ManualItem::Tool);
    assert_eq!(ManualItem::from('X'), ManualItem::Texture);
    assert_eq!(ManualItem::from('q'), ManualItem::Regular);
}

#[test]
fn item_name_decoding() {
    assert_eq!(decode_item_name("Sfoo"), "foo");
    assert_eq!(decode_item_name("Tbar"), "bar");
    assert_eq!(decode_item_name("Xtex"), "tex");
    assert_eq!(decode_item_name("1_alpha"), "alpha");
    // A first character that encodes no classification stays in the name.
    assert_eq!(decode_item_name("normal_name"), "normal_name");

    assert_eq!(decode_item_name("123"), "");
}

#[test]
fn section_name_decoding() {
    assert_eq!(try_decode_section_name("normal_name").as_deref(), Some("Normal name"));
    assert_eq!(try_decode_section_name("A_one").as_deref(), Some("A one"));
    assert_eq!(try_decode_section_name("Stools_b").as_deref(), Some("Tools b"));
    assert_eq!(try_decode_section_name(""), None);
    assert_eq!(try_decode_section_name("1_23"), None);
}

#[test]
fn two_sections_in_order() {
    // The tree of the scenario: "A_one" holds "1_alpha" and "2_beta",
    // "B_two" holds nothing; the listing arrives unsorted.
    let tree = vec![
        section(
            "docs/manual/B_two",
            "B_two",
            vec![],
        ),
        section(
            "docs/manual/A_one",
            "A_one",
            vec![
                item("docs/manual/A_one/2_beta.txt", "2_beta"),
                item("docs/manual/A_one/1_alpha.txt", "1_alpha"),
            ],
        ),
    ];
    let events = assemble_manual(tree).unwrap();
    let expected = vec![
        ManualEvent::SectionStart { is_last: false },
        ManualEvent::SectionName { name: "A one".to_owned(), kind: ManualItem::Regular },
        ManualEvent::Item {
            name: "alpha".to_owned(),
            path: "docs/manual/A_one/1_alpha.txt".to_owned(),
            kind: ManualItem::Regular,
        },
        ManualEvent::Item {
            name: "beta".to_owned(),
            path: "docs/manual/A_one/2_beta.txt".to_owned(),
            kind: ManualItem::Regular,
        },
        ManualEvent::SectionEnd,
        ManualEvent::SectionStart { is_last: true },
        ManualEvent::SectionName { name: "B two".to_owned(), kind: ManualItem::Regular },
        ManualEvent::SectionEnd,
    ];
    assert_eq!(events, expected);
}

#[test]
fn event_counts_match_tree() {
    let tree = vec![
        section("m/c_three", "c_three", vec![item("m/c_three/x", "x_a"), item("m/c_three/y", "y_b")]),
        section("m/a_one", "a_one", vec![item("m/a_one/z", "z_c")]),
        section("m/b_two", "b_two", vec![]),
    ];
    let events = assemble_manual(tree).unwrap();
    let starts = events
        .iter()
        .filter(|e| matches!(e, ManualEvent::SectionStart { .. }))
        .count();
    let names = events
        .iter()
        .filter(|e| matches!(e, ManualEvent::SectionName { .. }))
        .count();
    let items = events.iter().filter(|e| matches!(e, ManualEvent::Item { .. })).count();
    let ends = events.iter().filter(|e| matches!(e, ManualEvent::SectionEnd)).count();
    assert_eq!(starts, 3);
    assert_eq!(names, 3);
    assert_eq!(items, 3);
    assert_eq!(ends, 3);
}

#[test]
fn last_flag_on_greatest_section() {
    let tree = vec![
        section("m/b_two", "b_two", vec![]),
        section("m/c_three", "c_three", vec![]),
        section("m/a_one", "a_one", vec![]),
    ];
    let events = assemble_manual(tree).unwrap();
    let flags: Vec<bool> = events
        .iter()
        .filter_map(|e| match e {
            ManualEvent::SectionStart { is_last } => Some(*is_last),
            _ => None,
        })
        .collect();
    assert_eq!(flags, vec![false, false, true]);
    // The flagged start belongs to the lexicographically greatest path.
    match &events[events.len() - 3] {
        ManualEvent::SectionStart { is_last } => assert!(is_last),
        other => panic!("expected a start event, got {other:?}"),
    }
    match &events[events.len() - 2] {
        ManualEvent::SectionName { name, .. } => assert_eq!(name, "C three"),
        other => panic!("expected a name event, got {other:?}"),
    }
}

#[test]
fn assembly_is_deterministic() {
    let make = |flip: bool| {
        let mut secs = vec![
            section(
                "m/s_one",
                "s_one",
                vec![item("m/s_one/1_a.txt", "1_a"), item("m/s_one/2_b.txt", "2_b")],
            ),
            section("m/r_two", "r_two", vec![]),
        ];
        if flip {
            secs.reverse();
        }
        secs
    };
    let a = assemble_manual(make(false)).unwrap();
    let b = assemble_manual(make(false)).unwrap();
    let c = assemble_manual(make(true)).unwrap();
    assert_eq!(a, b);
    assert_eq!(a, c);
}

#[test]
fn item_listing_order_is_irrelevant() {
    let forward = vec![section(
        "m/s_one",
        "s_one",
        vec![item("m/s_one/1_a.txt", "1_a"), item("m/s_one/2_b.txt", "2_b")],
    )];
    let backward = vec![section(
        "m/s_one",
        "s_one",
        vec![item("m/s_one/2_b.txt", "2_b"), item("m/s_one/1_a.txt", "1_a")],
    )];
    assert_eq!(assemble_manual(forward).unwrap(), assemble_manual(backward).unwrap());
}

#[test]
fn empty_tree_assembles_to_nothing() {
    let events = assemble_manual(vec![]).unwrap();
    assert!(events.is_empty());
}

#[test]
fn malformed_section_stem_is_refused() {
    assert!(assemble_manual(vec![section("m/1_23", "1_23", vec![])]).is_none());
    assert!(assemble_manual(vec![section("m/x", "", vec![])]).is_none());
    // An empty item stem is a defect too.
    assert!(
        assemble_manual(vec![section("m/a_one", "a_one", vec![item("m/a_one/e", "")])]).is_none()
    );
}

#[test]
fn item_without_alphabetic_remainder_keeps_empty_name() {
    let tree = vec![section("m/a_one", "a_one", vec![item("m/a_one/123.txt", "123")])];
    let events = assemble_manual(tree).unwrap();
    match &events[2] {
        ManualEvent::Item { name, kind, .. } => {
            assert_eq!(name, "");
            assert_eq!(*kind, ManualItem::Regular);
        },
        other => panic!("expected an item event, got {other:?}"),
    }
}

#[test]
fn tool_and_texture_sections() {
    let tree = vec![
        section("m/Stools", "Stools", vec![item("m/Stools/Sbrush.txt", "Sbrush")]),
        section("m/Xtextures", "Xtextures", vec![item("m/Xtextures/Xwall.txt", "Xwall")]),
    ];
    let events = assemble_manual(tree).unwrap();
    match &events[1] {
        ManualEvent::SectionName { name, kind } => {
            assert_eq!(name, "Tools");
            assert_eq!(*kind, ManualItem::Tool);
        },
        other => panic!("expected a name event, got {other:?}"),
    }
    match &events[2] {
        ManualEvent::Item { name, kind, .. } => {
            assert_eq!(name, "brush");
            assert_eq!(*kind, ManualItem::Tool);
        },
        other => panic!("expected an item event, got {other:?}"),
    }
    match &events[5] {
        ManualEvent::SectionName { name, kind } => {
            assert_eq!(name, "Textures");
            assert_eq!(*kind, ManualItem::Texture);
        },
        other => panic!("expected a name event, got {other:?}"),
    }
    match &events[6] {
        ManualEvent::Item { name, kind, .. } => {
            assert_eq!(name, "wall");
            assert_eq!(*kind, ManualItem::Texture);
        },
        other => panic!("expected an item event, got {other:?}"),
    }
}

#[test]
fn underscores_become_spaces_only_in_section_names() {
    let tree = vec![section(
        "m/big_blue_room",
        "big_blue_room",
        vec![item("m/big_blue_room/first_item.txt", "first_item")],
    )];
    let events = assemble_manual(tree).unwrap();
    match &events[1] {
        ManualEvent::SectionName { name, .. } => assert_eq!(name, "Big blue room"),
        other => panic!("expected a name event, got {other:?}"),
    }
    match &events[2] {
        ManualEvent::Item { name, .. } => assert_eq!(name, "first_item"),
        other => panic!("expected an item event, got {other:?}"),
    }
}
