use world_release::error::FormatError;
use world_release::sanitize::{sanitize, sanitize_data, SanitizeReport};
use world_release::tag::{Compound, List, Tag, TagKind};

fn name(s: &str) -> Vec<u8> {
    s.as_bytes().to_vec()
}

fn entries(list: Vec<(&str, Tag)>) -> Compound {
    let mut c = Compound::new();
    for (n, tag) in list {
        c.insert(name(n), tag);
    }
    c
}

fn player() -> Tag {
    let pos = List {
        kind: TagKind::Double,
        items: vec![
            Tag::Double(1.5f64.to_bits()),
            Tag::Double(64.0f64.to_bits()),
            Tag::Double((-3.25f64).to_bits()),
        ],
    };
    Tag::Compound(entries(vec![("Pos", Tag::List(pos)), ("Health", Tag::Float(20.0f32.to_bits()))]))
}

fn root_with(data: Compound) -> Compound {
    entries(vec![("Data", Tag::Compound(data))])
}

#[test]
fn sanitize_removes_the_player_and_switches_cheats_off() {
    let mut root = root_with(entries(vec![("Player", player()), ("allowCommands", Tag::Byte(1))]));
    let report = sanitize(&mut root).unwrap();
    assert_eq!(report, SanitizeReport { player_removed: true, commands_changed: true });
    assert_eq!(root, root_with(entries(vec![("allowCommands", Tag::Byte(0))])));
    match root.get(b"Data") {
        Some(Tag::Compound(data)) => {
            assert!(!data.contains_key(b"Player"));
            assert_eq!(data.get_byte(b"allowCommands"), Ok(0));
        },
        other => panic!("no Data compound: {:?}", other),
    }
}

#[test]
fn sanitize_twice_is_sanitize_once() {
    let mut once = root_with(entries(vec![
        ("LevelName", Tag::Str(name("MyWorld"))),
        ("Player", player()),
        ("allowCommands", Tag::Byte(1)),
        ("Time", Tag::Long(123456)),
    ]));
    sanitize(&mut once).unwrap();
    let mut twice = root_with(entries(vec![
        ("LevelName", Tag::Str(name("MyWorld"))),
        ("Player", player()),
        ("allowCommands", Tag::Byte(1)),
        ("Time", Tag::Long(123456)),
    ]));
    sanitize(&mut twice).unwrap();
    let second = sanitize(&mut twice).unwrap();
    assert_eq!(second, SanitizeReport { player_removed: false, commands_changed: false });
    assert_eq!(twice, once);
}

#[test]
fn sanitize_data_twice_is_sanitize_data_once() {
    let mut data = entries(vec![("allowCommands", Tag::Byte(-1)), ("Player", Tag::Int(7))]);
    let first = sanitize_data(&mut data);
    assert_eq!(first, SanitizeReport { player_removed: true, commands_changed: true });
    let after_first = entries(vec![("allowCommands", Tag::Byte(0))]);
    assert_eq!(data, after_first);
    let second = sanitize_data(&mut data);
    assert_eq!(second, SanitizeReport { player_removed: false, commands_changed: false });
    assert_eq!(data, after_first);
}

#[test]
fn sanitize_leaves_data_without_player_and_cheats_alone() {
    let mut root = entries(vec![
        ("Other", Tag::Int(1)),
        ("Data", Tag::Compound(entries(vec![("LevelName", Tag::Str(name("w")))]))),
    ]);
    let report = sanitize(&mut root).unwrap();
    assert_eq!(report, SanitizeReport { player_removed: false, commands_changed: false });
    assert_eq!(
        root,
        entries(vec![
            ("Other", Tag::Int(1)),
            ("Data", Tag::Compound(entries(vec![("LevelName", Tag::Str(name("w")))]))),
        ])
    );
}

#[test]
fn sanitize_accepts_empty_data() {
    let mut root = root_with(Compound::new());
    let report = sanitize(&mut root).unwrap();
    assert_eq!(report, SanitizeReport { player_removed: false, commands_changed: false });
    assert_eq!(root, root_with(Compound::new()));
}

#[test]
fn sanitize_fails_without_data() {
    let mut root = entries(vec![("data", Tag::Compound(Compound::new())), ("x", Tag::Byte(1))]);
    assert_eq!(sanitize(&mut root), Err(FormatError::NoData));
    assert_eq!(
        root,
        entries(vec![("data", Tag::Compound(Compound::new())), ("x", Tag::Byte(1))])
    );
    let mut empty = Compound::new();
    assert_eq!(sanitize(&mut empty), Err(FormatError::NoData));
}

#[test]
fn sanitize_fails_where_data_is_no_compound() {
    let mut root = entries(vec![("Data", Tag::Str(name("Player")))]);
    assert_eq!(sanitize(&mut root), Err(FormatError::NoData));
    assert_eq!(root, entries(vec![("Data", Tag::Str(name("Player")))]));
}

#[test]
fn sanitize_reports_no_change_where_cheats_are_off() {
    let mut root = root_with(entries(vec![("allowCommands", Tag::Byte(0))]));
    let report = sanitize(&mut root).unwrap();
    assert_eq!(report, SanitizeReport { player_removed: false, commands_changed: false });
    assert_eq!(root, root_with(entries(vec![("allowCommands", Tag::Byte(0))])));
}

#[test]
fn sanitize_leaves_cheats_of_another_kind_alone() {
    let mut root = root_with(entries(vec![("allowCommands", Tag::Int(1)), ("Player", player())]));
    let report = sanitize(&mut root).unwrap();
    assert_eq!(report, SanitizeReport { player_removed: true, commands_changed: false });
    assert_eq!(root, root_with(entries(vec![("allowCommands", Tag::Int(1))])));
}

#[test]
fn sanitize_removes_a_player_of_any_kind() {
    let mut root = root_with(entries(vec![("Player", Tag::Byte(1)), ("x", Tag::Byte(2))]));
    let report = sanitize(&mut root).unwrap();
    assert_eq!(report, SanitizeReport { player_removed: true, commands_changed: false });
    assert_eq!(root, root_with(entries(vec![("x", Tag::Byte(2))])));
}

#[test]
fn sanitize_keeps_the_place_of_every_entry() {
    let mut root = entries(vec![
        ("first", Tag::Byte(1)),
        (
            "Data",
            Tag::Compound(entries(vec![
                ("a", Tag::Byte(1)),
                ("Player", player()),
                ("allowCommands", Tag::Byte(5)),
                ("z", Tag::Byte(2)),
            ])),
        ),
        ("last", Tag::Byte(3)),
    ]);
    sanitize(&mut root).unwrap();
    assert_eq!(
        root,
        entries(vec![
            ("first", Tag::Byte(1)),
            (
                "Data",
                Tag::Compound(entries(vec![
                    ("a", Tag::Byte(1)),
                    ("allowCommands", Tag::Byte(0)),
                    ("z", Tag::Byte(2)),
                ])),
            ),
            ("last", Tag::Byte(3)),
        ])
    );
}

#[test]
fn sanitize_touches_nothing_outside_data() {
    let mut root = entries(vec![
        ("Player", player()),
        ("allowCommands", Tag::Byte(1)),
        ("Data", Tag::Compound(Compound::new())),
    ]);
    sanitize(&mut root).unwrap();
    assert_eq!(
        root,
        entries(vec![
            ("Player", player()),
            ("allowCommands", Tag::Byte(1)),
            ("Data", Tag::Compound(Compound::new())),
        ])
    );
}
