use world_release::codec::{decode, encode};
use world_release::error::{CodecError, FormatError};
use world_release::release::{
    clean, sanitize_level, sanitize_level_dat, validate, CleanupReport, LevelError,
    ValidationError,
};
use world_release::sanitize::SanitizeReport;
use world_release::tag::{Compound, Document, List, Tag, TagKind};
use world_release::tree::{clone_directory_recursively, IoError, Node};

fn name(s: &str) -> Vec<u8> {
    s.as_bytes().to_vec()
}

fn entries(list: Vec<(&str, Tag)>) -> Compound {
    let mut c = Compound::new();
    for (n, tag) in list {
        c.insert(name(n), tag);
    }
    c
}

fn dir(name: &str, children: Vec<Node>) -> Node {
    Node::Directory { name: name.to_string(), children }
}

fn file(name: &str, content: &[u8]) -> Node {
    Node::File { name: name.to_string(), content: content.to_vec(), mode: 0o644 }
}

fn level(data: Compound) -> Vec<u8> {
    let root = entries(vec![("Data", Tag::Compound(data))]);
    encode(&Document { name: vec![], root }).unwrap()
}

fn played_level() -> Vec<u8> {
    let pos = List {
        kind: TagKind::Double,
        items: vec![
            Tag::Double(0.5f64.to_bits()),
            Tag::Double(70.0f64.to_bits()),
            Tag::Double((-12.5f64).to_bits()),
        ],
    };
    level(entries(vec![
        ("LevelName", Tag::Str(name("MyWorld"))),
        ("Player", Tag::Compound(entries(vec![("Pos", Tag::List(pos))]))),
        ("allowCommands", Tag::Byte(1)),
        ("SpawnX", Tag::Int(-40)),
    ]))
}

fn my_world() -> Node {
    dir(
        "MyWorld",
        vec![
            file("level.dat", &played_level()),
            file("level.dat_old", b"old"),
            file("session.lock", b"\xe2\x98\x83"),
            dir("data", vec![file("scoreboard.dat", b"score"), file("raids.dat", b"raids")]),
            dir("advancements", vec![file("a.json", b"{}")]),
            dir("playerdata", vec![file("u.dat", b"u")]),
            dir("stats", vec![file("s.json", b"{}")]),
            dir("region", vec![file("r.0.0.mca", &[7; 64])]),
            Node::Opaque { name: "shortcut".to_string() },
        ],
    )
}

fn child<'a>(node: &'a Node, wanted: &str) -> Option<&'a Node> {
    match node {
        Node::Directory { children, .. } => children.iter().find(|c| match c {
            Node::Directory { name, .. } | Node::File { name, .. } | Node::Opaque { name } => {
                name == wanted
            },
        }),
        _ => None,
    }
}

#[test]
fn a_played_world_becomes_a_release() {
    let source = my_world();
    assert_eq!(validate(&source), Ok(()));
    let mut release = clone_directory_recursively(&source, "MyWorld_RELEASE".to_string()).unwrap();
    let sanitized = sanitize_level(&mut release).unwrap();
    assert_eq!(sanitized, SanitizeReport { player_removed: true, commands_changed: true });
    let cleaned = clean(&mut release);
    assert_eq!(
        cleaned,
        CleanupReport {
            level_dat_old: true,
            session_lock: true,
            scoreboard: true,
            advancements: Ok(1),
            playerdata: Ok(1),
            stats: Ok(1),
        }
    );

    let level_dat = match child(&release, "level.dat") {
        Some(Node::File { content, mode, .. }) => {
            assert_eq!(*mode, 0o644);
            decode(content).unwrap()
        },
        other => panic!("no level.dat: {:?}", other),
    };
    let data = match level_dat.root.get(b"Data") {
        Some(Tag::Compound(data)) => data,
        other => panic!("no Data: {:?}", other),
    };
    assert!(!data.contains_key(b"Player"));
    assert_eq!(data.get_byte(b"allowCommands"), Ok(0));
    assert_eq!(data.get(b"LevelName"), Some(&Tag::Str(name("MyWorld"))));
    assert_eq!(data.get(b"SpawnX"), Some(&Tag::Int(-40)));

    assert_eq!(child(&release, "level.dat_old"), None);
    assert_eq!(child(&release, "session.lock"), None);
    assert_eq!(child(&release, "shortcut"), None);
    assert_eq!(child(&release, "data"), Some(&dir("data", vec![file("raids.dat", b"raids")])));
    assert_eq!(child(&release, "advancements"), Some(&dir("advancements", vec![])));
    assert_eq!(child(&release, "playerdata"), Some(&dir("playerdata", vec![])));
    assert_eq!(child(&release, "stats"), Some(&dir("stats", vec![])));
    assert_eq!(
        child(&release, "region"),
        Some(&dir("region", vec![file("r.0.0.mca", &[7; 64])]))
    );
    match &release {
        Node::Directory { name, children } => {
            assert_eq!(name, "MyWorld_RELEASE");
            assert_eq!(children.len(), 6);
        },
        other => panic!("no directory: {:?}", other),
    }
    assert_eq!(source, my_world());
}

#[test]
fn validate_asks_for_a_regular_file_level_dat() {
    assert_eq!(validate(&dir("w", vec![file("level.dat", b"")])), Ok(()));
    assert_eq!(
        validate(&dir("w", vec![file("level.dat_old", b"")])),
        Err(ValidationError::MissingLevelDat)
    );
    assert_eq!(validate(&dir("w", vec![])), Err(ValidationError::MissingLevelDat));
    assert_eq!(
        validate(&dir("w", vec![dir("level.dat", vec![])])),
        Err(ValidationError::MissingLevelDat)
    );
    assert_eq!(
        validate(&dir("w", vec![dir("sub", vec![file("level.dat", b"")])])),
        Err(ValidationError::MissingLevelDat)
    );
    assert_eq!(validate(&file("level.dat", b"")), Err(ValidationError::MissingLevelDat));
}

#[test]
fn sanitize_level_dat_rewrites_the_bytes() {
    let (packed, report) = sanitize_level_dat(&played_level()).unwrap();
    assert_eq!(report, SanitizeReport { player_removed: true, commands_changed: true });
    let expected = level(entries(vec![
        ("LevelName", Tag::Str(name("MyWorld"))),
        ("allowCommands", Tag::Byte(0)),
        ("SpawnX", Tag::Int(-40)),
    ]));
    assert_eq!(packed, expected);
}

#[test]
fn sanitize_level_dat_of_a_clean_level_reports_no_change() {
    let clean_level = level(entries(vec![("LevelName", Tag::Str(name("w")))]));
    let (packed, report) = sanitize_level_dat(&clean_level).unwrap();
    assert_eq!(report, SanitizeReport { player_removed: false, commands_changed: false });
    assert_eq!(packed, clean_level);
}

#[test]
fn sanitize_level_dat_fails_without_data() {
    let no_data = encode(&Document { name: vec![], root: entries(vec![("x", Tag::Byte(1))]) })
        .unwrap();
    assert_eq!(
        sanitize_level_dat(&no_data),
        Err(CodecError::Format(FormatError::NoData))
    );
}

#[test]
fn sanitize_level_dat_fails_on_bytes_that_do_not_decode() {
    assert_eq!(sanitize_level_dat(b"not gzip"), Err(CodecError::Io));
}

#[test]
fn sanitize_level_leaves_the_tree_alone_where_it_fails() {
    let no_data = encode(&Document { name: vec![], root: Compound::new() }).unwrap();
    let mut world = dir("w", vec![file("a", b"a"), file("level.dat", &no_data)]);
    assert_eq!(
        sanitize_level(&mut world),
        Err(LevelError::Codec(CodecError::Format(FormatError::NoData)))
    );
    assert_eq!(world, dir("w", vec![file("a", b"a"), file("level.dat", &no_data)]));

    let mut broken = dir("w", vec![file("level.dat", &[1, 2, 3])]);
    assert_eq!(sanitize_level(&mut broken), Err(LevelError::Codec(CodecError::Io)));
    assert_eq!(broken, dir("w", vec![file("level.dat", &[1, 2, 3])]));

    let mut none = dir("w", vec![file("a", b"a")]);
    assert_eq!(sanitize_level(&mut none), Err(LevelError::Missing));
    assert_eq!(none, dir("w", vec![file("a", b"a")]));
}

#[test]
fn sanitize_level_keeps_the_name_and_the_mode_of_the_file() {
    let mut world = dir(
        "w",
        vec![
            file("first", b"1"),
            Node::File { name: "level.dat".to_string(), content: played_level(), mode: 0o600 },
            file("last", b"2"),
        ],
    );
    sanitize_level(&mut world).unwrap();
    let expected = sanitize_level_dat(&played_level()).unwrap().0;
    assert_eq!(
        world,
        dir(
            "w",
            vec![
                file("first", b"1"),
                Node::File { name: "level.dat".to_string(), content: expected, mode: 0o600 },
                file("last", b"2"),
            ],
        )
    );
}

#[test]
fn clean_of_a_bare_world_does_nothing() {
    let mut world = dir("w", vec![file("level.dat", b"l"), dir("region", vec![file("r", b"r")])]);
    let report = clean(&mut world);
    assert_eq!(
        report,
        CleanupReport {
            level_dat_old: false,
            session_lock: false,
            scoreboard: false,
            advancements: Ok(0),
            playerdata: Ok(0),
            stats: Ok(0),
        }
    );
    assert_eq!(
        world,
        dir("w", vec![file("level.dat", b"l"), dir("region", vec![file("r", b"r")])])
    );
}

#[test]
fn clean_goes_on_after_a_target_that_is_refused() {
    let mut world = dir(
        "w",
        vec![
            file("advancements", b"a file, not a directory"),
            dir("playerdata", vec![file("u1.dat", b""), file("u2.dat", b"")]),
            file("session.lock", b""),
            dir("stats", vec![dir("archive", vec![file("old.json", b"")]), file("s.json", b"")]),
        ],
    );
    let report = clean(&mut world);
    assert_eq!(
        report,
        CleanupReport {
            level_dat_old: false,
            session_lock: true,
            scoreboard: false,
            advancements: Err(IoError::NotADirectory),
            playerdata: Ok(2),
            stats: Ok(1),
        }
    );
    assert_eq!(
        world,
        dir(
            "w",
            vec![
                file("advancements", b"a file, not a directory"),
                dir("playerdata", vec![]),
                dir("stats", vec![dir("archive", vec![file("old.json", b"")])]),
            ],
        )
    );
}
