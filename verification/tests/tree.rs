use world_release::tree::{
    clone_directory_recursively, empty, empty_directory, remove_if_present, CloneError, IoError,
    Node,
};

fn dir(name: &str, children: Vec<Node>) -> Node {
    Node::Directory { name: name.to_string(), children }
}

fn file(name: &str, content: &[u8]) -> Node {
    Node::File { name: name.to_string(), content: content.to_vec(), mode: 0o644 }
}

fn link(name: &str) -> Node {
    Node::Opaque { name: name.to_string() }
}

fn path(names: &[&str]) -> Vec<String> {
    names.iter().map(|n| n.to_string()).collect()
}

#[test]
fn clone_copies_files_and_directories_at_every_depth() {
    let source = dir(
        "MyWorld",
        vec![
            file("level.dat", &[1, 2, 3]),
            dir(
                "region",
                vec![
                    file("r.0.0.mca", &[9; 100]),
                    dir("deep", vec![dir("deeper", vec![file("leaf", b"leaf")])]),
                    dir("hollow", vec![]),
                ],
            ),
            Node::File { name: "run.sh".to_string(), content: b"#!/bin/sh".to_vec(), mode: 0o755 },
        ],
    );
    let copy = clone_directory_recursively(&source, "MyWorld_RELEASE".to_string()).unwrap();
    assert_eq!(
        copy,
        dir(
            "MyWorld_RELEASE",
            vec![
                file("level.dat", &[1, 2, 3]),
                dir(
                    "region",
                    vec![
                        file("r.0.0.mca", &[9; 100]),
                        dir("deep", vec![dir("deeper", vec![file("leaf", b"leaf")])]),
                        dir("hollow", vec![]),
                    ],
                ),
                Node::File {
                    name: "run.sh".to_string(),
                    content: b"#!/bin/sh".to_vec(),
                    mode: 0o755
                },
            ],
        )
    );
}

#[test]
fn clone_passes_over_what_is_no_file_and_no_directory() {
    let source = dir(
        "w",
        vec![
            link("shortcut"),
            file("a", b"a"),
            dir("d", vec![link("inner"), file("b", b"b"), link("last")]),
            link("socket"),
        ],
    );
    let copy = clone_directory_recursively(&source, "w_RELEASE".to_string()).unwrap();
    assert_eq!(
        copy,
        dir("w_RELEASE", vec![file("a", b"a"), dir("d", vec![file("b", b"b")])])
    );
}

#[test]
fn clone_leaves_the_source_as_it_was() {
    let source = dir("w", vec![link("l"), file("a", b"a")]);
    clone_directory_recursively(&source, "out".to_string()).unwrap();
    assert_eq!(source, dir("w", vec![link("l"), file("a", b"a")]));
}

#[test]
fn clone_refuses_what_is_no_directory() {
    assert_eq!(
        clone_directory_recursively(&file("level.dat", b""), "out".to_string()),
        Err(CloneError::NotADirectory)
    );
    assert_eq!(
        clone_directory_recursively(&link("w"), "out".to_string()),
        Err(CloneError::NotADirectory)
    );
}

#[test]
fn clone_of_an_empty_directory_is_empty() {
    assert_eq!(
        clone_directory_recursively(&dir("w", vec![]), "out".to_string()),
        Ok(dir("out", vec![]))
    );
}

#[test]
fn empty_directory_removes_the_direct_files_only() {
    let mut stats = dir(
        "stats",
        vec![
            file("a.json", b"1"),
            dir("old", vec![file("kept.json", b"k")]),
            file("b.json", b"2"),
            file("c.json", b"3"),
        ],
    );
    assert_eq!(empty_directory(&mut stats), Ok(3));
    assert_eq!(stats, dir("stats", vec![dir("old", vec![file("kept.json", b"k")])]));
}

#[test]
fn empty_directory_keeps_what_is_no_regular_file() {
    let mut d = dir("d", vec![link("l"), file("f", b""), dir("sub", vec![]), file("g", b"")]);
    assert_eq!(empty_directory(&mut d), Ok(2));
    assert_eq!(d, dir("d", vec![link("l"), dir("sub", vec![])]));
    assert_eq!(empty_directory(&mut d), Ok(0));
    assert_eq!(d, dir("d", vec![link("l"), dir("sub", vec![])]));
}

#[test]
fn empty_directory_refuses_what_is_no_directory() {
    let mut f = file("stats", b"x");
    assert_eq!(empty_directory(&mut f), Err(IoError::NotADirectory));
    assert_eq!(f, file("stats", b"x"));
    let mut l = link("stats");
    assert_eq!(empty_directory(&mut l), Err(IoError::NotADirectory));
}

#[test]
fn empty_of_a_missing_directory_removes_nothing() {
    let mut world = dir("w", vec![file("level.dat", b"")]);
    assert_eq!(empty(&mut world, "stats"), Ok(0));
    assert_eq!(world, dir("w", vec![file("level.dat", b"")]));
}

#[test]
fn empty_by_name_counts_what_it_removed() {
    let mut world = dir(
        "w",
        vec![
            dir("playerdata", vec![file("u1.dat", b"1"), file("u2.dat", b"2")]),
            dir("stats", vec![file("s.json", b"s")]),
        ],
    );
    assert_eq!(empty(&mut world, "playerdata"), Ok(2));
    assert_eq!(
        world,
        dir("w", vec![dir("playerdata", vec![]), dir("stats", vec![file("s.json", b"s")])])
    );
}

#[test]
fn empty_by_name_refuses_a_file_of_that_name() {
    let mut world = dir("w", vec![file("stats", b"x"), dir("playerdata", vec![file("u", b"")])]);
    assert_eq!(empty(&mut world, "stats"), Err(IoError::NotADirectory));
    assert_eq!(
        world,
        dir("w", vec![file("stats", b"x"), dir("playerdata", vec![file("u", b"")])])
    );
}

#[test]
fn remove_if_present_removes_a_file() {
    let mut world = dir("w", vec![file("level.dat", b"l"), file("session.lock", b"")]);
    assert!(remove_if_present(&mut world, &path(&["session.lock"])));
    assert_eq!(world, dir("w", vec![file("level.dat", b"l")]));
    assert!(!remove_if_present(&mut world, &path(&["session.lock"])));
    assert_eq!(world, dir("w", vec![file("level.dat", b"l")]));
}

#[test]
fn remove_if_present_follows_the_path() {
    let mut world = dir(
        "w",
        vec![
            file("scoreboard.dat", b"top"),
            dir("data", vec![file("raids.dat", b"r"), file("scoreboard.dat", b"s")]),
        ],
    );
    assert!(remove_if_present(&mut world, &path(&["data", "scoreboard.dat"])));
    assert_eq!(
        world,
        dir(
            "w",
            vec![file("scoreboard.dat", b"top"), dir("data", vec![file("raids.dat", b"r")])]
        )
    );
}

#[test]
fn remove_if_present_leaves_what_is_no_regular_file() {
    let mut world = dir("w", vec![dir("session.lock", vec![file("x", b"")]), link("level.dat_old")]);
    assert!(!remove_if_present(&mut world, &path(&["session.lock"])));
    assert!(!remove_if_present(&mut world, &path(&["level.dat_old"])));
    assert!(!remove_if_present(&mut world, &path(&["level.dat_old", "x"])));
    assert!(!remove_if_present(&mut world, &path(&["missing", "x"])));
    assert!(!remove_if_present(&mut world, &path(&[])));
    assert_eq!(
        world,
        dir("w", vec![dir("session.lock", vec![file("x", b"")]), link("level.dat_old")])
    );
}

#[test]
fn remove_if_present_finds_nothing_below_a_file() {
    let mut world = file("w", b"");
    assert!(!remove_if_present(&mut world, &path(&["w"])));
    let mut world = dir("w", vec![file("data", b"")]);
    assert!(!remove_if_present(&mut world, &path(&["data", "scoreboard.dat"])));
    assert_eq!(world, dir("w", vec![file("data", b"")]));
}
