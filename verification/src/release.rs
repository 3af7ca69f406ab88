//! The steps of a release, on a world tree that was cloned from a world:
//! is it a world at all, the rewriting of its `level.dat`, and the cleaning
//! of what belongs to one player or to one session.
//!
//! The steps are run one after the other by the program around this
//! library, which writes the tree to disk in between as it sees fit. A step
//! that fails leaves the tree as it found it.

use vstd::prelude::*;
use crate::codec::{
    decode, decoded, encode, encoded, inflated, lemma_codec_roundtrip, lemma_decoded_valid,
};
use crate::error::{CodecError, FormatError};
use crate::roundtrip::lemma_parsed_document;
use crate::sanitize::{
    cheats_enabled, data_of, lemma_sanitize_idempotent, lemma_sanitized_valid, player_key,
    sanitize, sanitized, SanitizeReport,
};
use crate::tag::{has_key, DocumentModel};
use crate::tree::{
    child_index, cloned, empty, empty_outcome, emptied_at, file_at, find_child, holds_no_file,
    lemma_child_from, lemma_clone_top, lemma_emptied_at, lemma_emptied_at_keeps_empty,
    lemma_emptied_at_other, lemma_emptied_at_top, lemma_without_file, lemma_without_file_other,
    lemma_without_file_top, node_models, remove_if_present, top_child, well_formed,
    without_file, IoError, Node, NodeModel,
};

verus! {

/// The path of the world's metadata, directly inside the world.
pub open spec fn level_path() -> Seq<Seq<char>> {
    seq!["level.dat"@]
}

/// Whether `world` is a world: a directory with a regular file
/// `level.dat` directly inside it.
pub open spec fn is_world(world: NodeModel) -> bool {
    file_at(world, level_path(), 0)
}

/// Why a tree is no world.
#[derive(Clone, Copy, Debug, PartialEq, Eq, Structural)]
pub enum ValidationError {
    /// No regular file `level.dat` stands directly inside.
    MissingLevelDat,
}

fn find_level(world: &Node) -> (at: Option<usize>)
    ensures
        at is Some <==> is_world(world@),
        at matches Some(i) ==> world@ is Directory && i == child_index(
            world@->Directory_children,
            "level.dat"@,
        ) && i < world@->Directory_children.len() && world@->Directory_children[i as int] is File,
{
    match world {
        Node::Directory { name, children } => {
            let wanted = "level.dat".to_owned();
            proof {
                lemma_child_from(node_models(children@), "level.dat"@, 0);
            }
            match find_child(children, &wanted) {
                None => None,
                Some(i) => {
                    assert(node_models(children@)[i as int] == children@[i as int]@);
                    match &children[i] {
                        Node::File { .. } => Some(i),
                        _ => None,
                    }
                },
            }
        },
        _ => None,
    }
}

/// Says whether `world` is a world that a release can be made of.
pub fn validate(world: &Node) -> (r: Result<(), ValidationError>)
    ensures
        r is Ok <==> is_world(world@),
        r matches Err(e) ==> e == ValidationError::MissingLevelDat,
{
    match find_level(world) {
        Some(_) => Ok(()),
        None => Err(ValidationError::MissingLevelDat),
    }
}

/// What the bytes `bytes` of a `level.dat` are rewritten as, and what the
/// sanitizer did on the way: the bytes are decoded, the document is
/// sanitized, and the sanitized document is encoded.
pub open spec fn rewritten(bytes: Seq<u8>) -> Result<(Seq<u8>, SanitizeReport), CodecError> {
    match decoded(bytes) {
        Err(e) => Err(e),
        Ok(d) => match data_of(d.root) {
            None => Err(CodecError::Format(FormatError::NoData)),
            Some(data) => match encoded(DocumentModel { name: d.name, root: sanitized(d.root) }) {
                Err(e) => Err(e),
                Ok(packed) => Ok(
                    (
                        packed,
                        SanitizeReport {
                            player_removed: has_key(data, player_key()),
                            commands_changed: cheats_enabled(data),
                        },
                    ),
                ),
            },
        },
    }
}

/// Rewrites the bytes of a `level.dat`: decodes them, sanitizes the
/// document, and encodes it again.
///
/// Bytes that do not decode, and a document without a compound "Data",
/// give the error and no bytes: nothing is to be written back then.
pub fn sanitize_level_dat(bytes: &[u8]) -> (r: Result<(Vec<u8>, SanitizeReport), CodecError>)
    ensures
        match r {
            Ok((packed, report)) => rewritten(bytes@) == Ok::<
                (Seq<u8>, SanitizeReport),
                CodecError,
            >((packed@, report)),
            Err(e) => rewritten(bytes@) == Err::<(Seq<u8>, SanitizeReport), CodecError>(e),
        },
{
    let mut document = match decode(bytes) {
        Err(e) => {
            return Err(e);
        },
        Ok(document) => document,
    };
    let report = match sanitize(&mut document.root) {
        Err(e) => {
            return Err(CodecError::Format(e));
        },
        Ok(report) => report,
    };
    match encode(&document) {
        Err(e) => Err(e),
        Ok(packed) => Ok((packed, report)),
    }
}

/// A `level.dat` that was rewritten decodes to the document that was
/// decoded, sanitized: its "Data" holds no "Player" and does not switch
/// cheats on. And where a `level.dat` decodes and holds "Data", the
/// rewriting fails only where the compressor does.
pub proof fn lemma_rewritten(bytes: Seq<u8>)
    ensures
        match (rewritten(bytes), decoded(bytes)) {
            (Ok((packed, report)), Ok(d)) => {
                &&& decoded(packed) == Ok::<DocumentModel, CodecError>(
                    DocumentModel { name: d.name, root: sanitized(d.root) },
                )
                &&& data_of(sanitized(d.root)) is Some
                &&& !has_key(data_of(sanitized(d.root))->Some_0, player_key())
                &&& !cheats_enabled(data_of(sanitized(d.root))->Some_0)
            },
            (Ok(_), Err(_)) => false,
            (Err(_), _) => true,
        },
        decoded(bytes) matches Ok(d) ==> data_of(d.root) is Some ==> rewritten(bytes) is Ok
            || rewritten(bytes) == Err::<(Seq<u8>, SanitizeReport), CodecError>(CodecError::Io),
{
    lemma_decoded_valid(bytes);
    match decoded(bytes) {
        Ok(d) => {
            lemma_parsed_document(inflated(bytes)->Some_0);
            lemma_sanitized_valid(d.root);
            lemma_sanitize_idempotent(d.root);
            lemma_codec_roundtrip(DocumentModel { name: d.name, root: sanitized(d.root) });
        },
        Err(_) => {},
    }
}

/// Why the `level.dat` of a world was not rewritten.
#[derive(Clone, Copy, Debug, PartialEq, Eq, Structural)]
pub enum LevelError {
    /// The tree is no world: it holds no regular file `level.dat`.
    Missing,
    /// The file does not decode, or holds no compound "Data".
    Codec(CodecError),
}

/// The bytes of the `level.dat` of `world`.
pub open spec fn level_bytes(world: NodeModel) -> Option<Seq<u8>> {
    if is_world(world) {
        let children = world->Directory_children;
        Some(children[child_index(children, "level.dat"@)]->File_content)
    } else {
        None
    }
}

/// The world `world` with `bytes` as the bytes of its `level.dat`, and all
/// else as it was.
pub open spec fn with_level_bytes(world: NodeModel, bytes: Seq<u8>) -> NodeModel {
    if is_world(world) {
        let children = world->Directory_children;
        let at = child_index(children, "level.dat"@);
        NodeModel::Directory {
            name: world->Directory_name,
            children: children.update(
                at,
                NodeModel::File {
                    name: children[at]->File_name,
                    content: bytes,
                    mode: children[at]->File_mode,
                },
            ),
        }
    } else {
        world
    }
}

/// Rewrites the `level.dat` of `world` in place: the file keeps its name
/// and its permission bits and gets the sanitized document as its bytes.
///
/// Where the file is missing, does not decode, or holds no compound
/// "Data", the tree is left as it was: the file is then still what the
/// clone made it.
pub fn sanitize_level(world: &mut Node) -> (r: Result<SanitizeReport, LevelError>)
    ensures
        match r {
            Ok(report) => level_bytes(old(world)@) matches Some(bytes) && rewritten(bytes) matches Ok(
                (packed, done),
            ) && done == report && final(world)@ == with_level_bytes(old(world)@, packed),
            Err(LevelError::Missing) => !is_world(old(world)@) && final(world)@ == old(world)@,
            Err(LevelError::Codec(e)) => level_bytes(old(world)@) matches Some(bytes) && rewritten(
                bytes,
            ) == Err::<(Seq<u8>, SanitizeReport), CodecError>(e) && final(world)@ == old(world)@,
        },
{
    let at = match find_level(world) {
        None => {
            return Err(LevelError::Missing);
        },
        Some(at) => at,
    };
    match world {
        Node::Directory { name, children } => {
            let ghost before = node_models(children@);
            assert(before[at as int] == children@[at as int]@);
            match &mut children[at] {
                Node::File { name: file, content, mode } => {
                    let ghost was = content@;
                    assert(level_bytes(old(world)@) == Some(was));
                    match sanitize_level_dat(content.as_slice()) {
                        Err(e) => {
                            assert(node_models(children@) =~= before);
                            Err(LevelError::Codec(e))
                        },
                        Ok((packed, report)) => {
                            *content = packed;
                            assert(node_models(children@) =~= before.update(
                                at as int,
                                children@[at as int]@,
                            ));
                            assert(world@ == with_level_bytes(old(world)@, packed@));
                            Ok(report)
                        },
                    }
                },
                _ => Err(LevelError::Missing),
            }
        },
        _ => Err(LevelError::Missing),
    }
}

/// What the cleaning of a world did, target by target.
#[derive(Debug, PartialEq, Eq)]
pub struct CleanupReport {
    /// `level.dat_old` was there and was removed.
    pub level_dat_old: bool,
    /// `session.lock` was there and was removed.
    pub session_lock: bool,
    /// `data/scoreboard.dat` was there and was removed.
    pub scoreboard: bool,
    /// The number of files removed from `advancements`, or why none was.
    pub advancements: Result<usize, IoError>,
    /// The number of files removed from `playerdata`, or why none was.
    pub playerdata: Result<usize, IoError>,
    /// The number of files removed from `stats`, or why none was.
    pub stats: Result<usize, IoError>,
}

/// The path of the backup of the metadata.
pub open spec fn level_old_path() -> Seq<Seq<char>> {
    seq!["level.dat_old"@]
}

/// The path of the lock marker.
pub open spec fn lock_path() -> Seq<Seq<char>> {
    seq!["session.lock"@]
}

/// The path of the scoreboard state.
pub open spec fn scoreboard_path() -> Seq<Seq<char>> {
    seq!["data"@, "scoreboard.dat"@]
}

/// The world `world` without the three files that do not ship.
pub open spec fn without_session_files(world: NodeModel) -> NodeModel {
    without_file(
        without_file(without_file(world, level_old_path(), 0), lock_path(), 0),
        scoreboard_path(),
        0,
    )
}

/// The world `world`, cleaned: without `level.dat_old`, `session.lock` and
/// `data/scoreboard.dat`, and with `advancements`, `playerdata` and `stats`
/// emptied.
pub open spec fn cleaned(world: NodeModel) -> NodeModel {
    emptied_at(
        emptied_at(emptied_at(without_session_files(world), "advancements"@), "playerdata"@),
        "stats"@,
    )
}

/// Whether `r` is the outcome `o` of emptying a directory.
pub open spec fn outcome_is(r: Result<usize, IoError>, o: Result<int, IoError>) -> bool {
    match r {
        Ok(count) => o == Ok::<int, IoError>(count as int),
        Err(e) => o == Err::<int, IoError>(e),
    }
}

/// Cleans the world `world` in place: removes `level.dat_old`,
/// `session.lock` and `data/scoreboard.dat` where they are regular files,
/// and empties `advancements`, `playerdata` and `stats` of their regular
/// files.
///
/// Each of the six is tried whatever became of the others: a target that
/// is refused is reported in its place and keeps none of the others from
/// being cleaned.
pub fn clean(world: &mut Node) -> (report: CleanupReport)
    ensures
        final(world)@ == cleaned(old(world)@),
        report.level_dat_old == file_at(old(world)@, level_old_path(), 0),
        report.session_lock == file_at(
            without_file(old(world)@, level_old_path(), 0),
            lock_path(),
            0,
        ),
        report.scoreboard == file_at(
            without_file(without_file(old(world)@, level_old_path(), 0), lock_path(), 0),
            scoreboard_path(),
            0,
        ),
        outcome_is(
            report.advancements,
            empty_outcome(without_session_files(old(world)@), "advancements"@),
        ),
        outcome_is(
            report.playerdata,
            empty_outcome(
                emptied_at(without_session_files(old(world)@), "advancements"@),
                "playerdata"@,
            ),
        ),
        outcome_is(
            report.stats,
            empty_outcome(
                emptied_at(
                    emptied_at(without_session_files(old(world)@), "advancements"@),
                    "playerdata"@,
                ),
                "stats"@,
            ),
        ),
{
    let mut level_old: Vec<String> = Vec::new();
    level_old.push("level.dat_old".to_owned());
    assert(crate::tree::path_names(level_old@) =~= level_old_path());
    let mut lock: Vec<String> = Vec::new();
    lock.push("session.lock".to_owned());
    assert(crate::tree::path_names(lock@) =~= lock_path());
    let mut scoreboard: Vec<String> = Vec::new();
    scoreboard.push("data".to_owned());
    scoreboard.push("scoreboard.dat".to_owned());
    assert(crate::tree::path_names(scoreboard@) =~= scoreboard_path());
    let level_dat_old = remove_if_present(world, &level_old);
    let session_lock = remove_if_present(world, &lock);
    let scoreboard = remove_if_present(world, &scoreboard);
    let advancements = empty(world, "advancements");
    let playerdata = empty(world, "playerdata");
    let stats = empty(world, "stats");
    CleanupReport { level_dat_old, session_lock, scoreboard, advancements, playerdata, stats }
}

/// A world that was cleaned holds none of the three files that do not
/// ship, and no regular file directly inside `advancements`, `playerdata`
/// and `stats`; and it is well formed, as the world was.
pub proof fn lemma_cleaned(world: NodeModel)
    requires
        well_formed(world),
    ensures
        well_formed(cleaned(world)),
        !file_at(cleaned(world), level_old_path(), 0),
        !file_at(cleaned(world), lock_path(), 0),
        !file_at(cleaned(world), scoreboard_path(), 0),
        holds_no_file(cleaned(world), "advancements"@),
        holds_no_file(cleaned(world), "playerdata"@),
        holds_no_file(cleaned(world), "stats"@),
{
    let w1 = without_file(world, level_old_path(), 0);
    lemma_without_file(world, level_old_path(), 0);
    let w2 = without_file(w1, lock_path(), 0);
    lemma_without_file(w1, lock_path(), 0);
    lemma_without_file_other(w1, lock_path(), 0, level_old_path(), 0);
    let w3 = without_file(w2, scoreboard_path(), 0);
    lemma_without_file(w2, scoreboard_path(), 0);
    lemma_without_file_other(w2, scoreboard_path(), 0, level_old_path(), 0);
    lemma_without_file_other(w2, scoreboard_path(), 0, lock_path(), 0);
    assert(w3 == without_session_files(world));
    let w4 = emptied_at(w3, "advancements"@);
    lemma_emptied_at(w3, "advancements"@);
    lemma_emptied_at_other(w3, "advancements"@, level_old_path());
    lemma_emptied_at_other(w3, "advancements"@, lock_path());
    lemma_emptied_at_other(w3, "advancements"@, scoreboard_path());
    let w5 = emptied_at(w4, "playerdata"@);
    lemma_emptied_at(w4, "playerdata"@);
    lemma_emptied_at_keeps_empty(w4, "playerdata"@, "advancements"@);
    lemma_emptied_at_other(w4, "playerdata"@, level_old_path());
    lemma_emptied_at_other(w4, "playerdata"@, lock_path());
    lemma_emptied_at_other(w4, "playerdata"@, scoreboard_path());
    lemma_emptied_at(w5, "stats"@);
    lemma_emptied_at_keeps_empty(w5, "stats"@, "advancements"@);
    lemma_emptied_at_keeps_empty(w5, "stats"@, "playerdata"@);
    lemma_emptied_at_other(w5, "stats"@, level_old_path());
    lemma_emptied_at_other(w5, "stats"@, lock_path());
    lemma_emptied_at_other(w5, "stats"@, scoreboard_path());
}

/// A tree is a world exactly where the entry `level.dat` directly inside
/// it is a regular file, whose bytes are then the world's metadata.
pub proof fn lemma_is_world(world: NodeModel)
    ensures
        is_world(world) <==> (top_child(world, "level.dat"@) matches Some(c) && c is File),
        is_world(world) ==> level_bytes(world) == Some(
            top_child(world, "level.dat"@)->Some_0->File_content,
        ),
{
}

/// A world with other bytes as its `level.dat` is a world with those
/// bytes, and well formed where it was.
pub proof fn lemma_with_level_bytes(world: NodeModel, bytes: Seq<u8>)
    requires
        is_world(world),
    ensures
        is_world(with_level_bytes(world, bytes)),
        level_bytes(with_level_bytes(world, bytes)) == Some(bytes),
        well_formed(world) ==> well_formed(with_level_bytes(world, bytes)),
{
    let children = world->Directory_children;
    let at = child_index(children, "level.dat"@);
    let next = with_level_bytes(world, bytes)->Directory_children;
    lemma_child_from(children, "level.dat"@, 0);
    assert forall|a: int| 0 <= a < next.len() implies crate::tree::name_of(#[trigger] next[a])
        == crate::tree::name_of(children[a]) by {
        if a != at {
            assert(next[a] == children[a]);
        }
    }
    crate::tree::lemma_child_same_names(next, children, "level.dat"@, 0);
    if well_formed(world) {
        assert forall|a: int| 0 <= a < next.len() implies well_formed(#[trigger] next[a]) by {
            if a != at {
                assert(next[a] == children[a]);
            }
        }
        assert forall|a: int, b: int| 0 <= a < b < next.len() implies crate::tree::name_of(
            #[trigger] next[a],
        ) != crate::tree::name_of(#[trigger] next[b]) by {
            assert(crate::tree::name_of(next[a]) == crate::tree::name_of(children[a]));
            assert(crate::tree::name_of(next[b]) == crate::tree::name_of(children[b]));
        }
    }
}

/// The release of the world `source` under the name `destination`, with
/// `packed` as the bytes of its rewritten `level.dat`: the clone, with
/// those bytes, cleaned.
pub open spec fn released(source: NodeModel, destination: Seq<char>, packed: Seq<u8>) -> NodeModel {
    cleaned(with_level_bytes(cloned(source, destination), packed))
}

/// The steps of a release fit together. The clone of a world is a world
/// with the same `level.dat`; and the release that comes of it holds the
/// rewritten `level.dat`, none of the three files that do not ship, and no
/// regular file directly inside `advancements`, `playerdata` and `stats`.
pub proof fn lemma_release(source: NodeModel, destination: Seq<char>, packed: Seq<u8>)
    requires
        well_formed(source),
        is_world(source),
    ensures
        is_world(cloned(source, destination)),
        level_bytes(cloned(source, destination)) == level_bytes(source),
        well_formed(released(source, destination, packed)),
        level_bytes(released(source, destination, packed)) == Some(packed),
        !file_at(released(source, destination, packed), level_old_path(), 0),
        !file_at(released(source, destination, packed), lock_path(), 0),
        !file_at(released(source, destination, packed), scoreboard_path(), 0),
        holds_no_file(released(source, destination, packed), "advancements"@),
        holds_no_file(released(source, destination, packed), "playerdata"@),
        holds_no_file(released(source, destination, packed), "stats"@),
{
    let level = "level.dat"@;
    reveal_strlit("level.dat");
    reveal_strlit("level.dat_old");
    reveal_strlit("session.lock");
    reveal_strlit("data");
    reveal_strlit("advancements");
    reveal_strlit("playerdata");
    reveal_strlit("stats");
    assert(level.len() == 9);
    assert(level_old_path()[0].len() == 13);
    assert(lock_path()[0].len() == 12);
    assert(scoreboard_path()[0].len() == 4);
    let copy = cloned(source, destination);
    lemma_is_world(source);
    lemma_clone_top(source, destination, level);
    lemma_is_world(copy);
    let fresh = with_level_bytes(copy, packed);
    lemma_with_level_bytes(copy, packed);
    lemma_is_world(fresh);
    let w1 = without_file(fresh, level_old_path(), 0);
    lemma_without_file(fresh, level_old_path(), 0);
    lemma_without_file_top(fresh, level_old_path(), level);
    let w2 = without_file(w1, lock_path(), 0);
    lemma_without_file(w1, lock_path(), 0);
    lemma_without_file_top(w1, lock_path(), level);
    let w3 = without_file(w2, scoreboard_path(), 0);
    lemma_without_file(w2, scoreboard_path(), 0);
    lemma_without_file_top(w2, scoreboard_path(), level);
    let w4 = emptied_at(w3, "advancements"@);
    lemma_emptied_at(w3, "advancements"@);
    lemma_emptied_at_top(w3, "advancements"@, level);
    let w5 = emptied_at(w4, "playerdata"@);
    lemma_emptied_at(w4, "playerdata"@);
    lemma_emptied_at_top(w4, "playerdata"@, level);
    let w6 = emptied_at(w5, "stats"@);
    lemma_emptied_at_top(w5, "stats"@, level);
    assert(w6 == released(source, destination, packed));
    lemma_is_world(w6);
    lemma_cleaned(fresh);
}

} // verus!
