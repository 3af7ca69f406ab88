//! The sanitizer: what has to leave a world's metadata before the world is
//! handed out.
//!
//! Inside the root compound stands the compound "Data". Two things in it
//! tell of the one who played the world: "Player", the state of the
//! single player, which is taken out whatever it holds; and
//! "allowCommands", the byte that switches cheats on, which is set to 0.

use vstd::prelude::*;
use crate::error::FormatError;
use crate::tag::{
    distinct_names, entries_distinct, has_key, index_of, lemma_index_of_has_key, lemma_upsert,
    lemma_without_absent, lemma_without_entries, lemma_without_len, lemma_without_lookup,
    lemma_without_unique, lookup, upsert, without, Compound, Entries, Tag, TagModel,
};
use crate::wire::{encodable, entries_encodable};

verus! {

/// The name "Data".
pub open spec fn data_key() -> Seq<u8> {
    seq!['D' as u8, 'a' as u8, 't' as u8, 'a' as u8]
}

/// The name "Player".
pub open spec fn player_key() -> Seq<u8> {
    seq!['P' as u8, 'l' as u8, 'a' as u8, 'y' as u8, 'e' as u8, 'r' as u8]
}

/// The name "allowCommands".
pub open spec fn allow_commands_key() -> Seq<u8> {
    seq![
        'a' as u8,
        'l' as u8,
        'l' as u8,
        'o' as u8,
        'w' as u8,
        'C' as u8,
        'o' as u8,
        'm' as u8,
        'm' as u8,
        'a' as u8,
        'n' as u8,
        'd' as u8,
        's' as u8,
    ]
}

fn data_name() -> (k: &'static [u8])
    ensures
        k@ == data_key(),
{
    let k = "Data".as_bytes();
    proof {
        reveal_strlit("Data");
        assert(vstd::string::is_ascii("Data"));
        assert(k@ =~= data_key());
    }
    k
}

fn player_name() -> (k: &'static [u8])
    ensures
        k@ == player_key(),
{
    let k = "Player".as_bytes();
    proof {
        reveal_strlit("Player");
        assert(vstd::string::is_ascii("Player"));
        assert(k@ =~= player_key());
    }
    k
}

fn allow_commands_name() -> (k: &'static [u8])
    ensures
        k@ == allow_commands_key(),
{
    let k = "allowCommands".as_bytes();
    proof {
        reveal_strlit("allowCommands");
        assert(vstd::string::is_ascii("allowCommands"));
        assert(k@ =~= allow_commands_key());
    }
    k
}

/// What the sanitizer did.
#[derive(Clone, Copy, Debug, PartialEq, Eq, Structural)]
pub struct SanitizeReport {
    /// The state of the single player was there and was taken out.
    pub player_removed: bool,
    /// Cheats were switched on and were switched off.
    pub commands_changed: bool,
}

/// Whether `data` switches cheats on: "allowCommands" is a byte, and not 0.
pub open spec fn cheats_enabled(data: Entries) -> bool {
    lookup(data, allow_commands_key()) matches Some(TagModel::Byte(v)) && v != 0
}

/// The "Data" compound `data`, sanitized: without "Player", and with
/// "allowCommands" at 0 where it was a byte other than 0.
pub open spec fn sanitized_data(data: Entries) -> Entries {
    let stripped = without(data, player_key());
    if cheats_enabled(data) {
        upsert(stripped, allow_commands_key(), TagModel::Byte(0))
    } else {
        stripped
    }
}

/// The compound that `root` holds under "Data".
pub open spec fn data_of(root: Entries) -> Option<Entries> {
    match lookup(root, data_key()) {
        Some(TagModel::Compound(data)) => Some(data),
        _ => None,
    }
}

/// The root compound `root` with its "Data" sanitized and all else as it
/// was; `root` itself where it holds no compound "Data".
pub open spec fn sanitized(root: Entries) -> Entries {
    match data_of(root) {
        Some(data) => upsert(root, data_key(), TagModel::Compound(sanitized_data(data))),
        None => root,
    }
}

/// Sanitizes the "Data" compound `data` in place: takes out "Player", and
/// sets "allowCommands" to 0 where it is a byte other than 0. An
/// "allowCommands" that is absent, or no byte, is left as it is.
pub fn sanitize_data(data: &mut Compound) -> (report: SanitizeReport)
    ensures
        final(data)@ == sanitized_data(old(data)@),
        report.player_removed == has_key(old(data)@, player_key()),
        report.commands_changed == cheats_enabled(old(data)@),
        !has_key(final(data)@, player_key()),
        !cheats_enabled(final(data)@),
{
    proof {
        lemma_sanitized_data(data@);
        lemma_without_lookup(data@, player_key(), allow_commands_key());
    }
    let player_removed = data.remove(player_name());
    let commands_changed = match data.get_byte(allow_commands_name()) {
        Ok(v) => v != 0,
        Err(_) => false,
    };
    if commands_changed {
        data.insert(crate::tag::bytes_to_vec(allow_commands_name()), Tag::Byte(0));
    }
    SanitizeReport { player_removed, commands_changed }
}

/// Sanitizes the root compound of a world's metadata in place.
///
/// Fails with `FormatError::NoData`, and changes nothing, where `root`
/// holds no compound named "Data"; a document that fails so is not to be
/// written back.
pub fn sanitize(root: &mut Compound) -> (r: Result<SanitizeReport, FormatError>)
    ensures
        final(root)@ == sanitized(old(root)@),
        match r {
            Ok(report) => data_of(old(root)@) matches Some(data) && report.player_removed
                == has_key(data, player_key()) && report.commands_changed == cheats_enabled(data),
            Err(e) => e == FormatError::NoData && data_of(old(root)@) == None::<Entries>
                && final(root)@ == old(root)@,
        },
{
    let at = match root.position(data_name()) {
        None => {
            return Err(FormatError::NoData);
        },
        Some(at) => at,
    };
    proof {
        lemma_index_of_has_key(root@, data_key());
    }
    match &mut root.entries[at].tag {
        Tag::Compound(data) => {
            let report = sanitize_data(data);
            assert(root@ =~= sanitized(old(root)@));
            Ok(report)
        },
        _ => Err(FormatError::NoData),
    }
}

/// Sanitized data holds no "Player" and does not switch cheats on, and
/// "allowCommands" is 0 where it was a byte.
pub proof fn lemma_sanitized_data(data: Entries)
    ensures
        !has_key(sanitized_data(data), player_key()),
        !cheats_enabled(sanitized_data(data)),
        lookup(data, allow_commands_key()) matches Some(TagModel::Byte(_)) ==> lookup(
            sanitized_data(data),
            allow_commands_key(),
        ) == Some(TagModel::Byte(0)),
{
    let stripped = without(data, player_key());
    assert(player_key().len() == 6);
    assert(allow_commands_key().len() == 13);
    lemma_without_absent(data, player_key());
    lemma_without_lookup(data, player_key(), allow_commands_key());
    lemma_upsert(stripped, allow_commands_key(), TagModel::Byte(0), player_key());
}

/// Sanitizing twice is sanitizing once: sanitized data is its own
/// sanitized form, so a second pass takes nothing out and changes nothing.
pub proof fn lemma_sanitized_data_idempotent(data: Entries)
    ensures
        sanitized_data(sanitized_data(data)) == sanitized_data(data),
        !has_key(sanitized_data(data), player_key()),
        !cheats_enabled(sanitized_data(data)),
{
    lemma_sanitized_data(data);
    lemma_without_len(sanitized_data(data), player_key());
}

/// Sanitizing a root compound twice is sanitizing it once, and the second
/// pass finds no "Player" to take out and no cheats to switch off.
pub proof fn lemma_sanitize_idempotent(root: Entries)
    ensures
        sanitized(sanitized(root)) == sanitized(root),
        data_of(root) is Some ==> data_of(sanitized(root)) == Some(
            sanitized_data(data_of(root)->Some_0),
        ),
        data_of(sanitized(root)) matches Some(data) ==> !has_key(data, player_key())
            && !cheats_enabled(data),
{
    match data_of(root) {
        Some(data) => {
            let clean = TagModel::Compound(sanitized_data(data));
            lemma_sanitized_data_idempotent(data);
            lemma_upsert(root, data_key(), clean, data_key());
            lemma_index_of_has_key(root, data_key());
            lemma_index_of_has_key(sanitized(root), data_key());
            assert(upsert(sanitized(root), data_key(), clean) =~= sanitized(root));
        },
        None => {},
    }
}

/// Data that holds neither "Player" nor "allowCommands" is left as it is.
pub proof fn lemma_sanitize_untouched(data: Entries)
    requires
        !has_key(data, player_key()),
        !has_key(data, allow_commands_key()),
    ensures
        sanitized_data(data) == data,
        !cheats_enabled(data),
{
    lemma_without_len(data, player_key());
    lemma_index_of_has_key(data, allow_commands_key());
}

/// A root compound whose "Data" holds neither "Player" nor
/// "allowCommands" is left as it is.
pub proof fn lemma_sanitize_untouched_root(root: Entries)
    requires
        data_of(root) matches Some(data) && !has_key(data, player_key()) && !has_key(
            data,
            allow_commands_key(),
        ),
    ensures
        sanitized(root) == root,
{
    let data = data_of(root)->Some_0;
    lemma_sanitize_untouched(data);
    lemma_index_of_has_key(root, data_key());
    assert(sanitized(root) =~= root);
}

/// Sanitizing touches nothing but "Data": every other name of the root
/// compound keeps its tag, and the root keeps its length and its names.
pub proof fn lemma_sanitize_keeps_others(root: Entries, other: Seq<u8>)
    requires
        other != data_key(),
    ensures
        lookup(sanitized(root), other) == lookup(root, other),
        sanitized(root).len() == root.len(),
        forall|i: int| 0 <= i < root.len() ==> (#[trigger] sanitized(root)[i]).0 == root[i].0,
{
    match data_of(root) {
        Some(data) => {
            lemma_upsert(root, data_key(), TagModel::Compound(sanitized_data(data)), other);
            lemma_index_of_has_key(root, data_key());
        },
        None => {},
    }
}

/// Sanitized data that was valid is valid: the format has room for it and
/// its names are distinct.
pub proof fn lemma_sanitized_data_valid(data: Entries)
    requires
        entries_encodable(data),
        entries_distinct(data),
    ensures
        entries_encodable(sanitized_data(data)),
        entries_distinct(sanitized_data(data)),
{
    let stripped = without(data, player_key());
    lemma_without_entries(data, player_key());
    lemma_without_unique(data, player_key());
    assert forall|i: int| 0 <= i < stripped.len() implies (#[trigger] stripped[i]).0.len() <= 65535
        && encodable(stripped[i].1) && distinct_names(stripped[i].1) by {
        let j = choose|j: int| 0 <= j < data.len() && data[j] == stripped[i];
        assert(data[j].0.len() <= 65535);
    }
    if cheats_enabled(data) {
        let key = allow_commands_key();
        let up = upsert(stripped, key, TagModel::Byte(0));
        lemma_upsert(stripped, key, TagModel::Byte(0), key);
        lemma_index_of_has_key(stripped, key);
        let at = index_of(stripped, key);
        assert forall|i: int| 0 <= i < up.len() implies (#[trigger] up[i]).0.len() <= 65535
            && encodable(up[i].1) && distinct_names(up[i].1) by {
            if at >= 0 {
                if i != at {
                    assert(up[i] == stripped[i]);
                }
            } else if i < stripped.len() {
                assert(up[i] == stripped[i]);
            }
        }
    }
}

/// A sanitized root compound that was valid is valid, so that the
/// document can be written again.
pub proof fn lemma_sanitized_valid(root: Entries)
    requires
        entries_encodable(root),
        entries_distinct(root),
    ensures
        entries_encodable(sanitized(root)),
        entries_distinct(sanitized(root)),
{
    match data_of(root) {
        Some(data) => {
            let key = data_key();
            let clean = TagModel::Compound(sanitized_data(data));
            lemma_index_of_has_key(root, key);
            let at = index_of(root, key);
            assert(root[at].1 == TagModel::Compound(data));
            assert(encodable(root[at].1) && distinct_names(root[at].1));
            lemma_sanitized_data_valid(data);
            lemma_upsert(root, key, clean, key);
            let up = sanitized(root);
            assert forall|i: int| 0 <= i < up.len() implies (#[trigger] up[i]).0.len() <= 65535
                && encodable(up[i].1) && distinct_names(up[i].1) by {
                if i != at {
                    assert(up[i] == root[i]);
                }
            }
        },
        None => {},
    }
}

} // verus!
