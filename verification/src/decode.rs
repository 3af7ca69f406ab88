//! Reading an uncompressed stream into a document.

use vstd::prelude::*;
use crate::error::FormatError;
use crate::roundtrip::{lemma_parsed_document, valid_document};
use crate::tag::{Compound, Document, DocumentModel, Entries, List, Tag, TagKind, TagModel};
use crate::wire::{
    be16, be32, be64, parse_document, parse_entries, parse_items, parse_payload, to_signed,
};

verus! {

/// The values of the tags `items`, in order.
pub open spec fn models(items: Seq<Tag>) -> Seq<TagModel> {
    Seq::new(items.len(), |i: int| if 0 <= i < items.len() {
        items[i]@
    } else {
        TagModel::Byte(0)
    })
}

fn read_u16(s: &[u8], p: usize) -> (v: u16)
    requires
        p + 2 <= s.len(),
    ensures
        v == be16(s@, p as int),
{
    (s[p] as u16) * 256 + (s[p + 1] as u16)
}

fn read_u32(s: &[u8], p: usize) -> (v: u32)
    requires
        p + 4 <= s.len(),
    ensures
        v == be32(s@, p as int),
{
    (s[p] as u32) * 16777216 + (s[p + 1] as u32) * 65536 + (s[p + 2] as u32) * 256 + (s[p
        + 3] as u32)
}

fn read_u64(s: &[u8], p: usize) -> (v: u64)
    requires
        p + 8 <= s.len(),
    ensures
        v == be64(s@, p as int),
{
    (read_u32(s, p) as u64) * 4294967296 + (read_u32(s, p + 4) as u64)
}

fn signed8(u: u8) -> (v: i8)
    ensures
        v == to_signed(u as int, 256),
{
    if u < 128 {
        u as i8
    } else {
        (u as i16 - 256) as i8
    }
}

fn signed16(u: u16) -> (v: i16)
    ensures
        v == to_signed(u as int, 65536),
{
    if u < 32768 {
        u as i16
    } else {
        (u as i32 - 65536) as i16
    }
}

fn signed32(u: u32) -> (v: i32)
    ensures
        v == to_signed(u as int, 4294967296),
{
    if u < 2147483648 {
        u as i32
    } else {
        (u as i64 - 4294967296) as i32
    }
}

fn signed64(u: u64) -> (v: i64)
    ensures
        v == to_signed(u as int, 18446744073709551616),
{
    if u < 9223372036854775808 {
        u as i64
    } else {
        (u as i128 - 18446744073709551616) as i64
    }
}

fn copy_range(s: &[u8], from: usize, n: usize) -> (v: Vec<u8>)
    requires
        from + n <= s.len(),
    ensures
        v@ == s@.subrange(from as int, from + n),
{
    let mut v: Vec<u8> = Vec::new();
    let mut i: usize = 0;
    while i < n
        invariant
            i <= n,
            from + n <= s.len(),
            v@ == s@.subrange(from as int, from + i),
        decreases n - i,
    {
        v.push(s[from + i]);
        assert(s@.subrange(from as int, from + i + 1) =~= s@.subrange(from as int, from + i).push(
            s@[from + i],
        ));
        i += 1;
    }
    v
}

fn read_bytes(s: &[u8], from: usize, n: usize) -> (v: Vec<i8>)
    requires
        from + n <= s.len(),
    ensures
        v@ == Seq::new(n as nat, |i: int| to_signed(s@[from + i] as int, 256) as i8),
{
    let mut v: Vec<i8> = Vec::new();
    let mut i: usize = 0;
    while i < n
        invariant
            i <= n,
            from + n <= s.len(),
            v@ == Seq::new(i as nat, |j: int| to_signed(s@[from + j] as int, 256) as i8),
        decreases n - i,
    {
        v.push(signed8(s[from + i]));
        assert(v@ =~= Seq::new((i + 1) as nat, |j: int| to_signed(s@[from + j] as int, 256) as i8));
        i += 1;
    }
    v
}

fn read_ints(s: &[u8], from: usize, n: usize) -> (v: Vec<i32>)
    requires
        from + 4 * n <= s.len(),
    ensures
        v@ == Seq::new(n as nat, |i: int| to_signed(be32(s@, from + 4 * i), 4294967296) as i32),
{
    let mut v: Vec<i32> = Vec::new();
    let mut i: usize = 0;
    while i < n
        invariant
            i <= n,
            from + 4 * n <= s.len(),
            v@ == Seq::new(
                i as nat,
                |j: int| to_signed(be32(s@, from + 4 * j), 4294967296) as i32,
            ),
        decreases n - i,
    {
        v.push(signed32(read_u32(s, from + 4 * i)));
        assert(v@ =~= Seq::new(
            (i + 1) as nat,
            |j: int| to_signed(be32(s@, from + 4 * j), 4294967296) as i32,
        ));
        i += 1;
    }
    v
}

fn read_longs(s: &[u8], from: usize, n: usize) -> (v: Vec<i64>)
    requires
        from + 8 * n <= s.len(),
    ensures
        v@ == Seq::new(
            n as nat,
            |i: int| to_signed(be64(s@, from + 8 * i), 18446744073709551616) as i64,
        ),
{
    let mut v: Vec<i64> = Vec::new();
    let mut i: usize = 0;
    while i < n
        invariant
            i <= n,
            from + 8 * n <= s.len(),
            v@ == Seq::new(
                i as nat,
                |j: int| to_signed(be64(s@, from + 8 * j), 18446744073709551616) as i64,
            ),
        decreases n - i,
    {
        v.push(signed64(read_u64(s, from + 8 * i)));
        assert(v@ =~= Seq::new(
            (i + 1) as nat,
            |j: int| to_signed(be64(s@, from + 8 * j), 18446744073709551616) as i64,
        ));
        i += 1;
    }
    v
}

/// Whether `r` is what the grammar gives for a payload.
pub open spec fn payload_matches(r: Result<(Tag, usize), FormatError>, p: Result<
    (TagModel, int),
    FormatError,
>) -> bool {
    match r {
        Ok((t, end)) => p == Ok::<(TagModel, int), FormatError>((t@, end as int)),
        Err(e) => p == Err::<(TagModel, int), FormatError>(e),
    }
}

/// Whether `r` is what the grammar gives for the entries of a compound.
pub open spec fn entries_match(r: Result<(Compound, usize), FormatError>, p: Result<
    (Entries, int),
    FormatError,
>) -> bool {
    match r {
        Ok((c, end)) => p == Ok::<(Entries, int), FormatError>((c@, end as int)),
        Err(e) => p == Err::<(Entries, int), FormatError>(e),
    }
}

/// Reads the payload of kind `kind` that stands in `s` at `pos`, and says
/// where it ends.
pub fn decode_payload(s: &[u8], pos: usize, kind: TagKind) -> (r: Result<
    (Tag, usize),
    FormatError,
>)
    requires
        pos <= s.len(),
    ensures
        payload_matches(r, parse_payload(s@, pos as int, kind)),
        r matches Ok((_, end)) ==> pos < end <= s.len(),
    decreases s.len() - pos, 2nat,
{
    let left = s.len() - pos;
    match kind {
        TagKind::End => Err(FormatError::InvalidTagId { offset: pos, id: 0 }),
        TagKind::Byte => {
            if left < 1 {
                return Err(FormatError::Truncated { offset: pos });
            }
            Ok((Tag::Byte(signed8(s[pos])), pos + 1))
        },
        TagKind::Short => {
            if left < 2 {
                return Err(FormatError::Truncated { offset: pos });
            }
            Ok((Tag::Short(signed16(read_u16(s, pos))), pos + 2))
        },
        TagKind::Int => {
            if left < 4 {
                return Err(FormatError::Truncated { offset: pos });
            }
            Ok((Tag::Int(signed32(read_u32(s, pos))), pos + 4))
        },
        TagKind::Long => {
            if left < 8 {
                return Err(FormatError::Truncated { offset: pos });
            }
            Ok((Tag::Long(signed64(read_u64(s, pos))), pos + 8))
        },
        TagKind::Float => {
            if left < 4 {
                return Err(FormatError::Truncated { offset: pos });
            }
            Ok((Tag::Float(read_u32(s, pos)), pos + 4))
        },
        TagKind::Double => {
            if left < 8 {
                return Err(FormatError::Truncated { offset: pos });
            }
            Ok((Tag::Double(read_u64(s, pos)), pos + 8))
        },
        TagKind::ByteArray => {
            if left < 4 {
                return Err(FormatError::Truncated { offset: pos });
            }
            let count = signed32(read_u32(s, pos));
            if count < 0 {
                return Err(FormatError::NegativeLength { offset: pos });
            }
            let n = count as usize;
            if n > left - 4 {
                return Err(FormatError::Truncated { offset: pos + 4 });
            }
            Ok((Tag::ByteArray(read_bytes(s, pos + 4, n)), pos + 4 + n))
        },
        TagKind::Str => {
            if left < 2 {
                return Err(FormatError::Truncated { offset: pos });
            }
            let n = read_u16(s, pos) as usize;
            if n > left - 2 {
                return Err(FormatError::Truncated { offset: pos + 2 });
            }
            Ok((Tag::Str(copy_range(s, pos + 2, n)), pos + 2 + n))
        },
        TagKind::List => {
            if left < 5 {
                return Err(FormatError::Truncated { offset: pos });
            }
            let id = s[pos];
            let count = signed32(read_u32(s, pos + 1));
            match TagKind::from_id(id) {
                None => Err(FormatError::InvalidTagId { offset: pos, id }),
                Some(of) => {
                    if count <= 0 {
                        let list = List { kind: of, items: Vec::new() };
                        assert(list@ =~= Seq::<TagModel>::empty());
                        return Ok((Tag::List(list), pos + 5));
                    }
                    if id == 0 {
                        return Err(FormatError::InvalidTagId { offset: pos, id: 0 });
                    }
                    match decode_items(s, pos + 5, of, count) {
                        Err(e) => Err(e),
                        Ok((items, end)) => {
                            let list = List { kind: of, items };
                            assert(list@ =~= models(list.items@));
                            Ok((Tag::List(list), end))
                        },
                    }
                },
            }
        },
        TagKind::Compound => {
            match decode_entries(s, pos) {
                Err(e) => Err(e),
                Ok((c, end)) => Ok((Tag::Compound(c), end)),
            }
        },
        TagKind::IntArray => {
            if left < 4 {
                return Err(FormatError::Truncated { offset: pos });
            }
            let count = signed32(read_u32(s, pos));
            if count < 0 {
                return Err(FormatError::NegativeLength { offset: pos });
            }
            let n = count as usize;
            if n > (left - 4) / 4 {
                return Err(FormatError::Truncated { offset: pos + 4 });
            }
            Ok((Tag::IntArray(read_ints(s, pos + 4, n)), pos + 4 + 4 * n))
        },
        TagKind::LongArray => {
            if left < 4 {
                return Err(FormatError::Truncated { offset: pos });
            }
            let count = signed32(read_u32(s, pos));
            if count < 0 {
                return Err(FormatError::NegativeLength { offset: pos });
            }
            let n = count as usize;
            if n > (left - 4) / 8 {
                return Err(FormatError::Truncated { offset: pos + 4 });
            }
            Ok((Tag::LongArray(read_longs(s, pos + 4, n)), pos + 4 + 8 * n))
        },
    }
}

/// Whether `r` is what the grammar gives for the items of a list.
pub open spec fn items_match(r: Result<(Vec<Tag>, usize), FormatError>, p: Result<
    (Seq<TagModel>, int),
    FormatError,
>) -> bool {
    match r {
        Ok((v, end)) => p == Ok::<(Seq<TagModel>, int), FormatError>((models(v@), end as int)),
        Err(e) => p == Err::<(Seq<TagModel>, int), FormatError>(e),
    }
}

/// Reads the `n` payloads of kind `kind` that stand in `s` from `pos` on,
/// and says where the last one ends.
pub fn decode_items(s: &[u8], pos: usize, kind: TagKind, n: i32) -> (r: Result<
    (Vec<Tag>, usize),
    FormatError,
>)
    requires
        pos <= s.len(),
    ensures
        items_match(r, parse_items(s@, pos as int, kind, n as int, Seq::empty())),
        r matches Ok((_, end)) ==> pos <= end <= s.len(),
    decreases s.len() - pos, 3nat,
{
    let mut items: Vec<Tag> = Vec::new();
    let mut cur: usize = pos;
    let mut todo: i32 = n;
    assert(models(items@) =~= Seq::<TagModel>::empty());
    while todo > 0
        invariant
            pos <= cur <= s.len(),
            todo <= n,
            parse_items(s@, pos as int, kind, n as int, Seq::empty()) == parse_items(
                s@,
                cur as int,
                kind,
                todo as int,
                models(items@),
            ),
        decreases todo,
    {
        match decode_payload(s, cur, kind) {
            Err(e) => {
                return Err(e);
            },
            Ok((t, next)) => {
                let ghost before = models(items@);
                items.push(t);
                assert(models(items@) =~= before.push(t@));
                cur = next;
                todo = todo - 1;
            },
        }
    }
    Ok((items, cur))
}

/// Reads the named tags that stand in `s` from `pos` up to the closing
/// `End`, and says where the compound ends.
pub fn decode_entries(s: &[u8], pos: usize) -> (r: Result<(Compound, usize), FormatError>)
    requires
        pos <= s.len(),
    ensures
        entries_match(r, parse_entries(s@, pos as int, Seq::empty())),
        r matches Ok((_, end)) ==> pos < end <= s.len(),
    decreases s.len() - pos, 1nat,
{
    let mut c = Compound::new();
    let mut cur: usize = pos;
    loop
        invariant
            pos <= cur <= s.len(),
            parse_entries(s@, pos as int, Seq::empty()) == parse_entries(s@, cur as int, c@),
        decreases s.len() - cur,
    {
        if cur >= s.len() {
            return Err(FormatError::Truncated { offset: cur });
        }
        let id = s[cur];
        if id == 0 {
            return Ok((c, cur + 1));
        }
        let kind = match TagKind::from_id(id) {
            None => {
                return Err(FormatError::InvalidTagId { offset: cur, id });
            },
            Some(kind) => kind,
        };
        let left = s.len() - cur;
        if left < 3 {
            return Err(FormatError::Truncated { offset: cur + 1 });
        }
        let n = read_u16(s, cur + 1) as usize;
        if n > left - 3 {
            return Err(FormatError::Truncated { offset: cur + 3 });
        }
        let name = copy_range(s, cur + 3, n);
        match decode_payload(s, cur + 3 + n, kind) {
            Err(e) => {
                return Err(e);
            },
            Ok((t, next)) => {
                c.insert(name, t);
                cur = next;
            },
        }
    }
}

/// Reads the document that the uncompressed stream `s` holds: the id of a
/// compound, the root's name, and the root's entries. Bytes behind the
/// root compound are not looked at.
pub fn decode_document(s: &[u8]) -> (r: Result<Document, FormatError>)
    ensures
        match r {
            Ok(d) => parse_document(s@) == Ok::<DocumentModel, FormatError>(d@),
            Err(e) => parse_document(s@) == Err::<DocumentModel, FormatError>(e),
        },
        r matches Ok(d) ==> valid_document(d@),
{
    proof {
        lemma_parsed_document(s@);
    }
    if s.len() < 1 {
        return Err(FormatError::Truncated { offset: 0 });
    }
    if s[0] != 10 {
        return Err(FormatError::RootNotCompound { id: s[0] });
    }
    if s.len() < 3 {
        return Err(FormatError::Truncated { offset: 1 });
    }
    let n = read_u16(s, 1) as usize;
    if n > s.len() - 3 {
        return Err(FormatError::Truncated { offset: 3 });
    }
    let name = copy_range(s, 3, n);
    match decode_entries(s, 3 + n) {
        Err(e) => Err(e),
        Ok((root, _)) => Ok(Document { name, root }),
    }
}

} // verus!
