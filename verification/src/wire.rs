//! The uncompressed stream of a tag document, as mathematics: what a
//! sequence of bytes means as a document, and which bytes a document is
//! written as.
//!
//! A stream is a one-byte kind id, a name, and a payload. Numbers are
//! big-endian and of fixed width. A name or a text is a 16-bit length and
//! that many bytes; an array is a signed 32-bit length and that many items; a
//! list is the id of its items' kind, a signed 32-bit count and that many
//! payloads; a compound is a run of named tags closed by the id of `End`.

use vstd::prelude::*;
use crate::error::FormatError;
use crate::tag::{
    kind_id, kind_of, kind_of_id, upsert, DocumentModel, Entries, TagKind, TagModel,
};

verus! {

/// The unsigned 16-bit number that stands at `p`.
pub open spec fn be16(s: Seq<u8>, p: int) -> int {
    s[p] as int * 256 + s[p + 1] as int
}

/// The unsigned 32-bit number that stands at `p`.
pub open spec fn be32(s: Seq<u8>, p: int) -> int {
    s[p] as int * 16777216 + s[p + 1] as int * 65536 + s[p + 2] as int * 256 + s[p + 3] as int
}

/// The unsigned 64-bit number that stands at `p`.
pub open spec fn be64(s: Seq<u8>, p: int) -> int {
    be32(s, p) * 4294967296 + be32(s, p + 4)
}

/// The two's-complement reading of `u`, a number below `m`.
pub open spec fn to_signed(u: int, m: int) -> int {
    if 2 * u < m {
        u
    } else {
        u - m
    }
}

/// The number below `m` whose two's-complement reading is `v`.
pub open spec fn to_unsigned(v: int, m: int) -> int {
    if v >= 0 {
        v
    } else {
        v + m
    }
}

/// The two bytes of `v`, a number below 65536.
pub open spec fn put16(v: int) -> Seq<u8> {
    seq![(v / 256) as u8, (v % 256) as u8]
}

/// The four bytes of `v`, a number below 4294967296.
pub open spec fn put32(v: int) -> Seq<u8> {
    seq![
        (v / 16777216) as u8,
        ((v / 65536) % 256) as u8,
        ((v / 256) % 256) as u8,
        (v % 256) as u8,
    ]
}

/// The eight bytes of `v`, a number below 18446744073709551616.
pub open spec fn put64(v: int) -> Seq<u8> {
    put32(v / 4294967296) + put32(v % 4294967296)
}

/// What reading a payload gives: the value and the position behind it, or
/// the reason why there is none.
pub type Parsed<T> = Result<(T, int), FormatError>;

/// The payload of kind `kind` that stands in `s` at `pos`.
pub open spec fn parse_payload(s: Seq<u8>, pos: int, kind: TagKind) -> Parsed<TagModel>
    decreases s.len() - pos, 2nat, 0nat,
{
    match kind {
        TagKind::End => Err(FormatError::InvalidTagId { offset: pos as usize, id: 0 }),
        TagKind::Byte => if pos + 1 > s.len() {
            Err(FormatError::Truncated { offset: pos as usize })
        } else {
            Ok((TagModel::Byte(to_signed(s[pos] as int, 256) as i8), pos + 1))
        },
        TagKind::Short => if pos + 2 > s.len() {
            Err(FormatError::Truncated { offset: pos as usize })
        } else {
            Ok((TagModel::Short(to_signed(be16(s, pos), 65536) as i16), pos + 2))
        },
        TagKind::Int => if pos + 4 > s.len() {
            Err(FormatError::Truncated { offset: pos as usize })
        } else {
            Ok((TagModel::Int(to_signed(be32(s, pos), 4294967296) as i32), pos + 4))
        },
        TagKind::Long => if pos + 8 > s.len() {
            Err(FormatError::Truncated { offset: pos as usize })
        } else {
            Ok(
                (
                    TagModel::Long(to_signed(be64(s, pos), 18446744073709551616) as i64),
                    pos + 8,
                ),
            )
        },
        TagKind::Float => if pos + 4 > s.len() {
            Err(FormatError::Truncated { offset: pos as usize })
        } else {
            Ok((TagModel::Float(be32(s, pos) as u32), pos + 4))
        },
        TagKind::Double => if pos + 8 > s.len() {
            Err(FormatError::Truncated { offset: pos as usize })
        } else {
            Ok((TagModel::Double(be64(s, pos) as u64), pos + 8))
        },
        TagKind::ByteArray => if pos + 4 > s.len() {
            Err(FormatError::Truncated { offset: pos as usize })
        } else {
            let n = to_signed(be32(s, pos), 4294967296);
            if n < 0 {
                Err(FormatError::NegativeLength { offset: pos as usize })
            } else if pos + 4 + n > s.len() {
                Err(FormatError::Truncated { offset: (pos + 4) as usize })
            } else {
                Ok(
                    (
                        TagModel::ByteArray(
                            Seq::new(n as nat, |i: int| to_signed(s[pos + 4 + i] as int, 256) as i8),
                        ),
                        pos + 4 + n,
                    ),
                )
            }
        },
        TagKind::Str => if pos + 2 > s.len() {
            Err(FormatError::Truncated { offset: pos as usize })
        } else {
            let n = be16(s, pos);
            if pos + 2 + n > s.len() {
                Err(FormatError::Truncated { offset: (pos + 2) as usize })
            } else {
                Ok((TagModel::Str(s.subrange(pos + 2, pos + 2 + n)), pos + 2 + n))
            }
        },
        TagKind::List => if pos + 5 > s.len() {
            Err(FormatError::Truncated { offset: pos as usize })
        } else {
            let n = to_signed(be32(s, pos + 1), 4294967296);
            match kind_of_id(s[pos]) {
                None => Err(FormatError::InvalidTagId { offset: pos as usize, id: s[pos] }),
                Some(of) => if n <= 0 {
                    Ok((TagModel::List(of, Seq::empty()), pos + 5))
                } else if of == TagKind::End {
                    Err(FormatError::InvalidTagId { offset: pos as usize, id: 0 })
                } else {
                    match parse_items(s, pos + 5, of, n, Seq::empty()) {
                        Err(e) => Err(e),
                        Ok((items, end)) => Ok((TagModel::List(of, items), end)),
                    }
                },
            }
        },
        TagKind::Compound => match parse_entries(s, pos, Seq::empty()) {
            Err(e) => Err(e),
            Ok((es, end)) => Ok((TagModel::Compound(es), end)),
        },
        TagKind::IntArray => if pos + 4 > s.len() {
            Err(FormatError::Truncated { offset: pos as usize })
        } else {
            let n = to_signed(be32(s, pos), 4294967296);
            if n < 0 {
                Err(FormatError::NegativeLength { offset: pos as usize })
            } else if pos + 4 + 4 * n > s.len() {
                Err(FormatError::Truncated { offset: (pos + 4) as usize })
            } else {
                Ok(
                    (
                        TagModel::IntArray(
                            Seq::new(
                                n as nat,
                                |i: int| to_signed(be32(s, pos + 4 + 4 * i), 4294967296) as i32,
                            ),
                        ),
                        pos + 4 + 4 * n,
                    ),
                )
            }
        },
        TagKind::LongArray => if pos + 4 > s.len() {
            Err(FormatError::Truncated { offset: pos as usize })
        } else {
            let n = to_signed(be32(s, pos), 4294967296);
            if n < 0 {
                Err(FormatError::NegativeLength { offset: pos as usize })
            } else if pos + 4 + 8 * n > s.len() {
                Err(FormatError::Truncated { offset: (pos + 4) as usize })
            } else {
                Ok(
                    (
                        TagModel::LongArray(
                            Seq::new(
                                n as nat,
                                |i: int|
                                    to_signed(be64(s, pos + 4 + 8 * i), 18446744073709551616) as i64,
                            ),
                        ),
                        pos + 4 + 8 * n,
                    ),
                )
            }
        },
    }
}

/// The `n` payloads of kind `kind` that stand in `s` from `pos` on, behind
/// the items `acc` that were read before them.
pub open spec fn parse_items(
    s: Seq<u8>,
    pos: int,
    kind: TagKind,
    n: int,
    acc: Seq<TagModel>,
) -> Parsed<Seq<TagModel>>
    decreases s.len() - pos, 3nat, n,
{
    if n <= 0 {
        Ok((acc, pos))
    } else {
        match parse_payload(s, pos, kind) {
            Err(e) => Err(e),
            Ok((t, next)) => if next <= pos || next > s.len() {
                Err(FormatError::Truncated { offset: pos as usize })
            } else {
                parse_items(s, next, kind, n - 1, acc.push(t))
            },
        }
    }
}

/// The named tags that stand in `s` from `pos` up to the closing `End`,
/// put into the entries `acc` that were read before them. A name that
/// comes again replaces the tag that it had.
pub open spec fn parse_entries(s: Seq<u8>, pos: int, acc: Entries) -> Parsed<Entries>
    decreases s.len() - pos, 1nat, 0nat,
{
    if pos < 0 || pos >= s.len() {
        Err(FormatError::Truncated { offset: pos as usize })
    } else if s[pos] == 0 {
        Ok((acc, pos + 1))
    } else {
        match kind_of_id(s[pos]) {
            None => Err(FormatError::InvalidTagId { offset: pos as usize, id: s[pos] }),
            Some(kind) => if pos + 3 > s.len() {
                Err(FormatError::Truncated { offset: (pos + 1) as usize })
            } else {
                let n = be16(s, pos + 1);
                if pos + 3 + n > s.len() {
                    Err(FormatError::Truncated { offset: (pos + 3) as usize })
                } else {
                    let name = s.subrange(pos + 3, pos + 3 + n);
                    match parse_payload(s, pos + 3 + n, kind) {
                        Err(e) => Err(e),
                        Ok((t, next)) => if next <= pos || next > s.len() {
                            Err(FormatError::Truncated { offset: pos as usize })
                        } else {
                            parse_entries(s, next, upsert(acc, name, t))
                        },
                    }
                }
            },
        }
    }
}

/// The document that the stream `s` holds. Bytes behind the root compound
/// are not looked at.
pub open spec fn parse_document(s: Seq<u8>) -> Result<DocumentModel, FormatError> {
    if s.len() < 1 {
        Err(FormatError::Truncated { offset: 0 })
    } else if s[0] != 10 {
        Err(FormatError::RootNotCompound { id: s[0] })
    } else if s.len() < 3 {
        Err(FormatError::Truncated { offset: 1 })
    } else {
        let n = be16(s, 1);
        if 3 + n > s.len() {
            Err(FormatError::Truncated { offset: 3 })
        } else {
            match parse_entries(s, 3 + n, Seq::empty()) {
                Err(e) => Err(e),
                Ok((root, _)) => Ok(DocumentModel { name: s.subrange(3, 3 + n), root }),
            }
        }
    }
}

/// Whether the format has room for `t`: every text within 65535 bytes,
/// every array and list within 2147483647 items, every item of a list of
/// the list's kind.
pub open spec fn encodable(t: TagModel) -> bool
    decreases t,
{
    match t {
        TagModel::ByteArray(a) => a.len() <= 2147483647,
        TagModel::Str(b) => b.len() <= 65535,
        TagModel::List(of, items) => items.len() <= 2147483647 && forall|i: int|
            0 <= i < items.len() ==> kind_of(#[trigger] items[i]) == of && encodable(items[i]),
        TagModel::Compound(es) => entries_encodable(es),
        TagModel::IntArray(a) => a.len() <= 2147483647,
        TagModel::LongArray(a) => a.len() <= 2147483647,
        _ => true,
    }
}

/// Whether the format has room for the entries `es`: every name within
/// 65535 bytes, and room for every tag.
pub open spec fn entries_encodable(es: Entries) -> bool
    decreases es,
{
    forall|i: int|
        0 <= i < es.len() ==> (#[trigger] es[i]).0.len() <= 65535 && encodable(es[i].1)
}

/// Whether the format has room for the document `d`.
pub open spec fn encodable_document(d: DocumentModel) -> bool {
    d.name.len() <= 65535 && entries_encodable(d.root)
}

/// The bytes of the first `n` numbers of `a`, four each.
pub open spec fn ser_ints(a: Seq<i32>, n: int) -> Seq<u8>
    decreases n,
{
    if n <= 0 {
        Seq::empty()
    } else {
        ser_ints(a, n - 1) + put32(to_unsigned(a[n - 1] as int, 4294967296))
    }
}

/// The bytes of the first `n` numbers of `a`, eight each.
pub open spec fn ser_longs(a: Seq<i64>, n: int) -> Seq<u8>
    decreases n,
{
    if n <= 0 {
        Seq::empty()
    } else {
        ser_longs(a, n - 1) + put64(to_unsigned(a[n - 1] as int, 18446744073709551616))
    }
}

/// The payload that `t` is written as.
pub open spec fn ser_payload(t: TagModel) -> Seq<u8>
    decreases t, 0nat,
{
    match t {
        TagModel::Byte(v) => seq![to_unsigned(v as int, 256) as u8],
        TagModel::Short(v) => put16(to_unsigned(v as int, 65536)),
        TagModel::Int(v) => put32(to_unsigned(v as int, 4294967296)),
        TagModel::Long(v) => put64(to_unsigned(v as int, 18446744073709551616)),
        TagModel::Float(v) => put32(v as int),
        TagModel::Double(v) => put64(v as int),
        TagModel::ByteArray(a) => put32(a.len() as int) + Seq::new(
            a.len(),
            |i: int| to_unsigned(a[i] as int, 256) as u8,
        ),
        TagModel::Str(b) => put16(b.len() as int) + b,
        TagModel::List(of, items) => seq![kind_id(of)] + put32(items.len() as int) + ser_items(
            items,
            items.len() as int,
        ),
        TagModel::Compound(es) => ser_entries(es, es.len() as int) + seq![0u8],
        TagModel::IntArray(a) => put32(a.len() as int) + ser_ints(a, a.len() as int),
        TagModel::LongArray(a) => put32(a.len() as int) + ser_longs(a, a.len() as int),
    }
}

/// The payloads that the first `n` items of `items` are written as.
pub open spec fn ser_items(items: Seq<TagModel>, n: int) -> Seq<u8>
    decreases items, n,
{
    if n <= 0 || n > items.len() {
        Seq::empty()
    } else {
        ser_items(items, n - 1) + ser_payload(items[n - 1])
    }
}

/// The named tag that the entry `e` is written as: the id of the tag's
/// kind, the name, the payload.
pub open spec fn ser_entry(e: (Seq<u8>, TagModel)) -> Seq<u8>
    decreases e, 1nat,
{
    seq![kind_id(kind_of(e.1))] + put16(e.0.len() as int) + e.0 + ser_payload(e.1)
}

/// The named tags that the first `n` entries of `es` are written as.
pub open spec fn ser_entries(es: Entries, n: int) -> Seq<u8>
    decreases es, n,
{
    if n <= 0 || n > es.len() {
        Seq::empty()
    } else {
        ser_entries(es, n - 1) + ser_entry(es[n - 1])
    }
}

/// The stream that the document `d` is written as: the id of a compound,
/// the root's name, the root's entries, and the closing `End`.
pub open spec fn ser_document(d: DocumentModel) -> Seq<u8> {
    seq![10u8] + put16(d.name.len() as int) + d.name + ser_payload(TagModel::Compound(d.root))
}

} // verus!
