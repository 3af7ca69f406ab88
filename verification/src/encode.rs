//! Writing a document as an uncompressed stream.

use vstd::prelude::*;
use crate::error::FormatError;
use crate::tag::{kind_of, Compound, Document, Tag, TagModel};
use crate::wire::{
    encodable, encodable_document, entries_encodable, put16, put32, put64, ser_document, ser_entries, ser_entry,
    ser_ints, ser_items, ser_longs, ser_payload, to_unsigned,
};

verus! {

fn put_u16(out: &mut Vec<u8>, v: u16)
    ensures
        final(out)@ == old(out)@ + put16(v as int),
{
    out.push((v / 256) as u8);
    out.push((v % 256) as u8);
    assert(out@ =~= old(out)@ + put16(v as int));
}

fn put_u32(out: &mut Vec<u8>, v: u32)
    ensures
        final(out)@ == old(out)@ + put32(v as int),
{
    out.push((v / 16777216) as u8);
    out.push(((v / 65536) % 256) as u8);
    out.push(((v / 256) % 256) as u8);
    out.push((v % 256) as u8);
    assert(out@ =~= old(out)@ + put32(v as int));
}

fn put_u64(out: &mut Vec<u8>, v: u64)
    ensures
        final(out)@ == old(out)@ + put64(v as int),
{
    put_u32(out, (v / 4294967296) as u32);
    put_u32(out, (v % 4294967296) as u32);
    assert(out@ =~= old(out)@ + put64(v as int));
}

fn unsigned8(v: i8) -> (u: u8)
    ensures
        u == to_unsigned(v as int, 256),
{
    if v >= 0 {
        v as u8
    } else {
        (v as i16 + 256) as u8
    }
}

fn unsigned16(v: i16) -> (u: u16)
    ensures
        u == to_unsigned(v as int, 65536),
{
    if v >= 0 {
        v as u16
    } else {
        (v as i32 + 65536) as u16
    }
}

fn unsigned32(v: i32) -> (u: u32)
    ensures
        u == to_unsigned(v as int, 4294967296),
{
    if v >= 0 {
        v as u32
    } else {
        (v as i64 + 4294967296) as u32
    }
}

fn unsigned64(v: i64) -> (u: u64)
    ensures
        u == to_unsigned(v as int, 18446744073709551616),
{
    if v >= 0 {
        v as u64
    } else {
        (v as i128 + 18446744073709551616) as u64
    }
}

fn put_bytes(out: &mut Vec<u8>, b: &Vec<u8>)
    ensures
        final(out)@ == old(out)@ + b@,
{
    let mut i: usize = 0;
    while i < b.len()
        invariant
            i <= b@.len(),
            out@ == old(out)@ + b@.take(i as int),
        decreases b@.len() - i,
    {
        out.push(b[i]);
        assert(b@.take(i + 1) =~= b@.take(i as int).push(b@[i as int]));
        assert(out@ =~= old(out)@ + b@.take(i + 1));
        i += 1;
    }
    assert(b@.take(b@.len() as int) =~= b@);
}

/// Appends the payload of `t` to `out` and says whether the format has
/// room for `t`. Where it has not, what was appended is of no use.
pub fn encode_payload(t: &Tag, out: &mut Vec<u8>) -> (ok: bool)
    ensures
        ok == encodable(t@),
        ok ==> final(out)@ == old(out)@ + ser_payload(t@),
    decreases t,
{
    match t {
        Tag::Byte(v) => {
            out.push(unsigned8(*v));
            assert(out@ =~= old(out)@ + ser_payload(t@));
            true
        },
        Tag::Short(v) => {
            put_u16(out, unsigned16(*v));
            true
        },
        Tag::Int(v) => {
            put_u32(out, unsigned32(*v));
            true
        },
        Tag::Long(v) => {
            put_u64(out, unsigned64(*v));
            true
        },
        Tag::Float(v) => {
            put_u32(out, *v);
            true
        },
        Tag::Double(v) => {
            put_u64(out, *v);
            true
        },
        Tag::ByteArray(a) => {
            if a.len() > 2147483647 {
                return false;
            }
            put_u32(out, a.len() as u32);
            let ghost base = out@;
            let mut i: usize = 0;
            while i < a.len()
                invariant
                    i <= a@.len(),
                    out@ == base + Seq::new(i as nat, |j: int| to_unsigned(a@[j] as int, 256) as u8),
                decreases a@.len() - i,
            {
                out.push(unsigned8(a[i]));
                assert(out@ =~= base + Seq::new(
                    (i + 1) as nat,
                    |j: int| to_unsigned(a@[j] as int, 256) as u8,
                ));
                i += 1;
            }
            assert(out@ =~= old(out)@ + ser_payload(t@));
            true
        },
        Tag::Str(b) => {
            if b.len() > 65535 {
                return false;
            }
            put_u16(out, b.len() as u16);
            put_bytes(out, b);
            assert(out@ =~= old(out)@ + ser_payload(t@));
            true
        },
        Tag::List(l) => {
            if l.items.len() > 2147483647 {
                return false;
            }
            out.push(l.kind.id());
            put_u32(out, l.items.len() as u32);
            let ghost base = out@;
            let mut i: usize = 0;
            assert(out@ =~= base + ser_items(l@, 0));
            while i < l.items.len()
                invariant
                    i <= l.items@.len(),
                    l@.len() == l.items@.len(),
                    t@ == TagModel::List(l.kind, l@),
                    *t == Tag::List(*l),
                    l.items@.len() <= 2147483647,
                    out@ == base + ser_items(l@, i as int),
                    forall|j: int|
                        0 <= j < i ==> kind_of(#[trigger] l@[j]) == l.kind && encodable(l@[j]),
                decreases l.items@.len() - i,
            {
                let item = &l.items[i];
                assert(item@ == l@[i as int]);
                if item.kind() != l.kind {
                    return false;
                }
                if !encode_payload(item, out) {
                    return false;
                }
                assert(out@ =~= base + ser_items(l@, i + 1));
                i += 1;
            }
            assert(out@ =~= old(out)@ + ser_payload(t@));
            true
        },
        Tag::Compound(c) => {
            if !encode_entries(c, out) {
                return false;
            }
            out.push(0);
            assert(out@ =~= old(out)@ + ser_payload(t@));
            true
        },
        Tag::IntArray(a) => {
            if a.len() > 2147483647 {
                return false;
            }
            put_u32(out, a.len() as u32);
            let ghost base = out@;
            let mut i: usize = 0;
            assert(out@ =~= base + ser_ints(a@, 0));
            while i < a.len()
                invariant
                    i <= a@.len(),
                    out@ == base + ser_ints(a@, i as int),
                decreases a@.len() - i,
            {
                put_u32(out, unsigned32(a[i]));
                assert(out@ =~= base + ser_ints(a@, i + 1));
                i += 1;
            }
            assert(out@ =~= old(out)@ + ser_payload(t@));
            true
        },
        Tag::LongArray(a) => {
            if a.len() > 2147483647 {
                return false;
            }
            put_u32(out, a.len() as u32);
            let ghost base = out@;
            let mut i: usize = 0;
            assert(out@ =~= base + ser_longs(a@, 0));
            while i < a.len()
                invariant
                    i <= a@.len(),
                    out@ == base + ser_longs(a@, i as int),
                decreases a@.len() - i,
            {
                put_u64(out, unsigned64(a[i]));
                assert(out@ =~= base + ser_longs(a@, i + 1));
                i += 1;
            }
            assert(out@ =~= old(out)@ + ser_payload(t@));
            true
        },
    }
}

/// Appends the named tags of `c` to `out`, without the closing `End`, and
/// says whether the format has room for them.
pub fn encode_entries(c: &Compound, out: &mut Vec<u8>) -> (ok: bool)
    ensures
        ok == entries_encodable(c@),
        ok ==> final(out)@ == old(out)@ + ser_entries(c@, c@.len() as int),
    decreases c,
{
    let mut i: usize = 0;
    assert(out@ =~= old(out)@ + ser_entries(c@, 0));
    while i < c.entries.len()
        invariant
            i <= c.entries@.len(),
            c@.len() == c.entries@.len(),
            out@ == old(out)@ + ser_entries(c@, i as int),
            forall|j: int|
                0 <= j < i ==> (#[trigger] c@[j]).0.len() <= 65535 && encodable(c@[j].1),
        decreases c.entries@.len() - i,
    {
        let entry = &c.entries[i];
        assert(c@[i as int] == (entry.name@, entry.tag@));
        if entry.name.len() > 65535 {
            return false;
        }
        let ghost before = out@;
        out.push(entry.tag.kind().id());
        put_u16(out, entry.name.len() as u16);
        put_bytes(out, &entry.name);
        if !encode_payload(&entry.tag, out) {
            return false;
        }
        assert(out@ =~= before + ser_entry(c@[i as int]));
        assert(out@ =~= old(out)@ + ser_entries(c@, i + 1));
        i += 1;
    }
    true
}

/// Writes the document `d` as an uncompressed stream. A document that
/// the format has no room for is refused.
pub fn encode_document(d: &Document) -> (r: Result<Vec<u8>, FormatError>)
    ensures
        match r {
            Ok(v) => encodable_document(d@) && v@ == ser_document(d@),
            Err(e) => e == FormatError::Unencodable && !encodable_document(d@),
        },
{
    if d.name.len() > 65535 {
        return Err(FormatError::Unencodable);
    }
    let mut out: Vec<u8> = Vec::new();
    out.push(10);
    put_u16(&mut out, d.name.len() as u16);
    put_bytes(&mut out, &d.name);
    if !encode_entries(&d.root, &mut out) {
        return Err(FormatError::Unencodable);
    }
    out.push(0);
    assert(out@ =~= ser_document(d@));
    Ok(out)
}

} // verus!
