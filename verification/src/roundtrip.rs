//! What is written can be read: a valid document, written as a stream and
//! read again, is the same document.

use vstd::prelude::*;
use crate::error::FormatError;
use crate::tag::{
    distinct_names, entries_distinct, has_key, index_of, kind_id, kind_of, kind_of_id,
    lemma_index_of_has_key, lemma_upsert, upsert, DocumentModel, Entries, TagKind, TagModel,
};
use crate::wire::{
    be16, be32, be64, encodable, encodable_document, entries_encodable, parse_document,
    parse_entries, parse_items, parse_payload, put16, put32, put64, ser_document, ser_entries,
    ser_entry, ser_ints, ser_items, ser_longs, ser_payload, to_signed, to_unsigned,
};

verus! {

/// The bytes `b` stand in `s` at `pos`.
pub open spec fn holds_at(s: Seq<u8>, pos: int, b: Seq<u8>) -> bool {
    0 <= pos && pos + b.len() <= s.len() && s.subrange(pos, pos + b.len()) == b
}

proof fn lemma_holds_split(s: Seq<u8>, pos: int, a: Seq<u8>, b: Seq<u8>)
    ensures
        holds_at(s, pos, a + b) <==> holds_at(s, pos, a) && holds_at(s, pos + a.len(), b),
{
    let ab = a + b;
    if holds_at(s, pos, ab) {
        assert(s.subrange(pos, pos + a.len()) =~= ab.subrange(0, a.len() as int));
        assert(ab.subrange(0, a.len() as int) =~= a);
        assert(s.subrange(pos + a.len(), pos + a.len() + b.len()) =~= ab.subrange(
            a.len() as int,
            ab.len() as int,
        ));
        assert(ab.subrange(a.len() as int, ab.len() as int) =~= b);
    }
    if holds_at(s, pos, a) && holds_at(s, pos + a.len(), b) {
        assert(s.subrange(pos, pos + ab.len()) =~= s.subrange(pos, pos + a.len()) + s.subrange(
            pos + a.len(),
            pos + a.len() + b.len(),
        ));
    }
}

proof fn lemma_holds_index(s: Seq<u8>, pos: int, b: Seq<u8>, i: int)
    requires
        holds_at(s, pos, b),
        0 <= i < b.len(),
    ensures
        s[pos + i] == b[i],
{
    assert(s.subrange(pos, pos + b.len())[i] == s[pos + i]);
}

proof fn lemma_read16(s: Seq<u8>, pos: int, v: int)
    requires
        0 <= v < 65536,
        holds_at(s, pos, put16(v)),
    ensures
        be16(s, pos) == v,
{
    lemma_holds_index(s, pos, put16(v), 0);
    lemma_holds_index(s, pos, put16(v), 1);
}

proof fn lemma_read32(s: Seq<u8>, pos: int, v: int)
    requires
        0 <= v < 4294967296,
        holds_at(s, pos, put32(v)),
    ensures
        be32(s, pos) == v,
{
    lemma_holds_index(s, pos, put32(v), 0);
    lemma_holds_index(s, pos, put32(v), 1);
    lemma_holds_index(s, pos, put32(v), 2);
    lemma_holds_index(s, pos, put32(v), 3);
}

proof fn lemma_read64(s: Seq<u8>, pos: int, v: int)
    requires
        0 <= v < 18446744073709551616,
        holds_at(s, pos, put64(v)),
    ensures
        be64(s, pos) == v,
{
    let hi = v / 4294967296;
    let lo = v % 4294967296;
    lemma_holds_split(s, pos, put32(hi), put32(lo));
    lemma_read32(s, pos, hi);
    lemma_read32(s, pos + 4, lo);
}

proof fn lemma_holds_extend(a: Seq<u8>, c: Seq<u8>, pos: int, b: Seq<u8>)
    requires
        holds_at(a, pos, b),
    ensures
        holds_at(a + c, pos, b),
{
    assert((a + c).subrange(pos, pos + b.len()) =~= a.subrange(pos, pos + b.len()));
}

proof fn lemma_holds_nested(s: Seq<u8>, p: int, outer: Seq<u8>, q: int, inner: Seq<u8>)
    requires
        holds_at(s, p, outer),
        holds_at(outer, q, inner),
    ensures
        holds_at(s, p + q, inner),
{
    assert(s.subrange(p + q, p + q + inner.len()) =~= s.subrange(p, p + outer.len()).subrange(
        q,
        q + inner.len(),
    ));
}

proof fn lemma_ser_ints(a: Seq<i32>, n: int)
    requires
        0 <= n <= a.len(),
    ensures
        ser_ints(a, n).len() == 4 * n,
        forall|i: int|
            0 <= i < n ==> holds_at(
                ser_ints(a, n),
                4 * i,
                put32(to_unsigned(#[trigger] a[i] as int, 4294967296)),
            ),
    decreases n,
{
    if n > 0 {
        lemma_ser_ints(a, n - 1);
        let head = ser_ints(a, n - 1);
        let last = put32(to_unsigned(a[n - 1] as int, 4294967296));
        assert forall|i: int| 0 <= i < n implies holds_at(
            ser_ints(a, n),
            4 * i,
            put32(to_unsigned(#[trigger] a[i] as int, 4294967296)),
        ) by {
            if i < n - 1 {
                lemma_holds_extend(head, last, 4 * i, put32(to_unsigned(a[i] as int, 4294967296)));
            } else {
                assert((head + last).subrange(4 * i, 4 * i + 4) =~= last);
            }
        }
    }
}

proof fn lemma_ser_longs(a: Seq<i64>, n: int)
    requires
        0 <= n <= a.len(),
    ensures
        ser_longs(a, n).len() == 8 * n,
        forall|i: int|
            0 <= i < n ==> holds_at(
                ser_longs(a, n),
                8 * i,
                put64(to_unsigned(#[trigger] a[i] as int, 18446744073709551616)),
            ),
    decreases n,
{
    if n > 0 {
        lemma_ser_longs(a, n - 1);
        let head = ser_longs(a, n - 1);
        let last = put64(to_unsigned(a[n - 1] as int, 18446744073709551616));
        assert forall|i: int| 0 <= i < n implies holds_at(
            ser_longs(a, n),
            8 * i,
            put64(to_unsigned(#[trigger] a[i] as int, 18446744073709551616)),
        ) by {
            if i < n - 1 {
                lemma_holds_extend(
                    head,
                    last,
                    8 * i,
                    put64(to_unsigned(a[i] as int, 18446744073709551616)),
                );
            } else {
                assert((head + last).subrange(8 * i, 8 * i + 8) =~= last);
            }
        }
    }
}

/// A document that can be written and read back as itself: the format has
/// room for it, and no compound in it holds a name twice.
pub open spec fn valid(t: TagModel) -> bool {
    encodable(t) && distinct_names(t)
}

/// A document that can be written and read back as itself.
pub open spec fn valid_document(d: DocumentModel) -> bool {
    encodable_document(d) && entries_distinct(d.root)
}

/// Every payload takes at least one byte.
pub proof fn lemma_ser_nonempty(t: TagModel)
    ensures
        ser_payload(t).len() >= 1,
{
}

proof fn lemma_items_prefix(items: Seq<TagModel>, j: int, n: int)
    requires
        0 <= j <= n <= items.len(),
    ensures
        holds_at(ser_items(items, n), 0, ser_items(items, j)),
        j < n ==> holds_at(ser_items(items, n), ser_items(items, j).len() as int, ser_payload(items[j])),
    decreases n,
{
    let whole = ser_items(items, n);
    if j == n {
        assert(whole.subrange(0, whole.len() as int) =~= whole);
    } else {
        let head = ser_items(items, n - 1);
        let last = ser_payload(items[n - 1]);
        if j == n - 1 {
            assert((head + last).subrange(0, head.len() as int) =~= head);
            assert((head + last).subrange(head.len() as int, (head + last).len() as int) =~= last);
        } else {
            lemma_items_prefix(items, j, n - 1);
            lemma_holds_extend(head, last, 0, ser_items(items, j));
            lemma_holds_extend(head, last, ser_items(items, j).len() as int, ser_payload(items[j]));
        }
    }
}

proof fn lemma_entries_prefix(es: Entries, j: int, n: int)
    requires
        0 <= j <= n <= es.len(),
    ensures
        holds_at(ser_entries(es, n), 0, ser_entries(es, j)),
        j < n ==> holds_at(ser_entries(es, n), ser_entries(es, j).len() as int, ser_entry(es[j])),
    decreases n,
{
    let whole = ser_entries(es, n);
    if j == n {
        assert(whole.subrange(0, whole.len() as int) =~= whole);
    } else {
        let head = ser_entries(es, n - 1);
        let last = ser_entry(es[n - 1]);
        if j == n - 1 {
            assert((head + last).subrange(0, head.len() as int) =~= head);
            assert((head + last).subrange(head.len() as int, (head + last).len() as int) =~= last);
        } else {
            lemma_entries_prefix(es, j, n - 1);
            lemma_holds_extend(head, last, 0, ser_entries(es, j));
            lemma_holds_extend(head, last, ser_entries(es, j).len() as int, ser_entry(es[j]));
        }
    }
}

proof fn lemma_number_roundtrip(s: Seq<u8>, pos: int, t: TagModel)
    requires
        holds_at(s, pos, ser_payload(t)),
        t is Byte || t is Short || t is Int || t is Long || t is Float || t is Double,
    ensures
        parse_payload(s, pos, kind_of(t)) == Ok::<(TagModel, int), FormatError>(
            (t, pos + ser_payload(t).len()),
        ),
{
    match t {
        TagModel::Byte(v) => {
            lemma_holds_index(s, pos, ser_payload(t), 0);
        },
        TagModel::Short(v) => {
            lemma_read16(s, pos, to_unsigned(v as int, 65536));
        },
        TagModel::Int(v) => {
            lemma_read32(s, pos, to_unsigned(v as int, 4294967296));
        },
        TagModel::Long(v) => {
            lemma_read64(s, pos, to_unsigned(v as int, 18446744073709551616));
        },
        TagModel::Float(v) => {
            lemma_read32(s, pos, v as int);
        },
        TagModel::Double(v) => {
            lemma_read64(s, pos, v as int);
        },
        _ => {},
    }
}

proof fn lemma_bytes_roundtrip(s: Seq<u8>, pos: int, a: Seq<i8>)
    requires
        a.len() <= 2147483647,
        holds_at(s, pos, ser_payload(TagModel::ByteArray(a))),
    ensures
        parse_payload(s, pos, TagKind::ByteArray) == Ok::<(TagModel, int), FormatError>(
            (TagModel::ByteArray(a), pos + ser_payload(TagModel::ByteArray(a)).len()),
        ),
{
    let n = a.len() as int;
    let body = Seq::new(a.len(), |i: int| to_unsigned(a[i] as int, 256) as u8);
    lemma_holds_split(s, pos, put32(n), body);
    lemma_read32(s, pos, n);
    let got = Seq::new(n as nat, |i: int| to_signed(s[pos + 4 + i] as int, 256) as i8);
    assert forall|i: int| 0 <= i < n implies got[i] == a[i] by {
        lemma_holds_index(s, pos + 4, body, i);
    }
    assert(got =~= a);
}

proof fn lemma_text_roundtrip(s: Seq<u8>, pos: int, b: Seq<u8>)
    requires
        b.len() <= 65535,
        holds_at(s, pos, ser_payload(TagModel::Str(b))),
    ensures
        parse_payload(s, pos, TagKind::Str) == Ok::<(TagModel, int), FormatError>(
            (TagModel::Str(b), pos + ser_payload(TagModel::Str(b)).len()),
        ),
{
    let n = b.len() as int;
    lemma_holds_split(s, pos, put16(n), b);
    lemma_read16(s, pos, n);
}

proof fn lemma_ints_roundtrip(s: Seq<u8>, pos: int, a: Seq<i32>)
    requires
        a.len() <= 2147483647,
        holds_at(s, pos, ser_payload(TagModel::IntArray(a))),
    ensures
        parse_payload(s, pos, TagKind::IntArray) == Ok::<(TagModel, int), FormatError>(
            (TagModel::IntArray(a), pos + ser_payload(TagModel::IntArray(a)).len()),
        ),
{
    let n = a.len() as int;
    let body = ser_ints(a, n);
    lemma_ser_ints(a, n);
    lemma_holds_split(s, pos, put32(n), body);
    lemma_read32(s, pos, n);
    let got = Seq::new(n as nat, |i: int| to_signed(be32(s, pos + 4 + 4 * i), 4294967296) as i32);
    assert forall|i: int| 0 <= i < n implies got[i] == a[i] by {
        let u = to_unsigned(a[i] as int, 4294967296);
        lemma_holds_nested(s, pos + 4, body, 4 * i, put32(u));
        lemma_read32(s, pos + 4 + 4 * i, u);
    }
    assert(got =~= a);
}

proof fn lemma_longs_roundtrip(s: Seq<u8>, pos: int, a: Seq<i64>)
    requires
        a.len() <= 2147483647,
        holds_at(s, pos, ser_payload(TagModel::LongArray(a))),
    ensures
        parse_payload(s, pos, TagKind::LongArray) == Ok::<(TagModel, int), FormatError>(
            (TagModel::LongArray(a), pos + ser_payload(TagModel::LongArray(a)).len()),
        ),
{
    let n = a.len() as int;
    let body = ser_longs(a, n);
    lemma_ser_longs(a, n);
    lemma_holds_split(s, pos, put32(n), body);
    lemma_read32(s, pos, n);
    let got = Seq::new(
        n as nat,
        |i: int| to_signed(be64(s, pos + 4 + 8 * i), 18446744073709551616) as i64,
    );
    assert forall|i: int| 0 <= i < n implies got[i] == a[i] by {
        let u = to_unsigned(a[i] as int, 18446744073709551616);
        lemma_holds_nested(s, pos + 4, body, 8 * i, put64(u));
        lemma_read64(s, pos + 4 + 8 * i, u);
    }
    assert(got =~= a);
}

/// The id of a kind stands for that kind.
pub proof fn lemma_kind_id(kind: TagKind)
    ensures
        kind_of_id(kind_id(kind)) == Some(kind),
        kind != TagKind::End ==> kind_id(kind) != 0,
{
}

/// A valid tag that stands in a stream as it is written is read back as
/// itself, and the reading ends where the writing ended.
pub proof fn lemma_payload_roundtrip(s: Seq<u8>, pos: int, t: TagModel)
    requires
        valid(t),
        holds_at(s, pos, ser_payload(t)),
    ensures
        parse_payload(s, pos, kind_of(t)) == Ok::<(TagModel, int), FormatError>(
            (t, pos + ser_payload(t).len()),
        ),
    decreases t, 0nat, 0nat,
{
    match t {
        TagModel::List(of, items) => {
            let n = items.len() as int;
            let head = seq![kind_id(of)] + put32(n);
            let body = ser_items(items, n);
            assert(ser_payload(t) == head + body);
            lemma_holds_split(s, pos, head, body);
            lemma_holds_split(s, pos, seq![kind_id(of)], put32(n));
            lemma_holds_index(s, pos, seq![kind_id(of)], 0);
            lemma_read32(s, pos + 1, n);
            lemma_kind_id(of);
            if n == 0 {
                assert(items =~= Seq::<TagModel>::empty());
            } else {
                assert(kind_of(items[0]) == of);
                assert(items.take(0) =~= Seq::<TagModel>::empty());
                lemma_items_roundtrip(s, pos + 5, of, items, 0);
            }
        },
        TagModel::Compound(es) => {
            assert(es.take(0) =~= Seq::<(Seq<u8>, TagModel)>::empty());
            lemma_entries_roundtrip(s, pos, es, 0);
        },
        TagModel::ByteArray(a) => {
            lemma_bytes_roundtrip(s, pos, a);
        },
        TagModel::Str(b) => {
            lemma_text_roundtrip(s, pos, b);
        },
        TagModel::IntArray(a) => {
            lemma_ints_roundtrip(s, pos, a);
        },
        TagModel::LongArray(a) => {
            lemma_longs_roundtrip(s, pos, a);
        },
        _ => {
            lemma_number_roundtrip(s, pos, t);
        },
    }
}

proof fn lemma_items_roundtrip(s: Seq<u8>, pos: int, of: TagKind, items: Seq<TagModel>, j: int)
    requires
        0 <= j <= items.len(),
        forall|i: int|
            0 <= i < items.len() ==> kind_of(#[trigger] items[i]) == of && valid(items[i]),
        holds_at(s, pos, ser_items(items, items.len() as int)),
    ensures
        parse_items(
            s,
            pos + ser_items(items, j).len(),
            of,
            items.len() - j,
            items.take(j),
        ) == Ok::<(Seq<TagModel>, int), FormatError>(
            (items, pos + ser_items(items, items.len() as int).len()),
        ),
    decreases items, 1nat, items.len() - j,
{
    let n = items.len() as int;
    let whole = ser_items(items, n);
    let here = pos + ser_items(items, j).len();
    if j == n {
        assert(items.take(j) =~= items);
    } else {
        let item = items[j];
        lemma_items_prefix(items, j, n);
        lemma_holds_nested(s, pos, whole, ser_items(items, j).len() as int, ser_payload(item));
        lemma_payload_roundtrip(s, here, item);
        lemma_ser_nonempty(item);
        assert(items.take(j).push(item) =~= items.take(j + 1));
        lemma_items_roundtrip(s, pos, of, items, j + 1);
    }
}

proof fn lemma_entries_roundtrip(s: Seq<u8>, pos: int, es: Entries, j: int)
    requires
        0 <= j <= es.len(),
        entries_encodable(es),
        entries_distinct(es),
        holds_at(s, pos, ser_entries(es, es.len() as int) + seq![0u8]),
    ensures
        parse_entries(s, pos + ser_entries(es, j).len(), es.take(j)) == Ok::<
            (Entries, int),
            FormatError,
        >((es, pos + ser_entries(es, es.len() as int).len() + 1)),
    decreases es, 1nat, es.len() - j,
{
    let n = es.len() as int;
    let whole = ser_entries(es, n);
    let here = pos + ser_entries(es, j).len();
    lemma_holds_split(s, pos, whole, seq![0u8]);
    if j == n {
        assert(es.take(j) =~= es);
        lemma_holds_index(s, pos + whole.len(), seq![0u8], 0);
    } else {
        let name = es[j].0;
        let tag = es[j].1;
        let kind = kind_of(tag);
        lemma_entries_prefix(es, j, n);
        lemma_holds_nested(s, pos, whole, ser_entries(es, j).len() as int, ser_entry(es[j]));
        let front = seq![kind_id(kind)] + put16(name.len() as int) + name;
        assert(ser_entry(es[j]) == front + ser_payload(tag));
        lemma_holds_split(s, here, front, ser_payload(tag));
        lemma_holds_split(s, here, seq![kind_id(kind)] + put16(name.len() as int), name);
        lemma_holds_split(s, here, seq![kind_id(kind)], put16(name.len() as int));
        lemma_holds_index(s, here, seq![kind_id(kind)], 0);
        lemma_read16(s, here + 1, name.len() as int);
        lemma_kind_id(kind);
        lemma_payload_roundtrip(s, here + 3 + name.len(), tag);
        lemma_ser_nonempty(tag);
        let before = es.take(j);
        lemma_index_of_has_key(before, name);
        if has_key(before, name) {
            let i = choose|i: int| 0 <= i < before.len() && (#[trigger] before[i]).0 == name;
            assert(before[i] == es[i]);
        }
        assert(upsert(before, name, tag) =~= es.take(j + 1));
        lemma_entries_roundtrip(s, pos, es, j + 1);
    }
}

/// A valid document, written as a stream, is read back as itself.
pub proof fn lemma_document_roundtrip(d: DocumentModel)
    requires
        valid_document(d),
    ensures
        parse_document(ser_document(d)) == Ok::<DocumentModel, FormatError>(d),
{
    let s = ser_document(d);
    let front = seq![10u8] + put16(d.name.len() as int) + d.name;
    let body = ser_payload(TagModel::Compound(d.root));
    assert(s == front + body);
    assert(s.subrange(0, s.len() as int) =~= s);
    lemma_holds_split(s, 0, front, body);
    lemma_holds_split(s, 0, seq![10u8] + put16(d.name.len() as int), d.name);
    lemma_holds_split(s, 0, seq![10u8], put16(d.name.len() as int));
    lemma_holds_index(s, 0, seq![10u8], 0);
    lemma_read16(s, 1, d.name.len() as int);
    assert(d.root.take(0) =~= Seq::<(Seq<u8>, TagModel)>::empty());
    lemma_entries_roundtrip(s, 3 + d.name.len() as int, d.root, 0);
}

proof fn lemma_upsert_valid(es: Entries, name: Seq<u8>, tag: TagModel)
    requires
        entries_encodable(es),
        entries_distinct(es),
        name.len() <= 65535,
        valid(tag),
    ensures
        entries_encodable(upsert(es, name, tag)),
        entries_distinct(upsert(es, name, tag)),
{
    let up = upsert(es, name, tag);
    lemma_upsert(es, name, tag, name);
    lemma_index_of_has_key(es, name);
    let i = index_of(es, name);
    assert forall|j: int| 0 <= j < up.len() implies (#[trigger] up[j]).0.len() <= 65535
        && encodable(up[j].1) && distinct_names(up[j].1) by {
        if i >= 0 {
            if j != i {
                assert(up[j] == es[j]);
            }
        } else {
            if j < es.len() {
                assert(up[j] == es[j]);
            }
        }
    }
}

/// A tag that is read from a stream is valid and of the kind asked for, and
/// the reading moves forward within the stream.
pub proof fn lemma_parsed_payload(s: Seq<u8>, pos: int, kind: TagKind)
    requires
        0 <= pos <= s.len(),
    ensures
        parse_payload(s, pos, kind) matches Ok((t, end)) ==> valid(t) && kind_of(t) == kind && pos
            < end <= s.len(),
    decreases s.len() - pos, 2nat, 0nat,
{
    match kind {
        TagKind::List => {
            if pos + 5 <= s.len() {
                let n = to_signed(be32(s, pos + 1), 4294967296);
                match kind_of_id(s[pos]) {
                    Some(of) => {
                        if n > 0 && of != TagKind::End {
                            lemma_parsed_items(s, pos + 5, of, n, Seq::empty());
                        }
                    },
                    None => {},
                }
            }
        },
        TagKind::Compound => {
            lemma_parsed_entries(s, pos, Seq::empty());
        },
        _ => {},
    }
}

proof fn lemma_parsed_items(s: Seq<u8>, pos: int, kind: TagKind, n: int, acc: Seq<TagModel>)
    requires
        0 <= pos <= s.len(),
        0 <= n,
        acc.len() + n <= 2147483647,
        forall|i: int| 0 <= i < acc.len() ==> kind_of(#[trigger] acc[i]) == kind && valid(acc[i]),
    ensures
        parse_items(s, pos, kind, n, acc) matches Ok((items, end)) ==> items.len() == acc.len() + n
            && pos <= end <= s.len() && (n > 0 ==> pos < end) && forall|i: int|
            0 <= i < items.len() ==> kind_of(#[trigger] items[i]) == kind && valid(items[i]),
    decreases s.len() - pos, 3nat, n,
{
    if n > 0 {
        lemma_parsed_payload(s, pos, kind);
        match parse_payload(s, pos, kind) {
            Ok((t, next)) => {
                let more = acc.push(t);
                assert forall|i: int| 0 <= i < more.len() implies kind_of(#[trigger] more[i])
                    == kind && valid(more[i]) by {
                    if i < acc.len() {
                        assert(more[i] == acc[i]);
                    }
                }
                lemma_parsed_items(s, next, kind, n - 1, more);
            },
            Err(_) => {},
        }
    }
}

proof fn lemma_parsed_entries(s: Seq<u8>, pos: int, acc: Entries)
    requires
        0 <= pos <= s.len(),
        entries_encodable(acc),
        entries_distinct(acc),
    ensures
        parse_entries(s, pos, acc) matches Ok((es, end)) ==> entries_encodable(es)
            && entries_distinct(es) && pos < end <= s.len(),
    decreases s.len() - pos, 1nat, 0nat,
{
    if pos < s.len() && s[pos] != 0 {
        match kind_of_id(s[pos]) {
            Some(kind) => {
                if pos + 3 <= s.len() {
                    let n = be16(s, pos + 1);
                    if pos + 3 + n <= s.len() {
                        let name = s.subrange(pos + 3, pos + 3 + n);
                        lemma_parsed_payload(s, pos + 3 + n, kind);
                        match parse_payload(s, pos + 3 + n, kind) {
                            Ok((t, next)) => {
                                lemma_upsert_valid(acc, name, t);
                                lemma_parsed_entries(s, next, upsert(acc, name, t));
                            },
                            Err(_) => {},
                        }
                    }
                }
            },
            None => {},
        }
    }
}

/// A document that is read from a stream is valid.
pub proof fn lemma_parsed_document(s: Seq<u8>)
    ensures
        parse_document(s) matches Ok(d) ==> valid_document(d),
{
    if s.len() >= 3 && s[0] == 10 {
        let n = be16(s, 1);
        if 3 + n <= s.len() {
            lemma_parsed_entries(s, 3 + n, Seq::empty());
        }
    }
}

/// Reading, writing and reading again gives what the first reading gave.
pub proof fn lemma_reread(s: Seq<u8>)
    ensures
        parse_document(s) matches Ok(d) ==> parse_document(ser_document(d)) == Ok::<
            DocumentModel,
            FormatError,
        >(d),
{
    lemma_parsed_document(s);
    match parse_document(s) {
        Ok(d) => {
            lemma_document_roundtrip(d);
        },
        Err(_) => {},
    }
}

} // verus!
