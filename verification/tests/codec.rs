use world_release::codec::{decode, encode};
use world_release::decode::{decode_document, decode_payload};
use world_release::encode::{encode_document, encode_payload};
use world_release::error::{CodecError, FormatError};
use world_release::tag::{AccessError, Compound, Document, List, Named, Tag, TagKind};

fn key(s: &str) -> Vec<u8> {
    s.as_bytes().to_vec()
}

fn compound(entries: Vec<(&str, Tag)>) -> Compound {
    let mut c = Compound::new();
    for (name, tag) in entries {
        c.insert(key(name), tag);
    }
    c
}

fn list(kind: TagKind, items: Vec<Tag>) -> Tag {
    Tag::List(List { kind, items })
}

fn every_kind() -> Document {
    let inner = compound(vec![
        ("x", Tag::Int(-7)),
        ("empty", Tag::Compound(Compound::new())),
    ]);
    let root = compound(vec![
        ("byte", Tag::Byte(-128)),
        ("short", Tag::Short(-2)),
        ("int", Tag::Int(i32::MIN)),
        ("long", Tag::Long(i64::MAX)),
        ("float", Tag::Float(1.5f32.to_bits())),
        ("double", Tag::Double((-0.25f64).to_bits())),
        ("bytes", Tag::ByteArray(vec![-1, 0, 127])),
        ("no bytes", Tag::ByteArray(vec![])),
        ("text", Tag::Str(key("hello"))),
        ("no text", Tag::Str(vec![])),
        ("ints", Tag::IntArray(vec![1, -1, i32::MAX])),
        ("no ints", Tag::IntArray(vec![])),
        ("longs", Tag::LongArray(vec![i64::MIN, 0, 5])),
        ("no longs", Tag::LongArray(vec![])),
        ("list", list(TagKind::Short, vec![Tag::Short(1), Tag::Short(2)])),
        ("nothing", list(TagKind::End, vec![])),
        ("no ints yet", list(TagKind::Int, vec![])),
        (
            "lists",
            list(
                TagKind::List,
                vec![list(TagKind::Byte, vec![Tag::Byte(3)]), list(TagKind::End, vec![])],
            ),
        ),
        ("compounds", list(TagKind::Compound, vec![Tag::Compound(inner)])),
        ("nested", Tag::Compound(compound(vec![("deep", Tag::Str(key("down")))]))),
    ]);
    Document { name: key("root"), root }
}

#[test]
fn stream_round_trip_keeps_every_kind() {
    let document = every_kind();
    let stream = encode_document(&document).unwrap();
    assert_eq!(decode_document(&stream), Ok(document));
}

#[test]
fn gzip_round_trip_keeps_every_kind() {
    let document = every_kind();
    let packed = encode(&document).unwrap();
    assert_eq!(decode(&packed), Ok(document));
}

#[test]
fn round_trip_keeps_the_marker_of_an_empty_list() {
    let root = compound(vec![
        ("a", list(TagKind::End, vec![])),
        ("b", list(TagKind::Long, vec![])),
        ("c", list(TagKind::Compound, vec![])),
    ]);
    let document = Document { name: vec![], root };
    let back = decode_document(&encode_document(&document).unwrap()).unwrap();
    assert_eq!(back.root.get(b"a"), Some(&list(TagKind::End, vec![])));
    assert_eq!(back.root.get(b"b"), Some(&list(TagKind::Long, vec![])));
    assert_eq!(back.root.get(b"c"), Some(&list(TagKind::Compound, vec![])));
    assert_eq!(back, document);
}

#[test]
fn round_trip_keeps_the_order_of_the_names() {
    let root = compound(vec![("z", Tag::Byte(1)), ("a", Tag::Byte(2)), ("m", Tag::Byte(3))]);
    let document = Document { name: vec![], root };
    let back = decode_document(&encode_document(&document).unwrap()).unwrap();
    let names: Vec<Vec<u8>> = back.root.entries.iter().map(|e| e.name.clone()).collect();
    assert_eq!(names, vec![key("z"), key("a"), key("m")]);
}

#[test]
fn encode_document_writes_the_exact_stream() {
    let root = compound(vec![
        ("a", Tag::Byte(1)),
        ("s", Tag::Short(-2)),
        ("i", Tag::Int(0x01020304)),
        ("t", Tag::Str(key("hi"))),
        ("l", list(TagKind::Byte, vec![Tag::Byte(5), Tag::Byte(6)])),
    ]);
    let document = Document { name: key("r"), root };
    let expected: Vec<u8> = vec![
        10, 0, 1, b'r', // root: compound named "r"
        1, 0, 1, b'a', 1, // byte
        2, 0, 1, b's', 0xff, 0xfe, // short
        3, 0, 1, b'i', 1, 2, 3, 4, // int
        8, 0, 1, b't', 0, 2, b'h', b'i', // text
        9, 0, 1, b'l', 1, 0, 0, 0, 2, 5, 6, // list of two bytes
        0, // end of root
    ];
    assert_eq!(encode_document(&document), Ok(expected));
}

#[test]
fn encode_payload_writes_big_endian_numbers() {
    let mut out = vec![0xaa];
    assert!(encode_payload(&Tag::Long(-2), &mut out));
    assert_eq!(out, vec![0xaa, 0xff, 0xff, 0xff, 0xff, 0xff, 0xff, 0xff, 0xfe]);
    let mut out = Vec::new();
    assert!(encode_payload(&Tag::Double(0x0102030405060708), &mut out));
    assert_eq!(out, vec![1, 2, 3, 4, 5, 6, 7, 8]);
    let mut out = Vec::new();
    assert!(encode_payload(&Tag::Float(0x3fc00000), &mut out));
    assert_eq!(out, vec![0x3f, 0xc0, 0, 0]);
    let mut out = Vec::new();
    assert!(encode_payload(&Tag::IntArray(vec![1, -1]), &mut out));
    assert_eq!(out, vec![0, 0, 0, 2, 0, 0, 0, 1, 0xff, 0xff, 0xff, 0xff]);
    let mut out = Vec::new();
    assert!(encode_payload(&Tag::LongArray(vec![258]), &mut out));
    assert_eq!(out, vec![0, 0, 0, 1, 0, 0, 0, 0, 0, 0, 1, 2]);
    let mut out = Vec::new();
    assert!(encode_payload(&Tag::ByteArray(vec![-1, 2]), &mut out));
    assert_eq!(out, vec![0, 0, 0, 2, 0xff, 2]);
}

#[test]
fn decode_document_reads_the_exact_values() {
    let stream: Vec<u8> = vec![
        10, 0, 0, // root: compound named ""
        4, 0, 1, b'n', 0x80, 0, 0, 0, 0, 0, 0, 0, // long: the least
        5, 0, 1, b'f', 0x3f, 0x80, 0, 0, // float 1.0
        10, 0, 1, b'c', 1, 0, 1, b'b', 0xff, 0, // compound {b: -1}
        12, 0, 1, b'q', 0, 0, 0, 1, 0xff, 0xff, 0xff, 0xff, 0xff, 0xff, 0xff, 0xff, // longs [-1]
        0,
    ];
    let document = decode_document(&stream).unwrap();
    assert_eq!(document.name, Vec::<u8>::new());
    assert_eq!(document.root.get(b"n"), Some(&Tag::Long(i64::MIN)));
    assert_eq!(document.root.get(b"f"), Some(&Tag::Float(1.0f32.to_bits())));
    assert_eq!(
        document.root.get(b"c"),
        Some(&Tag::Compound(compound(vec![("b", Tag::Byte(-1))])))
    );
    assert_eq!(document.root.get(b"q"), Some(&Tag::LongArray(vec![-1])));
    assert_eq!(document.root.len(), 4);
}

#[test]
fn decode_payload_says_where_the_payload_ends() {
    let stream = [9u8, 9, 0, 3, b'a', b'b', b'c', 7];
    assert_eq!(
        decode_payload(&stream, 2, TagKind::Str),
        Ok((Tag::Str(key("abc")), 7))
    );
    assert_eq!(decode_payload(&stream, 7, TagKind::Byte), Ok((Tag::Byte(7), 8)));
}

#[test]
fn a_list_with_a_negative_count_is_empty_and_nothing_of_it_is_read() {
    let stream: Vec<u8> = vec![
        10, 0, 0, // root
        9, 0, 1, b'l', 3, 0xff, 0xff, 0xff, 0xff, // list of ints, count -1
        1, 0, 1, b'b', 9, // the byte that follows
        0,
    ];
    let document = decode_document(&stream).unwrap();
    assert_eq!(document.root.get(b"l"), Some(&list(TagKind::Int, vec![])));
    assert_eq!(document.root.get(b"b"), Some(&Tag::Byte(9)));
    let again = decode_document(&encode_document(&document).unwrap()).unwrap();
    assert_eq!(again, document);
}

#[test]
fn a_list_with_count_zero_is_empty() {
    let stream: Vec<u8> = vec![10, 0, 0, 9, 0, 1, b'l', 0, 0, 0, 0, 0, 0];
    let document = decode_document(&stream).unwrap();
    assert_eq!(document.root.get(b"l"), Some(&list(TagKind::End, vec![])));
}

#[test]
fn a_name_that_comes_again_replaces_the_tag() {
    let stream: Vec<u8> = vec![
        10, 0, 0, 1, 0, 1, b'a', 1, 1, 0, 1, b'b', 2, 1, 0, 1, b'a', 3, 0,
    ];
    let document = decode_document(&stream).unwrap();
    assert_eq!(
        document.root,
        compound(vec![("a", Tag::Byte(3)), ("b", Tag::Byte(2))])
    );
}

#[test]
fn bytes_behind_the_root_are_not_looked_at() {
    let stream: Vec<u8> = vec![10, 0, 0, 0, 0xde, 0xad];
    assert_eq!(
        decode_document(&stream),
        Ok(Document { name: vec![], root: Compound::new() })
    );
}

#[test]
fn an_empty_stream_is_truncated_at_its_start() {
    assert_eq!(decode_document(&[]), Err(FormatError::Truncated { offset: 0 }));
}

#[test]
fn a_stream_that_ends_early_says_where() {
    assert_eq!(decode_document(&[10]), Err(FormatError::Truncated { offset: 1 }));
    assert_eq!(decode_document(&[10, 0, 2, b'a']), Err(FormatError::Truncated { offset: 3 }));
    assert_eq!(decode_document(&[10, 0, 0]), Err(FormatError::Truncated { offset: 3 }));
    assert_eq!(
        decode_document(&[10, 0, 0, 3, 0, 1, b'i', 0, 0]),
        Err(FormatError::Truncated { offset: 7 })
    );
    assert_eq!(
        decode_document(&[10, 0, 0, 3, 0]),
        Err(FormatError::Truncated { offset: 4 })
    );
    assert_eq!(
        decode_document(&[10, 0, 0, 3, 0, 4, b'i']),
        Err(FormatError::Truncated { offset: 6 })
    );
    assert_eq!(
        decode_document(&[10, 0, 0, 8, 0, 0, 0, 5, b'a']),
        Err(FormatError::Truncated { offset: 8 })
    );
    assert_eq!(
        decode_document(&[10, 0, 0, 7, 0, 0, 0, 0, 0, 2, 1]),
        Err(FormatError::Truncated { offset: 10 })
    );
    assert_eq!(
        decode_document(&[10, 0, 0, 1, 0, 0, 1]),
        Err(FormatError::Truncated { offset: 7 })
    );
}

#[test]
fn a_list_that_ends_early_says_where() {
    let stream: Vec<u8> = vec![10, 0, 0, 9, 0, 0, 2, 0, 0, 0, 3, 0, 1, 0, 2, 0];
    assert_eq!(decode_document(&stream), Err(FormatError::Truncated { offset: 15 }));
}

#[test]
fn an_unknown_tag_id_is_refused() {
    assert_eq!(
        decode_document(&[10, 0, 0, 13, 0, 0]),
        Err(FormatError::InvalidTagId { offset: 3, id: 13 })
    );
    assert_eq!(
        decode_document(&[10, 0, 0, 9, 0, 0, 200, 0, 0, 0, 0, 0]),
        Err(FormatError::InvalidTagId { offset: 6, id: 200 })
    );
}

#[test]
fn a_list_of_end_with_items_is_refused() {
    assert_eq!(
        decode_document(&[10, 0, 0, 9, 0, 0, 0, 0, 0, 0, 1, 0]),
        Err(FormatError::InvalidTagId { offset: 6, id: 0 })
    );
}

#[test]
fn a_root_that_is_no_compound_is_refused() {
    assert_eq!(
        decode_document(&[1, 0, 0, 5]),
        Err(FormatError::RootNotCompound { id: 1 })
    );
    assert_eq!(decode_document(&[0]), Err(FormatError::RootNotCompound { id: 0 }));
}

#[test]
fn an_array_with_a_negative_length_is_refused() {
    assert_eq!(
        decode_document(&[10, 0, 0, 7, 0, 0, 0xff, 0xff, 0xff, 0xff, 0]),
        Err(FormatError::NegativeLength { offset: 6 })
    );
    assert_eq!(
        decode_document(&[10, 0, 0, 11, 0, 0, 0x80, 0, 0, 0, 0]),
        Err(FormatError::NegativeLength { offset: 6 })
    );
    assert_eq!(
        decode_document(&[10, 0, 0, 12, 0, 0, 0xff, 0xff, 0xff, 0xfe, 0]),
        Err(FormatError::NegativeLength { offset: 6 })
    );
}

#[test]
fn a_name_that_is_too_long_cannot_be_encoded() {
    let mut root = Compound::new();
    root.insert(vec![b'a'; 65536], Tag::Byte(0));
    let document = Document { name: vec![], root };
    assert_eq!(encode_document(&document), Err(FormatError::Unencodable));
    assert_eq!(encode(&document), Err(CodecError::Format(FormatError::Unencodable)));
    let document = Document { name: vec![b'a'; 65536], root: Compound::new() };
    assert_eq!(encode_document(&document), Err(FormatError::Unencodable));
}

#[test]
fn a_name_of_the_greatest_length_is_encoded() {
    let mut root = Compound::new();
    root.insert(vec![b'a'; 65535], Tag::Str(vec![b'b'; 65535]));
    let document = Document { name: vec![], root };
    let stream = encode_document(&document).unwrap();
    assert_eq!(&stream[3..6], &[8, 0xff, 0xff]);
    assert_eq!(decode_document(&stream), Ok(document));
}

#[test]
fn a_text_that_is_too_long_cannot_be_encoded() {
    let mut out = Vec::new();
    assert!(!encode_payload(&Tag::Str(vec![0; 65536]), &mut out));
}

#[test]
fn a_list_with_an_item_of_another_kind_cannot_be_encoded() {
    let mixed = list(TagKind::Byte, vec![Tag::Byte(1), Tag::Short(2)]);
    let document = Document { name: vec![], root: compound(vec![("m", mixed)]) };
    assert_eq!(encode_document(&document), Err(FormatError::Unencodable));
}

#[test]
fn a_list_takes_only_tags_of_its_kind() {
    let mut items = List::new(TagKind::Int);
    assert_eq!(items.push(Tag::Int(1)), Ok(()));
    assert_eq!(items.push(Tag::Long(2)), Err(AccessError::TypeMismatch));
    assert_eq!(items.push(Tag::Int(3)), Ok(()));
    assert_eq!(items.len(), 2);
    assert_eq!(items, List { kind: TagKind::Int, items: vec![Tag::Int(1), Tag::Int(3)] });
}

#[test]
fn bytes_that_are_no_gzip_are_an_io_error() {
    assert_eq!(decode(&[10, 0, 0, 0]), Err(CodecError::Io));
    assert_eq!(decode(&[]), Err(CodecError::Io));
}

#[test]
fn a_gzip_stream_that_is_cut_short_is_an_io_error() {
    let packed = encode(&every_kind()).unwrap();
    assert_eq!(decode(&packed[..packed.len() / 2]), Err(CodecError::Io));
}

#[test]
fn a_gzip_stream_with_a_malformed_document_is_a_format_error() {
    let packed = encode(&Document { name: vec![], root: Compound::new() }).unwrap();
    assert!(decode(&packed).is_ok());
    let mut encoder =
        flate2::write::GzEncoder::new(Vec::new(), flate2::Compression::default());
    std::io::Write::write_all(&mut encoder, &[10, 0, 0, 13]).unwrap();
    let packed = encoder.finish().unwrap();
    assert_eq!(
        decode(&packed),
        Err(CodecError::Format(FormatError::InvalidTagId { offset: 3, id: 13 }))
    );
}

#[test]
fn encode_compresses_the_stream_as_gzip() {
    let document = every_kind();
    let stream = encode_document(&document).unwrap();
    let packed = encode(&document).unwrap();
    assert_ne!(packed, stream);
    assert_eq!(&packed[..3], &[0x1f, 0x8b, 8]);
    let mut raw = Vec::new();
    std::io::Read::read_to_end(&mut flate2::read::GzDecoder::new(&packed[..]), &mut raw).unwrap();
    assert_eq!(raw, stream);
}

#[test]
fn decode_inflates_what_another_gzip_writer_wrote() {
    let document = every_kind();
    let stream = encode_document(&document).unwrap();
    let mut encoder = flate2::write::GzEncoder::new(Vec::new(), flate2::Compression::best());
    std::io::Write::write_all(&mut encoder, &stream).unwrap();
    let packed = encoder.finish().unwrap();
    assert_ne!(packed, stream);
    assert_eq!(decode(&packed), Ok(document));
}

#[test]
fn encode_gives_the_same_bytes_each_time() {
    assert_eq!(encode(&every_kind()), encode(&every_kind()));
}

#[test]
fn kind_ids_are_the_thirteen_of_the_format() {
    let kinds = [
        TagKind::End,
        TagKind::Byte,
        TagKind::Short,
        TagKind::Int,
        TagKind::Long,
        TagKind::Float,
        TagKind::Double,
        TagKind::ByteArray,
        TagKind::Str,
        TagKind::List,
        TagKind::Compound,
        TagKind::IntArray,
        TagKind::LongArray,
    ];
    for (id, kind) in kinds.iter().enumerate() {
        assert_eq!(kind.id() as usize, id);
        assert_eq!(TagKind::from_id(id as u8), Some(*kind));
    }
    assert_eq!(TagKind::from_id(13), None);
    assert_eq!(TagKind::from_id(255), None);
}

#[test]
fn typed_lookups_tell_a_missing_name_from_a_wrong_kind() {
    let c = compound(vec![("b", Tag::Byte(4)), ("i", Tag::Int(5))]);
    assert_eq!(c.get_byte(b"b"), Ok(4));
    assert_eq!(c.get_byte(b"i"), Err(AccessError::TypeMismatch));
    assert_eq!(c.get_byte(b"x"), Err(AccessError::MissingKey));
    assert_eq!(c.get_as(b"i", TagKind::Int), Ok(&Tag::Int(5)));
    assert_eq!(c.get_as(b"i", TagKind::Long), Err(AccessError::TypeMismatch));
    assert_eq!(c.get_as(b"x", TagKind::Long), Err(AccessError::MissingKey));
    assert!(c.contains_key(b"b"));
    assert!(!c.contains_key(b"x"));
    assert_eq!(c.position(b"i"), Some(1));
    assert_eq!(c.position(b"x"), None);
}

#[test]
fn insert_replaces_in_place_and_appends_what_is_new() {
    let mut c = compound(vec![("a", Tag::Byte(1)), ("b", Tag::Byte(2))]);
    c.insert(key("a"), Tag::Int(9));
    c.insert(key("c"), Tag::Byte(3));
    assert_eq!(
        c.entries,
        vec![
            Named { name: key("a"), tag: Tag::Int(9) },
            Named { name: key("b"), tag: Tag::Byte(2) },
            Named { name: key("c"), tag: Tag::Byte(3) },
        ]
    );
}

#[test]
fn remove_takes_the_name_out_and_keeps_the_order() {
    let mut c = compound(vec![("a", Tag::Byte(1)), ("b", Tag::Byte(2)), ("c", Tag::Byte(3))]);
    assert!(c.remove(b"b"));
    assert!(!c.remove(b"b"));
    assert_eq!(c, compound(vec![("a", Tag::Byte(1)), ("c", Tag::Byte(3))]));
}
