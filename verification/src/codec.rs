//! The codec of a compressed tag document: gzip around the stream.
//!
//! Gzip is the one compression that a world's `level.dat` uses, and the one
//! that this codec speaks. The compression itself is the work of `flate2`;
//! what is proved here is what stands around it.

use std::io::{Read, Write};
use vstd::prelude::*;
use crate::decode::decode_document;
use crate::encode::encode_document;
use crate::error::{CodecError, FormatError};
use crate::roundtrip::{lemma_document_roundtrip, lemma_parsed_document, valid_document};
use crate::tag::{bytes_eq, Document, DocumentModel};
use crate::wire::{encodable_document, parse_document, ser_document};

verus! {

/// What the first gzip member in `bytes` inflates to; `None` where `bytes`
/// does not start with a whole, sound gzip member.
pub uninterp spec fn inflated(bytes: Seq<u8>) -> Option<Seq<u8>>;

/// The gzip member that `data` is deflated to at the default level, with
/// no name, no comment and no time in its header; `None` where the
/// compressor gives up.
pub uninterp spec fn deflated(data: Seq<u8>) -> Option<Seq<u8>>;

/// Reads `bytes` to the end through `flate2::read::GzDecoder`, which
/// inflates the first gzip member it finds.
///
/// Trusted, not proved: that what the decoder gives, bytes or failure,
/// depends on `bytes` alone. The contract gives that result its name and
/// claims nothing more of it.
#[verifier::external_body]
fn inflate(bytes: &[u8]) -> (raw: Option<Vec<u8>>)
    ensures
        match raw {
            Some(v) => inflated(bytes@) == Some(v@),
            None => inflated(bytes@) == None::<Seq<u8>>,
        },
{
    let mut raw = Vec::new();
    match flate2::read::GzDecoder::new(bytes).read_to_end(&mut raw) {
        Ok(_) => Some(raw),
        Err(_) => None,
    }
}

/// Writes `data` through `flate2::write::GzEncoder` at
/// `flate2::Compression::default()` into a vector, and finishes the
/// stream.
///
/// Trusted, not proved: that what the encoder gives, bytes or failure,
/// depends on `data` alone (the header it writes holds no time and no
/// name of a system). The contract gives that result its name and claims
/// nothing more of it; that the bytes inflate to `data` again is not
/// taken on trust but tested by [`encode`] each time.
#[verifier::external_body]
fn deflate(data: &[u8]) -> (packed: Option<Vec<u8>>)
    ensures
        match packed {
            Some(v) => deflated(data@) == Some(v@),
            None => deflated(data@) == None::<Seq<u8>>,
        },
{
    let mut encoder = flate2::write::GzEncoder::new(Vec::new(), flate2::Compression::default());
    match encoder.write_all(data) {
        Ok(_) => encoder.finish().ok(),
        Err(_) => None,
    }
}

/// The gzip member that the stream `stream` is packed as: what it is
/// deflated to, where that inflates to `stream` again.
pub open spec fn packed(stream: Seq<u8>) -> Option<Seq<u8>> {
    match deflated(stream) {
        Some(bytes) => if inflated(bytes) == Some(stream) {
            Some(bytes)
        } else {
            None
        },
        None => None,
    }
}

/// What decoding the bytes `bytes` gives.
pub open spec fn decoded(bytes: Seq<u8>) -> Result<DocumentModel, CodecError> {
    match inflated(bytes) {
        None => Err(CodecError::Io),
        Some(raw) => match parse_document(raw) {
            Ok(d) => Ok(d),
            Err(e) => Err(CodecError::Format(e)),
        },
    }
}

/// What encoding the document `d` gives.
pub open spec fn encoded(d: DocumentModel) -> Result<Seq<u8>, CodecError> {
    if !encodable_document(d) {
        Err(CodecError::Format(FormatError::Unencodable))
    } else {
        match packed(ser_document(d)) {
            Some(bytes) => Ok(bytes),
            None => Err(CodecError::Io),
        }
    }
}

/// Decodes a gzip-compressed tag document.
///
/// The bytes are inflated and the stream is read as a document. Bytes that
/// do not inflate give `CodecError::Io`; a stream that is no document gives
/// the `FormatError` that says where it stops being one. A document that
/// was decoded is valid.
pub fn decode(bytes: &[u8]) -> (r: Result<Document, CodecError>)
    ensures
        match r {
            Ok(d) => decoded(bytes@) == Ok::<DocumentModel, CodecError>(d@),
            Err(e) => decoded(bytes@) == Err::<DocumentModel, CodecError>(e),
        },
        r matches Ok(d) ==> valid_document(d@),
{
    match inflate(bytes) {
        None => Err(CodecError::Io),
        Some(raw) => match decode_document(raw.as_slice()) {
            Ok(d) => Ok(d),
            Err(e) => Err(CodecError::Format(e)),
        },
    }
}

/// Encodes a tag document as a gzip-compressed stream.
///
/// A document that the format has no room for gives
/// `FormatError::Unencodable`. The compressed bytes are inflated again
/// before they are handed out: where the compressor gives up, or gives
/// bytes that do not inflate to the stream, the result is `CodecError::Io`.
pub fn encode(d: &Document) -> (r: Result<Vec<u8>, CodecError>)
    ensures
        match r {
            Ok(v) => encoded(d@) == Ok::<Seq<u8>, CodecError>(v@),
            Err(e) => encoded(d@) == Err::<Seq<u8>, CodecError>(e),
        },
        r matches Ok(v) ==> inflated(v@) == Some(ser_document(d@)),
{
    let raw = match encode_document(d) {
        Err(e) => {
            return Err(CodecError::Format(e));
        },
        Ok(raw) => raw,
    };
    let bytes = match deflate(raw.as_slice()) {
        None => {
            return Err(CodecError::Io);
        },
        Some(bytes) => bytes,
    };
    match inflate(bytes.as_slice()) {
        None => Err(CodecError::Io),
        Some(back) => if bytes_eq(back.as_slice(), raw.as_slice()) {
            Ok(bytes)
        } else {
            Err(CodecError::Io)
        },
    }
}

/// What is encoded can be decoded: a valid document that was encoded is
/// decoded as itself.
pub proof fn lemma_codec_roundtrip(d: DocumentModel)
    requires
        valid_document(d),
    ensures
        encoded(d) matches Ok(bytes) ==> decoded(bytes) == Ok::<DocumentModel, CodecError>(d),
{
    lemma_document_roundtrip(d);
}

/// A document that was decoded is valid, so that encoding it and decoding
/// it again gives the same document.
pub proof fn lemma_decoded_valid(bytes: Seq<u8>)
    ensures
        decoded(bytes) matches Ok(d) ==> valid_document(d) && (encoded(d) matches Ok(again)
            ==> decoded(again) == Ok::<DocumentModel, CodecError>(d)),
{
    match inflated(bytes) {
        Some(raw) => {
            lemma_parsed_document(raw);
            match parse_document(raw) {
                Ok(d) => {
                    lemma_codec_roundtrip(d);
                },
                Err(_) => {},
            }
        },
        None => {},
    }
}

} // verus!
