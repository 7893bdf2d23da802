//! The compression, text encoding and hashing that the protocols rest on.
//!
//! The algorithms themselves come from other crates. Each call is wrapped in a
//! function whose contract names the result, so that the protocols can say
//! exactly what they do with it.

use base64::engine::general_purpose::STANDARD;
use base64::Engine;
use flate2::read::DeflateDecoder;
use flate2::write::DeflateEncoder;
use flate2::Compression;
use sha2::{Digest, Sha256};
use std::io::{Read, Write};
use vstd::prelude::*;
use vstd::utf8::*;

verus! {

/// The compression level that every sender uses.
pub const DEFLATE_LEVEL: u32 = 6;

/// The raw Deflate stream that the encoder makes of `data` at `level`.
pub uninterp spec fn deflated(data: Seq<u8>, level: u32) -> Seq<u8>;

/// The bytes that a raw Deflate stream unpacks to, or `None` where the stream
/// is corrupt or ends too early.
pub uninterp spec fn inflated(data: Seq<u8>) -> Option<Seq<u8>>;

/// The padded standard Base64 text of `data`.
pub uninterp spec fn base64_text(data: Seq<u8>) -> Seq<char>;

/// The bytes that a standard Base64 text stands for, or `None` where the text
/// is not valid Base64.
pub uninterp spec fn base64_bytes(text: Seq<char>) -> Option<Seq<u8>>;

/// The SHA-256 digest of `data`.
pub uninterp spec fn sha256(data: Seq<u8>) -> Seq<u8>;

/// The most bytes of any block of a Deflate stream: what the buffer takes into
/// which the encoder writes one block.
pub const MAX_BLOCK_BYTES: usize = 85_180;

/// The fewest bytes of the data in any block of a Deflate stream but the last: the
/// encoder ends no block before it holds more than 31 KiB.
pub const MIN_BLOCK_DATA: usize = 31_745;

/// What a Deflate stream of `size` bytes never exceeds.
pub open spec fn stream_limit(size: nat) -> nat {
    (size / MIN_BLOCK_DATA as nat + 1) * MAX_BLOCK_BYTES as nat
}

/// Compresses `data` with `flate2::write::DeflateEncoder`: everything is written
/// to an encoder over an empty vector, and `finish` gives the vector back.
///
/// Trusted: the encoder reports no error over a vector. The stream is a function
/// of the data and the level, is never empty, and a Deflate decoder unpacks it to
/// the data again. It is a series of blocks. `flush_block` of `miniz_oxide` writes
/// each of them into a buffer of `OUT_BUF_SIZE - 16` bytes. Before the end of the
/// data it is called only for a block of more than 31 KiB, or for one that fills the
/// code buffer: that has 64 KiB, takes three bytes for a match of three or more, one
/// for a literal, and one in addition for every eight of these, so the block holds
/// more than 31 KiB too. That bounds the length. How much shorter the stream is than
/// that bound is left unsaid.
#[verifier::external_body]
fn deflate(data: &[u8], level: u32) -> (stream: Option<Vec<u8>>)
    requires
        level <= 9,
    ensures
        stream is Some,
        stream->0@ == deflated(data@, level),
        inflated(stream->0@) == Some(data@),
        0 < stream->0@.len() <= stream_limit(data@.len()),
{
    let mut encoder = DeflateEncoder::new(Vec::new(), Compression::new(level));
    encoder.write_all(data).ok()?;
    encoder.finish().ok()
}

/// Unpacks `data` with `flate2::read::DeflateDecoder`, read to its end.
///
/// Trusted: the outcome is a function of the data alone.
#[verifier::external_body]
fn inflate(data: &[u8]) -> (output: Option<Vec<u8>>)
    ensures
        output is Some <==> inflated(data@) is Some,
        output matches Some(o) ==> inflated(data@) == Some(o@),
{
    let mut decoder = DeflateDecoder::new(data);
    let mut output = Vec::new();
    decoder.read_to_end(&mut output).ok()?;
    Some(output)
}

/// Writes `data` as Base64 with `base64::Engine::encode_string` of the `STANDARD`
/// engine, into an empty string.
///
/// Trusted: the text is a function of the data, holds four ASCII characters
/// for each three bytes begun, and decodes to the data again.
#[verifier::external_body]
pub(crate) fn base64_encode(data: &[u8]) -> (text: String)
    ensures
        text@ == base64_text(data@),
        text@.len() == (data@.len() + 2) / 3 * 4,
        is_ascii_chars(text@),
        base64_bytes(text@) == Some(data@),
{
    let mut text = String::new();
    STANDARD.encode_string(data, &mut text);
    text
}

/// Reads a Base64 text with `base64::Engine::decode` of the `STANDARD` engine.
///
/// Trusted: the outcome is a function of the text alone.
#[verifier::external_body]
pub(crate) fn base64_decode(text: &str) -> (data: Option<Vec<u8>>)
    ensures
        data is Some <==> base64_bytes(text@) is Some,
        data matches Some(d) ==> base64_bytes(text@) == Some(d@),
{
    STANDARD.decode(text).ok()
}

/// Hashes `data` with `sha2::Sha256::digest`.
///
/// Trusted: the digest is a function of the data, of 32 bytes.
#[verifier::external_body]
fn sha256_digest(data: &[u8]) -> (digest: [u8; 32])
    ensures
        digest@ == sha256(data@),
{
    Sha256::digest(data).into()
}

/// Reads UTF-8 with `String::from_utf8`.
///
/// Trusted: it succeeds on valid UTF-8 and on nothing else, and the string
/// holds the characters that the bytes encode.
#[verifier::external_body]
pub(crate) fn string_from_utf8(bytes: Vec<u8>) -> (text: Option<String>)
    ensures
        text is Some <==> valid_utf8(bytes@),
        text matches Some(t) ==> t@ == decode_utf8(bytes@),
{
    String::from_utf8(bytes).ok()
}

/// The Deflate stream of a file, as every sender makes it.
pub fn compress_file(buffer: &[u8]) -> (compressed: Option<Vec<u8>>)
    ensures
        compressed is Some,
        compressed->0@ == deflated(buffer@, DEFLATE_LEVEL),
        inflated(compressed->0@) == Some(buffer@),
        0 < compressed->0@.len() <= stream_limit(buffer@.len()),
{
    deflate(buffer, DEFLATE_LEVEL)
}

/// The file that a Deflate stream unpacks to.
pub fn decompress_file(buffer: &[u8]) -> (output: Option<Vec<u8>>)
    ensures
        output is Some <==> inflated(buffer@) is Some,
        output matches Some(o) ==> inflated(buffer@) == Some(o@),
{
    inflate(buffer)
}

/// The SHA-256 digest of the file name followed by the file.
pub fn file_digest(bytes: &[u8], filename: &[u8]) -> (digest: [u8; 32])
    ensures
        digest@ == sha256(filename@ + bytes@),
        digest@.len() == 32,
{
    let mut message: Vec<u8> = Vec::with_capacity(filename.len());
    message.extend_from_slice(filename);
    message.extend_from_slice(bytes);
    assert(message@ =~= filename@ + bytes@);
    sha256_digest(message.as_slice())
}

} // verus!
