//! What the two binary transports have in common: how a file is encoded, cut
//! into chunks, put together again and checked.

use crate::bytes::{bytes_equal, copy_range, padded};
use crate::chars::valid_filename;
use crate::checksum::{checksum, fnv1a};
use crate::codec::{
    compress_file, decompress_file, deflated, file_digest, inflated, sha256, DEFLATE_LEVEL,
};
use vstd::prelude::*;
use vstd::utf8::*;

verus! {

/// The largest file that is sent or accepted: 1.5 MiB.
pub const MAX_FILE_BYTES: usize = 1_572_864;

/// The largest encoded file that a binary header may announce.
pub const MAX_ENCODED_BYTES: usize = 3_145_728;

/// The bounds of the chunk size of the binary transports.
pub const BINARY_MIN_CHUNK_BYTES: usize = 400;

pub const BINARY_MAX_CHUNK_BYTES: usize = 1_800;

/// The most packets that a binary transfer may have, and that a receiver keeps
/// while it waits for a header.
pub const BINARY_MAX_PENDING_PACKETS: usize = 10_000;

/// The codec of a file sent as it is.
pub const RAW_CODEC: u8 = 0;

/// The codec of a file sent as a Deflate stream.
pub const DEFLATE_CODEC: u8 = 1;

/// How many chunks of `chunk` bytes hold `size` bytes; there is always one.
pub open spec fn chunk_count(size: nat, chunk: nat) -> nat {
    ((if size == 0 {
        1nat
    } else {
        size
    }) + chunk - 1) as nat / chunk
}

/// How many bytes of the file the chunk at `index` holds.
pub open spec fn piece_length(size: nat, chunk: nat, index: nat) -> nat {
    if index * chunk >= size {
        0
    } else if size - index * chunk < chunk {
        (size - index * chunk) as nat
    } else {
        chunk
    }
}

/// The part of a sequence that belongs to the chunk at `index`.
pub open spec fn piece<A>(whole: Seq<A>, chunk: nat, index: nat) -> Seq<A> {
    let start = if index * chunk < whole.len() {
        (index * chunk) as int
    } else {
        whole.len() as int
    };
    whole.subrange(start, start + piece_length(whole.len(), chunk, index))
}

/// The chunk at `index`, filled with zeros.
pub open spec fn source_chunk(encoded: Seq<u8>, chunk: nat, index: nat) -> Seq<u8> {
    padded(piece(encoded, chunk, index), chunk)
}

/// All chunks of an encoded file.
pub open spec fn source_chunks(encoded: Seq<u8>, chunk: nat) -> Seq<Seq<u8>> {
    Seq::new(chunk_count(encoded.len(), chunk), |i: int| source_chunk(encoded, chunk, i as nat))
}

/// Sequences put one after the other.
pub open spec fn joined<A>(parts: Seq<Seq<A>>) -> Seq<A>
    decreases parts.len(),
{
    if parts.len() == 0 {
        Seq::empty()
    } else {
        joined(parts.drop_last()) + parts.last()
    }
}

/// The file that an encoded file stands for, if there is one.
pub open spec fn unpacked(codec: u8, encoded: Seq<u8>) -> Option<Seq<u8>> {
    if codec == DEFLATE_CODEC {
        inflated(encoded)
    } else {
        Some(encoded)
    }
}

/// What a binary header says of a file.
pub struct FileView {
    pub codec: u8,
    pub checksum: u64,
    pub digest: Seq<u8>,
    pub file_size: nat,
    pub compressed_size: nat,
    pub chunk_size: nat,
    pub data_packets: nat,
    pub filename: Seq<char>,
}

impl FileView {
    /// What a receiver asks of a header.
    pub open spec fn acceptable(self) -> bool {
        &&& self.codec <= 1
        &&& BINARY_MIN_CHUNK_BYTES <= self.chunk_size <= BINARY_MAX_CHUNK_BYTES
        &&& 1 <= self.data_packets <= BINARY_MAX_PENDING_PACKETS
        &&& self.file_size <= MAX_FILE_BYTES
        &&& self.compressed_size <= MAX_ENCODED_BYTES
        &&& valid_filename(self.filename)
        &&& self.data_packets == chunk_count(self.compressed_size, self.chunk_size)
    }

    /// Whether a file is the one that the header announced: it has the length,
    /// the checksum and the digest.
    pub open spec fn genuine(self, file: Seq<u8>) -> bool {
        &&& file.len() == self.file_size
        &&& fnv1a(encode_utf8(self.filename) + file) == self.checksum
        &&& sha256(encode_utf8(self.filename) + file) == self.digest
    }

    /// The file that a full set of chunks gives, if it is the one announced.
    pub open spec fn restored(self, chunks: Seq<Seq<u8>>) -> Option<Seq<u8>> {
        match unpacked(self.codec, joined(chunks).take(self.compressed_size as int)) {
            Some(file) => if self.genuine(file) {
                Some(file)
            } else {
                None
            },
            None => None,
        }
    }

    /// How long the payload of a data packet is.
    pub open spec fn expected_len(self, index: nat) -> nat {
        piece_length(self.compressed_size, self.chunk_size, index)
    }

    /// Whether the header describes `file`, encoded as `encoded`.
    pub open spec fn describes(self, encoded: Seq<u8>, file: Seq<u8>) -> bool {
        &&& self.acceptable()
        &&& self.compressed_size == encoded.len()
        &&& self.genuine(file)
        &&& unpacked(self.codec, encoded) == Some(file)
    }
}

/// The header of a file as a sender makes it from the encoded file.
pub open spec fn described(
    file: Seq<u8>,
    filename: Seq<char>,
    codec: u8,
    encoded: Seq<u8>,
    chunk_size: nat,
) -> FileView {
    FileView {
        codec,
        checksum: fnv1a(encode_utf8(filename) + file),
        digest: sha256(encode_utf8(filename) + file),
        file_size: file.len(),
        compressed_size: encoded.len(),
        chunk_size,
        data_packets: chunk_count(encoded.len(), chunk_size),
        filename,
    }
}

/// The smaller of a file and its compressed form, with its codec; a file that
/// does not shrink is sent as it is.
pub open spec fn smaller(compressed: Seq<u8>, file: Seq<u8>) -> (u8, Seq<u8>) {
    if compressed.len() < file.len() {
        (DEFLATE_CODEC, compressed)
    } else {
        (RAW_CODEC, file)
    }
}

// ---------------------------------------------------------------------------
// Arithmetic of chunks

/// A chunk of the count begins before the end, and the count reaches the end.
pub proof fn lemma_chunk_count(size: nat, chunk: nat)
    requires
        chunk > 0,
    ensures
        chunk_count(size, chunk) >= 1,
        chunk_count(size, chunk) * chunk >= size,
        forall|i: nat| #[trigger] (i * chunk) < size ==> i < chunk_count(size, chunk),
        size > 0 ==> (chunk_count(size, chunk) - 1) * chunk < size,
        size <= chunk ==> chunk_count(size, chunk) == 1,
        chunk_count(size, chunk) <= (if size == 0 {
            1nat
        } else {
            size
        }),
{
    let full = if size == 0 {
        1nat
    } else {
        size
    };
    let count = chunk_count(size, chunk);
    vstd::arithmetic::div_mod::lemma_fundamental_div_mod(full + chunk - 1, chunk as int);
    let rest = (full + chunk - 1) % (chunk as int);
    assert(count * chunk + rest == full + chunk - 1) by (nonlinear_arith)
        requires
            full + chunk - 1 == chunk * count + rest,
    ;
    assert(count >= 1) by (nonlinear_arith)
        requires
            count * chunk + rest == full + chunk - 1,
            full >= 1,
            0 <= rest < chunk,
    ;
    assert((count - 1) * chunk == count * chunk - chunk) by (nonlinear_arith);
    assert(size <= chunk ==> count == 1) by (nonlinear_arith)
        requires
            count >= 1,
            count * chunk + rest == full + chunk - 1,
            full <= chunk || size > chunk,
            0 <= rest < chunk,
    ;
    assert(count <= full) by (nonlinear_arith)
        requires
            count * chunk + rest == full + chunk - 1,
            full >= 1,
            chunk >= 1,
            0 <= rest < chunk,
    ;
    assert forall|i: nat| #[trigger] (i * chunk) < size implies i < count by {
        assert(i < count) by (nonlinear_arith)
            requires
                i * chunk < size,
                count * chunk >= size,
        ;
    }
}

/// The pieces put together are the beginning of the whole.
pub proof fn lemma_joined_pieces<A>(whole: Seq<A>, chunk: nat, count: nat)
    requires
        chunk > 0,
    ensures
        joined(Seq::new(count, |i: int| piece(whole, chunk, i as nat))) == whole.take(
            if count * chunk < whole.len() {
                (count * chunk) as int
            } else {
                whole.len() as int
            },
        ),
    decreases count,
{
    let parts = Seq::new(count, |i: int| piece(whole, chunk, i as nat));
    if count == 0 {
        assert(0 * chunk == 0);
        assert(joined(parts) =~= Seq::<A>::empty());
        assert(whole.take(0) =~= Seq::<A>::empty());
    } else {
        let last = (count - 1) as nat;
        lemma_joined_pieces(whole, chunk, last);
        assert(parts.drop_last() =~= Seq::new(last, |i: int| piece(whole, chunk, i as nat)));
        assert(count * chunk == last * chunk + chunk) by (nonlinear_arith)
            requires
                count == last + 1,
        ;
        assert(joined(parts) =~= whole.take(
            if count * chunk < whole.len() {
                (count * chunk) as int
            } else {
                whole.len() as int
            },
        ));
    }
}

proof fn lemma_joined_padded(encoded: Seq<u8>, chunk: nat, count: nat)
    requires
        chunk > 0,
    ensures
        joined(Seq::new(count, |i: int| source_chunk(encoded, chunk, i as nat))) == padded(
            encoded,
            count * chunk,
        ),
    decreases count,
{
    let parts = Seq::new(count, |i: int| source_chunk(encoded, chunk, i as nat));
    if count == 0 {
        assert(0 * chunk == 0);
        assert(joined(parts) =~= padded(encoded, 0));
    } else {
        let last = (count - 1) as nat;
        lemma_joined_padded(encoded, chunk, last);
        assert(parts.drop_last() =~= Seq::new(
            last,
            |i: int| source_chunk(encoded, chunk, i as nat),
        ));
        assert(count * chunk == last * chunk + chunk) by (nonlinear_arith)
            requires
                count == last + 1,
        ;
        assert(joined(parts) =~= padded(encoded, count * chunk));
    }
}

/// Cutting and joining gives the encoded file back.
pub proof fn law_chunks_restore_the_encoding(encoded: Seq<u8>, chunk: nat)
    requires
        chunk > 0,
    ensures
        joined(source_chunks(encoded, chunk)).take(encoded.len() as int) == encoded,
{
    lemma_chunk_count(encoded.len(), chunk);
    let count = chunk_count(encoded.len(), chunk);
    lemma_joined_padded(encoded, chunk, count);
    assert(source_chunks(encoded, chunk) =~= Seq::new(
        count,
        |i: int| source_chunk(encoded, chunk, i as nat),
    ));
    assert(padded(encoded, count * chunk).take(encoded.len() as int) =~= encoded);
}

/// A header that describes a file accepts the file's own chunks.
pub proof fn law_own_chunks_restore_the_file(header: FileView, encoded: Seq<u8>, file: Seq<u8>)
    ensures
        header.describes(encoded, file) ==> header.restored(
            source_chunks(encoded, header.chunk_size),
        ) == Some(file),
{
    if header.describes(encoded, file) {
        law_chunks_restore_the_encoding(encoded, header.chunk_size);
    }
}

// ---------------------------------------------------------------------------
// Executable functions

/// How many chunks of `chunk` bytes hold `size` bytes; there is always one.
pub fn count_chunks(size: usize, chunk: usize) -> (count: usize)
    requires
        chunk > 0,
        size + chunk <= usize::MAX,
    ensures
        count == chunk_count(size as nat, chunk as nat),
{
    let full: usize = if size == 0 {
        1
    } else {
        size
    };
    (full + (chunk - 1)) / chunk
}

/// Picks the smaller of a file and its compressed form.
pub fn choose_codec(compressed: Vec<u8>, buffer: &[u8]) -> (chosen: (u8, Vec<u8>))
    ensures
        (chosen.0, chosen.1@) == smaller(compressed@, buffer@),
{
    if compressed.len() < buffer.len() {
        (DEFLATE_CODEC, compressed)
    } else {
        (RAW_CODEC, vstd::slice::slice_to_vec(buffer))
    }
}

/// Encodes a file in the smaller of its two forms.
pub fn binary_compress(buffer: &[u8]) -> (encoded: Option<(u8, Vec<u8>)>)
    ensures
        encoded is Some,
        encoded matches Some(e) ==> {
            &&& (e.0, e.1@) == smaller(deflated(buffer@, DEFLATE_LEVEL), buffer@)
            &&& unpacked(e.0, e.1@) == Some(buffer@)
            &&& e.0 <= 1
            &&& e.1@.len() <= buffer@.len()
        },
{
    match compress_file(buffer) {
        Some(compressed) => Some(choose_codec(compressed, buffer)),
        None => None,
    }
}

/// How many bytes of the file the chunk at `index` holds.
pub fn piece_len(size: usize, chunk: usize, index: usize) -> (length: usize)
    requires
        index * chunk <= usize::MAX,
    ensures
        length == piece_length(size as nat, chunk as nat, index as nat),
{
    let start: usize = index * chunk;
    if start >= size {
        0
    } else if size - start < chunk {
        size - start
    } else {
        chunk
    }
}

/// The part of an encoded file that belongs to the chunk at `index`.
pub fn cut(encoded: &[u8], chunk: usize, index: usize) -> (part: Vec<u8>)
    requires
        index * chunk <= usize::MAX,
    ensures
        part@ == piece(encoded@, chunk as nat, index as nat),
{
    let length: usize = piece_len(encoded.len(), chunk, index);
    let start: usize = if index * chunk < encoded.len() {
        index * chunk
    } else {
        encoded.len()
    };
    copy_range(encoded, start, start + length)
}

/// The file that an encoded file stands for.
pub fn unpack(codec: u8, encoded: Vec<u8>) -> (file: Option<Vec<u8>>)
    ensures
        file is Some <==> unpacked(codec, encoded@) is Some,
        file matches Some(f) ==> unpacked(codec, encoded@) == Some(f@),
{
    if codec == DEFLATE_CODEC {
        decompress_file(encoded.as_slice())
    } else {
        Some(encoded)
    }
}

/// Whether a file whose digest is `found` is the one that was announced.
pub fn file_matches(
    file: &[u8],
    found: &[u8; 32],
    filename: &str,
    file_size: usize,
    announced_checksum: u64,
    announced_digest: &[u8; 32],
) -> (genuine: bool)
    ensures
        genuine == (file@.len() == file_size && fnv1a(encode_utf8(filename@) + file@)
            == announced_checksum && found@ == announced_digest@),
{
    file.len() == file_size && checksum(file, filename.as_bytes()) == announced_checksum
        && bytes_equal(found.as_slice(), announced_digest.as_slice())
}

/// Unpacks the joined chunks, and hands the file out if it is the one that was
/// announced.
pub fn restore(
    encoded: Vec<u8>,
    codec: u8,
    filename: &str,
    file_size: usize,
    announced_checksum: u64,
    announced_digest: &[u8; 32],
) -> (file: Option<Vec<u8>>)
    ensures
        file is Some <==> unpacked(codec, encoded@) is Some && {
            let found = unpacked(codec, encoded@)->0;
            &&& found.len() == file_size
            &&& fnv1a(encode_utf8(filename@) + found) == announced_checksum
            &&& sha256(encode_utf8(filename@) + found) == announced_digest@
        },
        file matches Some(f) ==> unpacked(codec, encoded@) == Some(f@),
{
    match unpack(codec, encoded) {
        None => None,
        Some(file) => {
            let found: [u8; 32] = file_digest(file.as_slice(), filename.as_bytes());
            if file_matches(
                file.as_slice(),
                &found,
                filename,
                file_size,
                announced_checksum,
                announced_digest,
            ) {
                Some(file)
            } else {
                None
            }
        },
    }
}

} // verus!
