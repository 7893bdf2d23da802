//! What the packets look like from outside: where each field stands, how it is read,
//! and what a receiver and a sender accept.

use crate::binary::{
    binary_packets, binary_sendable, data_packet, header_bytes, parity_of, parity_packet,
    parsed_header, symbol_bytes, BinaryHeaderView, BINARY_GROUP_SIZE,
};
use crate::bytes::{be16, be32, be64, padded, u16_at, u32_at, u64_at, xor_bytes};
use crate::chars::{decimal, fields, hex, number, valid_filename};
use crate::checksum::fnv1a;
use crate::codec::{base64_bytes, base64_text, deflated, inflated, sha256, DEFLATE_LEVEL};
use crate::fountain::{
    fountain_data_bytes, fountain_data_packet, fountain_header, fountain_header_bytes,
    fountain_packets, fountain_repair_bytes, fountain_repair_packet, fountain_sendable,
    law_windows_get_their_overhead, packet_mask, parsed_fountain_header, repair_count,
    repair_packets_below, repairs_below, window_count, window_repairs, window_source,
    window_width, FountainHeaderView, FOUNTAIN_WINDOW_SIZE,
};
use crate::mask::repair_mask;
use crate::notation::{
    is_decimal, is_hex, law_checksum_notation, law_decimal_notation, lemma_parts_next,
    lemma_parts_single, parts, read_decimal, read_hex,
};
use crate::solving::{lemma_mixed_length, mixed};
use crate::text::{
    data_text, header_text, lemma_part_count, parsed_text_data, parsed_text_header, part_count,
    sent_text, text_packets, text_sendable, TextHeaderView, DEFAULT_DATA_CHUNK_CHARS,
    MAX_TOTAL_PACKETS,
};
use crate::text_receiver::text_restored;
use crate::transfer::{
    chunk_count, described, joined, lemma_chunk_count, piece, piece_length, smaller, source_chunk,
    source_chunks, unpacked, FileView, BINARY_MAX_PENDING_PACKETS, MAX_FILE_BYTES,
};
use vstd::prelude::*;
use vstd::utf8::*;

verus! {

/// The number that bytes stand for, the most significant first.
pub open spec fn read_be(bytes: Seq<u8>) -> int
    decreases bytes.len(),
{
    if bytes.len() == 0 {
        0
    } else {
        read_be(bytes.drop_last()) * 256 + bytes.last()
    }
}

/// The smaller of two numbers.
pub open spec fn least(a: int, b: int) -> int {
    if a < b {
        a
    } else {
        b
    }
}

/// Where the piece at an index begins in a sequence of `size`.
pub open spec fn border(index: nat, chunk: nat, size: nat) -> int {
    least((index * chunk) as int, size as int)
}

/// The byte at a position; zero beyond the end.
pub open spec fn byte_at(bytes: Seq<u8>, at: int) -> u8 {
    if 0 <= at < bytes.len() {
        bytes[at]
    } else {
        0
    }
}

/// The exclusive or of the bytes at place `at` of the chunks from `from` up to `to`.
pub open spec fn column(encoded: Seq<u8>, chunk: nat, from: int, to: int, at: int) -> u8
    decreases to - from,
{
    if to <= from {
        0
    } else {
        column(encoded, chunk, from, to - 1, at) ^ byte_at(encoded, (to - 1) * chunk + at)
    }
}

/// The exclusive or of the bytes at place `at` of the chunks, counted from `from`,
/// whose bits among the lowest `width` are set in a mask.
pub open spec fn masked_column(
    encoded: Seq<u8>,
    chunk: nat,
    from: int,
    mask: u32,
    width: nat,
    at: int,
) -> u8
    decreases width,
{
    if width == 0 {
        0
    } else {
        let bit = (width - 1) as nat;
        let rest = masked_column(encoded, chunk, from, mask, bit, at);
        if mask & (1u32 << (bit as u32)) != 0 {
            rest ^ byte_at(encoded, (from + bit) * chunk + at)
        } else {
            rest
        }
    }
}

// ---------------------------------------------------------------------------
// Numbers in bytes

proof fn lemma_read_two(bytes: Seq<u8>)
    requires
        bytes.len() == 2,
    ensures
        read_be(bytes) == bytes[0] * 0x100 + bytes[1],
{
    reveal_with_fuel(read_be, 3);
}

proof fn lemma_read_four(bytes: Seq<u8>)
    requires
        bytes.len() == 4,
    ensures
        read_be(bytes) == bytes[0] * 0x100_0000 + bytes[1] * 0x1_0000 + bytes[2] * 0x100
            + bytes[3],
{
    reveal_with_fuel(read_be, 5);
}

proof fn lemma_read_eight(bytes: Seq<u8>)
    requires
        bytes.len() == 8,
    ensures
        read_be(bytes) == read_be(bytes.take(4)) * 0x1_0000_0000 + read_be(bytes.skip(4)),
{
    reveal_with_fuel(read_be, 9);
    lemma_read_four(bytes.take(4));
    lemma_read_four(bytes.skip(4));
}

/// Numbers are read with the most significant byte first.
pub proof fn law_numbers_are_read_from_bytes(source: Seq<u8>, at: int)
    requires
        0 <= at,
    ensures
        at + 2 <= source.len() ==> u16_at(source, at) == read_be(source.subrange(at, at + 2)),
        at + 4 <= source.len() ==> u32_at(source, at) == read_be(source.subrange(at, at + 4)),
        at + 8 <= source.len() ==> u64_at(source, at) == read_be(source.subrange(at, at + 8)),
{
    if at + 2 <= source.len() {
        lemma_read_two(source.subrange(at, at + 2));
    }
    if at + 4 <= source.len() {
        lemma_read_four(source.subrange(at, at + 4));
    }
    if at + 8 <= source.len() {
        let eight = source.subrange(at, at + 8);
        lemma_read_eight(eight);
        lemma_read_four(source.subrange(at, at + 4));
        lemma_read_four(source.subrange(at + 4, at + 8));
        assert(eight.take(4) =~= source.subrange(at, at + 4));
        assert(eight.skip(4) =~= source.subrange(at + 4, at + 8));
    }
}

/// Numbers are written so that they read as themselves, most significant byte first.
#[verifier::rlimit(40)]
pub proof fn law_numbers_are_written_in_bytes(value: nat)
    ensures
        be16(value).len() == 2,
        be32(value).len() == 4,
        be64(value).len() == 8,
        value < 0x1_0000 ==> read_be(be16(value)) == value,
        value < 0x1_0000_0000 ==> read_be(be32(value)) == value,
        value < 0x1_0000_0000_0000_0000 ==> read_be(be64(value)) == value,
{
    lemma_two_written(value);
    lemma_four_written(value);
    if value < 0x1_0000_0000_0000_0000 {
        let (high, low) = (value / 0x1_0000_0000, value % 0x1_0000_0000);
        lemma_four_written(high);
        lemma_four_written(low);
        lemma_read_eight(be64(value));
        assert(be64(value).take(4) =~= be32(high));
        assert(be64(value).skip(4) =~= be32(low));
    }
}

proof fn lemma_two_written(value: nat)
    ensures
        value < 0x1_0000 ==> read_be(be16(value)) == value,
{
    lemma_read_two(be16(value));
}

proof fn lemma_four_written(value: nat)
    ensures
        value < 0x1_0000_0000 ==> read_be(be32(value)) == value,
{
    lemma_read_four(be32(value));
}

/// Mixing takes the exclusive or byte by byte, and leaves alone what has no partner.
/// Filling up appends zeros.
pub proof fn law_bytes_are_mixed_one_by_one(a: Seq<u8>, b: Seq<u8>, at: int, length: nat)
    requires
        0 <= at,
    ensures
        xor_bytes(a, b).len() == a.len(),
        at < a.len() && at < b.len() ==> xor_bytes(a, b)[at] == a[at] ^ b[at],
        b.len() <= at < a.len() ==> xor_bytes(a, b)[at] == a[at],
        padded(a, length).len() == length,
        at < length ==> padded(a, length)[at] == byte_at(a, at),
{
}

// ---------------------------------------------------------------------------
// Chunks

/// A file has as many chunks as it takes to hold it, and one if it is empty.
pub proof fn law_chunks_are_counted(size: nat, chunk: nat)
    requires
        chunk > 0,
    ensures
        chunk_count(size, chunk) >= 1,
        chunk_count(size, chunk) * chunk >= size,
        chunk_count(size, chunk) > 1 ==> (chunk_count(size, chunk) - 1) * chunk < size,
{
    lemma_chunk_count(size, chunk);
}

/// A text has as many parts as it takes to hold it, and none if it is empty.
pub proof fn law_parts_are_counted(size: nat, chunk: nat)
    requires
        chunk > 0,
    ensures
        part_count(size, chunk) * chunk >= size,
        part_count(size, chunk) > 0 ==> (part_count(size, chunk) - 1) * chunk < size,
{
    lemma_part_count(size, chunk);
    let count = part_count(size, chunk);
    if count > 0 {
        assert((count - 1) * chunk < size);
    }
}

/// The piece at an index begins after all earlier ones and ends where it is full or the
/// whole ends.
pub proof fn law_pieces_are_cut_in_order<A>(whole: Seq<A>, chunk: nat, index: nat)
    requires
        chunk > 0,
    ensures
        ({
            let from = border(index, chunk, whole.len());
            let to = border(index + 1, chunk, whole.len());
            &&& piece(whole, chunk, index) == whole.subrange(from, to)
            &&& piece_length(whole.len(), chunk, index) == to - from
        }),
{
    assert((index + 1) * chunk == index * chunk + chunk) by (nonlinear_arith);
    assert(0 <= index * chunk) by (nonlinear_arith);
}

/// A chunk is its piece of the file, and zeros where the file has ended.
proof fn lemma_chunk_bytes(encoded: Seq<u8>, chunk: nat, index: nat, at: int)
    requires
        0 <= at < chunk,
    ensures
        source_chunk(encoded, chunk, index).len() == chunk,
        source_chunk(encoded, chunk, index)[at] == byte_at(encoded, index * chunk + at),
{
    assert(0 <= index * chunk) by (nonlinear_arith);
}

/// The chunks of a file, one after the other, are the file and zeros after it.
pub proof fn law_chunks_hold_the_file(encoded: Seq<u8>, chunk: nat, index: nat, at: int)
    requires
        0 <= at < chunk,
        index < chunk_count(encoded.len(), chunk),
    ensures
        source_chunks(encoded, chunk).len() == chunk_count(encoded.len(), chunk),
        source_chunks(encoded, chunk)[index as int].len() == chunk,
        source_chunks(encoded, chunk)[index as int][at] == byte_at(encoded, index * chunk + at),
{
    lemma_chunk_bytes(encoded, chunk, index, at);
}

/// Putting sequences together keeps their order: the join of a list and one more is the
/// join of the list and then that one.
pub proof fn law_joining_keeps_the_order<A>(list: Seq<Seq<A>>, more: Seq<A>)
    ensures
        joined(Seq::<Seq<A>>::empty()) == Seq::<A>::empty(),
        joined(list.push(more)) == joined(list) + more,
{
    assert(list.push(more).drop_last() =~= list);
}

/// A file is sent compressed exactly if that is shorter, and the codec says which it is.
/// The codec one is undone by decompression; a file sent as it is stays as it is.
pub proof fn law_shorter_form_is_sent(compressed: Seq<u8>, file: Seq<u8>)
    ensures
        smaller(compressed, file).0 == 1 <==> compressed.len() < file.len(),
        smaller(compressed, file).0 == 0 <==> compressed.len() >= file.len(),
        smaller(compressed, file).1 == (if compressed.len() < file.len() {
            compressed
        } else {
            file
        }),
        unpacked(1, compressed) == inflated(compressed),
        unpacked(0, file) == Some(file),
{
}

/// A file is restored from its chunks, put together and cut to the announced length,
/// exactly if what that unpacks to has the announced length, hash and digest.
pub proof fn law_files_are_restored(header: FileView, chunks: Seq<Seq<u8>>, file: Seq<u8>)
    ensures
        ({
            let encoded = joined(chunks).take(header.compressed_size as int);
            let named = encode_utf8(header.filename) + file;
            header.restored(chunks) == Some(file) <==> {
                &&& header.codec == 1 ==> inflated(encoded) == Some(file)
                &&& header.codec != 1 ==> encoded == file
                &&& file.len() == header.file_size
                &&& fnv1a(named) == header.checksum
                &&& sha256(named) == header.digest
            }
        }),
{
}

/// A file is restored from text exactly if the text is Base64 of a stream that unpacks to
/// it, and it has the announced length and hash.
pub proof fn law_files_are_restored_from_text(
    encoded: Seq<char>,
    filename: Seq<char>,
    file_size: nat,
    announced: u64,
    file: Seq<u8>,
)
    ensures
        text_restored(encoded, filename, file_size, announced) == Some(file) <==> {
            &&& base64_bytes(encoded) is Some
            &&& inflated(base64_bytes(encoded)->0) == Some(file)
            &&& file.len() == file_size
            &&& fnv1a(encode_utf8(filename) + file) == announced
        },
{
}

/// The header of a file tells its name, its length, the length of its encoded form, and
/// the hash and the digest of the name followed by the file.
pub proof fn law_header_tells_the_file(
    file: Seq<u8>,
    filename: Seq<char>,
    codec: u8,
    encoded: Seq<u8>,
    chunk_size: nat,
)
    ensures
        ({
            let header = described(file, filename, codec, encoded, chunk_size);
            &&& header.codec == codec
            &&& header.filename == filename
            &&& header.file_size == file.len()
            &&& header.compressed_size == encoded.len()
            &&& header.chunk_size == chunk_size
            &&& header.data_packets == chunk_count(encoded.len(), chunk_size)
            &&& header.checksum == fnv1a(encode_utf8(filename) + file)
            &&& header.digest == sha256(encode_utf8(filename) + file)
        }),
{
}

// ---------------------------------------------------------------------------
// The text transport

/// What can be sent as text.
pub proof fn law_what_can_be_sent_as_text(file: Seq<u8>, filename: Seq<char>, chunk: nat)
    ensures
        text_sendable(file, filename, chunk) <==> 300 <= chunk <= 1_500 && file.len() <= 1_572_864
            && valid_filename(filename) && !filename.contains('|'),
{
}

/// A text header is five fields between bars: the word, the name, the number of parts,
/// the checksum in sixteen hexadecimal digits, and the size of the file.
pub proof fn law_text_header_layout(header: TextHeaderView)
    requires
        !header.filename.contains('|'),
    ensures
        ({
            let list = parts(header_text(header), '|');
            &&& list.len() == 5
            &&& list[0] == seq!['M', 'E', 'T', 'A', 'D', 'A', 'T', 'A']
            &&& list[1] == header.filename
            &&& is_decimal(list[2]) && read_decimal(list[2]) == header.total_packets
            &&& is_hex(list[3]) && list[3].len() == 16 && read_hex(list[3]) == header.checksum
            &&& is_decimal(list[4]) && read_decimal(list[4]) == header.file_size
        }),
{
    reveal_strlit("METADATA|");
    let word = seq!['M', 'E', 'T', 'A', 'D', 'A', 'T', 'A'];
    let name = header.filename;
    let total = decimal(header.total_packets);
    let sum = hex(header.checksum as nat, 16);
    let size = decimal(header.file_size);
    law_decimal_notation(header.total_packets);
    law_decimal_notation(header.file_size);
    law_checksum_notation(header.checksum);
    lemma_no_bar(total);
    lemma_no_bar(size);
    lemma_no_bar(sum);
    assert(!word.contains('|'));
    lemma_parts_single(word, '|');
    let one = word + seq!['|'] + name;
    let two = one + seq!['|'] + total;
    let three = two + seq!['|'] + sum;
    lemma_parts_next(word, name, '|');
    lemma_parts_next(one, total, '|');
    lemma_parts_next(two, sum, '|');
    lemma_parts_next(three, size, '|');
    assert(header_text(header) =~= three + seq!['|'] + size);
}

proof fn lemma_no_bar(text: Seq<char>)
    requires
        is_decimal(text) || is_hex(text),
    ensures
        !text.contains('|'),
{
    if text.contains('|') {
        let k = choose|k: int| 0 <= k < text.len() && text[k] == '|';
        assert(text[k] == '|');
        if is_decimal(text) {
            assert(crate::notation::is_digit(text[k]));
        } else {
            assert(crate::notation::is_hex_digit(text[k]));
        }
    }
}

/// Whether a text is a data packet: the word, the checksum in sixteen hexadecimal
/// digits, the index, and the part, separated by bars.
pub open spec fn is_data_text(text: Seq<char>, checksum: u64, index: nat, part: Seq<char>) -> bool {
    exists|number: Seq<char>|
        {
            &&& #[trigger] is_decimal(number)
            &&& read_decimal(number) == index
            &&& text.len() == 23 + number.len() + part.len()
            &&& text.take(5) == seq!['D', 'A', 'T', 'A', '|']
            &&& is_hex(text.subrange(5, 21))
            &&& read_hex(text.subrange(5, 21)) == checksum
            &&& text[21] == '|'
            &&& text.subrange(22, (22 + number.len()) as int) == number
            &&& text[(22 + number.len()) as int] == '|'
            &&& text.skip((23 + number.len()) as int) == part
        }
}

/// A text transfer is the header and the parts of the encoded file in order, each of
/// the given size but the last.
pub proof fn law_text_packets_layout(header: TextHeaderView, encoded: Seq<char>, chunk: nat)
    requires
        chunk > 0,
    ensures
        text_packets(header, encoded, chunk).len() == 1 + part_count(encoded.len(), chunk),
        text_packets(header, encoded, chunk)[0] == header_text(header),
        forall|k: int|
            1 <= k <= part_count(encoded.len(), chunk) ==> is_data_text(
                #[trigger] text_packets(header, encoded, chunk)[k],
                header.checksum,
                (k - 1) as nat,
                encoded.subrange(
                    border((k - 1) as nat, chunk, encoded.len()),
                    border(k as nat, chunk, encoded.len()),
                ),
            ),
{
    let all = text_packets(header, encoded, chunk);
    assert forall|k: int| 1 <= k <= part_count(encoded.len(), chunk) implies is_data_text(
        #[trigger] all[k],
        header.checksum,
        (k - 1) as nat,
        encoded.subrange(
            border((k - 1) as nat, chunk, encoded.len()),
            border(k as nat, chunk, encoded.len()),
        ),
    ) by {
        let i = (k - 1) as nat;
        law_pieces_are_cut_in_order(encoded, chunk, i);
        lemma_data_text(header.checksum, i, piece(encoded, chunk, i));
    }
}

proof fn lemma_data_text(checksum: u64, index: nat, part: Seq<char>)
    ensures
        is_data_text(data_text(checksum, index, part), checksum, index, part),
{
    reveal_strlit("DATA|");
    let text = data_text(checksum, index, part);
    let sum = hex(checksum as nat, 16);
    let at = decimal(index);
    law_checksum_notation(checksum);
    law_decimal_notation(index);
    assert(text.take(5) =~= seq!['D', 'A', 'T', 'A', '|']);
    assert(text.subrange(5, 21) =~= sum);
    assert(text.subrange(22, (22 + at.len()) as int) =~= at);
    assert(text.skip((23 + at.len()) as int) =~= part);
    assert(is_decimal(at));
}

/// What a sender makes of a file as text: the packets of the Base64 text of its Deflate
/// stream, under a header that tells its name, its length, the number of parts, and the
/// hash of the name followed by the file. What cannot be sent gives no packets.
pub proof fn law_text_sender(file: Seq<u8>, filename: Seq<char>, chunk: nat)
    ensures
        ({
            let encoded = base64_text(deflated(file, 6));
            let header = TextHeaderView {
                checksum: fnv1a(encode_utf8(filename) + file),
                total_packets: part_count(encoded.len(), chunk),
                file_size: file.len(),
                filename,
            };
            sent_text(file, filename, chunk) == (if text_sendable(file, filename, chunk) {
                text_packets(header, encoded, chunk)
            } else {
                Seq::empty()
            })
        }),
{
}

/// Where nothing else is said, text goes in parts of 600 characters; every sender
/// compresses at the sixth level.
pub proof fn law_usual_sizes()
    ensures
        DEFAULT_DATA_CHUNK_CHARS == 600,
        DEFLATE_LEVEL == 6,
        BINARY_GROUP_SIZE == 8,
        FOUNTAIN_WINDOW_SIZE == 32,
        BINARY_MAX_PENDING_PACKETS == 10_000,
        MAX_TOTAL_PACKETS == 10_000,
        MAX_FILE_BYTES == 1_572_864,
{
}

/// A text header is read from five fields that say something acceptable: a name that
/// may be sent, one to ten thousand parts, a checksum, and a size of at most 1.5 MiB.
pub proof fn law_text_headers_are_read(packet: Seq<char>)
    ensures
        ({
            let list = fields(packet, 6);
            let total = number(list[2], 10, usize::MAX as nat);
            let sum = number(list[3], 16, u64::MAX as nat);
            let size = number(list[4], 10, usize::MAX as nat);
            &&& parsed_text_header(packet) is Some <==> {
                &&& list.len() == 5
                &&& list[0] == seq!['M', 'E', 'T', 'A', 'D', 'A', 'T', 'A']
                &&& valid_filename(list[1])
                &&& total is Some && 1 <= total->0 <= 10_000
                &&& sum is Some
                &&& size is Some && size->0 <= 1_572_864
            }
            &&& parsed_text_header(packet) matches Some(header) ==> {
                &&& header.filename == list[1]
                &&& header.total_packets == total->0
                &&& header.checksum == sum->0
                &&& header.file_size == size->0
            }
        }),
{
    reveal_strlit("METADATA");
    assert("METADATA"@ =~= seq!['M', 'E', 'T', 'A', 'D', 'A', 'T', 'A']);
}

/// A data packet is read from four fields: the word, a checksum, an index, and a part
/// that is not empty and has at most 1,500 bytes; the part may hold bars.
pub proof fn law_text_parts_are_read(packet: Seq<char>)
    ensures
        ({
            let list = fields(packet, 4);
            let sum = number(list[1], 16, u64::MAX as nat);
            let index = number(list[2], 10, usize::MAX as nat);
            &&& parsed_text_data(packet) is Some <==> {
                &&& list.len() == 4
                &&& list[0] == seq!['D', 'A', 'T', 'A']
                &&& sum is Some
                &&& index is Some
                &&& list[3].len() > 0
                &&& encode_utf8(list[3]).len() <= 1_500
            }
            &&& parsed_text_data(packet) matches Some(data) ==> {
                &&& data.checksum == sum->0
                &&& data.index == index->0
                &&& data.chunk == list[3]
            }
        }),
{
    reveal_strlit("DATA");
    assert("DATA"@ =~= seq!['D', 'A', 'T', 'A']);
}

// ---------------------------------------------------------------------------
// The binary transport

/// What a binary header may say of a file.
pub open spec fn may_be_announced(file: FileView) -> bool {
    &&& file.codec == 0 || file.codec == 1
    &&& 400 <= file.chunk_size <= 1_800
    &&& 1 <= file.data_packets <= 10_000
    &&& file.file_size <= 1_572_864
    &&& file.compressed_size <= 3_145_728
    &&& valid_filename(file.filename)
    &&& file.data_packets == chunk_count(file.compressed_size, file.chunk_size)
}

/// What can be sent over the binary transport.
pub proof fn law_what_can_be_sent_in_binary(
    file: Seq<u8>,
    filename: Seq<char>,
    chunk_size: nat,
    fec_group_size: nat,
)
    ensures
        binary_sendable(file, filename, chunk_size, fec_group_size) <==> 400 <= chunk_size <= 1_800
            && (fec_group_size == 0 || fec_group_size == 8) && file.len() <= 1_572_864
            && valid_filename(filename),
{
}

/// Where the fields of a binary header stand.
#[verifier::rlimit(40)]
pub proof fn law_binary_header_layout(header: BinaryHeaderView)
    requires
        header.acceptable(),
    ensures
        ({
            let packet = header_bytes(header);
            let name = encode_utf8(header.file.filename);
            &&& packet.len() == 63 + name.len()
            &&& packet.take(4) == seq![0x54u8, 0x4eu8, 0x32u8, 0u8]
            &&& packet[4] == header.file.codec
            &&& packet[5] == header.fec_group_size
            &&& packet[6] == 0
            &&& read_be(packet.subrange(7, 15)) == header.file.checksum
            &&& packet.subrange(15, 47) == header.file.digest
            &&& read_be(packet.subrange(47, 51)) == header.file.file_size
            &&& read_be(packet.subrange(51, 55)) == header.file.compressed_size
            &&& read_be(packet.subrange(55, 57)) == header.file.chunk_size
            &&& read_be(packet.subrange(57, 61)) == header.file.data_packets
            &&& read_be(packet.subrange(61, 63)) == name.len()
            &&& packet.skip(63) == name
        }),
{
    let file = header.file;
    let name = encode_utf8(file.filename);
    lemma_binary_header_fields(header);
    law_numbers_are_written_in_bytes(file.checksum as nat);
    law_numbers_are_written_in_bytes(file.file_size);
    law_numbers_are_written_in_bytes(file.compressed_size);
    law_numbers_are_written_in_bytes(file.chunk_size);
    law_numbers_are_written_in_bytes(file.data_packets);
    law_numbers_are_written_in_bytes(name.len());
}

#[verifier::rlimit(40)]
proof fn lemma_binary_header_fields(header: BinaryHeaderView)
    requires
        header.acceptable(),
    ensures
        ({
            let packet = header_bytes(header);
            let file = header.file;
            let name = encode_utf8(file.filename);
            &&& packet.len() == 63 + name.len()
            &&& packet.take(4) == seq![0x54u8, 0x4eu8, 0x32u8, 0u8]
            &&& packet[4] == file.codec && packet[5] == header.fec_group_size && packet[6] == 0
            &&& packet.subrange(7, 15) == be64(file.checksum as nat)
            &&& packet.subrange(15, 47) == file.digest
            &&& packet.subrange(47, 51) == be32(file.file_size)
            &&& packet.subrange(51, 55) == be32(file.compressed_size)
            &&& packet.subrange(55, 57) == be16(file.chunk_size)
            &&& packet.subrange(57, 61) == be32(file.data_packets)
            &&& packet.subrange(61, 63) == be16(name.len())
            &&& packet.skip(63) == name
        }),
{
    let packet = header_bytes(header);
    let file = header.file;
    let name = encode_utf8(file.filename);
    assert(packet.take(4) =~= seq![0x54u8, 0x4eu8, 0x32u8, 0u8]);
    assert(packet.subrange(7, 15) =~= be64(file.checksum as nat));
    assert(packet.subrange(15, 47) =~= file.digest);
    assert(packet.subrange(47, 51) =~= be32(file.file_size));
    assert(packet.subrange(51, 55) =~= be32(file.compressed_size));
    assert(packet.subrange(55, 57) =~= be16(file.chunk_size));
    assert(packet.subrange(57, 61) =~= be32(file.data_packets));
    assert(packet.subrange(61, 63) =~= be16(name.len()));
    assert(packet.skip(63) =~= name);
}

proof fn lemma_symbol_layout(kind: u8, checksum: u64, number: nat, payload: Seq<u8>)
    requires
        number < 0x1_0000_0000,
    ensures
        ({
            let packet = symbol_bytes(kind, checksum, number, payload);
            &&& packet.take(4) == seq![0x54u8, 0x4eu8, 0x32u8, kind]
            &&& read_be(packet.subrange(4, 12)) == checksum
            &&& read_be(packet.subrange(12, 16)) == number
            &&& packet.len() == 16 + payload.len()
            &&& packet.skip(16) == payload
        }),
{
    let packet = symbol_bytes(kind, checksum, number, payload);
    law_numbers_are_written_in_bytes(checksum as nat);
    law_numbers_are_written_in_bytes(number);
    assert(packet.take(4) =~= seq![0x54u8, 0x4eu8, 0x32u8, kind]);
    assert(packet.subrange(4, 12) =~= be64(checksum as nat));
    assert(packet.subrange(12, 16) =~= be32(number));
    assert(packet.skip(16) =~= payload);
}

/// A binary data packet tells its transfer and its index, and carries its piece of the
/// encoded file.
pub proof fn law_binary_data_layout(header: BinaryHeaderView, encoded: Seq<u8>, index: nat)
    requires
        header.acceptable(),
        header.file.compressed_size == encoded.len(),
        index < header.file.data_packets,
    ensures
        ({
            let packet = data_packet(header, encoded, index);
            let chunk = header.file.chunk_size;
            &&& packet.take(4) == seq![0x54u8, 0x4eu8, 0x32u8, 1u8]
            &&& read_be(packet.subrange(4, 12)) == header.file.checksum
            &&& read_be(packet.subrange(12, 16)) == index
            &&& packet.skip(16) == encoded.subrange(
                border(index, chunk, encoded.len()),
                border(index + 1, chunk, encoded.len()),
            )
        }),
{
    law_pieces_are_cut_in_order(encoded, header.file.chunk_size, index);
    lemma_symbol_layout(
        1,
        header.file.checksum,
        index,
        piece(encoded, header.file.chunk_size, index),
    );
}

proof fn lemma_parity_column(encoded: Seq<u8>, chunk: nat, from: nat, to: nat, at: int)
    requires
        0 <= at < chunk,
        to <= chunk_count(encoded.len(), chunk),
    ensures
        parity_of(source_chunks(encoded, chunk), from, to, chunk).len() == chunk,
        parity_of(source_chunks(encoded, chunk), from, to, chunk)[at] == column(
            encoded,
            chunk,
            from as int,
            to as int,
            at,
        ),
    decreases to,
{
    if to > from {
        let last = (to - 1) as nat;
        lemma_parity_column(encoded, chunk, from, last, at);
        law_chunks_hold_the_file(encoded, chunk, last, at);
    }
}

/// A parity packet tells its transfer and its group, and carries the exclusive or of
/// the chunks of that group, eight or as many as are left.
pub proof fn law_binary_parity_layout(
    header: BinaryHeaderView,
    encoded: Seq<u8>,
    group: nat,
    at: int,
)
    requires
        header.acceptable(),
        header.fec_group_size == 8,
        header.file.compressed_size == encoded.len(),
        group * 8 < header.file.data_packets,
        0 <= at < header.file.chunk_size,
    ensures
        ({
            let packet = parity_packet(header, encoded, group);
            &&& packet.take(4) == seq![0x54u8, 0x4eu8, 0x32u8, 2u8]
            &&& read_be(packet.subrange(4, 12)) == header.file.checksum
            &&& read_be(packet.subrange(12, 16)) == group
            &&& packet.len() == 16 + header.file.chunk_size
            &&& packet[16 + at] == column(
                encoded,
                header.file.chunk_size,
                (group * 8) as int,
                least((group * 8 + 8) as int, header.file.data_packets as int),
                at,
            )
        }),
{
    let chunk = header.file.chunk_size;
    let payload = parity_of(
        source_chunks(encoded, chunk),
        group * 8,
        header.group_end(group),
        chunk,
    );
    lemma_parity_column(encoded, chunk, group * 8, header.group_end(group), at);
    lemma_symbol_layout(2, header.file.checksum, group, payload);
    let packet = parity_packet(header, encoded, group);
    assert(packet.skip(16)[at] == packet[16 + at]);
}

/// A binary transfer is the header, the data packets in order, and, with error
/// correction on, one parity packet for each eight chunks begun, in order.
pub proof fn law_binary_packets_layout(header: BinaryHeaderView, encoded: Seq<u8>)
    requires
        header.acceptable(),
    ensures
        ({
            let all = binary_packets(header, encoded);
            let total = header.file.data_packets;
            let groups = if header.fec_group_size == 0 {
                0
            } else {
                (total + 7) / 8
            };
            &&& all.len() == 1 + total + groups
            &&& all[0] == header_bytes(header)
            &&& forall|i: nat|
                #![trigger data_packet(header, encoded, i)]
                i < total ==> all[(1 + i) as int] == data_packet(header, encoded, i)
            &&& forall|g: nat|
                #![trigger parity_packet(header, encoded, g)]
                g < groups ==> all[(1 + total + g) as int] == parity_packet(header, encoded, g)
        }),
{
}

/// A binary header is read from its fields, and accepted exactly if they say what may
/// be announced. What follows the name does not matter.
pub proof fn law_binary_headers_are_read(packet: Seq<u8>)
    ensures
        ({
            let length = read_be(packet.subrange(61, 63));
            let name = packet.subrange(63, 63 + length);
            let header = BinaryHeaderView {
                file: FileView {
                    codec: packet[4],
                    checksum: read_be(packet.subrange(7, 15)) as u64,
                    digest: packet.subrange(15, 47),
                    file_size: read_be(packet.subrange(47, 51)) as nat,
                    compressed_size: read_be(packet.subrange(51, 55)) as nat,
                    chunk_size: read_be(packet.subrange(55, 57)) as nat,
                    data_packets: read_be(packet.subrange(57, 61)) as nat,
                    filename: decode_utf8(name),
                },
                fec_group_size: packet[5] as nat,
            };
            &&& parsed_header(packet) is Some <==> {
                &&& packet.len() >= 63
                &&& packet.take(4) == seq![0x54u8, 0x4eu8, 0x32u8, 0u8]
                &&& 63 + length <= packet.len()
                &&& valid_utf8(name)
                &&& packet[5] == 0 || packet[5] == 8
                &&& may_be_announced(header.file)
            }
            &&& parsed_header(packet) is Some ==> parsed_header(packet) == Some(header)
        }),
{
    if packet.len() >= 63 {
        law_numbers_are_read_from_bytes(packet, 7);
        law_numbers_are_read_from_bytes(packet, 47);
        law_numbers_are_read_from_bytes(packet, 51);
        law_numbers_are_read_from_bytes(packet, 55);
        law_numbers_are_read_from_bytes(packet, 57);
        law_numbers_are_read_from_bytes(packet, 61);
        lemma_first_four(packet, 0x54, 0x4e, 0x32, 0);
        assert(packet.subrange(15, 47).len() == 32);
    }
}

/// The first four bytes are those of a kind of packet exactly if the first three are and
/// the fourth is.
pub proof fn lemma_first_four(packet: Seq<u8>, a: u8, b: u8, c: u8, d: u8)
    requires
        packet.len() >= 4,
    ensures
        packet.take(4) == seq![a, b, c, d] <==> packet.take(3) == seq![a, b, c] && packet[3] == d,
{
    let four = packet.take(4);
    let three = packet.take(3);
    if four == seq![a, b, c, d] {
        assert(four[0] == a && four[1] == b && four[2] == c && four[3] == d);
        assert(three =~= seq![a, b, c]);
    }
    if three == seq![a, b, c] && packet[3] == d {
        assert(three[0] == a && three[1] == b && three[2] == c);
        assert(four =~= seq![a, b, c, d]);
    }
}

// ---------------------------------------------------------------------------
// The fountain transport

/// What can be sent over the fountain transport.
pub proof fn law_what_can_be_sent_as_fountain(
    file: Seq<u8>,
    filename: Seq<char>,
    chunk_size: nat,
    overhead_percent: nat,
)
    ensures
        fountain_sendable(file, filename, chunk_size, overhead_percent) <==> 400 <= chunk_size
            <= 1_800 && overhead_percent <= 50 && file.len() <= 1_572_864 && valid_filename(
            filename,
        ),
{
}

/// Where the fields of a fountain header stand.
#[verifier::rlimit(40)]
pub proof fn law_fountain_header_layout(header: FountainHeaderView)
    requires
        header.acceptable(),
    ensures
        ({
            let packet = fountain_header_bytes(header);
            let name = encode_utf8(header.file.filename);
            &&& packet.len() == 68 + name.len()
            &&& packet.take(4) == seq![0x54u8, 0x4eu8, 0x46u8, 0u8]
            &&& packet[4] == header.file.codec
            &&& packet[5] == 32
            &&& packet[6] == 0
            &&& read_be(packet.subrange(7, 15)) == header.file.checksum
            &&& packet.subrange(15, 47) == header.file.digest
            &&& read_be(packet.subrange(47, 51)) == header.file.file_size
            &&& read_be(packet.subrange(51, 55)) == header.file.compressed_size
            &&& read_be(packet.subrange(55, 57)) == header.file.chunk_size
            &&& read_be(packet.subrange(57, 61)) == header.file.data_packets
            &&& packet[61] == header.overhead_percent
            &&& read_be(packet.subrange(62, 66)) == header.repair_packets
            &&& read_be(packet.subrange(66, 68)) == name.len()
            &&& packet.skip(68) == name
        }),
{
    let file = header.file;
    let name = encode_utf8(file.filename);
    lemma_fountain_header_fields(header);
    law_numbers_are_written_in_bytes(file.checksum as nat);
    law_numbers_are_written_in_bytes(file.file_size);
    law_numbers_are_written_in_bytes(file.compressed_size);
    law_numbers_are_written_in_bytes(file.chunk_size);
    law_numbers_are_written_in_bytes(file.data_packets);
    law_numbers_are_written_in_bytes(header.repair_packets);
    law_numbers_are_written_in_bytes(name.len());
}

#[verifier::rlimit(40)]
proof fn lemma_fountain_header_fields(header: FountainHeaderView)
    requires
        header.acceptable(),
    ensures
        ({
            let packet = fountain_header_bytes(header);
            let file = header.file;
            let name = encode_utf8(file.filename);
            &&& packet.len() == 68 + name.len()
            &&& packet.take(4) == seq![0x54u8, 0x4eu8, 0x46u8, 0u8]
            &&& packet[4] == file.codec && packet[5] == 32 && packet[6] == 0
            &&& packet.subrange(7, 15) == be64(file.checksum as nat)
            &&& packet.subrange(15, 47) == file.digest
            &&& packet.subrange(47, 51) == be32(file.file_size)
            &&& packet.subrange(51, 55) == be32(file.compressed_size)
            &&& packet.subrange(55, 57) == be16(file.chunk_size)
            &&& packet.subrange(57, 61) == be32(file.data_packets)
            &&& packet[61] == header.overhead_percent
            &&& packet.subrange(62, 66) == be32(header.repair_packets)
            &&& packet.subrange(66, 68) == be16(name.len())
            &&& packet.skip(68) == name
        }),
{
    let packet = fountain_header_bytes(header);
    let file = header.file;
    let name = encode_utf8(file.filename);
    assert(packet.take(4) =~= seq![0x54u8, 0x4eu8, 0x46u8, 0u8]);
    assert(packet.subrange(7, 15) =~= be64(file.checksum as nat));
    assert(packet.subrange(15, 47) =~= file.digest);
    assert(packet.subrange(47, 51) =~= be32(file.file_size));
    assert(packet.subrange(51, 55) =~= be32(file.compressed_size));
    assert(packet.subrange(55, 57) =~= be16(file.chunk_size));
    assert(packet.subrange(57, 61) =~= be32(file.data_packets));
    assert(packet.subrange(62, 66) =~= be32(header.repair_packets));
    assert(packet.subrange(66, 68) =~= be16(name.len()));
    assert(packet.skip(68) =~= name);
}

/// A fountain data packet tells its transfer and its index, and carries its piece of
/// the encoded file.
pub proof fn law_fountain_data_layout(header: FountainHeaderView, encoded: Seq<u8>, index: nat)
    requires
        header.acceptable(),
        header.file.compressed_size == encoded.len(),
        index < header.file.data_packets,
    ensures
        ({
            let packet = fountain_data_packet(header, encoded, index);
            let chunk = header.file.chunk_size;
            &&& packet.take(4) == seq![0x54u8, 0x4eu8, 0x46u8, 1u8]
            &&& read_be(packet.subrange(4, 12)) == header.file.checksum
            &&& read_be(packet.subrange(12, 16)) == index
            &&& packet.skip(16) == encoded.subrange(
                border(index, chunk, encoded.len()),
                border(index + 1, chunk, encoded.len()),
            )
        }),
{
    let packet = fountain_data_packet(header, encoded, index);
    let payload = piece(encoded, header.file.chunk_size, index);
    law_pieces_are_cut_in_order(encoded, header.file.chunk_size, index);
    law_numbers_are_written_in_bytes(header.file.checksum as nat);
    law_numbers_are_written_in_bytes(index);
    assert(packet == fountain_data_bytes(header.file.checksum, index, payload));
    assert(packet.take(4) =~= seq![0x54u8, 0x4eu8, 0x46u8, 1u8]);
    assert(packet.subrange(4, 12) =~= be64(header.file.checksum as nat));
    assert(packet.subrange(12, 16) =~= be32(index));
    assert(packet.skip(16) =~= payload);
}

proof fn lemma_mixed_column(
    encoded: Seq<u8>,
    chunk: nat,
    window: nat,
    mask: u32,
    width: nat,
    at: int,
)
    requires
        0 <= at < chunk,
        width <= window_width(chunk_count(encoded.len(), chunk), window),
    ensures
        mixed(window_source(encoded, chunk, window), mask, 0, width, chunk)[at] == masked_column(
            encoded,
            chunk,
            (window * 32) as int,
            mask,
            width,
            at,
        ),
    decreases width,
{
    let source = window_source(encoded, chunk, window);
    if width > 0 {
        let bit = (width - 1) as nat;
        lemma_mixed_column(encoded, chunk, window, mask, bit, at);
        lemma_mixed_length(source, mask, 0, bit, chunk);
        law_chunks_hold_the_file(encoded, chunk, window * 32 + bit, at);
        assert(source[bit as int] == source_chunks(encoded, chunk)[(window * 32 + bit) as int]);
    }
}

/// A repair packet tells its transfer, its window and its mask, and carries the
/// exclusive or of the chunks of that window that the mask selects.
pub proof fn law_fountain_repair_layout(
    header: FountainHeaderView,
    encoded: Seq<u8>,
    window: nat,
    repair: nat,
    at: int,
)
    requires
        header.acceptable(),
        header.file.compressed_size == encoded.len(),
        window * 32 < header.file.data_packets,
        0 <= at < header.file.chunk_size,
    ensures
        ({
            let packet = fountain_repair_packet(header, encoded, window, repair);
            let mask = packet_mask(header, window, repair);
            &&& packet.take(4) == seq![0x54u8, 0x4eu8, 0x46u8, 2u8]
            &&& read_be(packet.subrange(4, 12)) == header.file.checksum
            &&& read_be(packet.subrange(12, 14)) == window
            &&& read_be(packet.subrange(14, 18)) == mask
            &&& packet.len() == 18 + header.file.chunk_size
            &&& packet[18 + at] == masked_column(
                encoded,
                header.file.chunk_size,
                (window * 32) as int,
                mask,
                least(32, header.file.data_packets - window * 32) as nat,
                at,
            )
        }),
{
    let packet = fountain_repair_packet(header, encoded, window, repair);
    let mask = packet_mask(header, window, repair);
    let chunk = header.file.chunk_size;
    let width = window_width(header.file.data_packets, window);
    let payload = mixed(window_source(encoded, chunk, window), mask, 0, width, chunk);
    lemma_mixed_length(window_source(encoded, chunk, window), mask, 0, width, chunk);
    lemma_mixed_column(encoded, chunk, window, mask, width, at);
    law_numbers_are_written_in_bytes(header.file.checksum as nat);
    law_numbers_are_written_in_bytes(window);
    law_numbers_are_written_in_bytes(mask as nat);
    assert(packet == fountain_repair_bytes(header.file.checksum, window, mask, payload));
    assert(packet.take(4) =~= seq![0x54u8, 0x4eu8, 0x46u8, 2u8]);
    assert(packet.subrange(4, 12) =~= be64(header.file.checksum as nat));
    assert(packet.subrange(12, 14) =~= be16(window));
    assert(packet.subrange(14, 18) =~= be32(mask as nat));
    assert(packet.skip(18) =~= payload);
    assert(packet.skip(18)[at] == packet[18 + at]);
}

/// The mask of a repair packet is drawn from the lower half of the checksum, mixed with
/// the number of the window, for as many chunks as the window holds.
pub proof fn law_repair_packets_draw_their_masks(
    header: FountainHeaderView,
    window: nat,
    repair: nat,
)
    requires
        window * 32 < header.file.data_packets <= 10_000,
        repair < 0x1_0000_0000,
    ensures
        packet_mask(header, window, repair) == repair_mask(
            ((header.file.checksum as int % 0x1_0000_0000) as u32) ^ (window as u32),
            least(32, header.file.data_packets - window * 32) as nat,
            repair as u32,
        ),
{
    let sum = header.file.checksum;
    assert(sum as u32 == (sum % 0x1_0000_0000) as u32) by (bit_vector);
}

/// A fountain transfer is the header, the data packets in order, and the repair packets
/// of one window after the other, each with the overhead that was asked for.
pub proof fn law_fountain_packets_layout(
    file: FileView,
    overhead_percent: nat,
    encoded: Seq<u8>,
    window: nat,
    repair: nat,
)
    requires
        window * 32 < file.data_packets,
        100 * repair < least(32, file.data_packets - window * 32) * overhead_percent,
    ensures
        ({
            let header = fountain_header(file, overhead_percent);
            let all = fountain_packets(header, encoded);
            let total = file.data_packets;
            &&& header.file == file
            &&& header.overhead_percent == overhead_percent
            &&& all.len() == 1 + total + header.repair_packets
            &&& all[0] == fountain_header_bytes(header)
            &&& forall|i: nat|
                #![trigger fountain_data_packet(header, encoded, i)]
                i < total ==> all[(1 + i) as int] == fountain_data_packet(header, encoded, i)
            &&& all[(1 + total + repairs_below(total, overhead_percent, window) + repair) as int]
                == fountain_repair_packet(header, encoded, window, repair)
        }),
{
    let header = fountain_header(file, overhead_percent);
    let all = fountain_packets(header, encoded);
    let total = file.data_packets;
    let windows = window_count(total);
    let width = window_width(total, window);
    lemma_repairs_counted(header, encoded, windows);
    law_windows_get_their_overhead(width, overhead_percent);
    assert(repair < repair_count(width, overhead_percent));
    lemma_repairs_in_order(header, encoded, windows, window, repair);
    let repairs = repair_packets_below(header, encoded, windows);
    let at = repairs_below(total, overhead_percent, window) + repair;
    assert(all[(1 + total + at) as int] == repairs[at as int]);
}

proof fn lemma_repairs_counted(header: FountainHeaderView, encoded: Seq<u8>, windows: nat)
    ensures
        repair_packets_below(header, encoded, windows).len() == repairs_below(
            header.file.data_packets,
            header.overhead_percent,
            windows,
        ),
    decreases windows,
{
    if windows > 0 {
        lemma_repairs_counted(header, encoded, (windows - 1) as nat);
    }
}

proof fn lemma_repairs_in_order(
    header: FountainHeaderView,
    encoded: Seq<u8>,
    windows: nat,
    window: nat,
    repair: nat,
)
    requires
        window < windows,
        repair < repair_count(
            window_width(header.file.data_packets, window),
            header.overhead_percent,
        ),
    ensures
        ({
            let at = repairs_below(header.file.data_packets, header.overhead_percent, window)
                + repair;
            let list = repair_packets_below(header, encoded, windows);
            &&& at < list.len()
            &&& list[at as int] == fountain_repair_packet(header, encoded, window, repair)
        }),
    decreases windows,
{
    let last = (windows - 1) as nat;
    let before = repair_packets_below(header, encoded, last);
    lemma_repairs_counted(header, encoded, last);
    if window == last {
        let own = window_repairs(header, encoded, last);
        assert(own[repair as int] == fountain_repair_packet(header, encoded, window, repair));
    } else {
        lemma_repairs_in_order(header, encoded, last, window, repair);
    }
}

/// A fountain header is read from its fields, and accepted exactly if they say what may
/// be announced. What follows the name does not matter.
pub proof fn law_fountain_headers_are_read(packet: Seq<u8>)
    ensures
        ({
            let length = read_be(packet.subrange(66, 68));
            let name = packet.subrange(68, 68 + length);
            let header = FountainHeaderView {
                file: FileView {
                    codec: packet[4],
                    checksum: read_be(packet.subrange(7, 15)) as u64,
                    digest: packet.subrange(15, 47),
                    file_size: read_be(packet.subrange(47, 51)) as nat,
                    compressed_size: read_be(packet.subrange(51, 55)) as nat,
                    chunk_size: read_be(packet.subrange(55, 57)) as nat,
                    data_packets: read_be(packet.subrange(57, 61)) as nat,
                    filename: decode_utf8(name),
                },
                overhead_percent: packet[61] as nat,
                repair_packets: read_be(packet.subrange(62, 66)) as nat,
            };
            &&& parsed_fountain_header(packet) is Some <==> {
                &&& packet.len() >= 68
                &&& packet.take(4) == seq![0x54u8, 0x4eu8, 0x46u8, 0u8]
                &&& packet[5] == 32
                &&& 68 + length <= packet.len()
                &&& valid_utf8(name)
                &&& header.overhead_percent <= 50
                &&& header.repair_packets <= 10_000
                &&& may_be_announced(header.file)
            }
            &&& parsed_fountain_header(packet) is Some ==> parsed_fountain_header(packet) == Some(
                header,
            )
        }),
{
    if packet.len() >= 68 {
        law_numbers_are_read_from_bytes(packet, 7);
        law_numbers_are_read_from_bytes(packet, 47);
        law_numbers_are_read_from_bytes(packet, 51);
        law_numbers_are_read_from_bytes(packet, 55);
        law_numbers_are_read_from_bytes(packet, 57);
        law_numbers_are_read_from_bytes(packet, 62);
        law_numbers_are_read_from_bytes(packet, 66);
        lemma_first_four(packet, 0x54, 0x4e, 0x46, 0);
        assert(packet.subrange(15, 47).len() == 32);
    }
}

} // verus!
