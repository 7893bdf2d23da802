//! The text transport: its packets and its sender.
//!
//! The compressed file is written as Base64 and cut into lines, each of which
//! names the transfer by its checksum and says which part it carries.

use crate::chars::{
    byte_length, checksum_text, contains_char, decimal, fields, fields_from, filename_is_valid,
    hex, lemma_checksum_read, lemma_decimal_read, lemma_next_bar, number, parse_checksum,
    parse_count, push_decimal, same_text, split_fields, valid_filename, views, without_plus,
};
use crate::checksum::{checksum, fnv1a};
use crate::codec::{
    base64_bytes, base64_encode, base64_text, compress_file, deflated, inflated, stream_limit,
    DEFLATE_LEVEL,
};
use crate::transfer::{piece, piece_len, MAX_FILE_BYTES};
use vstd::prelude::*;
use vstd::utf8::*;

verus! {

/// The part size that is used where none is given.
pub const DEFAULT_DATA_CHUNK_CHARS: usize = 600;

/// The bounds of the part size.
pub const MIN_DATA_CHUNK_CHARS: usize = 300;

pub const MAX_DATA_CHUNK_CHARS: usize = 1_500;

/// The most parts that a header may announce.
pub const MAX_TOTAL_PACKETS: usize = 10_000;

/// What a header says.
pub struct TextHeaderView {
    pub checksum: u64,
    pub total_packets: nat,
    pub file_size: nat,
    pub filename: Seq<char>,
}

impl TextHeaderView {
    /// What a receiver asks of a header.
    pub open spec fn acceptable(self) -> bool {
        &&& valid_filename(self.filename)
        &&& 1 <= self.total_packets <= MAX_TOTAL_PACKETS
        &&& self.file_size <= MAX_FILE_BYTES
    }
}

/// What a data packet says.
pub struct TextDataView {
    pub checksum: u64,
    pub index: usize,
    pub chunk: Seq<char>,
}

/// The text of a header packet.
pub open spec fn header_text(header: TextHeaderView) -> Seq<char> {
    "METADATA|"@ + header.filename + seq!['|'] + decimal(header.total_packets) + seq!['|'] + hex(
        header.checksum as nat,
        16,
    ) + seq!['|'] + decimal(header.file_size)
}

/// The text of a data packet.
pub open spec fn data_text(checksum: u64, index: nat, chunk: Seq<char>) -> Seq<char> {
    "DATA|"@ + hex(checksum as nat, 16) + seq!['|'] + decimal(index) + seq!['|'] + chunk
}

/// How many parts of `chunk` characters a text has; none if it is empty.
pub open spec fn part_count(size: nat, chunk: nat) -> nat {
    (size + chunk - 1) as nat / chunk
}

/// The header of a file, sent in `total` parts.
pub open spec fn text_header(file: Seq<u8>, filename: Seq<char>, total: nat) -> TextHeaderView {
    TextHeaderView {
        checksum: fnv1a(encode_utf8(filename) + file),
        total_packets: total,
        file_size: file.len(),
        filename,
    }
}

/// All packets of a transfer: the header, and the parts of the encoded file.
pub open spec fn text_packets(header: TextHeaderView, encoded: Seq<char>, chunk: nat) -> Seq<
    Seq<char>,
> {
    seq![header_text(header)] + Seq::new(
        part_count(encoded.len(), chunk),
        |i: int| data_text(header.checksum, i as nat, piece(encoded, chunk, i as nat)),
    )
}

/// What a sender accepts.
pub open spec fn text_sendable(file: Seq<u8>, filename: Seq<char>, chunk: nat) -> bool {
    &&& MIN_DATA_CHUNK_CHARS <= chunk <= MAX_DATA_CHUNK_CHARS
    &&& file.len() <= MAX_FILE_BYTES
    &&& valid_filename(filename)
    &&& !filename.contains('|')
}

/// What a sender makes of a file: its packets, or none if it cannot be sent so.
pub open spec fn sent_text(file: Seq<u8>, filename: Seq<char>, chunk: nat) -> Seq<Seq<char>> {
    if text_sendable(file, filename, chunk) {
        let encoded = base64_text(deflated(file, DEFLATE_LEVEL));
        text_packets(
            text_header(file, filename, part_count(encoded.len(), chunk)),
            encoded,
            chunk,
        )
    } else {
        Seq::empty()
    }
}

/// Whether a stream is the compressed form of a file, and a text the encoded form of
/// the stream.
pub open spec fn packed_text(file: Seq<u8>, compressed: Seq<u8>, encoded: Seq<char>) -> bool {
    &&& inflated(compressed) == Some(file)
    &&& 0 < compressed.len() <= stream_limit(file.len())
    &&& base64_bytes(encoded) == Some(compressed)
    &&& encoded.len() == (compressed.len() + 2) / 3 * 4
    &&& is_ascii_chars(encoded)
}

/// The header that a packet carries, if it is an acceptable header.
pub open spec fn parsed_text_header(packet: Seq<char>) -> Option<TextHeaderView> {
    let parts = fields(packet, 6);
    let total = number(parts[2], 10, usize::MAX as nat);
    let sum = number(parts[3], 16, u64::MAX as nat);
    let size = number(parts[4], 10, usize::MAX as nat);
    if parts.len() == 5 && parts[0] == "METADATA"@ && total is Some && sum is Some && size is Some {
        let header = TextHeaderView {
            checksum: sum->0 as u64,
            total_packets: total->0,
            file_size: size->0,
            filename: parts[1],
        };
        if header.acceptable() {
            Some(header)
        } else {
            None
        }
    } else {
        None
    }
}

/// What a data packet carries, if it is one.
pub open spec fn parsed_text_data(packet: Seq<char>) -> Option<TextDataView> {
    let parts = fields(packet, 4);
    let sum = number(parts[1], 16, u64::MAX as nat);
    let index = number(parts[2], 10, usize::MAX as nat);
    if parts.len() == 4 && parts[0] == "DATA"@ && sum is Some && index is Some && parts[3].len() > 0
        && encode_utf8(parts[3]).len() <= MAX_DATA_CHUNK_CHARS {
        Some(
            TextDataView {
                checksum: sum->0 as u64,
                index: index->0 as usize,
                chunk: parts[3],
            },
        )
    } else {
        None
    }
}

// ---------------------------------------------------------------------------
// Reading back

/// A field that holds no bar and ends at one is the next field.
proof fn lemma_field(text: Seq<char>, from: int, end: int, limit: nat)
    requires
        0 <= from <= end < text.len(),
        forall|i: int| from <= i < end ==> text[i] != '|',
        text[end] == '|',
        limit > 1,
    ensures
        fields_from(text, from, limit) == seq![text.subrange(from, end)] + fields_from(
            text,
            end + 1,
            (limit - 1) as nat,
        ),
{
    lemma_next_bar(text, from, end);
}

/// A text that reads as a number holds no bar.
proof fn lemma_number_chars(text: Seq<char>, radix: nat, max: nat)
    requires
        radix <= 16,
        number(text, radix, max) is Some,
    ensures
        forall|i: int| 0 <= i < text.len() ==> #[trigger] text[i] != '|',
{
    let digits = without_plus(text);
    assert forall|i: int| 0 <= i < text.len() implies #[trigger] text[i] != '|' by {
        let skipped = text.len() - digits.len();
        if i >= skipped {
            assert(digits[i - skipped] == text[i]);
        }
    }
}

/// A header that is written is read back as it was, if it is acceptable, and
/// otherwise not at all.
pub proof fn law_text_header_round_trip(header: TextHeaderView)
    requires
        header.total_packets <= usize::MAX,
        header.file_size <= usize::MAX,
        !header.filename.contains('|'),
    ensures
        parsed_text_header(header_text(header)) == (if header.acceptable() {
            Some(header)
        } else {
            None
        }),
        "METADATA|"@.is_prefix_of(header_text(header)),
{
    reveal_strlit("METADATA|");
    reveal_strlit("METADATA");
    let text = header_text(header);
    let name = header.filename;
    let total = decimal(header.total_packets);
    let sum = hex(header.checksum as nat, 16);
    let size = decimal(header.file_size);
    lemma_decimal_read(header.total_packets, usize::MAX as nat);
    lemma_decimal_read(header.file_size, usize::MAX as nat);
    lemma_checksum_read(header.checksum);
    lemma_number_chars(total, 10, usize::MAX as nat);
    lemma_number_chars(size, 10, usize::MAX as nat);
    lemma_number_chars(sum, 16, u64::MAX as nat);
    let a = 8int;
    let b = a + 1 + name.len();
    let c = b + 1 + total.len();
    let d = c + 1 + sum.len();
    let e = d + 1 + size.len();
    assert(text.len() == e);
    assert(text.subrange(0, a) =~= "METADATA"@);
    assert(text.subrange(a + 1, b) =~= name);
    assert(text.subrange(b + 1, c) =~= total);
    assert(text.subrange(c + 1, d) =~= sum);
    assert(text.subrange(d + 1, e) =~= size);
    assert(text[a] == '|' && text[b] == '|' && text[c] == '|' && text[d] == '|');
    assert forall|i: int| 0 <= i < a implies text[i] != '|' by {
        assert(text[i] == "METADATA"@[i]);
    }
    assert forall|i: int| a + 1 <= i < b implies text[i] != '|' by {
        assert(text[i] == name[i - a - 1]);
        assert(name.contains(name[i - a - 1]));
    }
    assert forall|i: int| b + 1 <= i < c implies text[i] != '|' by {
        assert(text[i] == total[i - b - 1]);
    }
    assert forall|i: int| c + 1 <= i < d implies text[i] != '|' by {
        assert(text[i] == sum[i - c - 1]);
    }
    assert forall|i: int| d + 1 <= i < e implies text[i] != '|' by {
        assert(text[i] == size[i - d - 1]);
    }
    lemma_field(text, 0, a, 6);
    lemma_field(text, a + 1, b, 5);
    lemma_field(text, b + 1, c, 4);
    lemma_field(text, c + 1, d, 3);
    lemma_next_bar(text, d + 1, e);
    assert(fields_from(text, d + 1, 2) == seq![size]);
    assert(fields(text, 6) =~= seq!["METADATA"@, name, total, sum, size]);
    assert("METADATA|"@.is_prefix_of(text)) by {
        assert(text.subrange(0, 9) =~= "METADATA|"@);
    }
}

/// A data packet that is written is read back as it was, bars in the part
/// included.
pub proof fn law_text_data_round_trip(checksum: u64, index: usize, chunk: Seq<char>)
    requires
        chunk.len() > 0,
        encode_utf8(chunk).len() <= MAX_DATA_CHUNK_CHARS,
    ensures
        parsed_text_data(data_text(checksum, index as nat, chunk)) == Some(
            TextDataView { checksum, index, chunk },
        ),
        !"METADATA|"@.is_prefix_of(data_text(checksum, index as nat, chunk)),
{
    reveal_strlit("METADATA|");
    reveal_strlit("DATA|");
    reveal_strlit("DATA");
    let text = data_text(checksum, index as nat, chunk);
    let sum = hex(checksum as nat, 16);
    let at = decimal(index as nat);
    lemma_decimal_read(index as nat, usize::MAX as nat);
    lemma_checksum_read(checksum);
    lemma_number_chars(at, 10, usize::MAX as nat);
    lemma_number_chars(sum, 16, u64::MAX as nat);
    let a = 4int;
    let b = a + 1 + sum.len();
    let c = b + 1 + at.len();
    let d = c + 1 + chunk.len();
    assert(text.len() == d);
    assert(text.subrange(0, a) =~= "DATA"@);
    assert(text.subrange(a + 1, b) =~= sum);
    assert(text.subrange(b + 1, c) =~= at);
    assert(text.subrange(c + 1, d) =~= chunk);
    assert(text[a] == '|' && text[b] == '|' && text[c] == '|');
    assert forall|i: int| 0 <= i < a implies text[i] != '|' by {
        assert(text[i] == "DATA"@[i]);
    }
    assert forall|i: int| a + 1 <= i < b implies text[i] != '|' by {
        assert(text[i] == sum[i - a - 1]);
    }
    assert forall|i: int| b + 1 <= i < c implies text[i] != '|' by {
        assert(text[i] == at[i - b - 1]);
    }
    lemma_field(text, 0, a, 4);
    lemma_field(text, a + 1, b, 3);
    lemma_field(text, b + 1, c, 2);
    assert(fields(text, 4) =~= seq!["DATA"@, sum, at, chunk]);
    assert(text[0] == 'D');
    assert("METADATA|"@[0] == 'M');
}

// ---------------------------------------------------------------------------
// Executable functions

/// The header of a text transfer.
#[derive(Debug)]
pub struct HeaderMetadata {
    pub checksum: u64,
    pub total_packets: usize,
    pub file_size: usize,
    pub filename: String,
}

impl View for HeaderMetadata {
    type V = TextHeaderView;

    open spec fn view(&self) -> TextHeaderView {
        TextHeaderView {
            checksum: self.checksum,
            total_packets: self.total_packets as nat,
            file_size: self.file_size as nat,
            filename: self.filename@,
        }
    }
}

/// Reads a header packet.
pub fn parse_header(packet: &str) -> (header: Option<HeaderMetadata>)
    ensures
        header is Some <==> parsed_text_header(packet@) is Some,
        header matches Some(h) ==> parsed_text_header(packet@) == Some(h@),
{
    let mut parts: Vec<String> = split_fields(packet, 6);
    let ghost texts = fields(packet@, 6);
    assert(parts@.len() == views(parts@).len());
    assert(forall|i: int| 0 <= i < parts@.len() ==> views(parts@)[i] == (#[trigger] parts@[i])@);
    if parts.len() != 5 || !same_text(parts[0].as_str(), "METADATA") {
        return None;
    }
    if !filename_is_valid(parts[1].as_str()) {
        return None;
    }
    let total_packets: usize = parse_count(parts[2].as_str())?;
    let sum: u64 = parse_checksum(parts[3].as_str())?;
    let file_size: usize = parse_count(parts[4].as_str())?;
    if total_packets == 0 || total_packets > MAX_TOTAL_PACKETS || file_size > MAX_FILE_BYTES {
        return None;
    }
    let filename: String = parts.swap_remove(1);
    assert(filename@ == texts[1]);
    Some(HeaderMetadata { checksum: sum, total_packets, file_size, filename })
}

/// What a data packet carries.
#[derive(Debug)]
pub struct TextData {
    pub checksum: u64,
    pub index: usize,
    pub chunk: String,
}

impl View for TextData {
    type V = TextDataView;

    open spec fn view(&self) -> TextDataView {
        TextDataView { checksum: self.checksum, index: self.index, chunk: self.chunk@ }
    }
}

/// Reads a data packet.
pub fn parse_data(packet: &str) -> (data: Option<TextData>)
    ensures
        data is Some <==> parsed_text_data(packet@) is Some,
        data matches Some(d) ==> parsed_text_data(packet@) == Some(d@),
{
    let mut parts: Vec<String> = split_fields(packet, 4);
    let ghost texts = fields(packet@, 4);
    assert(parts@.len() == views(parts@).len());
    assert(forall|i: int| 0 <= i < parts@.len() ==> views(parts@)[i] == (#[trigger] parts@[i])@);
    if parts.len() != 4 || !same_text(parts[0].as_str(), "DATA") {
        return None;
    }
    let sum: u64 = parse_checksum(parts[1].as_str())?;
    let index: usize = parse_count(parts[2].as_str())?;
    let length: usize = byte_length(parts[3].as_str());
    proof {
        lemma_encoded_empty(texts[3]);
    }
    if length == 0 || length > MAX_DATA_CHUNK_CHARS {
        return None;
    }
    let chunk: String = parts.swap_remove(3);
    assert(chunk@ == texts[3]);
    Some(TextData { checksum: sum, index, chunk })
}

/// Only the empty text has no bytes.
proof fn lemma_encoded_empty(text: Seq<char>)
    ensures
        encode_utf8(text).len() == 0 <==> text.len() == 0,
{
    if text.len() > 0 {
        encode_utf8_decode_utf8(text);
        if encode_utf8(text).len() == 0 {
            assert(decode_utf8(encode_utf8(text)).len() == 0);
        }
    }
}

/// The text of a header packet.
fn header_packet(header: &HeaderMetadata) -> (packet: String)
    ensures
        packet@ == header_text(header@),
{
    let mut packet: String = "METADATA|".to_owned();
    proof {
        reveal_strlit("|");
    }
    packet.append(header.filename.as_str());
    packet.append("|");
    push_decimal(&mut packet, header.total_packets);
    packet.append("|");
    packet.append(checksum_text(header.checksum).as_str());
    packet.append("|");
    push_decimal(&mut packet, header.file_size);
    assert(packet@ =~= header_text(header@));
    packet
}

/// The text of a data packet.
fn data_packet(sum: u64, index: usize, chunk: &str) -> (packet: String)
    ensures
        packet@ == data_text(sum, index as nat, chunk@),
{
    let mut packet: String = "DATA|".to_owned();
    proof {
        reveal_strlit("|");
    }
    packet.append(checksum_text(sum).as_str());
    packet.append("|");
    push_decimal(&mut packet, index);
    packet.append("|");
    packet.append(chunk);
    assert(packet@ =~= data_text(sum, index as nat, chunk@));
    packet
}

/// The packets of a transfer whose encoded file is known.
pub fn text_packets_for(
    buffer: &[u8],
    filename: String,
    encoded: &str,
    chunk_chars: usize,
) -> (packets: Vec<String>)
    requires
        text_sendable(buffer@, filename@, chunk_chars as nat),
        is_ascii_chars(encoded@),
    ensures
        views(packets@) == text_packets(
            text_header(buffer@, filename@, part_count(encoded@.len(), chunk_chars as nat)),
            encoded@,
            chunk_chars as nat,
        ),
{
    let length: usize = encoded.as_bytes().len();
    proof {
        is_ascii_chars_encode_utf8(encoded@);
    }
    assert(length == encoded@.len());
    let sum: u64 = checksum(buffer, filename.as_str().as_bytes());
    let whole: usize = length / chunk_chars;
    proof {
        vstd::arithmetic::div_mod::lemma_fundamental_div_mod(length as int, chunk_chars as int);
        let rest = length % chunk_chars;
        assert(2 * whole <= length) by (nonlinear_arith)
            requires
                chunk_chars >= 2,
                length == chunk_chars * whole + rest,
        ;
    }
    let total: usize = if length % chunk_chars == 0 {
        whole
    } else {
        whole + 1
    };
    proof {
        lemma_part_count(length as nat, chunk_chars as nat);
    }
    let header = HeaderMetadata {
        checksum: sum,
        total_packets: total,
        file_size: buffer.len(),
        filename,
    };
    let ghost data = Seq::new(
        total as nat,
        |i: int| data_text(sum, i as nat, piece(encoded@, chunk_chars as nat, i as nat)),
    );
    let mut packets: Vec<String> = Vec::new();
    packets.push(header_packet(&header));
    let ghost first = seq![header_text(header@)];
    assert(views(packets@) =~= first + data.take(0));
    let mut index: usize = 0;
    while index < total
        invariant
            index <= total,
            length == encoded@.len(),
            chunk_chars > 0,
            is_ascii_chars(encoded@),
            forall|i: int| 0 <= i < total ==> #[trigger] (i * chunk_chars) < length,
            data == Seq::new(
                total as nat,
                |i: int| data_text(sum, i as nat, piece(encoded@, chunk_chars as nat, i as nat)),
            ),
            views(packets@) == first + data.take(index as int),
        decreases total - index,
    {
        assert(index * chunk_chars < length);
        let start: usize = index * chunk_chars;
        let end: usize = start + piece_len(length, chunk_chars, index);
        let chunk: &str = encoded.substring_ascii(start, end);
        assert(chunk@ =~= piece(encoded@, chunk_chars as nat, index as nat));
        let packet: String = data_packet(sum, index, chunk);
        let ghost before = packets@;
        packets.push(packet);
        assert(views(packets@) =~= views(before).push(packet@));
        index = index + 1;
        assert(views(packets@) =~= first + data.take(index as int));
    }
    assert(data.take(total as int) =~= data);
    assert(views(packets@) =~= text_packets(header@, encoded@, chunk_chars as nat));
    packets
}

/// Every part begins before the end, and no part is missing.
pub proof fn lemma_part_count(size: nat, chunk: nat)
    requires
        chunk > 0,
    ensures
        part_count(size, chunk) == size / chunk + (if size % chunk == 0 {
            0int
        } else {
            1int
        }),
        forall|i: int| 0 <= i < part_count(size, chunk) ==> #[trigger] (i * chunk) < size,
        part_count(size, chunk) * chunk >= size,
{
    let whole = size / chunk;
    let rest = size % chunk;
    vstd::arithmetic::div_mod::lemma_fundamental_div_mod(size as int, chunk as int);
    assert(size == whole * chunk + rest) by (nonlinear_arith)
        requires
            size == chunk * whole + rest,
    ;
    if rest == 0 {
        vstd::arithmetic::div_mod::lemma_fundamental_div_mod_converse(
            size + chunk - 1,
            chunk as int,
            whole as int,
            chunk - 1,
        );
    } else {
        assert(size + chunk - 1 == (whole + 1) * chunk + (rest - 1)) by (nonlinear_arith)
            requires
                size == whole * chunk + rest,
        ;
        vstd::arithmetic::div_mod::lemma_fundamental_div_mod_converse(
            size + chunk - 1,
            chunk as int,
            (whole + 1) as int,
            rest - 1,
        );
    }
    let count = part_count(size, chunk);
    assert(count * chunk >= size) by (nonlinear_arith)
        requires
            size == whole * chunk + rest,
            rest < chunk,
            count == whole && rest == 0 || count == whole + 1,
    ;
    assert forall|i: int| 0 <= i < count implies #[trigger] (i * chunk) < size by {
        assert(i * chunk < size) by (nonlinear_arith)
            requires
                size == whole * chunk + rest,
                0 <= rest < chunk,
                0 <= i,
                i < whole || (i == whole && rest > 0),
        ;
    }
}

/// The packets of a file, in parts of the given size; none if the file cannot be
/// sent so.
pub fn compress_and_split_with_chunk_size(
    buffer: Vec<u8>,
    filename: String,
    chunk_chars: u32,
) -> (packets: Vec<String>)
    ensures
        views(packets@) == sent_text(buffer@, filename@, chunk_chars as nat),
        packets@.len() > 0 <==> text_sendable(buffer@, filename@, chunk_chars as nat),
        packets@.len() > 0 ==> {
            let compressed = deflated(buffer@, DEFLATE_LEVEL);
            &&& packed_text(buffer@, compressed, base64_text(compressed))
            &&& packets@.len() == 1 + part_count(
                (compressed.len() + 2) / 3 * 4,
                chunk_chars as nat,
            )
        },
{
    let chunk_chars: usize = chunk_chars as usize;
    if chunk_chars < MIN_DATA_CHUNK_CHARS || chunk_chars > MAX_DATA_CHUNK_CHARS || buffer.len()
        > MAX_FILE_BYTES || !filename_is_valid(filename.as_str()) || contains_char(
        filename.as_str(),
        '|',
    ) {
        let packets: Vec<String> = Vec::new();
        assert(views(packets@) =~= Seq::<Seq<char>>::empty());
        return packets;
    }
    match compress_file(buffer.as_slice()) {
        Some(compressed) => {
            let encoded: String = base64_encode(compressed.as_slice());
            let packets: Vec<String> = text_packets_for(
                buffer.as_slice(),
                filename,
                encoded.as_str(),
                chunk_chars,
            );
            assert(packets@.len() == views(packets@).len());
            packets
        },
        None => {
            let packets: Vec<String> = Vec::new();
            assert(views(packets@) =~= Seq::<Seq<char>>::empty());
            packets
        },
    }
}

/// The packets of a file, in parts of the usual size.
pub fn compress_and_split(buffer: Vec<u8>, filename: String) -> (packets: Vec<String>)
    ensures
        views(packets@) == sent_text(buffer@, filename@, DEFAULT_DATA_CHUNK_CHARS as nat),
        packets@.len() > 0 <==> text_sendable(
            buffer@,
            filename@,
            DEFAULT_DATA_CHUNK_CHARS as nat,
        ),
        packets@.len() > 0 ==> {
            let compressed = deflated(buffer@, DEFLATE_LEVEL);
            &&& packed_text(buffer@, compressed, base64_text(compressed))
            &&& packets@.len() == 1 + part_count(
                (compressed.len() + 2) / 3 * 4,
                DEFAULT_DATA_CHUNK_CHARS as nat,
            )
        },
{
    compress_and_split_with_chunk_size(buffer, filename, DEFAULT_DATA_CHUNK_CHARS as u32)
}

/// The packets of a file, for clients that hold it in a slice.
pub fn prepare_file(buffer: &[u8], filename: String) -> (packets: Vec<String>)
    ensures
        views(packets@) == sent_text(buffer@, filename@, DEFAULT_DATA_CHUNK_CHARS as nat),
        packets@.len() > 0 <==> text_sendable(
            buffer@,
            filename@,
            DEFAULT_DATA_CHUNK_CHARS as nat,
        ),
        packets@.len() > 0 ==> {
            let compressed = deflated(buffer@, DEFLATE_LEVEL);
            &&& packed_text(buffer@, compressed, base64_text(compressed))
            &&& packets@.len() == 1 + part_count(
                (compressed.len() + 2) / 3 * 4,
                DEFAULT_DATA_CHUNK_CHARS as nat,
            )
        },
{
    compress_and_split(vstd::slice::slice_to_vec(buffer), filename)
}

} // verus!
