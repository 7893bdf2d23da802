//! The binary transport: its packets and its sender.
//!
//! A header describes the file; data packets carry its chunks; with error
//! correction on, one parity packet for each group of eight chunks lets the
//! receiver rebuild one lost chunk of the group.

use crate::bytes::{
    be16, be32, be64, copy_range, pad, push_u16, push_u32, push_u64, read_u16, read_u32, read_u64,
    u16_at, u32_at, u64_at, xor_bytes, xor_into, zeros, lemma_be16_read, lemma_be32_read,
    lemma_be64_read,
};
use crate::chars::{filename_is_valid, valid_filename};
use crate::checksum::checksum;
use crate::codec::{deflated, file_digest, string_from_utf8, DEFLATE_LEVEL};
use crate::store::packet_views;
use crate::transfer::{
    binary_compress, chunk_count, count_chunks, cut, described, lemma_chunk_count, piece, smaller,
    source_chunks, FileView, BINARY_MAX_CHUNK_BYTES, BINARY_MAX_PENDING_PACKETS,
    BINARY_MIN_CHUNK_BYTES, MAX_ENCODED_BYTES, MAX_FILE_BYTES,
};
use vstd::prelude::*;
use vstd::utf8::*;

verus! {

pub const BINARY_HEADER_TYPE: u8 = 0;

pub const BINARY_DATA_TYPE: u8 = 1;

pub const BINARY_PARITY_TYPE: u8 = 2;

/// The bytes of a header before the file name.
pub const BINARY_HEADER_FIXED_BYTES: usize = 63;

/// The bytes of a data or parity packet before the payload.
pub const BINARY_DATA_FIXED_BYTES: usize = 16;

/// How many chunks share a parity packet.
pub const BINARY_GROUP_SIZE: usize = 8;

/// The letters `TN2` that every packet begins with.
pub open spec fn binary_magic() -> Seq<u8> {
    seq![0x54u8, 0x4eu8, 0x32u8]
}

/// What a header says: the file, and how many chunks share a parity packet (none
/// if zero).
pub struct BinaryHeaderView {
    pub file: FileView,
    pub fec_group_size: nat,
}

impl BinaryHeaderView {
    /// What a receiver asks of a header.
    pub open spec fn acceptable(self) -> bool {
        &&& self.file.acceptable()
        &&& self.file.digest.len() == 32
        &&& self.fec_group_size == 0 || self.fec_group_size == BINARY_GROUP_SIZE
    }

    /// How many parity packets there are.
    pub open spec fn group_count(self) -> nat {
        if self.fec_group_size == 0 {
            0
        } else {
            (self.file.data_packets + self.fec_group_size - 1) as nat / self.fec_group_size
        }
    }

    /// The end of a group, that is the first index after it.
    pub open spec fn group_end(self, group: nat) -> nat {
        if (group + 1) * self.fec_group_size < self.file.data_packets {
            (group + 1) * self.fec_group_size
        } else {
            self.file.data_packets
        }
    }
}

/// The bytes of a header packet.
pub open spec fn header_bytes(header: BinaryHeaderView) -> Seq<u8> {
    let name = encode_utf8(header.file.filename);
    binary_magic() + seq![
        BINARY_HEADER_TYPE,
        header.file.codec,
        header.fec_group_size as u8,
        0u8,
    ] + be64(header.file.checksum as nat) + header.file.digest + be32(header.file.file_size) + be32(
        header.file.compressed_size,
    ) + be16(header.file.chunk_size) + be32(header.file.data_packets) + be16(name.len()) + name
}

/// The bytes of a data or parity packet.
pub open spec fn symbol_bytes(kind: u8, checksum: u64, number: nat, payload: Seq<u8>) -> Seq<u8> {
    binary_magic() + seq![kind] + be64(checksum as nat) + be32(number) + payload
}

/// The exclusive or of the chunks from `start` up to `end`.
pub open spec fn parity_of(chunks: Seq<Seq<u8>>, start: nat, end: nat, length: nat) -> Seq<u8>
    decreases end,
{
    if end <= start {
        zeros(length)
    } else {
        xor_bytes(parity_of(chunks, start, (end - 1) as nat, length), chunks[end - 1])
    }
}

/// The data packet at an index.
pub open spec fn data_packet(header: BinaryHeaderView, encoded: Seq<u8>, index: nat) -> Seq<u8> {
    symbol_bytes(
        BINARY_DATA_TYPE,
        header.file.checksum,
        index,
        piece(encoded, header.file.chunk_size, index),
    )
}

/// The parity packet of a group.
pub open spec fn parity_packet(header: BinaryHeaderView, encoded: Seq<u8>, group: nat) -> Seq<u8> {
    symbol_bytes(
        BINARY_PARITY_TYPE,
        header.file.checksum,
        group,
        parity_of(
            source_chunks(encoded, header.file.chunk_size),
            group * header.fec_group_size,
            header.group_end(group),
            header.file.chunk_size,
        ),
    )
}

/// All packets of a transfer: the header, the data packets, the parity packets.
pub open spec fn binary_packets(header: BinaryHeaderView, encoded: Seq<u8>) -> Seq<Seq<u8>> {
    seq![header_bytes(header)] + Seq::new(
        header.file.data_packets,
        |i: int| data_packet(header, encoded, i as nat),
    ) + Seq::new(header.group_count(), |g: int| parity_packet(header, encoded, g as nat))
}

/// What a sender accepts.
pub open spec fn binary_sendable(
    file: Seq<u8>,
    filename: Seq<char>,
    chunk_size: nat,
    fec_group_size: nat,
) -> bool {
    &&& BINARY_MIN_CHUNK_BYTES <= chunk_size <= BINARY_MAX_CHUNK_BYTES
    &&& fec_group_size == 0 || fec_group_size == BINARY_GROUP_SIZE
    &&& file.len() <= MAX_FILE_BYTES
    &&& valid_filename(filename)
}

/// The header that a packet carries, if it is an acceptable header.
pub open spec fn parsed_header(packet: Seq<u8>) -> Option<BinaryHeaderView> {
    if packet.len() < BINARY_HEADER_FIXED_BYTES || packet.take(3) != binary_magic() || packet[3]
        != BINARY_HEADER_TYPE {
        None
    } else {
        let name_end = BINARY_HEADER_FIXED_BYTES + u16_at(packet, 61);
        if name_end > packet.len() {
            None
        } else {
            let name = packet.subrange(BINARY_HEADER_FIXED_BYTES as int, name_end);
            let header = BinaryHeaderView {
                file: FileView {
                    codec: packet[4],
                    checksum: u64_at(packet, 7) as u64,
                    digest: packet.subrange(15, 47),
                    file_size: u32_at(packet, 47),
                    compressed_size: u32_at(packet, 51),
                    chunk_size: u16_at(packet, 55),
                    data_packets: u32_at(packet, 57),
                    filename: decode_utf8(name),
                },
                fec_group_size: packet[5] as nat,
            };
            if valid_utf8(name) && header.acceptable() {
                Some(header)
            } else {
                None
            }
        }
    }
}

/// A header that is written is read back as it was.
pub proof fn law_binary_header_round_trip(header: BinaryHeaderView)
    requires
        header.acceptable(),
    ensures
        parsed_header(header_bytes(header)) == Some(header),
{
    let file = header.file;
    let name = encode_utf8(file.filename);
    let packet = header_bytes(header);
    encode_utf8_valid_utf8(file.filename);
    encode_utf8_decode_utf8(file.filename);
    assert(packet.len() == 63 + name.len());
    assert(packet.take(3) =~= binary_magic());
    assert(packet.subrange(7, 15) =~= be64(file.checksum as nat));
    assert(packet.subrange(15, 47) =~= file.digest);
    assert(packet.subrange(47, 51) =~= be32(file.file_size));
    assert(packet.subrange(51, 55) =~= be32(file.compressed_size));
    assert(packet.subrange(55, 57) =~= be16(file.chunk_size));
    assert(packet.subrange(57, 61) =~= be32(file.data_packets));
    assert(packet.subrange(61, 63) =~= be16(name.len()));
    assert(packet.subrange(63, (63 + name.len()) as int) =~= name);
    lemma_be64_read(packet, 7, file.checksum as nat);
    lemma_be32_read(packet, 47, file.file_size);
    lemma_be32_read(packet, 51, file.compressed_size);
    lemma_be16_read(packet, 55, file.chunk_size);
    lemma_be32_read(packet, 57, file.data_packets);
    lemma_be16_read(packet, 61, name.len());
}

/// The fields of a data or parity packet are read back as they were written.
pub proof fn lemma_symbol_read(kind: u8, checksum: u64, number: nat, payload: Seq<u8>)
    requires
        number < 0x1_0000_0000,
    ensures
        ({
            let packet = symbol_bytes(kind, checksum, number, payload);
            &&& packet.len() == BINARY_DATA_FIXED_BYTES + payload.len()
            &&& packet.take(3) == binary_magic()
            &&& packet[3] == kind
            &&& u64_at(packet, 4) == checksum
            &&& u32_at(packet, 12) == number
            &&& packet.skip(BINARY_DATA_FIXED_BYTES as int) == payload
        }),
{
    let packet = symbol_bytes(kind, checksum, number, payload);
    assert(packet.take(3) =~= binary_magic());
    assert(packet.subrange(4, 12) =~= be64(checksum as nat));
    assert(packet.subrange(12, 16) =~= be32(number));
    assert(packet.skip(16) =~= payload);
    lemma_be64_read(packet, 4, checksum as nat);
    lemma_be32_read(packet, 12, number);
}

// ---------------------------------------------------------------------------
// Executable headers

/// The header of a binary transfer.
#[derive(Debug)]
pub struct BinaryHeader {
    pub codec: u8,
    pub checksum: u64,
    pub digest: [u8; 32],
    pub file_size: usize,
    pub compressed_size: usize,
    pub chunk_size: usize,
    pub data_packets: usize,
    pub fec_group_size: usize,
    pub filename: String,
}

impl View for BinaryHeader {
    type V = BinaryHeaderView;

    open spec fn view(&self) -> BinaryHeaderView {
        BinaryHeaderView {
            file: FileView {
                codec: self.codec,
                checksum: self.checksum,
                digest: self.digest@,
                file_size: self.file_size as nat,
                compressed_size: self.compressed_size as nat,
                chunk_size: self.chunk_size as nat,
                data_packets: self.data_packets as nat,
                filename: self.filename@,
            },
            fec_group_size: self.fec_group_size as nat,
        }
    }
}

/// Whether a packet begins with the letters of this transport.
pub fn has_binary_magic(packet: &[u8]) -> (yes: bool)
    requires
        packet@.len() >= 3,
    ensures
        yes == (packet@.take(3) == binary_magic()),
{
    let ghost start = packet@.take(3);
    assert(start[0] == packet@[0] && start[1] == packet@[1] && start[2] == packet@[2]);
    let yes: bool = packet[0] == 0x54 && packet[1] == 0x4e && packet[2] == 0x32;
    if yes {
        assert(start =~= binary_magic());
    }
    yes
}

/// The 32 bytes from `offset` on.
pub fn read_digest(packet: &[u8], offset: usize) -> (digest: [u8; 32])
    requires
        offset + 32 <= packet@.len(),
    ensures
        digest@ == packet@.subrange(offset as int, offset + 32),
{
    let mut digest: [u8; 32] = [0u8;32];
    let mut i: usize = 0;
    while i < 32
        invariant
            i <= 32,
            offset + 32 <= packet.len(),
            forall|j: int| 0 <= j < i ==> #[trigger] digest@[j] == packet@[offset + j],
        decreases 32 - i,
    {
        digest[i] = packet[offset + i];
        i = i + 1;
    }
    assert(digest@ =~= packet@.subrange(offset as int, offset + 32));
    digest
}

/// The bytes of a header packet.
pub fn binary_header_packet(header: &BinaryHeader) -> (packet: Vec<u8>)
    ensures
        packet@ == header_bytes(header@),
{
    let name: &[u8] = header.filename.as_str().as_bytes();
    let mut packet: Vec<u8> = Vec::new();
    packet.push(0x54);
    packet.push(0x4e);
    packet.push(0x32);
    packet.push(BINARY_HEADER_TYPE);
    packet.push(header.codec);
    packet.push(header.fec_group_size as u8);
    packet.push(0);
    push_u64(&mut packet, header.checksum);
    packet.extend_from_slice(header.digest.as_slice());
    push_u32(&mut packet, header.file_size);
    push_u32(&mut packet, header.compressed_size);
    push_u16(&mut packet, header.chunk_size);
    push_u32(&mut packet, header.data_packets);
    push_u16(&mut packet, name.len());
    packet.extend_from_slice(name);
    assert(packet@ =~= header_bytes(header@));
    packet
}

/// Reads a header packet.
pub fn parse_binary_header(packet: &[u8]) -> (header: Option<BinaryHeader>)
    ensures
        header is Some <==> parsed_header(packet@) is Some,
        header matches Some(h) ==> parsed_header(packet@) == Some(h@),
{
    if packet.len() < BINARY_HEADER_FIXED_BYTES || !has_binary_magic(packet) || packet[3]
        != BINARY_HEADER_TYPE {
        return None;
    }
    let codec: u8 = packet[4];
    let fec_group_size: usize = packet[5] as usize;
    let checksum: u64 = read_u64(packet, 7)?;
    let digest: [u8; 32] = read_digest(packet, 15);
    let file_size: usize = read_u32(packet, 47)?;
    let compressed_size: usize = read_u32(packet, 51)?;
    let chunk_size: usize = read_u16(packet, 55)?;
    let data_packets: usize = read_u32(packet, 57)?;
    let name_length: usize = read_u16(packet, 61)?;
    let name_end: usize = BINARY_HEADER_FIXED_BYTES + name_length;
    if name_end > packet.len() {
        return None;
    }
    let filename: String = string_from_utf8(
        copy_range(packet, BINARY_HEADER_FIXED_BYTES, name_end),
    )?;
    if codec > 1 || !(fec_group_size == 0 || fec_group_size == BINARY_GROUP_SIZE) || chunk_size
        < BINARY_MIN_CHUNK_BYTES || chunk_size > BINARY_MAX_CHUNK_BYTES || data_packets == 0
        || data_packets > BINARY_MAX_PENDING_PACKETS || file_size > MAX_FILE_BYTES
        || compressed_size > MAX_ENCODED_BYTES || !filename_is_valid(filename.as_str()) {
        return None;
    }
    if data_packets != count_chunks(compressed_size, chunk_size) {
        return None;
    }
    Some(
        BinaryHeader {
            codec,
            checksum,
            digest,
            file_size,
            compressed_size,
            chunk_size,
            data_packets,
            fec_group_size,
            filename,
        },
    )
}

// ---------------------------------------------------------------------------
// The sender

/// The header of a file whose encoding and digest are known.
pub fn binary_header_for(
    buffer: &[u8],
    filename: &str,
    codec: u8,
    encoded: &[u8],
    digest: [u8; 32],
    chunk_size: usize,
    fec_group_size: usize,
) -> (header: BinaryHeader)
    requires
        binary_sendable(buffer@, filename@, chunk_size as nat, fec_group_size as nat),
        codec <= 1,
        encoded@.len() <= buffer@.len(),
    ensures
        header@.acceptable(),
        header@.fec_group_size == fec_group_size,
        header@.file == (FileView {
            digest: digest@,
            ..described(buffer@, filename@, codec, encoded@, chunk_size as nat)
        }),
{
    let data_packets: usize = count_chunks(encoded.len(), chunk_size);
    proof {
        lemma_chunk_count(encoded@.len(), chunk_size as nat);
        let count = data_packets as int;
        assert((count - 1) * 400 <= (count - 1) * chunk_size) by (nonlinear_arith)
            requires
                count >= 1,
                chunk_size >= 400,
        ;
    }
    BinaryHeader {
        codec,
        checksum: checksum(buffer, filename.as_bytes()),
        digest,
        file_size: buffer.len(),
        compressed_size: encoded.len(),
        chunk_size,
        data_packets,
        fec_group_size,
        filename: filename.to_owned(),
    }
}

/// A data or parity packet.
fn symbol_packet(kind: u8, checksum: u64, number: usize, payload: &[u8]) -> (packet: Vec<u8>)
    ensures
        packet@ == symbol_bytes(kind, checksum, number as nat, payload@),
{
    let mut packet: Vec<u8> = Vec::new();
    packet.push(0x54);
    packet.push(0x4e);
    packet.push(0x32);
    packet.push(kind);
    push_u64(&mut packet, checksum);
    push_u32(&mut packet, number);
    packet.extend_from_slice(payload);
    assert(packet@ =~= symbol_bytes(kind, checksum, number as nat, payload@));
    packet
}

/// The parity of the chunks from `start` up to `end`.
fn group_parity(encoded: &[u8], chunk_size: usize, start: usize, end: usize) -> (parity: Vec<u8>)
    requires
        0 < chunk_size <= BINARY_MAX_CHUNK_BYTES,
        start <= end <= chunk_count(encoded@.len(), chunk_size as nat) <= BINARY_MAX_PENDING_PACKETS,
    ensures
        parity@ == parity_of(
            source_chunks(encoded@, chunk_size as nat),
            start as nat,
            end as nat,
            chunk_size as nat,
        ),
{
    let mut parity: Vec<u8> = pad(&[], chunk_size);
    assert(parity@ =~= zeros(chunk_size as nat));
    let mut index: usize = start;
    while index < end
        invariant
            0 < chunk_size <= BINARY_MAX_CHUNK_BYTES,
            start <= index <= end <= chunk_count(encoded@.len(), chunk_size as nat)
                <= BINARY_MAX_PENDING_PACKETS,
            parity@ == parity_of(
                source_chunks(encoded@, chunk_size as nat),
                start as nat,
                index as nat,
                chunk_size as nat,
            ),
        decreases end - index,
    {
        assert(index * chunk_size <= 10_000 * 1_800) by (nonlinear_arith)
            requires
                index <= 10_000,
                chunk_size <= 1_800,
        ;
        let chunk: Vec<u8> = pad(cut(encoded, chunk_size, index).as_slice(), chunk_size);
        assert(chunk@ == source_chunks(encoded@, chunk_size as nat)[index as int]);
        xor_into(&mut parity, chunk.as_slice());
        index = index + 1;
    }
    parity
}

/// All packets of a transfer whose header and encoded file are known.
pub fn binary_packets_for(header: &BinaryHeader, encoded: &[u8]) -> (packets: Vec<Vec<u8>>)
    requires
        header@.acceptable(),
        header.compressed_size == encoded@.len(),
    ensures
        packet_views(packets@) == binary_packets(header@, encoded@),
{
    let mut packets: Vec<Vec<u8>> = Vec::new();
    packets.push(binary_header_packet(header));
    let ghost data = Seq::new(
        header@.file.data_packets,
        |i: int| data_packet(header@, encoded@, i as nat),
    );
    let ghost parity = Seq::new(
        header@.group_count(),
        |g: int| parity_packet(header@, encoded@, g as nat),
    );
    let ghost first = seq![header_bytes(header@)];
    assert(packet_views(packets@) =~= first + data.take(0));
    let mut index: usize = 0;
    while index < header.data_packets
        invariant
            index <= header.data_packets,
            header@.acceptable(),
            data == Seq::new(
                header@.file.data_packets,
                |i: int| data_packet(header@, encoded@, i as nat),
            ),
            packet_views(packets@) == first + data.take(index as int),
        decreases header.data_packets - index,
    {
        assert(index * header.chunk_size <= 10_000 * 1_800) by (nonlinear_arith)
            requires
                index <= 10_000,
                header.chunk_size <= 1_800,
        ;
        let part: Vec<u8> = cut(encoded, header.chunk_size, index);
        let packet: Vec<u8> = symbol_packet(
            BINARY_DATA_TYPE,
            header.checksum,
            index,
            part.as_slice(),
        );
        let ghost before = packets@;
        packets.push(packet);
        assert(packet_views(packets@) =~= packet_views(before).push(packet@));
        index = index + 1;
        assert(packet_views(packets@) =~= first + data.take(index as int));
    }
    assert(data.take(header.data_packets as int) =~= data);
    if header.fec_group_size > 0 {
        let groups: usize = (header.data_packets + (BINARY_GROUP_SIZE - 1)) / BINARY_GROUP_SIZE;
        assert(groups == header@.group_count());
        let mut group: usize = 0;
        assert(packet_views(packets@) =~= first + data + parity.take(0));
        while group < groups
            invariant
                group <= groups == header@.group_count(),
                header@.acceptable(),
                header.fec_group_size == BINARY_GROUP_SIZE,
                header.compressed_size == encoded@.len(),
                groups == (header.data_packets + 7) / 8,
                parity == Seq::new(
                    header@.group_count(),
                    |g: int| parity_packet(header@, encoded@, g as nat),
                ),
                packet_views(packets@) == first + data + parity.take(group as int),
            decreases groups - group,
        {
            let start: usize = group * BINARY_GROUP_SIZE;
            let end: usize = if start + BINARY_GROUP_SIZE < header.data_packets {
                start + BINARY_GROUP_SIZE
            } else {
                header.data_packets
            };
            assert(end == header@.group_end(group as nat));
            let mixed: Vec<u8> = group_parity(encoded, header.chunk_size, start, end);
            let packet: Vec<u8> = symbol_packet(
                BINARY_PARITY_TYPE,
                header.checksum,
                group,
                mixed.as_slice(),
            );
            let ghost before = packets@;
            packets.push(packet);
            assert(packet_views(packets@) =~= packet_views(before).push(packet@));
            group = group + 1;
            assert(packet_views(packets@) =~= first + data + parity.take(group as int));
        }
        assert(parity.take(groups as int) =~= parity);
    } else {
        assert(parity =~= Seq::<Seq<u8>>::empty());
    }
    assert(packet_views(packets@) =~= binary_packets(header@, encoded@));
    packets
}

/// All packets of a file, or `None` if it cannot be sent so.
pub fn build_binary_packets(
    buffer: &[u8],
    filename: &str,
    chunk_size: usize,
    fec_group_size: usize,
) -> (packets: Option<Vec<Vec<u8>>>)
    ensures
        packets is Some <==> binary_sendable(
            buffer@,
            filename@,
            chunk_size as nat,
            fec_group_size as nat,
        ),
        packets matches Some(list) ==> {
            let (codec, encoded) = smaller(deflated(buffer@, DEFLATE_LEVEL), buffer@);
            let header = BinaryHeaderView {
                file: described(buffer@, filename@, codec, encoded, chunk_size as nat),
                fec_group_size: fec_group_size as nat,
            };
            &&& packet_views(list@) == binary_packets(header, encoded)
            &&& header.acceptable()
            &&& header.file.describes(encoded, buffer@)
        },
{
    if chunk_size < BINARY_MIN_CHUNK_BYTES || chunk_size > BINARY_MAX_CHUNK_BYTES || !(
    fec_group_size == 0 || fec_group_size == BINARY_GROUP_SIZE) || buffer.len() > MAX_FILE_BYTES
        || !filename_is_valid(filename) {
        return None;
    }
    let (codec, encoded) = binary_compress(buffer)?;
    let digest: [u8; 32] = file_digest(buffer, filename.as_bytes());
    let header: BinaryHeader = binary_header_for(
        buffer,
        filename,
        codec,
        encoded.as_slice(),
        digest,
        chunk_size,
        fec_group_size,
    );
    Some(binary_packets_for(&header, encoded.as_slice()))
}

/// All packets of a file; none if it cannot be sent so.
pub fn prepare_binary_packets(
    buffer: Vec<u8>,
    filename: String,
    chunk_bytes: u32,
    fec_group_size: u32,
) -> (packets: Vec<Vec<u8>>)
    ensures
        ({
            let sent = binary_sendable(
                buffer@,
                filename@,
                chunk_bytes as nat,
                fec_group_size as nat,
            );
            let (codec, encoded) = smaller(deflated(buffer@, DEFLATE_LEVEL), buffer@);
            let header = BinaryHeaderView {
                file: described(buffer@, filename@, codec, encoded, chunk_bytes as nat),
                fec_group_size: fec_group_size as nat,
            };
            &&& sent ==> packet_views(packets@) == binary_packets(header, encoded)
            &&& sent ==> header.acceptable() && header.file.describes(encoded, buffer@)
            &&& !sent ==> packets@.len() == 0
        }),
{
    match build_binary_packets(
        buffer.as_slice(),
        filename.as_str(),
        chunk_bytes as usize,
        fec_group_size as usize,
    ) {
        Some(packets) => packets,
        None => Vec::new(),
    }
}

} // verus!
