//! The fountain transport: its packets and its sender.
//!
//! The chunks of a file are grouped into windows of up to 32. Every chunk is
//! sent as it is; repair packets, as many as the overhead asks for, carry the
//! exclusive or of a pseudo-random selection of the chunks of a window.

use crate::binary::read_digest;
use crate::bytes::{
    be16, be32, be64, copy_range, lemma_be16_read, lemma_be32_read, lemma_be64_read, pad, push_u16,
    push_u32, push_u64, read_u16, read_u32, read_u64, u16_at, u32_at, u64_at, xor_into, zeros,
};
use crate::chars::{filename_is_valid, valid_filename};
use crate::checksum::checksum;
use crate::codec::{deflated, file_digest, string_from_utf8, DEFLATE_LEVEL};
use crate::mask::{fountain_mask, repair_mask};
use crate::solving::mixed;
use crate::store::packet_views;
use crate::transfer::{
    binary_compress, chunk_count, count_chunks, cut, described, lemma_chunk_count, piece, smaller,
    source_chunks, FileView, BINARY_MAX_CHUNK_BYTES, BINARY_MAX_PENDING_PACKETS,
    BINARY_MIN_CHUNK_BYTES, MAX_ENCODED_BYTES, MAX_FILE_BYTES,
};
use crate::window::selects;
use vstd::prelude::*;
use vstd::utf8::*;

verus! {

pub const FOUNTAIN_HEADER_TYPE: u8 = 0;

pub const FOUNTAIN_DATA_TYPE: u8 = 1;

pub const FOUNTAIN_REPAIR_TYPE: u8 = 2;

/// The bytes of a header before the file name.
pub const FOUNTAIN_HEADER_FIXED_BYTES: usize = 68;

/// The bytes of a data packet before the payload.
pub const FOUNTAIN_DATA_FIXED_BYTES: usize = 16;

/// The bytes of a repair packet before the payload.
pub const FOUNTAIN_REPAIR_FIXED_BYTES: usize = 18;

/// The most chunks in a window.
pub const FOUNTAIN_WINDOW_SIZE: usize = 32;

/// The largest overhead that may be asked for, in percent.
pub const FOUNTAIN_MAX_OVERHEAD_PERCENT: usize = 50;

/// The letters `TNF` that every packet begins with.
pub open spec fn fountain_magic() -> Seq<u8> {
    seq![0x54u8, 0x4eu8, 0x46u8]
}

/// What a header says: the file, the overhead, and how many repair packets there
/// are.
pub struct FountainHeaderView {
    pub file: FileView,
    pub overhead_percent: nat,
    pub repair_packets: nat,
}

impl FountainHeaderView {
    /// What a receiver asks of a header.
    pub open spec fn acceptable(self) -> bool {
        &&& self.file.acceptable()
        &&& self.file.digest.len() == 32
        &&& self.overhead_percent <= FOUNTAIN_MAX_OVERHEAD_PERCENT
        &&& self.repair_packets <= BINARY_MAX_PENDING_PACKETS
    }
}

/// How many windows hold `count` chunks.
pub open spec fn window_count(count: nat) -> nat {
    (count + FOUNTAIN_WINDOW_SIZE - 1) as nat / FOUNTAIN_WINDOW_SIZE as nat
}

/// How many of `count` chunks a window holds.
pub open spec fn window_width(count: nat, window: nat) -> nat {
    if window * FOUNTAIN_WINDOW_SIZE >= count {
        0
    } else if count - window * FOUNTAIN_WINDOW_SIZE < FOUNTAIN_WINDOW_SIZE {
        (count - window * FOUNTAIN_WINDOW_SIZE) as nat
    } else {
        FOUNTAIN_WINDOW_SIZE as nat
    }
}

/// How many repair packets a window of `width` chunks gets: the overhead, rounded
/// up, but one at least unless the overhead is zero.
pub open spec fn repair_count(width: nat, overhead_percent: nat) -> nat {
    let wanted = (width * overhead_percent + 99) as nat / 100;
    if overhead_percent == 0 {
        0
    } else if wanted < 1 {
        1
    } else {
        wanted
    }
}

/// How many repair packets the first `windows` windows get.
pub open spec fn repairs_below(count: nat, overhead_percent: nat, windows: nat) -> nat
    decreases windows,
{
    if windows == 0 {
        0
    } else {
        repairs_below(count, overhead_percent, (windows - 1) as nat) + repair_count(
            window_width(count, (windows - 1) as nat),
            overhead_percent,
        )
    }
}

/// The chunks of a window.
pub open spec fn window_source(encoded: Seq<u8>, chunk: nat, window: nat) -> Seq<Seq<u8>> {
    let chunks = source_chunks(encoded, chunk);
    let start = (window * FOUNTAIN_WINDOW_SIZE) as int;
    chunks.subrange(start, start + window_width(chunks.len(), window))
}

/// The bytes of a header packet.
pub open spec fn fountain_header_bytes(header: FountainHeaderView) -> Seq<u8> {
    let name = encode_utf8(header.file.filename);
    fountain_magic() + seq![
        FOUNTAIN_HEADER_TYPE,
        header.file.codec,
        FOUNTAIN_WINDOW_SIZE as u8,
        0u8,
    ] + be64(header.file.checksum as nat) + header.file.digest + be32(header.file.file_size) + be32(
        header.file.compressed_size,
    ) + be16(header.file.chunk_size) + be32(header.file.data_packets) + seq![
        header.overhead_percent as u8,
    ] + be32(header.repair_packets) + be16(name.len()) + name
}

/// The bytes of a data packet.
pub open spec fn fountain_data_bytes(sum: u64, index: nat, payload: Seq<u8>) -> Seq<u8> {
    fountain_magic() + seq![FOUNTAIN_DATA_TYPE] + be64(sum as nat) + be32(index) + payload
}

/// The bytes of a repair packet.
pub open spec fn fountain_repair_bytes(
    sum: u64,
    window: nat,
    mask: u32,
    payload: Seq<u8>,
) -> Seq<u8> {
    fountain_magic() + seq![FOUNTAIN_REPAIR_TYPE] + be64(sum as nat) + be16(window) + be32(
        mask as nat,
    ) + payload
}

/// The data packet at an index.
pub open spec fn fountain_data_packet(
    header: FountainHeaderView,
    encoded: Seq<u8>,
    index: nat,
) -> Seq<u8> {
    fountain_data_bytes(
        header.file.checksum,
        index,
        piece(encoded, header.file.chunk_size, index),
    )
}

/// The mask of a repair packet.
pub open spec fn packet_mask(header: FountainHeaderView, window: nat, repair: nat) -> u32 {
    repair_mask(
        (header.file.checksum as u32) ^ (window as u32),
        window_width(header.file.data_packets, window),
        repair as u32,
    )
}

/// A repair packet of a window.
pub open spec fn fountain_repair_packet(
    header: FountainHeaderView,
    encoded: Seq<u8>,
    window: nat,
    repair: nat,
) -> Seq<u8> {
    let mask = packet_mask(header, window, repair);
    fountain_repair_bytes(
        header.file.checksum,
        window,
        mask,
        mixed(
            window_source(encoded, header.file.chunk_size, window),
            mask,
            0,
            window_width(header.file.data_packets, window),
            header.file.chunk_size,
        ),
    )
}

/// The repair packets of one window.
pub open spec fn window_repairs(
    header: FountainHeaderView,
    encoded: Seq<u8>,
    window: nat,
) -> Seq<Seq<u8>> {
    Seq::new(
        repair_count(
            window_width(header.file.data_packets, window),
            header.overhead_percent,
        ),
        |r: int| fountain_repair_packet(header, encoded, window, r as nat),
    )
}

/// The repair packets of the first `windows` windows.
pub open spec fn repair_packets_below(
    header: FountainHeaderView,
    encoded: Seq<u8>,
    windows: nat,
) -> Seq<Seq<u8>>
    decreases windows,
{
    if windows == 0 {
        Seq::empty()
    } else {
        repair_packets_below(header, encoded, (windows - 1) as nat) + window_repairs(
            header,
            encoded,
            (windows - 1) as nat,
        )
    }
}

/// All packets of a transfer: the header, the data packets, the repair packets.
pub open spec fn fountain_packets(header: FountainHeaderView, encoded: Seq<u8>) -> Seq<Seq<u8>> {
    seq![fountain_header_bytes(header)] + Seq::new(
        header.file.data_packets,
        |i: int| fountain_data_packet(header, encoded, i as nat),
    ) + repair_packets_below(header, encoded, window_count(header.file.data_packets))
}

/// What a sender accepts.
pub open spec fn fountain_sendable(
    file: Seq<u8>,
    filename: Seq<char>,
    chunk_size: nat,
    overhead_percent: nat,
) -> bool {
    &&& BINARY_MIN_CHUNK_BYTES <= chunk_size <= BINARY_MAX_CHUNK_BYTES
    &&& overhead_percent <= FOUNTAIN_MAX_OVERHEAD_PERCENT
    &&& file.len() <= MAX_FILE_BYTES
    &&& valid_filename(filename)
}

/// The header of a file as a sender makes it.
pub open spec fn fountain_header(file: FileView, overhead_percent: nat) -> FountainHeaderView {
    FountainHeaderView {
        file,
        overhead_percent,
        repair_packets: repairs_below(
            file.data_packets,
            overhead_percent,
            window_count(file.data_packets),
        ),
    }
}

/// The header that a packet carries, if it is an acceptable header.
pub open spec fn parsed_fountain_header(packet: Seq<u8>) -> Option<FountainHeaderView> {
    if packet.len() < FOUNTAIN_HEADER_FIXED_BYTES || packet.take(3) != fountain_magic() || packet[3]
        != FOUNTAIN_HEADER_TYPE || packet[5] != FOUNTAIN_WINDOW_SIZE {
        None
    } else {
        let name_end = FOUNTAIN_HEADER_FIXED_BYTES + u16_at(packet, 66);
        if name_end > packet.len() {
            None
        } else {
            let name = packet.subrange(FOUNTAIN_HEADER_FIXED_BYTES as int, name_end);
            let header = FountainHeaderView {
                file: FileView {
                    codec: packet[4],
                    checksum: u64_at(packet, 7) as u64,
                    digest: packet.subrange(15, 47),
                    file_size: u32_at(packet, 47),
                    compressed_size: u32_at(packet, 51),
                    chunk_size: u16_at(packet, 55),
                    data_packets: u32_at(packet, 57),
                    filename: decode_utf8(name),
                },
                overhead_percent: packet[61] as nat,
                repair_packets: u32_at(packet, 62),
            };
            if valid_utf8(name) && header.acceptable() {
                Some(header)
            } else {
                None
            }
        }
    }
}

// ---------------------------------------------------------------------------
// Reading back

/// A header that is written is read back as it was.
pub proof fn law_fountain_header_round_trip(header: FountainHeaderView)
    requires
        header.acceptable(),
    ensures
        parsed_fountain_header(fountain_header_bytes(header)) == Some(header),
        fountain_header_bytes(header).len() >= FOUNTAIN_HEADER_FIXED_BYTES,
        fountain_header_bytes(header).take(3) == fountain_magic(),
        fountain_header_bytes(header)[3] == FOUNTAIN_HEADER_TYPE,
{
    let file = header.file;
    let name = encode_utf8(file.filename);
    let packet = fountain_header_bytes(header);
    encode_utf8_valid_utf8(file.filename);
    encode_utf8_decode_utf8(file.filename);
    assert(packet.len() == 68 + name.len());
    assert(packet.take(3) =~= fountain_magic());
    assert(packet.subrange(7, 15) =~= be64(file.checksum as nat));
    assert(packet.subrange(15, 47) =~= file.digest);
    assert(packet.subrange(47, 51) =~= be32(file.file_size));
    assert(packet.subrange(51, 55) =~= be32(file.compressed_size));
    assert(packet.subrange(55, 57) =~= be16(file.chunk_size));
    assert(packet.subrange(57, 61) =~= be32(file.data_packets));
    assert(packet.subrange(62, 66) =~= be32(header.repair_packets));
    assert(packet.subrange(66, 68) =~= be16(name.len()));
    assert(packet.subrange(68, (68 + name.len()) as int) =~= name);
    lemma_be64_read(packet, 7, file.checksum as nat);
    lemma_be32_read(packet, 47, file.file_size);
    lemma_be32_read(packet, 51, file.compressed_size);
    lemma_be16_read(packet, 55, file.chunk_size);
    lemma_be32_read(packet, 57, file.data_packets);
    lemma_be32_read(packet, 62, header.repair_packets);
    lemma_be16_read(packet, 66, name.len());
}

/// The fields of a data packet are read back as they were written.
pub proof fn lemma_fountain_data_read(sum: u64, index: nat, payload: Seq<u8>)
    requires
        index < 0x1_0000_0000,
    ensures
        ({
            let packet = fountain_data_bytes(sum, index, payload);
            &&& packet.len() == FOUNTAIN_DATA_FIXED_BYTES + payload.len()
            &&& packet.take(3) == fountain_magic()
            &&& packet[3] == FOUNTAIN_DATA_TYPE
            &&& u64_at(packet, 4) == sum
            &&& u32_at(packet, 12) == index
            &&& packet.skip(FOUNTAIN_DATA_FIXED_BYTES as int) == payload
        }),
{
    let packet = fountain_data_bytes(sum, index, payload);
    assert(packet.take(3) =~= fountain_magic());
    assert(packet.subrange(4, 12) =~= be64(sum as nat));
    assert(packet.subrange(12, 16) =~= be32(index));
    assert(packet.skip(16) =~= payload);
    lemma_be64_read(packet, 4, sum as nat);
    lemma_be32_read(packet, 12, index);
}

/// The fields of a repair packet are read back as they were written.
pub proof fn lemma_fountain_repair_read(sum: u64, window: nat, mask: u32, payload: Seq<u8>)
    requires
        window < 0x1_0000,
    ensures
        ({
            let packet = fountain_repair_bytes(sum, window, mask, payload);
            &&& packet.len() == FOUNTAIN_REPAIR_FIXED_BYTES + payload.len()
            &&& packet.take(3) == fountain_magic()
            &&& packet[3] == FOUNTAIN_REPAIR_TYPE
            &&& u64_at(packet, 4) == sum
            &&& u16_at(packet, 12) == window
            &&& u32_at(packet, 14) == mask
            &&& packet.skip(FOUNTAIN_REPAIR_FIXED_BYTES as int) == payload
        }),
{
    let packet = fountain_repair_bytes(sum, window, mask, payload);
    assert(packet.take(3) =~= fountain_magic());
    assert(packet.subrange(4, 12) =~= be64(sum as nat));
    assert(packet.subrange(12, 14) =~= be16(window));
    assert(packet.subrange(14, 18) =~= be32(mask as nat));
    assert(packet.skip(18) =~= payload);
    lemma_be64_read(packet, 4, sum as nat);
    lemma_be16_read(packet, 12, window);
    lemma_be32_read(packet, 14, mask as nat);
}

/// A window gets the overhead that was asked for, rounded up to whole packets: no
/// fewer repair packets, and not one more. Without overhead there are none.
pub proof fn law_windows_get_their_overhead(width: nat, overhead_percent: nat)
    requires
        1 <= width,
    ensures
        100 * repair_count(width, overhead_percent) >= width * overhead_percent,
        overhead_percent > 0 ==> 100 * (repair_count(width, overhead_percent) - 1) < width
            * overhead_percent,
        overhead_percent == 0 ==> repair_count(width, overhead_percent) == 0,
{
    assert(overhead_percent > 0 ==> width * overhead_percent >= 1) by (nonlinear_arith)
        requires
            width >= 1,
    ;
    assert(overhead_percent == 0 ==> width * overhead_percent == 0) by (nonlinear_arith);
}

/// The windows share the chunks out, thirty-two to each but the last: the chunk at an
/// index stands in the window of that number of full windows before it, at the place
/// that is left over, and no window holds anything else.
pub proof fn law_windows_share_the_chunks(count: nat, index: nat)
    ensures
        index < count <==> index / 32 < window_count(count) && index % 32 < window_width(
            count,
            index / 32,
        ),
        window_width(count, index / 32) <= 32,
        index / 32 + 1 < window_count(count) ==> window_width(count, index / 32) == 32,
        index / 32 < window_count(count) <==> window_width(count, index / 32) > 0,
{
}

/// The repair packets of the windows add up to what a header announces.
pub proof fn law_repairs_add_up(file: FileView, overhead_percent: nat, windows: nat)
    ensures
        repairs_below(file.data_packets, overhead_percent, 0) == 0,
        repairs_below(file.data_packets, overhead_percent, windows + 1) == repairs_below(
            file.data_packets,
            overhead_percent,
            windows,
        ) + repair_count(window_width(file.data_packets, windows), overhead_percent),
        fountain_header(file, overhead_percent).repair_packets == repairs_below(
            file.data_packets,
            overhead_percent,
            (file.data_packets + 31) as nat / 32,
        ),
{
}

/// The repair packets that a sender announces make up the overhead of the whole file,
/// and exceed it by less than one packet for each window.
pub proof fn law_announced_repairs_meet_the_overhead(count: nat, overhead_percent: nat)
    ensures
        ({
            let announced = repairs_below(count, overhead_percent, window_count(count));
            &&& 100 * announced >= count * overhead_percent
            &&& overhead_percent > 0 && count > 0 ==> 100 * announced < count * overhead_percent
                + 100 * ((count + 31) / 32)
            &&& overhead_percent == 0 ==> announced == 0
        }),
{
    lemma_repairs_meet_overhead(count, overhead_percent, window_count(count));
    let windows = window_count(count);
    assert(chunks_below(count, windows) == count);
}

/// How many of `count` chunks the first `windows` windows hold.
spec fn chunks_below(count: nat, windows: nat) -> nat {
    if windows * 32 < count {
        windows * 32
    } else {
        count
    }
}

proof fn lemma_repairs_meet_overhead(count: nat, overhead_percent: nat, windows: nat)
    requires
        windows <= window_count(count),
    ensures
        100 * repairs_below(count, overhead_percent, windows) >= chunks_below(count, windows)
            * overhead_percent,
        overhead_percent > 0 && windows > 0 ==> 100 * repairs_below(
            count,
            overhead_percent,
            windows,
        ) < chunks_below(count, windows) * overhead_percent + 100 * windows,
        overhead_percent == 0 ==> repairs_below(count, overhead_percent, windows) == 0,
    decreases windows,
{
    if windows == 0 {
        assert(chunks_below(count, 0) == 0);
        assert(0 * overhead_percent == 0) by (nonlinear_arith);
    } else {
        let last = (windows - 1) as nat;
        let width = window_width(count, last);
        lemma_repairs_meet_overhead(count, overhead_percent, last);
        law_windows_get_their_overhead(width, overhead_percent);
        let before = chunks_below(count, last);
        assert(chunks_below(count, windows) == before + width);
        assert((before + width) * overhead_percent == before * overhead_percent + width
            * overhead_percent) by (nonlinear_arith);
        if last == 0 {
            assert(0 * overhead_percent == 0) by (nonlinear_arith);
        }
    }
}

/// A window gets few repair packets.
proof fn lemma_repair_count(width: nat, overhead_percent: nat)
    requires
        width <= FOUNTAIN_WINDOW_SIZE,
        overhead_percent <= FOUNTAIN_MAX_OVERHEAD_PERCENT,
    ensures
        width * overhead_percent <= 1_600,
        repair_count(width, overhead_percent) <= 16,
{
    assert(width * overhead_percent <= 1_600) by (nonlinear_arith)
        requires
            width <= 32,
            overhead_percent <= 50,
    ;
}

// ---------------------------------------------------------------------------
// Executable headers

/// The header of a fountain transfer.
#[derive(Debug)]
pub struct FountainHeader {
    pub codec: u8,
    pub checksum: u64,
    pub digest: [u8; 32],
    pub file_size: usize,
    pub compressed_size: usize,
    pub chunk_size: usize,
    pub data_packets: usize,
    pub overhead_percent: usize,
    pub repair_packets: usize,
    pub filename: String,
}

impl View for FountainHeader {
    type V = FountainHeaderView;

    open spec fn view(&self) -> FountainHeaderView {
        FountainHeaderView {
            file: FileView {
                codec: self.codec,
                checksum: self.checksum,
                digest: self.digest@,
                file_size: self.file_size as nat,
                compressed_size: self.compressed_size as nat,
                chunk_size: self.chunk_size as nat,
                data_packets: self.data_packets as nat,
                filename: self.filename@,
            },
            overhead_percent: self.overhead_percent as nat,
            repair_packets: self.repair_packets as nat,
        }
    }
}

/// Whether a packet begins with the letters of this transport.
pub fn has_fountain_magic(packet: &[u8]) -> (yes: bool)
    requires
        packet@.len() >= 3,
    ensures
        yes == (packet@.take(3) == fountain_magic()),
{
    let ghost start = packet@.take(3);
    assert(start[0] == packet@[0] && start[1] == packet@[1] && start[2] == packet@[2]);
    let yes: bool = packet[0] == 0x54 && packet[1] == 0x4e && packet[2] == 0x46;
    if yes {
        assert(start =~= fountain_magic());
    }
    yes
}

/// The bytes of a header packet.
pub fn fountain_header_packet(header: &FountainHeader) -> (packet: Vec<u8>)
    ensures
        packet@ == fountain_header_bytes(header@),
{
    let name: &[u8] = header.filename.as_str().as_bytes();
    let mut packet: Vec<u8> = Vec::new();
    packet.push(0x54);
    packet.push(0x4e);
    packet.push(0x46);
    packet.push(FOUNTAIN_HEADER_TYPE);
    packet.push(header.codec);
    packet.push(FOUNTAIN_WINDOW_SIZE as u8);
    packet.push(0);
    push_u64(&mut packet, header.checksum);
    packet.extend_from_slice(header.digest.as_slice());
    push_u32(&mut packet, header.file_size);
    push_u32(&mut packet, header.compressed_size);
    push_u16(&mut packet, header.chunk_size);
    push_u32(&mut packet, header.data_packets);
    packet.push(header.overhead_percent as u8);
    push_u32(&mut packet, header.repair_packets);
    push_u16(&mut packet, name.len());
    packet.extend_from_slice(name);
    assert(packet@ =~= fountain_header_bytes(header@));
    packet
}

/// Reads a header packet.
pub fn parse_fountain_header(packet: &[u8]) -> (header: Option<FountainHeader>)
    ensures
        header is Some <==> parsed_fountain_header(packet@) is Some,
        header matches Some(h) ==> parsed_fountain_header(packet@) == Some(h@),
{
    if packet.len() < FOUNTAIN_HEADER_FIXED_BYTES || !has_fountain_magic(packet) || packet[3]
        != FOUNTAIN_HEADER_TYPE {
        return None;
    }
    let codec: u8 = packet[4];
    let window_size: usize = packet[5] as usize;
    let checksum: u64 = read_u64(packet, 7)?;
    let digest: [u8; 32] = read_digest(packet, 15);
    let file_size: usize = read_u32(packet, 47)?;
    let compressed_size: usize = read_u32(packet, 51)?;
    let chunk_size: usize = read_u16(packet, 55)?;
    let data_packets: usize = read_u32(packet, 57)?;
    let overhead_percent: usize = packet[61] as usize;
    let repair_packets: usize = read_u32(packet, 62)?;
    let name_length: usize = read_u16(packet, 66)?;
    let name_end: usize = FOUNTAIN_HEADER_FIXED_BYTES + name_length;
    if name_end > packet.len() {
        return None;
    }
    let filename: String = string_from_utf8(
        copy_range(packet, FOUNTAIN_HEADER_FIXED_BYTES, name_end),
    )?;
    if codec > 1 || window_size != FOUNTAIN_WINDOW_SIZE || overhead_percent
        > FOUNTAIN_MAX_OVERHEAD_PERCENT || chunk_size < BINARY_MIN_CHUNK_BYTES || chunk_size
        > BINARY_MAX_CHUNK_BYTES || data_packets == 0 || data_packets > BINARY_MAX_PENDING_PACKETS
        || file_size > MAX_FILE_BYTES || compressed_size > MAX_ENCODED_BYTES || repair_packets
        > BINARY_MAX_PENDING_PACKETS || !filename_is_valid(filename.as_str()) {
        return None;
    }
    if data_packets != count_chunks(compressed_size, chunk_size) {
        return None;
    }
    Some(
        FountainHeader {
            codec,
            checksum,
            digest,
            file_size,
            compressed_size,
            chunk_size,
            data_packets,
            overhead_percent,
            repair_packets,
            filename,
        },
    )
}

// ---------------------------------------------------------------------------
// The sender

/// How many of `count` chunks a window holds.
pub fn width_of_window(count: usize, window: usize) -> (width: usize)
    requires
        window * FOUNTAIN_WINDOW_SIZE <= usize::MAX,
    ensures
        width == window_width(count as nat, window as nat),
{
    let start: usize = window * FOUNTAIN_WINDOW_SIZE;
    if start >= count {
        0
    } else if count - start < FOUNTAIN_WINDOW_SIZE {
        count - start
    } else {
        FOUNTAIN_WINDOW_SIZE
    }
}

/// How many repair packets a window gets.
pub fn repairs_for_width(width: usize, overhead_percent: usize) -> (count: usize)
    requires
        width <= FOUNTAIN_WINDOW_SIZE,
        overhead_percent <= FOUNTAIN_MAX_OVERHEAD_PERCENT,
    ensures
        count == repair_count(width as nat, overhead_percent as nat),
        count <= 16,
{
    proof {
        lemma_repair_count(width as nat, overhead_percent as nat);
    }
    if overhead_percent == 0 {
        return 0;
    }
    let wanted: usize = (width * overhead_percent + 99) / 100;
    if wanted < 1 {
        1
    } else {
        wanted
    }
}

/// How many repair packets a transfer has.
pub fn count_repairs(data_packets: usize, overhead_percent: usize) -> (count: usize)
    requires
        data_packets <= BINARY_MAX_PENDING_PACKETS,
        overhead_percent <= FOUNTAIN_MAX_OVERHEAD_PERCENT,
    ensures
        count == repairs_below(
            data_packets as nat,
            overhead_percent as nat,
            window_count(data_packets as nat),
        ),
        count <= 16 * window_count(data_packets as nat),
{
    let windows: usize = (data_packets + (FOUNTAIN_WINDOW_SIZE - 1)) / FOUNTAIN_WINDOW_SIZE;
    let mut count: usize = 0;
    let mut window: usize = 0;
    while window < windows
        invariant
            window <= windows <= 313,
            data_packets <= BINARY_MAX_PENDING_PACKETS,
            overhead_percent <= FOUNTAIN_MAX_OVERHEAD_PERCENT,
            count == repairs_below(data_packets as nat, overhead_percent as nat, window as nat),
            count <= 16 * window,
        decreases windows - window,
    {
        count = count + repairs_for_width(
            width_of_window(data_packets, window),
            overhead_percent,
        );
        window = window + 1;
    }
    count
}

/// The header of a file whose encoding and digest are known.
pub fn fountain_header_for(
    buffer: &[u8],
    filename: &str,
    codec: u8,
    encoded: &[u8],
    digest: [u8; 32],
    chunk_size: usize,
    overhead_percent: usize,
) -> (header: FountainHeader)
    requires
        fountain_sendable(buffer@, filename@, chunk_size as nat, overhead_percent as nat),
        codec <= 1,
        encoded@.len() <= buffer@.len(),
    ensures
        header@.acceptable(),
        header@ == fountain_header(
            (FileView {
                digest: digest@,
                ..described(buffer@, filename@, codec, encoded@, chunk_size as nat)
            }),
            overhead_percent as nat,
        ),
{
    let data_packets: usize = count_chunks(encoded.len(), chunk_size);
    proof {
        lemma_chunk_count(encoded@.len(), chunk_size as nat);
        let count = data_packets as int;
        assert((count - 1) * 400 <= (count - 1) * chunk_size) by (nonlinear_arith)
            requires
                count >= 1,
                chunk_size >= 400,
        ;
    }
    FountainHeader {
        codec,
        checksum: checksum(buffer, filename.as_bytes()),
        digest,
        file_size: buffer.len(),
        compressed_size: encoded.len(),
        chunk_size,
        data_packets,
        overhead_percent,
        repair_packets: count_repairs(data_packets, overhead_percent),
        filename: filename.to_owned(),
    }
}

/// A data packet.
fn data_packet(sum: u64, index: usize, payload: &[u8]) -> (packet: Vec<u8>)
    ensures
        packet@ == fountain_data_bytes(sum, index as nat, payload@),
{
    let mut packet: Vec<u8> = Vec::new();
    packet.push(0x54);
    packet.push(0x4e);
    packet.push(0x46);
    packet.push(FOUNTAIN_DATA_TYPE);
    push_u64(&mut packet, sum);
    push_u32(&mut packet, index);
    packet.extend_from_slice(payload);
    assert(packet@ =~= fountain_data_bytes(sum, index as nat, payload@));
    packet
}

/// A repair packet.
fn repair_packet(sum: u64, window: usize, mask: u32, payload: &[u8]) -> (packet: Vec<u8>)
    ensures
        packet@ == fountain_repair_bytes(sum, window as nat, mask, payload@),
{
    let mut packet: Vec<u8> = Vec::new();
    packet.push(0x54);
    packet.push(0x4e);
    packet.push(0x46);
    packet.push(FOUNTAIN_REPAIR_TYPE);
    push_u64(&mut packet, sum);
    push_u16(&mut packet, window);
    push_u32(&mut packet, mask as usize);
    packet.extend_from_slice(payload);
    assert(packet@ =~= fountain_repair_bytes(sum, window as nat, mask, payload@));
    packet
}

/// The exclusive or of the chunks of a window that a mask selects.
fn mix_window(
    encoded: &[u8],
    chunk_size: usize,
    start: usize,
    width: usize,
    mask: u32,
    Ghost(source): Ghost<Seq<Seq<u8>>>,
) -> (payload: Vec<u8>)
    requires
        0 < chunk_size <= BINARY_MAX_CHUNK_BYTES,
        width <= FOUNTAIN_WINDOW_SIZE,
        start + width <= chunk_count(encoded@.len(), chunk_size as nat)
            <= BINARY_MAX_PENDING_PACKETS,
        source == source_chunks(encoded@, chunk_size as nat).subrange(
            start as int,
            start + width,
        ),
    ensures
        payload@ == mixed(source, mask, 0, width as nat, chunk_size as nat),
{
    let mut payload: Vec<u8> = pad(&[], chunk_size);
    assert(payload@ =~= zeros(chunk_size as nat));
    let mut local: usize = 0;
    while local < width
        invariant
            local <= width <= FOUNTAIN_WINDOW_SIZE,
            0 < chunk_size <= BINARY_MAX_CHUNK_BYTES,
            start + width <= chunk_count(encoded@.len(), chunk_size as nat)
                <= BINARY_MAX_PENDING_PACKETS,
            source == source_chunks(encoded@, chunk_size as nat).subrange(
                start as int,
                start + width,
            ),
            payload@ == mixed(source, mask, 0, local as nat, chunk_size as nat),
        decreases width - local,
    {
        if selects(mask, local) {
            let index: usize = start + local;
            assert(index * chunk_size <= 10_000 * 1_800) by (nonlinear_arith)
                requires
                    index <= 10_000,
                    chunk_size <= 1_800,
            ;
            let chunk: Vec<u8> = pad(cut(encoded, chunk_size, index).as_slice(), chunk_size);
            assert(chunk@ == source[local as int]);
            xor_into(&mut payload, chunk.as_slice());
        }
        local = local + 1;
    }
    payload
}

/// Appends the repair packets of one window.
fn push_window_repairs(
    packets: &mut Vec<Vec<u8>>,
    header: &FountainHeader,
    encoded: &[u8],
    window: usize,
)
    requires
        header@.acceptable(),
        header.compressed_size == encoded@.len(),
        window < window_count(header@.file.data_packets),
    ensures
        packet_views(final(packets)@) == packet_views(old(packets)@) + window_repairs(
            header@,
            encoded@,
            window as nat,
        ),
{
    let start: usize = window * FOUNTAIN_WINDOW_SIZE;
    let width: usize = width_of_window(header.data_packets, window);
    let count: usize = repairs_for_width(width, header.overhead_percent);
    let ghost source = window_source(encoded@, header.chunk_size as nat, window as nat);
    let ghost list = window_repairs(header@, encoded@, window as nat);
    let ghost before = packet_views(packets@);
    let mut repair: usize = 0;
    assert(before + list.take(0) =~= before);
    while repair < count
        invariant
            repair <= count <= 16,
            count == list.len(),
            header@.acceptable(),
            header.compressed_size == encoded@.len(),
            window < window_count(header@.file.data_packets),
            start == window * FOUNTAIN_WINDOW_SIZE,
            width == window_width(header@.file.data_packets, window as nat),
            1 <= width <= FOUNTAIN_WINDOW_SIZE,
            start + width <= header.data_packets,
            source == window_source(encoded@, header.chunk_size as nat, window as nat),
            list == window_repairs(header@, encoded@, window as nat),
            packet_views(packets@) == before + list.take(repair as int),
        decreases count - repair,
    {
        let seed: u32 = (header.checksum as u32) ^ (window as u32);
        let mask: u32 = fountain_mask(seed, width, repair);
        assert(mask == packet_mask(header@, window as nat, repair as nat));
        let payload: Vec<u8> = mix_window(
            encoded,
            header.chunk_size,
            start,
            width,
            mask,
            Ghost(source),
        );
        let packet: Vec<u8> = repair_packet(header.checksum, window, mask, payload.as_slice());
        assert(packet@ == list[repair as int]);
        let ghost held = packets@;
        packets.push(packet);
        assert(packet_views(packets@) =~= packet_views(held).push(packet@));
        repair = repair + 1;
        assert(packet_views(packets@) =~= before + list.take(repair as int));
    }
    assert(list.take(count as int) =~= list);
}

/// All packets of a transfer whose header and encoded file are known.
pub fn fountain_packets_for(header: &FountainHeader, encoded: &[u8]) -> (packets: Vec<Vec<u8>>)
    requires
        header@.acceptable(),
        header.compressed_size == encoded@.len(),
    ensures
        packet_views(packets@) == fountain_packets(header@, encoded@),
{
    let mut packets: Vec<Vec<u8>> = Vec::new();
    packets.push(fountain_header_packet(header));
    let ghost data = Seq::new(
        header@.file.data_packets,
        |i: int| fountain_data_packet(header@, encoded@, i as nat),
    );
    let ghost first = seq![fountain_header_bytes(header@)];
    assert(packet_views(packets@) =~= first + data.take(0));
    let mut index: usize = 0;
    while index < header.data_packets
        invariant
            index <= header.data_packets,
            header@.acceptable(),
            data == Seq::new(
                header@.file.data_packets,
                |i: int| fountain_data_packet(header@, encoded@, i as nat),
            ),
            packet_views(packets@) == first + data.take(index as int),
        decreases header.data_packets - index,
    {
        assert(index * header.chunk_size <= 10_000 * 1_800) by (nonlinear_arith)
            requires
                index <= 10_000,
                header.chunk_size <= 1_800,
        ;
        let part: Vec<u8> = cut(encoded, header.chunk_size, index);
        let packet: Vec<u8> = data_packet(header.checksum, index, part.as_slice());
        let ghost held = packets@;
        packets.push(packet);
        assert(packet_views(packets@) =~= packet_views(held).push(packet@));
        index = index + 1;
        assert(packet_views(packets@) =~= first + data.take(index as int));
    }
    assert(data.take(header.data_packets as int) =~= data);
    let windows: usize = (header.data_packets + (FOUNTAIN_WINDOW_SIZE - 1)) / FOUNTAIN_WINDOW_SIZE;
    let mut window: usize = 0;
    assert(packet_views(packets@) =~= first + data + repair_packets_below(header@, encoded@, 0));
    while window < windows
        invariant
            window <= windows == window_count(header@.file.data_packets),
            header@.acceptable(),
            header.compressed_size == encoded@.len(),
            packet_views(packets@) == first + data + repair_packets_below(
                header@,
                encoded@,
                window as nat,
            ),
        decreases windows - window,
    {
        push_window_repairs(&mut packets, header, encoded, window);
        window = window + 1;
        assert(packet_views(packets@) =~= first + data + repair_packets_below(
            header@,
            encoded@,
            window as nat,
        ));
    }
    packets
}

/// All packets of a file, or `None` if it cannot be sent so.
pub fn build_fountain_packets(
    buffer: &[u8],
    filename: &str,
    chunk_size: usize,
    overhead_percent: usize,
) -> (packets: Option<Vec<Vec<u8>>>)
    ensures
        packets is Some <==> fountain_sendable(
            buffer@,
            filename@,
            chunk_size as nat,
            overhead_percent as nat,
        ),
        packets matches Some(list) ==> {
            let (codec, encoded) = smaller(deflated(buffer@, DEFLATE_LEVEL), buffer@);
            let header = fountain_header(
                described(buffer@, filename@, codec, encoded, chunk_size as nat),
                overhead_percent as nat,
            );
            &&& packet_views(list@) == fountain_packets(header, encoded)
            &&& header.acceptable()
            &&& header.file.describes(encoded, buffer@)
        },
{
    if chunk_size < BINARY_MIN_CHUNK_BYTES || chunk_size > BINARY_MAX_CHUNK_BYTES
        || overhead_percent > FOUNTAIN_MAX_OVERHEAD_PERCENT || buffer.len() > MAX_FILE_BYTES
        || !filename_is_valid(filename) {
        return None;
    }
    let (codec, encoded) = binary_compress(buffer)?;
    let digest: [u8; 32] = file_digest(buffer, filename.as_bytes());
    let header: FountainHeader = fountain_header_for(
        buffer,
        filename,
        codec,
        encoded.as_slice(),
        digest,
        chunk_size,
        overhead_percent,
    );
    Some(fountain_packets_for(&header, encoded.as_slice()))
}

/// All packets of a file; none if it cannot be sent so.
pub fn prepare_fountain_packets(
    buffer: Vec<u8>,
    filename: String,
    chunk_bytes: u32,
    overhead_percent: u32,
) -> (packets: Vec<Vec<u8>>)
    ensures
        ({
            let sent = fountain_sendable(
                buffer@,
                filename@,
                chunk_bytes as nat,
                overhead_percent as nat,
            );
            let (codec, encoded) = smaller(deflated(buffer@, DEFLATE_LEVEL), buffer@);
            let header = fountain_header(
                described(buffer@, filename@, codec, encoded, chunk_bytes as nat),
                overhead_percent as nat,
            );
            &&& sent ==> packet_views(packets@) == fountain_packets(header, encoded)
            &&& sent ==> header.acceptable() && header.file.describes(encoded, buffer@)
            &&& !sent ==> packets@.len() == 0
        }),
{
    match build_fountain_packets(
        buffer.as_slice(),
        filename.as_str(),
        chunk_bytes as usize,
        overhead_percent as usize,
    ) {
        Some(packets) => packets,
        None => Vec::new(),
    }
}

} // verus!
